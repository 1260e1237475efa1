//! Who works on which sheet: the registry behind the list of participants
//! that the users of a sheet are told.

use std::collections::HashMap;
use vstd::prelude::*;

verus! {

/// The sheet of each connected user.
#[derive(Debug)]
pub struct Presence {
    user_to_sheet: HashMap<i32, i32>,
}

impl View for Presence {
    type V = Map<i32, i32>;

    closed spec fn view(&self) -> Map<i32, i32> {
        self.user_to_sheet@
    }
}

/// The users that work on a sheet.
pub open spec fn participants(seats: Map<i32, i32>, sheet_id: i32) -> Set<i32> {
    Set::new(|user_id: i32| seats.contains_key(user_id) && seats[user_id] == sheet_id)
}

/// The keys of a map, each once.
fn keys(map: &HashMap<i32, i32>) -> (list: Vec<i32>)
    ensures
        list@.no_duplicates(),
        forall|k: i32| list@.contains(k) <==> map@.contains_key(k),
{
    broadcast use vstd::std_specs::hash::group_hash_axioms;
    let mut list: Vec<i32> = Vec::new();
    for k in it: map.keys()
        invariant
            list@.len() == it.index(),
            forall|i: int| 0 <= i < list@.len() ==> list@[i] == *it.seq()[i],
            it.seq().unref().to_set() == map@.dom(),
            it.seq().no_duplicates(),
        ensures
            list@ =~= it.seq().unref(),
    {
        list.push(*k);
    }
    assert forall|k: i32| list@.contains(k) <==> map@.contains_key(k) by {
        assert(list@.to_set().contains(k) <==> list@.contains(k));
    }
    list
}

impl Presence {
    /// A registry without users.
    pub fn new() -> (p: Presence)
        ensures
            p@ == Map::<i32, i32>::empty(),
    {
        Presence { user_to_sheet: HashMap::new() }
    }

    /// Seats a user at a sheet. A user who worked on another sheet leaves
    /// that one.
    pub fn connect(&mut self, user_id: i32, sheet_id: i32)
        ensures
            final(self)@ == old(self)@.insert(user_id, sheet_id),
    {
        broadcast use vstd::std_specs::hash::group_hash_axioms;
        self.user_to_sheet.insert(user_id, sheet_id);
    }

    /// Takes a user off their sheet and returns that sheet, `None` for a
    /// user who was not connected.
    pub fn disconnect(&mut self, user_id: i32) -> (sheet_id: Option<i32>)
        ensures
            final(self)@ == old(self)@.remove(user_id),
            sheet_id == if old(self)@.contains_key(user_id) {
                Some(old(self)@[user_id])
            } else {
                None::<i32>
            },
    {
        broadcast use vstd::std_specs::hash::group_hash_axioms;
        self.user_to_sheet.remove(&user_id)
    }

    /// The sheet that a user works on.
    pub fn sheet_of(&self, user_id: i32) -> (sheet_id: Option<i32>)
        ensures
            sheet_id == if self@.contains_key(user_id) {
                Some(self@[user_id])
            } else {
                None::<i32>
            },
    {
        broadcast use vstd::std_specs::hash::group_hash_axioms;
        match self.user_to_sheet.get(&user_id) {
            Some(sheet_id) => Some(*sheet_id),
            None => None,
        }
    }

    /// The users that work on a sheet, each once.
    pub fn participants(&self, sheet_id: i32) -> (ids: Vec<i32>)
        ensures
            ids@.no_duplicates(),
            forall|user_id: i32|
                ids@.contains(user_id) <==> participants(self@, sheet_id).contains(user_id),
    {
        broadcast use vstd::std_specs::hash::group_hash_axioms;
        let users = keys(&self.user_to_sheet);
        let mut ids: Vec<i32> = Vec::new();
        let mut i: usize = 0;
        while i < users.len()
            invariant
                i <= users.len(),
                users@.no_duplicates(),
                forall|k: i32| users@.contains(k) <==> self@.contains_key(k),
                ids@.no_duplicates(),
                forall|u: i32|
                    ids@.contains(u) <==> (exists|k: int| 0 <= k < i && users@[k] == u) && self@[u]
                        == sheet_id,
            decreases users.len() - i,
        {
            let user_id = users[i];
            assert(users@.contains(user_id));
            let ghost before = ids@;
            let seated = match self.user_to_sheet.get(&user_id) {
                Some(seat) => *seat == sheet_id,
                None => false,
            };
            if seated {
                ids.push(user_id);
            }
            proof {
                assert forall|u: i32|
                    ids@.contains(u) <==> (exists|k: int| 0 <= k < i + 1 && users@[k] == u)
                        && self@[u] == sheet_id by {
                    if before.contains(u) {
                        let k = choose|k: int| 0 <= k < i && users@[k] == u;
                        assert(0 <= k < i + 1 && users@[k] == u);
                        let j = choose|j: int| 0 <= j < before.len() && before[j] == u;
                        assert(ids@[j] == u);
                    }
                    if u == user_id {
                        assert(0 <= i < i + 1 && users@[i as int] == u);
                        if seated {
                            assert(ids@[before.len() as int] == u);
                        }
                    }
                    if ids@.contains(u) && !before.contains(u) {
                        let j = choose|j: int| 0 <= j < ids@.len() && ids@[j] == u;
                        if j < before.len() {
                            assert(before[j] == u);
                        }
                    }
                    if (exists|k: int| 0 <= k < i + 1 && users@[k] == u) && u != user_id {
                        let k = choose|k: int| 0 <= k < i + 1 && users@[k] == u;
                        assert(k < i);
                    }
                }
                assert(ids@.no_duplicates()) by {
                    if seated {
                        assert(!before.contains(user_id)) by {
                            if before.contains(user_id) {
                                let k = choose|k: int| 0 <= k < i && users@[k] == user_id;
                            }
                        }
                        assert forall|a: int, b: int|
                            0 <= a < ids@.len() && 0 <= b < ids@.len() && a != b implies ids@[a]
                            != ids@[b] by {
                            if a < before.len() && b < before.len() {
                            } else if a < before.len() {
                                assert(before.contains(before[a]));
                            } else if b < before.len() {
                                assert(before.contains(before[b]));
                            }
                        }
                    }
                }
            }
            i += 1;
        }
        proof {
            assert forall|u: i32| ids@.contains(u) <==> participants(self@, sheet_id).contains(
                u,
            ) by {
                if participants(self@, sheet_id).contains(u) {
                    assert(users@.contains(u));
                    let k = choose|k: int| 0 <= k < users@.len() && users@[k] == u;
                    assert(0 <= k < i && users@[k] == u);
                }
                if ids@.contains(u) {
                    let k = choose|k: int| 0 <= k < i && users@[k] == u;
                    assert(users@.contains(u));
                }
            }
        }
        ids
    }
}

} // verus!
