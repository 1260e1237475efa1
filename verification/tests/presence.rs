use spreadsheet::presence::Presence;

fn sorted(mut ids: Vec<i32>) -> Vec<i32> {
    ids.sort();
    ids
}

#[test]
fn users_are_listed_with_their_sheet() {
    let mut presence = Presence::new();
    presence.connect(7, 1);
    presence.connect(8, 1);
    presence.connect(9, 2);
    assert_eq!(sorted(presence.participants(1)), vec![7, 8]);
    assert_eq!(sorted(presence.participants(2)), vec![9]);
    assert!(presence.participants(3).is_empty());
    assert_eq!(presence.sheet_of(9), Some(2));
    assert_eq!(presence.sheet_of(10), None);
}

#[test]
fn a_user_who_leaves_is_no_longer_listed() {
    let mut presence = Presence::new();
    presence.connect(7, 1);
    presence.connect(8, 1);
    assert_eq!(presence.disconnect(7), Some(1));
    assert_eq!(presence.participants(1), vec![8]);
    assert_eq!(presence.disconnect(7), None);
    assert_eq!(presence.disconnect(8), Some(1));
    assert!(presence.participants(1).is_empty());
}

#[test]
fn a_user_works_on_one_sheet_at_a_time() {
    let mut presence = Presence::new();
    presence.connect(7, 1);
    presence.connect(7, 2);
    assert!(presence.participants(1).is_empty());
    assert_eq!(presence.participants(2), vec![7]);
}
