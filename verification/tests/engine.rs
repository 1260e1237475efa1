use spreadsheet::expr::ExprResult;
use spreadsheet::number::Number;
use spreadsheet::{SetError, Spreadsheet};

fn num(x: f64) -> ExprResult {
    ExprResult::Num(Number::from_bits(x.to_bits()))
}

fn text(s: &str) -> ExprResult {
    ExprResult::Text(s.to_string())
}

/// Everything that a grid holds, with the edges in ascending order.
fn snapshot(ss: &Spreadsheet) -> Vec<(String, String, String, Vec<usize>, Vec<usize>)> {
    ss.cells()
        .iter()
        .map(|cell| {
            let mut outbound = cell.outbound();
            outbound.sort();
            let mut inbound = cell.inbound();
            inbound.sort();
            (
                cell.raw().to_string(),
                format!("{:?}", cell.expr()),
                format!("{:?}", cell.out()),
                outbound,
                inbound,
            )
        })
        .collect()
}

/// A grid with numbers, formulas, a text, a parse error and a refused cycle.
fn busy_grid() -> Spreadsheet {
    let mut ss = Spreadsheet::new(4, 4);
    ss.set(0, 0, "10").unwrap();
    ss.set(0, 1, "=A1*2").unwrap();
    ss.set(1, 0, "=A1*3+B1").unwrap();
    ss.set(1, 1, "=A2*4-(B1+A1)").unwrap();
    ss.set(2, 2, "hello").unwrap();
    ss.set(3, 3, "=1+").unwrap();
    ss.set(2, 0, "=C3+C3").unwrap();
    assert!(ss.set(0, 0, "=B2").is_err());
    ss.set(0, 1, "=A1+Z9").unwrap();
    ss.set(1, 0, "7").unwrap();
    ss
}

#[test]
fn edges_agree_in_both_directions() {
    let ss = busy_grid();
    let cells = ss.cells();
    for i in 0..cells.len() {
        for j in 0..cells.len() {
            assert_eq!(
                cells[i].outbound().contains(&j),
                cells[j].inbound().contains(&i),
                "edge from {} to {}",
                i,
                j
            );
        }
    }
    assert_eq!(cells[5].outbound().len(), 3);
    assert_eq!(cells[4].outbound().len(), 0);
}

#[test]
fn references_form_no_cycle() {
    let ss = busy_grid();
    let cells = ss.cells();
    // Every cell gets a rank above the ranks of the cells that it reads.
    let mut rank: Vec<Option<usize>> = vec![None; cells.len()];
    for _ in 0..cells.len() {
        for i in 0..cells.len() {
            if rank[i].is_none() {
                let reads = cells[i].outbound();
                if reads.iter().all(|j| rank[*j].is_some()) {
                    rank[i] = Some(reads.iter().map(|j| rank[*j].unwrap() + 1).max().unwrap_or(0));
                }
            }
        }
    }
    assert!(rank.iter().all(|r| r.is_some()));
}

#[test]
fn texts_parse_to_the_trees_of_their_cells() {
    let ss = busy_grid();
    for cell in ss.cells() {
        let again = spreadsheet::expr::ExprTree::new(cell.raw());
        assert_eq!(format!("{:?}", again), format!("{:?}", cell.expr()));
        assert_eq!(again.eval(&ss), *cell.out());
    }
}

#[test]
fn set_accepts_text() {
    let mut ss = Spreadsheet::default();
    ss.set(0, 0, "test").unwrap();
    assert_eq!(*ss.get(0, 0).out(), text("test"));
}

#[test]
fn set_parse_fails_formula_with_text_addition() {
    let mut ss = Spreadsheet::default();
    ss.set(0, 0, "=test+test").unwrap();
    match *ss.get(0, 0).out() {
        ExprResult::Error(_) => (),
        _ => panic!("expected parse error"),
    };
}

#[test]
fn set_evals_formula_with_numbers() {
    let mut ss = Spreadsheet::default();
    ss.set(0, 0, "=1+2*10-2").unwrap();
    assert_eq!(*ss.get(0, 0).out(), num(19.));
    ss.set(0, 1, "=1+-(1+2*10)").unwrap();
    assert_eq!(*ss.get(0, 1).out(), num(-20.));
}

#[test]
fn set_evals_formula_with_num_ref() {
    let mut ss = Spreadsheet::default();
    ss.set(0, 0, "1").unwrap();
    ss.set(0, 1, "2").unwrap();
    ss.set(1, 0, "3").unwrap();
    ss.set(1, 1, "4").unwrap();
    ss.set(2, 2, "=A1+A2+B1+B2").unwrap();
    assert_eq!(*ss.get(2, 2).out(), num(10.));
}

#[test]
fn set_evals_formula_with_text_ref() {
    let mut ss = Spreadsheet::default();
    ss.set(0, 0, "a").unwrap();
    ss.set(0, 1, "=A1").unwrap();
    assert_eq!(*ss.get(0, 1).out(), text("a"));
}

#[test]
fn set_evals_fails_formula_with_text_addition() {
    let mut ss = Spreadsheet::default();
    ss.set(0, 0, "a").unwrap();
    ss.set(0, 1, "=A1+1").unwrap();
    assert_eq!(
        *ss.get(0, 1).out(),
        ExprResult::Error("can't add Text with Num".to_string())
    );
}

#[test]
fn set_detects_ref_cycle() {
    let mut ss = Spreadsheet::default();
    ss.set(0, 0, "=A2").unwrap();
    ss.set(1, 0, "=B1").unwrap();
    let before = snapshot(&ss);
    assert_eq!(ss.set(0, 1, "=A1").unwrap_err(), SetError::CycleDetected);
    assert_eq!(snapshot(&ss), before);
    let cells = ss.cells();
    assert_eq!(cells[1].raw(), "");
    assert_eq!(*cells[1].out(), text(""));
    assert_eq!(cells[0].raw(), "=A2");
    assert_eq!(cells[26].raw(), "=B1");
    // The grid still works as before the refused update.
    ss.set(0, 1, "5").unwrap();
    assert_eq!(*ss.get(0, 0).out(), num(5.));
    assert_eq!(*ss.get(1, 0).out(), num(5.));
}

#[test]
fn self_reference_is_a_cycle() {
    let mut ss = Spreadsheet::default();
    assert_eq!(ss.set(0, 0, "=A1").unwrap_err(), SetError::CycleDetected);
    assert_eq!(ss.set(0, 0, "=1+A1*2").unwrap_err(), SetError::CycleDetected);
    assert_eq!(*ss.get(0, 0).out(), text(""));
    assert_eq!(ss.get(0, 0).raw(), "");
}

#[test]
fn set_works_when_multiple_cells_ref_same_cell() {
    let mut ss = Spreadsheet::default();
    ss.set(0, 0, "1").unwrap();
    ss.set(0, 1, "=A1*10").unwrap();
    ss.set(1, 1, "=A1+B1").unwrap();
    assert_eq!(*ss.get(1, 1).out(), num(11.));
}

#[test]
fn set_evals_all_inbound() {
    let mut ss = Spreadsheet::default();
    ss.set(0, 0, "10").unwrap();
    ss.set(0, 1, "=A1*2").unwrap();
    ss.set(1, 0, "=A1*3").unwrap();
    ss.set(1, 1, "=A2*4").unwrap();

    ss.set(0, 0, "1").unwrap();
    assert_eq!(*ss.get(0, 0).out(), num(1.));
    assert_eq!(*ss.get(0, 1).out(), num(2.));
    assert_eq!(*ss.get(1, 0).out(), num(3.));
    assert_eq!(*ss.get(1, 1).out(), num(12.));
}

#[test]
fn set_returns_all_updated() {
    let mut ss = Spreadsheet::default();
    ss.set(0, 0, "10").unwrap();
    ss.set(0, 1, "=A1*2").unwrap();
    ss.set(1, 0, "=A1*3").unwrap();
    ss.set(1, 1, "=A2*4").unwrap();

    let updates = ss.set(0, 0, "1").unwrap();
    assert_eq!(updates.len(), 4);
    let idx1 = ss.get_index(0, 0);
    assert_eq!(*updates.get(&idx1).unwrap().out(), num(1.));
    let idx2 = ss.get_index(0, 1);
    assert_eq!(*updates.get(&idx2).unwrap().out(), num(2.));
    let idx3 = ss.get_index(1, 0);
    assert_eq!(*updates.get(&idx3).unwrap().out(), num(3.));
    let idx4 = ss.get_index(1, 1);
    assert_eq!(*updates.get(&idx4).unwrap().out(), num(12.));
}

#[test]
fn diamond_is_evaluated_after_both_of_its_sides() {
    // X reads Y and Z, and both read W.
    let mut ss = Spreadsheet::new(4, 1);
    ss.set(0, 0, "1").unwrap();
    ss.set(0, 1, "=A1+1").unwrap();
    ss.set(0, 2, "=A1*10").unwrap();
    ss.set(0, 3, "=B1+C1").unwrap();
    assert_eq!(*ss.get(0, 3).out(), num(12.));
    let updates = ss.set(0, 0, "2").unwrap();
    assert_eq!(*ss.get(0, 1).out(), num(3.));
    assert_eq!(*ss.get(0, 2).out(), num(20.));
    assert_eq!(*ss.get(0, 3).out(), num(23.));
    assert_eq!(updates.len(), 4);
}

#[test]
fn long_chains_are_evaluated_in_order() {
    let mut ss = Spreadsheet::new(1, 200);
    for row in (1..200).rev() {
        ss.set(row, 0, &format!("=A{}+1", row)).unwrap();
    }
    ss.set(0, 0, "1").unwrap();
    assert_eq!(*ss.get(199, 0).out(), num(200.));
    let updates = ss.set(0, 0, "5").unwrap();
    assert_eq!(updates.len(), 200);
    assert_eq!(*ss.get(199, 0).out(), num(204.));
}

#[test]
fn bounds_are_checked() {
    let mut ss = Spreadsheet::default();
    assert_eq!(ss.width(), 26);
    assert_eq!(ss.height(), 100);
    assert!(ss.set(99, 25, "1").is_ok());
    assert_eq!(ss.set(100, 0, "1").unwrap_err(), SetError::OutOfBounds);
    assert_eq!(ss.set(0, 26, "1").unwrap_err(), SetError::OutOfBounds);
    assert_eq!(ss.get_index(99, 25), 2599);
    assert_eq!(ss.get_index(1, 0), 26);
    assert_eq!(ss.cells().len(), 2600);
}

#[test]
fn empty_text_gives_an_empty_cell() {
    let mut ss = Spreadsheet::default();
    ss.set(0, 0, "7").unwrap();
    let updates = ss.set(0, 0, "").unwrap();
    assert_eq!(*ss.get(0, 0).out(), text(""));
    assert_eq!(ss.get(0, 0).raw(), "");
    assert_eq!(updates.len(), 1);
}

#[test]
fn setting_the_same_text_again_changes_nothing() {
    let mut ss = Spreadsheet::default();
    ss.set(0, 0, "10").unwrap();
    ss.set(0, 1, "=A1*2").unwrap();
    let first = ss.set(0, 0, "3").unwrap();
    assert_eq!(first.len(), 2);
    let again = ss.set(0, 0, "3").unwrap();
    assert!(again.is_empty());
    assert_eq!(*ss.get(0, 1).out(), num(6.));
    // A NaN is the same value as itself.
    ss.set(2, 0, "=0/0").unwrap();
    assert!(ss.set(2, 0, "=0/0").unwrap().is_empty());
}

#[test]
fn only_changed_values_are_reported() {
    let mut ss = Spreadsheet::default();
    ss.set(0, 0, "2").unwrap();
    ss.set(0, 1, "=A1*0").unwrap();
    ss.set(0, 2, "=B1+1").unwrap();
    let updates = ss.set(0, 0, "3").unwrap();
    // B1 stays 0 and C1 stays 1.
    assert_eq!(updates.len(), 1);
    assert!(updates.contains_key(&0));
    let updates = ss.set(0, 0, "3.0").unwrap();
    assert!(updates.is_empty());
    assert_eq!(ss.get(0, 0).raw(), "3.0");
}

#[test]
fn errors_propagate_to_dependents() {
    let mut ss = Spreadsheet::default();
    ss.set(0, 0, "=1+").unwrap();
    assert_eq!(
        *ss.get(0, 0).out(),
        ExprResult::Error("expected input to be empty".to_string())
    );
    ss.set(0, 1, "=A1+1").unwrap();
    assert_eq!(
        *ss.get(0, 1).out(),
        ExprResult::Error("can't add Error with Num".to_string())
    );
    ss.set(0, 0, "4").unwrap();
    assert_eq!(*ss.get(0, 1).out(), num(5.));
}

#[test]
fn replaced_references_are_forgotten() {
    let mut ss = Spreadsheet::default();
    ss.set(0, 0, "1").unwrap();
    ss.set(0, 1, "=A1").unwrap();
    ss.set(0, 1, "9").unwrap();
    let updates = ss.set(0, 0, "2").unwrap();
    assert_eq!(updates.len(), 1);
    assert_eq!(*ss.get(0, 1).out(), num(9.));
    // B1 no longer reads A1, so A1 may read B1.
    ss.set(0, 0, "=B1").unwrap();
    assert_eq!(*ss.get(0, 0).out(), num(9.));
}

#[test]
fn references_outside_the_grid_give_errors_in_place() {
    let mut ss = Spreadsheet::new(2, 2);
    ss.set(0, 0, "=C1").unwrap();
    assert_eq!(
        *ss.get(0, 0).out(),
        ExprResult::Error("reference outside the grid".to_string())
    );
    ss.set(0, 0, "=A3").unwrap();
    assert!(matches!(*ss.get(0, 0).out(), ExprResult::Error(_)));
}

/// Whether the grid meets what holds between two updates: the edges agree,
/// the references have a ranking, and every value is what its tree gives.
fn well_formed(ss: &Spreadsheet) -> bool {
    let cells = ss.cells();
    let n = cells.len();
    for i in 0..n {
        for j in cells[i].outbound() {
            if !cells[j].inbound().contains(&i) {
                return false;
            }
        }
        for j in cells[i].inbound() {
            if !cells[j].outbound().contains(&i) {
                return false;
            }
        }
        if cells[i].expr().eval(ss) != *cells[i].out() {
            return false;
        }
        let again = spreadsheet::expr::ExprTree::new(cells[i].raw());
        if format!("{:?}", again) != format!("{:?}", cells[i].expr()) {
            return false;
        }
    }
    let mut ranked = vec![false; n];
    for _ in 0..n {
        for i in 0..n {
            if !ranked[i] && cells[i].outbound().iter().all(|j| ranked[*j]) {
                ranked[i] = true;
            }
        }
    }
    ranked.iter().all(|r| *r)
}

#[test]
fn many_updates_keep_the_grid_well_formed() {
    let mut seed: u64 = 0x2545F4914F6CDD1D;
    let mut next = move |bound: u64| {
        seed ^= seed << 13;
        seed ^= seed >> 7;
        seed ^= seed << 17;
        seed % bound
    };
    let mut ss = Spreadsheet::new(4, 4);
    let names = ["A", "B", "C", "D"];
    let mut accepted = 0;
    let mut refused = 0;
    for _ in 0..300 {
        let row = next(4) as usize;
        let col = next(4) as usize;
        let first = format!("{}{}", names[next(4) as usize], next(4) + 1);
        let second = format!("{}{}", names[next(4) as usize], next(4) + 1);
        let raw = match next(6) {
            0 => format!("{}", next(100)),
            1 => format!("={}+{}", first, second),
            2 => format!("={}*2-{}/{}", first, second, next(3)),
            3 => format!("=-({}+1)*{}", first, second),
            4 => "word".to_string(),
            _ => format!("={}", first),
        };
        let before = snapshot(&ss);
        let outs: Vec<String> = before.iter().map(|c| c.2.clone()).collect();
        match ss.set(row, col, &raw) {
            Ok(changes) => {
                accepted += 1;
                let after = snapshot(&ss);
                for i in 0..after.len() {
                    assert_eq!(changes.contains_key(&i), after[i].2 != outs[i]);
                }
                assert_eq!(ss.get(row, col).raw(), raw);
                assert!(ss.set(row, col, &raw).unwrap().is_empty());
            }
            Err(e) => {
                refused += 1;
                assert_eq!(e, SetError::CycleDetected);
                assert_eq!(snapshot(&ss), before);
            }
        }
        assert!(well_formed(&ss));
    }
    assert!(accepted > 50);
    assert!(refused > 10);
}
