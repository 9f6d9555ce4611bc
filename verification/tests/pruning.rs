use canvas_ui::util::pruning::settle;
use canvas_ui::util::pruning::Outcome;

#[test]
fn test_settle_keeps_a_kept_entry() {
    let mut entries = vec!['a', 'b', 'c'];
    assert_eq!(2, settle(&mut entries, 1, Outcome::Kept));
    assert_eq!(vec!['a', 'b', 'c'], entries);
}

#[test]
fn test_settle_removes_a_dead_entry_in_place() {
    let mut entries = vec!['a', 'b', 'c'];
    assert_eq!(1, settle(&mut entries, 1, Outcome::Dead));
    assert_eq!(vec!['a', 'c'], entries);
}

#[test]
fn test_settle_removes_an_entry_on_request() {
    let mut entries = vec!['a', 'b', 'c'];
    assert_eq!(0, settle(&mut entries, 0, Outcome::Removed));
    assert_eq!(vec!['b', 'c'], entries);
    assert_eq!(1, settle(&mut entries, 1, Outcome::Removed));
    assert_eq!(vec!['b'], entries);
}

#[test]
fn test_settle_drops_what_it_removes_at_once() {
    let marker = std::rc::Rc::new(());
    let mut entries = vec![std::rc::Rc::clone(&marker), std::rc::Rc::clone(&marker)];
    assert_eq!(3, std::rc::Rc::strong_count(&marker));
    settle(&mut entries, 0, Outcome::Dead);
    assert_eq!(2, std::rc::Rc::strong_count(&marker));
    settle(&mut entries, 0, Outcome::Kept);
    assert_eq!(2, std::rc::Rc::strong_count(&marker));
}

#[test]
fn test_settling_every_entry_leaves_the_kept_in_order() {
    let mut entries = vec![1, 2, 3, 4, 5];
    let outcomes =
        [Outcome::Kept, Outcome::Dead, Outcome::Kept, Outcome::Removed, Outcome::Kept];
    let mut at = 0;
    for outcome in outcomes {
        at = settle(&mut entries, at, outcome);
    }
    assert_eq!(3, at);
    assert_eq!(vec![1, 3, 5], entries);
}

#[test]
fn test_outcomes_compare_by_variant() {
    assert_eq!(Outcome::Kept, Outcome::Kept);
    assert_ne!(Outcome::Kept, Outcome::Dead);
    assert_ne!(Outcome::Removed, Outcome::Dead);
}
