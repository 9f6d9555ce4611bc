use canvas_ui::util::pruning::Outcome;
use canvas_ui::util::weak_vec::visit_borrowed;
use canvas_ui::util::weak_vec::visit_borrowed_mut;
use canvas_ui::util::weak_vec::visit_borrowed_mut_with;
use canvas_ui::util::weak_vec::visit_borrowed_with;
use canvas_ui::util::weak_vec::visit_cell;
use canvas_ui::util::weak_vec::visit_cell_with;
use canvas_ui::util::weak_vec::visit_value;
use canvas_ui::util::weak_vec::visit_value_mut;
use canvas_ui::util::weak_vec::visit_value_mut_with;
use canvas_ui::util::weak_vec::visit_value_with;
use canvas_ui::util::BorrowConflict;
use canvas_ui::util::WeakCell;
use canvas_ui::util::WeakMetaHandle;
use canvas_ui::util::WeakMetaVec;
use canvas_ui::util::WeakVec;
use std::cell::RefCell;
use std::rc::Rc;

#[test]
fn test_for_each() {
    let mut vec = WeakVec::new();

    let persistent1 = Rc::new(RefCell::new(1));
    let vanish1 = Rc::new(RefCell::new(2));
    let persistent2 = Rc::new(RefCell::new(4));
    let vanish2 = Rc::new(RefCell::new(8));

    vec.push(WeakCell::downgrade(&persistent1));
    vec.push(WeakCell::downgrade(&vanish1));
    vec.push(WeakCell::downgrade(&persistent2));
    vec.push(WeakCell::downgrade(&vanish2));

    let mut sum = 0;
    vec.for_each(|number| {
        sum += number;
    });
    assert_eq!(15, sum);

    drop(vanish1);
    drop(vanish2);

    let mut sum = 0;
    vec.for_each(|number| {
        sum += number;
    });
    assert_eq!(5, sum);
}

#[test]
fn test_for_each_mut() {
    let mut vec = WeakVec::with_capacity(2);

    let persistent1 = Rc::new(RefCell::new("a".to_string()));
    let vanish1 = Rc::new(RefCell::new("b".to_string()));
    let persistent2 = Rc::new(RefCell::new("c".to_string()));
    let vanish2 = Rc::new(RefCell::new("d".to_string()));

    vec.push(WeakCell::downgrade(&persistent1));
    vec.push(WeakCell::downgrade(&vanish1));
    vec.push(WeakCell::downgrade(&persistent2));
    vec.push(WeakCell::downgrade(&vanish2));

    let mut test_string = String::new();
    vec.for_each_mut(|text| {
        text.push('e');
        test_string.push_str(text);
    });
    assert_eq!("aebecede".to_string(), test_string);

    drop(vanish1);
    drop(vanish2);

    let mut test_string = String::new();
    vec.for_each_mut(|text| {
        text.push('e');
        test_string.push_str(text);
    });
    assert_eq!("aeecee".to_string(), test_string);
}

#[test]
fn test_meta_for_each() {
    let mut vec = WeakMetaVec::new();

    let persistent1 = Rc::new(RefCell::new(1));
    let vanish1 = Rc::new(RefCell::new(2));
    let persistent2 = Rc::new(RefCell::new(4));
    let vanish2 = Rc::new(RefCell::new(8));

    vec.push(WeakCell::downgrade(&persistent1), 3);
    vec.push(WeakCell::downgrade(&vanish1), 4);
    vec.push(WeakCell::downgrade(&persistent2), 6);
    vec.push(WeakCell::downgrade(&vanish2), 10);

    let mut sum = 0;
    vec.for_each(|number, meta| {
        sum += number;
        assert_eq!(*meta, number + 2);
    });
    assert_eq!(15, sum);

    drop(vanish1);
    drop(vanish2);

    let mut sum = 0;
    vec.for_each(|number, meta| {
        sum += number;
        assert_eq!(*meta, number + 2);
    });
    assert_eq!(5, sum);
}

#[test]
fn test_meta_for_each_mut() {
    let mut vec = WeakMetaVec::with_capacity(2);

    let persistent1 = Rc::new(RefCell::new("a".to_string()));
    let vanish1 = Rc::new(RefCell::new("b".to_string()));
    let persistent2 = Rc::new(RefCell::new("c".to_string()));
    let vanish2 = Rc::new(RefCell::new("d".to_string()));

    vec.push(WeakCell::downgrade(&persistent1), 'a');
    vec.push(WeakCell::downgrade(&vanish1), 'b');
    vec.push(WeakCell::downgrade(&persistent2), 'c');
    vec.push(WeakCell::downgrade(&vanish2), 'd');

    let mut test_string = String::new();
    vec.for_each_mut(|text, first| {
        text.push('e');
        assert_eq!(*first, text.chars().next().unwrap());
        test_string.push_str(text);
    });
    assert_eq!("aebecede".to_string(), test_string);

    let mut test_string = String::new();
    vec.for_each_mut(|text, first| {
        text.push('e');
        assert_eq!(*first, text.chars().next().unwrap());
        test_string.push_str(text);
    });
    assert_eq!("aeebeeceedee".to_string(), test_string);

    drop(vanish1);
    drop(vanish2);

    let mut test_string = String::new();
    vec.for_each_mut(|text, first| {
        text.push('e');
        assert_eq!(*first, text.chars().next().unwrap());
        test_string.push_str(text);
    });
    assert_eq!("aeeeceee".to_string(), test_string);
}

fn shared(value: i32) -> Rc<RefCell<i32>> {
    Rc::new(RefCell::new(value))
}

#[test]
fn test_empty_registries() {
    let mut vec: WeakVec<i32> = WeakVec::new();
    let mut visits = 0;
    vec.for_each(|_| visits += 1);
    vec.for_each_mut(|_| visits += 1);
    vec.for_each_cell(|_| {
        visits += 1;
        false
    });
    assert_eq!(0, visits);

    let mut meta: WeakMetaVec<i32, char> = WeakMetaVec::with_capacity(4);
    meta.for_each(|_, _| visits += 1);
    meta.for_each_mut(|_, _| visits += 1);
    meta.for_each_cell(|_, _| {
        visits += 1;
        false
    });
    assert_eq!(0, visits);
    assert_eq!(0, meta.vec.len());
}

#[test]
fn test_every_pass_visits_the_living_once_in_order() {
    let cells: Vec<Rc<RefCell<i32>>> = (1..=5).map(shared).collect();
    let mut plain = WeakVec::new();
    let mut shared_pass = WeakVec::new();
    let mut cell_pass = WeakVec::new();
    for cell in &cells {
        plain.push(WeakCell::downgrade(cell));
        shared_pass.push(WeakCell::downgrade(cell));
        cell_pass.push(WeakCell::downgrade(cell));
    }
    let mut cells = cells;
    drop(cells.remove(3));
    drop(cells.remove(1));

    for _ in 0..3 {
        let mut seen = Vec::new();
        plain.for_each(|number| seen.push(*number));
        assert_eq!(vec![1, 3, 5], seen);

        let mut seen = Vec::new();
        shared_pass.for_each_mut(|number| seen.push(*number));
        assert_eq!(vec![1, 3, 5], seen);

        let mut seen = Vec::new();
        cell_pass.for_each_cell(|cell| {
            seen.push(*cell.borrow());
            false
        });
        assert_eq!(vec![1, 3, 5], seen);
    }
}

#[test]
fn test_for_each_cell_removes_on_request() {
    let cells: Vec<Rc<RefCell<i32>>> = (1..=5).map(shared).collect();
    let mut vec = WeakVec::new();
    for cell in &cells {
        vec.push(WeakCell::downgrade(cell));
    }

    let mut seen = Vec::new();
    vec.for_each_cell(|cell| {
        seen.push(*cell.borrow());
        *cell.borrow() == 3
    });
    assert_eq!(vec![1, 2, 3, 4, 5], seen);

    for _ in 0..2 {
        let mut seen = Vec::new();
        vec.for_each(|number| seen.push(*number));
        assert_eq!(vec![1, 2, 4, 5], seen);
    }
    // the cell itself is alive and well
    assert_eq!(3, *cells[2].borrow());
}

#[test]
fn test_for_each_mut_changes_the_cells() {
    let first = shared(1);
    let second = shared(2);
    let mut vec = WeakVec::new();
    vec.push(WeakCell::downgrade(&first));
    vec.push(WeakCell::downgrade(&second));
    vec.for_each_mut(|number| *number *= 10);
    assert_eq!(10, *first.borrow());
    assert_eq!(20, *second.borrow());
}

#[test]
fn test_two_handles_to_one_cell() {
    let cell = shared(1);
    let mut vec = WeakVec::new();
    vec.push(WeakCell::downgrade(&cell));
    vec.push(WeakCell::downgrade(&cell));
    vec.for_each_mut(|number| *number += 1);
    assert_eq!(3, *cell.borrow());
    drop(cell);
    let mut visits = 0;
    vec.for_each(|_| visits += 1);
    assert_eq!(0, visits);
}

#[test]
fn test_cell_destroyed_during_the_pass() {
    let first = shared(1);
    let second = shared(2);
    let third = shared(3);
    let mut vec = WeakVec::new();
    vec.push(WeakCell::downgrade(&first));
    vec.push(WeakCell::downgrade(&second));
    vec.push(WeakCell::downgrade(&third));

    // The visitor of the first cell destroys the third cell, which is then
    // gone when the pass comes to it.
    let mut doomed = Some(third);
    let mut seen = Vec::new();
    vec.for_each(|number| {
        seen.push(*number);
        doomed.take();
    });
    assert_eq!(vec![1, 2], seen);

    // A cell that loses its last holder after it was handed out is still
    // visited in that pass.
    let mut holder = Some(second);
    let mut seen = Vec::new();
    vec.for_each_cell(|cell| {
        if *cell.borrow() == 2 {
            holder.take();
        }
        seen.push(*cell.borrow());
        false
    });
    assert_eq!(vec![1, 2], seen);

    let mut seen = Vec::new();
    vec.for_each(|number| seen.push(*number));
    assert_eq!(vec![1], seen);
}

#[test]
fn test_metadata_stays_with_its_handle() {
    let cells: Vec<Rc<RefCell<i32>>> = (1..=6).map(shared).collect();
    let mut vec = WeakMetaVec::new();
    for cell in &cells {
        let metadata = *cell.borrow() * 100;
        vec.push(WeakCell::downgrade(cell), metadata);
    }
    assert_eq!(6, vec.vec.len());
    assert_eq!(300, vec.vec[2].metadata);

    let mut cells = cells;
    drop(cells.remove(4));
    drop(cells.remove(0));

    let mut seen = Vec::new();
    vec.for_each(|number, metadata| seen.push((*number, *metadata)));
    assert_eq!(vec![(2, 200), (3, 300), (4, 400), (6, 600)], seen);
    assert_eq!(4, vec.vec.len());

    // the entry of 3 leaves on request, the others get their metadata changed
    let mut seen = Vec::new();
    vec.for_each_cell(|cell, metadata| {
        seen.push((*cell.borrow(), *metadata));
        *metadata += *cell.borrow();
        *cell.borrow() == 3
    });
    assert_eq!(vec![(2, 200), (3, 300), (4, 400), (6, 600)], seen);

    drop(cells.remove(0));
    for _ in 0..2 {
        let mut seen = Vec::new();
        vec.for_each(|number, metadata| seen.push((*number, *metadata)));
        assert_eq!(vec![(4, 404), (6, 606)], seen);
    }

    vec.for_each_mut(|number, metadata| {
        *number += 1;
        *metadata += 1;
    });
    let mut seen = Vec::new();
    vec.for_each(|number, metadata| seen.push((*number, *metadata)));
    assert_eq!(vec![(5, 405), (7, 607)], seen);
    assert_eq!(2, vec.vec.len());
    assert_eq!(607, vec.vec[1].metadata);
}

#[test]
fn test_metadata_outlives_the_cell_until_the_next_pass() {
    let cell = shared(1);
    let marker = Rc::new(());
    let mut vec = WeakMetaVec::new();
    vec.push(WeakCell::downgrade(&cell), Rc::clone(&marker));
    assert_eq!(2, Rc::strong_count(&marker));
    drop(cell);
    assert_eq!(2, Rc::strong_count(&marker));
    vec.for_each(|_, _| {});
    assert_eq!(1, Rc::strong_count(&marker));
}

#[test]
fn test_registry_does_not_keep_cells_alive() {
    let cell = shared(1);
    let mut vec = WeakVec::new();
    vec.push(WeakCell::downgrade(&cell));
    assert_eq!(1, Rc::strong_count(&cell));
    vec.for_each(|_| {});
    assert_eq!(1, Rc::strong_count(&cell));
}

#[test]
fn test_passes_report_success() {
    let cell = shared(1);
    let mut vec = WeakVec::new();
    vec.push(WeakCell::downgrade(&cell));
    assert_eq!(Ok(()), vec.for_each(|_| {}));
    assert_eq!(Ok(()), vec.for_each_mut(|_| {}));

    let mut meta = WeakMetaVec::new();
    meta.push(WeakCell::downgrade(&cell), 'x');
    assert_eq!(Ok(()), meta.for_each(|_, _| {}));
    assert_eq!(Ok(()), meta.for_each_mut(|_, _| {}));
}

#[test]
fn test_for_each_ends_at_an_exclusively_borrowed_cell() {
    let cells: Vec<Rc<RefCell<i32>>> = (1..=4).map(shared).collect();
    let mut vec = WeakVec::new();
    for cell in &cells {
        vec.push(WeakCell::downgrade(cell));
    }
    let mut cells = cells;
    drop(cells.remove(0));

    let mut seen = Vec::new();
    {
        let _held = cells[1].borrow_mut();
        let result = vec.for_each(|number| seen.push(*number));
        // the dead entry in front is gone, so the entry of 3 stands second
        assert_eq!(Err(BorrowConflict { position: 1 }), result);
    }
    assert_eq!(vec![2], seen);

    // nothing behind the conflict was touched, and the next pass sees it all
    let mut seen = Vec::new();
    assert_eq!(Ok(()), vec.for_each(|number| seen.push(*number)));
    assert_eq!(vec![2, 3, 4], seen);
}

#[test]
fn test_for_each_shares_a_cell_that_is_borrowed_for_reading() {
    let cell = shared(5);
    let mut vec = WeakVec::new();
    vec.push(WeakCell::downgrade(&cell));
    let _held = cell.borrow();
    let mut sum = 0;
    assert_eq!(Ok(()), vec.for_each(|number| sum += number));
    assert_eq!(5, sum);
}

#[test]
fn test_for_each_mut_ends_at_a_borrowed_cell() {
    let first = shared(1);
    let second = shared(2);
    let third = shared(3);
    let mut vec = WeakVec::new();
    vec.push(WeakCell::downgrade(&first));
    vec.push(WeakCell::downgrade(&second));
    vec.push(WeakCell::downgrade(&third));

    {
        let _held = second.borrow();
        let result = vec.for_each_mut(|number| *number += 10);
        assert_eq!(Err(BorrowConflict { position: 1 }), result);
    }
    assert_eq!(11, *first.borrow());
    assert_eq!(2, *second.borrow());
    assert_eq!(3, *third.borrow());

    assert_eq!(Ok(()), vec.for_each_mut(|number| *number += 10));
    assert_eq!(21, *first.borrow());
    assert_eq!(12, *second.borrow());
    assert_eq!(13, *third.borrow());
}

#[test]
fn test_meta_passes_end_at_a_borrowed_cell() {
    let first = shared(1);
    let second = shared(2);
    let mut vec = WeakMetaVec::new();
    vec.push(WeakCell::downgrade(&first), 10);
    vec.push(WeakCell::downgrade(&second), 20);

    {
        let _held = second.borrow_mut();
        let mut seen = Vec::new();
        let result = vec.for_each(|number, metadata| seen.push((*number, *metadata)));
        assert_eq!(Err(BorrowConflict { position: 1 }), result);
        assert_eq!(vec![(1, 10)], seen);

        let result = vec.for_each_mut(|number, metadata| {
            *number += 1;
            *metadata += 1;
        });
        assert_eq!(Err(BorrowConflict { position: 1 }), result);
    }
    assert_eq!(2, *first.borrow());
    assert_eq!(2, *second.borrow());
    assert_eq!(11, vec.vec[0].metadata);
    assert_eq!(20, vec.vec[1].metadata);
    assert_eq!(2, vec.vec.len());
}

#[test]
fn test_for_each_cell_hands_out_a_borrowed_cell() {
    let cell = shared(1);
    let mut vec = WeakVec::new();
    vec.push(WeakCell::downgrade(&cell));
    let _held = cell.borrow_mut();
    let mut visits = 0;
    vec.for_each_cell(|handed| {
        assert!(handed.try_borrow().is_err());
        visits += 1;
        false
    });
    assert_eq!(1, visits);
}

#[test]
fn test_metadata_of_a_dead_entry_is_dropped_before_the_next_visit() {
    // The metadata of the first entry is the last strong holder of the
    // second cell. The first cell is gone, so its entry is pruned and its
    // metadata dropped, and the pass finds the second entry dead as well.
    let first = shared(1);
    let second = shared(2);
    let third = shared(3);
    let mut vec = WeakMetaVec::new();
    let second_handle = WeakCell::downgrade(&second);
    vec.push(WeakCell::downgrade(&first), Some(second));
    vec.push(second_handle, None);
    vec.push(WeakCell::downgrade(&third), None);
    drop(first);

    let mut seen = Vec::new();
    assert_eq!(Ok(()), vec.for_each(|number, _| seen.push(*number)));
    assert_eq!(vec![3], seen);
    assert_eq!(1, vec.vec.len());
}

#[test]
fn test_entry_removed_on_request_is_dropped_before_the_next_visit() {
    let first = shared(1);
    let second = shared(2);
    let mut vec = WeakMetaVec::new();
    let second_handle = WeakCell::downgrade(&second);
    vec.push(WeakCell::downgrade(&first), Some(second));
    vec.push(second_handle, None);

    let mut seen = Vec::new();
    vec.for_each_cell(|cell, _| {
        seen.push(*cell.borrow());
        true
    });
    assert_eq!(vec![1], seen);
    assert_eq!(0, vec.vec.len());
}

#[test]
fn test_handles_read_from_the_registry_resolve() {
    let alive = shared(7);
    let gone = shared(8);
    let mut vec = WeakMetaVec::new();
    vec.push(WeakCell::downgrade(&alive), "alive");
    vec.push(WeakCell::downgrade(&gone), "gone");
    drop(gone);

    let resolved = vec.vec[0].weak_cell.upgrade().expect("the cell is alive");
    assert!(Rc::ptr_eq(&alive, &resolved));
    assert!(vec.vec[1].weak_cell.upgrade().is_none());
}

#[test]
fn test_visit_cell_settles_by_the_answer() {
    let cell = shared(1);
    let mut handed = Vec::new();
    let mut leave = |given: Rc<RefCell<i32>>| {
        handed.push(Rc::ptr_eq(&given, &cell));
        *given.borrow() > 1
    };
    assert_eq!(Outcome::Dead, visit_cell(None, &mut leave));
    assert_eq!(Outcome::Kept, visit_cell(Some(Rc::clone(&cell)), &mut leave));
    *cell.borrow_mut() = 2;
    assert_eq!(Outcome::Removed, visit_cell(Some(Rc::clone(&cell)), &mut leave));
    assert_eq!(vec![true, true], handed);
}

#[test]
fn test_visit_value_settles_by_cell_and_borrow() {
    let cell = shared(4);
    let mut seen = Vec::new();
    let mut look = |number: &i32| seen.push(*number);
    assert_eq!(Some(Outcome::Dead), visit_value(None, &mut look));
    assert_eq!(Some(Outcome::Kept), visit_value(Some(Rc::clone(&cell)), &mut look));
    {
        let _shared = cell.borrow();
        assert_eq!(Some(Outcome::Kept), visit_value(Some(Rc::clone(&cell)), &mut look));
    }
    {
        let _exclusive = cell.borrow_mut();
        assert_eq!(None, visit_value(Some(Rc::clone(&cell)), &mut look));
    }
    assert_eq!(vec![4, 4], seen);
}

#[test]
fn test_visit_value_mut_settles_by_cell_and_borrow() {
    let cell = shared(4);
    let mut change = |number: &mut i32| *number += 1;
    assert_eq!(Some(Outcome::Dead), visit_value_mut(None, &mut change));
    assert_eq!(Some(Outcome::Kept), visit_value_mut(Some(Rc::clone(&cell)), &mut change));
    {
        let _shared = cell.borrow();
        assert_eq!(None, visit_value_mut(Some(Rc::clone(&cell)), &mut change));
    }
    assert_eq!(5, *cell.borrow());
}

#[test]
fn test_visit_borrowed_visits_exactly_where_the_borrow_was_granted() {
    let cell = shared(9);
    let mut seen = Vec::new();
    let mut look = |number: &i32| seen.push(*number);
    assert_eq!(None, visit_borrowed(None, &mut look));
    assert_eq!(Some(Outcome::Kept), visit_borrowed(cell.try_borrow().ok(), &mut look));
    assert_eq!(vec![9], seen);

    let mut change = |number: &mut i32| *number *= 2;
    assert_eq!(None, visit_borrowed_mut(None, &mut change));
    assert_eq!(Some(Outcome::Kept), visit_borrowed_mut(cell.try_borrow_mut().ok(), &mut change));
    assert_eq!(18, *cell.borrow());
}

#[test]
fn test_visits_with_metadata_use_the_metadata_of_the_entry() {
    let cell = shared(3);
    let mut entry = WeakMetaHandle { weak_cell: WeakCell::downgrade(&cell), metadata: 30 };

    let mut leave = |given: Rc<RefCell<i32>>, metadata: &mut i32| {
        *metadata += *given.borrow();
        *metadata > 35
    };
    assert_eq!(Outcome::Dead, visit_cell_with(None, &mut entry, &mut leave));
    assert_eq!(30, entry.metadata);
    assert_eq!(Outcome::Kept, visit_cell_with(Some(Rc::clone(&cell)), &mut entry, &mut leave));
    assert_eq!(33, entry.metadata);
    assert_eq!(Outcome::Removed, visit_cell_with(Some(Rc::clone(&cell)), &mut entry, &mut leave));
    assert_eq!(36, entry.metadata);

    let mut seen = Vec::new();
    let mut look = |number: &i32, metadata: &i32| seen.push((*number, *metadata));
    assert_eq!(Some(Outcome::Dead), visit_value_with(None, &entry, &mut look));
    assert_eq!(Some(Outcome::Kept), visit_value_with(Some(Rc::clone(&cell)), &entry, &mut look));
    assert_eq!(None, visit_borrowed_with(None, &entry, &mut look));
    assert_eq!(Some(Outcome::Kept), visit_borrowed_with(cell.try_borrow().ok(), &entry, &mut look));
    {
        let _exclusive = cell.borrow_mut();
        assert_eq!(None, visit_value_with(Some(Rc::clone(&cell)), &entry, &mut look));
    }
    assert_eq!(vec![(3, 36), (3, 36)], seen);

    let mut change = |number: &mut i32, metadata: &mut i32| {
        *number += 1;
        *metadata += 1;
    };
    assert_eq!(Some(Outcome::Dead), visit_value_mut_with(None, &mut entry, &mut change));
    assert_eq!(None, visit_borrowed_mut_with(None, &mut entry, &mut change));
    assert_eq!(36, entry.metadata);
    {
        let _shared = cell.borrow();
        assert_eq!(None, visit_value_mut_with(Some(Rc::clone(&cell)), &mut entry, &mut change));
    }
    assert_eq!((3, 36), (*cell.borrow(), entry.metadata));
    assert_eq!(
        Some(Outcome::Kept),
        visit_value_mut_with(Some(Rc::clone(&cell)), &mut entry, &mut change)
    );
    assert_eq!(
        Some(Outcome::Kept),
        visit_borrowed_mut_with(cell.try_borrow_mut().ok(), &mut entry, &mut change)
    );
    assert_eq!((5, 38), (*cell.borrow(), entry.metadata));
}
