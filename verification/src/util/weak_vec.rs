//! Registries of weak handles.
//!
//! A registry holds handles to shared cells without keeping the cells
//! alive. A pass over a registry visits the cells that are still alive, in
//! insertion order, and drops the handles whose cell is gone.
//!
//! Whether a cell is still alive is not known before the pass asks. So the
//! contracts of the passes speak of the [`Outcome`]s that the pass settled,
//! one for each entry it came to, and say what is left of the registry for
//! these outcomes. What follows from the outcomes alone is proved in
//! [`crate::util::pruning`].
//!
//! A pass that hands out what a cell holds has to borrow the cell. Where
//! the cell refuses, because a borrow that conflicts is still held, the
//! pass ends at that entry and reports a [`BorrowConflict`]: the entries
//! before it are settled, this one and those behind it are as they were.
//!
//! What a pass does with one entry is said exactly one call down. The
//! `visit_*` functions take what the handle of the entry resolved to, and
//! the `visit_borrowed*` functions take what the cell answered to the
//! request for a borrow: a dead handle always settles the entry as dead, a
//! granted borrow always leads to the visit, and only a refused borrow ends
//! the pass.

use std::cell::Ref;
use std::cell::RefCell;
use std::cell::RefMut;
use std::rc::Rc;
use std::rc::Weak;
use vstd::prelude::*;
use crate::util::pruning::alive;
use crate::util::pruning::left_after;
use crate::util::pruning::lemma_chosen_map_values;
use crate::util::pruning::lemma_left_after_all;
use crate::util::pruning::lemma_left_after_map_values;
use crate::util::pruning::lemma_left_after_next;
use crate::util::pruning::lemma_left_after_update;
use crate::util::pruning::settle;
use crate::util::pruning::staying;
use crate::util::pruning::survivors;
use crate::util::pruning::visited;
use crate::util::pruning::Outcome;

verus! {

broadcast use vstd::function::group_function_axioms;

/// `std::cell::RefCell`, a cell that checks borrows while the program
/// runs. Nothing is known of what it holds.
#[verifier::external_type_specification]
#[verifier::external_body]
#[verifier::reject_recursive_types(T)]
pub struct ExRefCell<T: ?Sized>(RefCell<T>);

/// `std::cell::Ref`, the guard of a shared borrow of a `RefCell`.
#[verifier::external_type_specification]
#[verifier::external_body]
#[verifier::reject_recursive_types(T)]
pub struct ExRef<'b, T: ?Sized>(Ref<'b, T>);

/// `std::cell::RefMut`, the guard of an exclusive borrow of a `RefCell`.
#[verifier::external_type_specification]
#[verifier::external_body]
#[verifier::reject_recursive_types(T)]
pub struct ExRefMut<'b, T: ?Sized + 'b>(RefMut<'b, T>);

/// A weak handle: a reference to a shared cell that does not keep the cell
/// alive.
///
/// It holds a `std::rc::Weak<RefCell<T>>`. `Weak` has an allocator as its
/// second parameter, which cannot be named without the unstable allocator
/// API, so the type is wrapped here instead of being declared to Verus.
/// Nothing is known of a handle but that it is a value.
#[verifier::external_body]
#[verifier::reject_recursive_types(T)]
pub struct WeakCell<T: ?Sized> {
    inner: Weak<RefCell<T>>,
}

impl<T: ?Sized> WeakCell<T> {
    /// Creates a weak handle to `cell` with `Rc::downgrade`. The handle
    /// resolves as long as a strong holder of the cell exists. Nothing is
    /// claimed of it.
    #[verifier::external_body]
    pub fn downgrade(cell: &Rc<RefCell<T>>) -> (handle: WeakCell<T>) {
        WeakCell { inner: Rc::downgrade(cell) }
    }

    /// Resolves the handle with `Weak::upgrade`: the cell if a strong
    /// holder of it still exists, else `None`. Which of the two comes back
    /// depends on the rest of the program, so nothing is claimed of it.
    #[verifier::external_body]
    pub fn upgrade(&self) -> (cell: Option<Rc<RefCell<T>>>) {
        self.inner.upgrade()
    }
}

/// Asks `cell` for a shared borrow of what it holds with
/// `RefCell::try_borrow`: the guard, or `None` where the cell is
/// exclusively borrowed at that moment. Which of the two comes back depends
/// on the rest of the program, so nothing is claimed of it.
#[verifier::external_body]
fn try_borrow_cell<'a, T: ?Sized>(cell: &'a RefCell<T>) -> (guard: Option<Ref<'a, T>>) {
    match cell.try_borrow() {
        Ok(guard) => Some(guard),
        Err(_) => None,
    }
}

/// Asks `cell` for an exclusive borrow of what it holds with
/// `RefCell::try_borrow_mut`: the guard, or `None` where the cell is
/// borrowed at that moment. Which of the two comes back depends on the rest
/// of the program, so nothing is claimed of it.
#[verifier::external_body]
fn try_borrow_cell_mut<'a, T: ?Sized>(cell: &'a RefCell<T>) -> (guard: Option<RefMut<'a, T>>) {
    match cell.try_borrow_mut() {
        Ok(guard) => Some(guard),
        Err(_) => None,
    }
}

/// The value behind a shared guard, by `Deref::deref` of `Ref`. Nothing is
/// claimed of it.
#[verifier::external_body]
fn guarded<'a, 'b, T: ?Sized>(guard: &'a Ref<'b, T>) -> (value: &'a T) {
    std::ops::Deref::deref(guard)
}

/// The value behind an exclusive guard, by `DerefMut::deref_mut` of
/// `RefMut`. Nothing is claimed of it.
#[verifier::external_body]
fn guarded_mut<'a, 'b, T: ?Sized>(guard: &'a mut RefMut<'b, T>) -> (value: &'a mut T) {
    std::ops::DerefMut::deref_mut(guard)
}

/// Why a pass ended before it came to every entry: the cell of an entry
/// is alive but refused the borrow that the pass needs, because a borrow of
/// it that conflicts is still held.
#[derive(Clone, Copy, Debug, PartialEq, Eq, Structural)]
pub struct BorrowConflict {
    /// Where the entry of that cell stands in the registry as the pass
    /// left it.
    pub position: usize,
}

/// Settles the outcome of an entry whose handle resolved to `resolved`: a
/// cell that is alive is handed to `closure`, whose answer says whether the
/// entry is to leave, and without a cell the entry is dead and `closure` is
/// not called.
pub fn visit_cell<T: ?Sized, F: FnMut(Rc<RefCell<T>>) -> bool>(
    resolved: Option<Rc<RefCell<T>>>,
    closure: &mut F,
) -> (outcome: Outcome)
    requires
        forall|cell: Rc<RefCell<T>>| (*old(closure)).requires((cell,)),
    ensures
        *final(closure) == *old(closure),
        (match resolved {
            None => outcome is Dead,
            Some(cell) => !(outcome is Dead) && (*old(closure)).ensures(
                (cell,),
                outcome is Removed,
            ),
        }),
{
    match resolved {
        Some(cell) => {
            if closure(cell) {
                Outcome::Removed
            } else {
                Outcome::Kept
            }
        },
        None => Outcome::Dead,
    }
}

/// Settles the outcome of an entry whose handle resolved to `resolved`:
/// what a cell that is alive holds is handed to `closure` and the entry is
/// kept, and without a cell the entry is dead and `closure` is not called.
/// Where the cell is alive and refuses the borrow, nothing is settled,
/// `closure` is not called, and `None` comes back.
pub fn visit_value<T: ?Sized, F: FnMut(&T)>(
    resolved: Option<Rc<RefCell<T>>>,
    closure: &mut F,
) -> (outcome: Option<Outcome>)
    requires
        forall|value: &T| (*old(closure)).requires((value,)),
    ensures
        *final(closure) == *old(closure),
        (match resolved {
            None => outcome == Some(Outcome::Dead),
            Some(cell) => outcome is None || (outcome == Some(Outcome::Kept) && exists|value: &T|
                (*old(closure)).ensures((value,), ())),
        }),
{
    match resolved {
        Some(cell) => visit_borrowed(try_borrow_cell(&cell), closure),
        None => Some(Outcome::Dead),
    }
}

/// Settles the outcome of an entry whose living cell answered the request
/// for a shared borrow with `borrowed`: what a guard guards is handed to
/// `closure` and the entry is kept. Where the cell refused, nothing is
/// settled, `closure` is not called, and `None` comes back.
pub fn visit_borrowed<'a, T: ?Sized, F: FnMut(&T)>(
    borrowed: Option<Ref<'a, T>>,
    closure: &mut F,
) -> (outcome: Option<Outcome>)
    requires
        forall|value: &T| (*old(closure)).requires((value,)),
    ensures
        *final(closure) == *old(closure),
        borrowed is None <==> outcome is None,
        borrowed is Some ==> outcome == Some(Outcome::Kept) && exists|value: &T|
            (*old(closure)).ensures((value,), ()),
{
    match borrowed {
        Some(guard) => {
            closure(guarded(&guard));
            Some(Outcome::Kept)
        },
        None => None,
    }
}

/// Settles the outcome of an entry whose handle resolved to `resolved`:
/// what a cell that is alive holds is handed to `closure` for change and
/// the entry is kept, and without a cell the entry is dead and `closure` is
/// not called. Where the cell is alive and refuses the borrow, nothing is
/// settled, `closure` is not called, and `None` comes back.
pub fn visit_value_mut<T: ?Sized, F: FnMut(&mut T)>(
    resolved: Option<Rc<RefCell<T>>>,
    closure: &mut F,
) -> (outcome: Option<Outcome>)
    requires
        forall|value: &mut T| (*old(closure)).requires((value,)),
    ensures
        *final(closure) == *old(closure),
        (match resolved {
            None => outcome == Some(Outcome::Dead),
            Some(cell) => outcome is None || (outcome == Some(Outcome::Kept) && exists|
                value: &mut T,
            | (*old(closure)).ensures((value,), ())),
        }),
{
    match resolved {
        Some(cell) => visit_borrowed_mut(try_borrow_cell_mut(&cell), closure),
        None => Some(Outcome::Dead),
    }
}

/// Settles the outcome of an entry whose living cell answered the request
/// for an exclusive borrow with `borrowed`: what a guard guards is handed
/// to `closure` for change and the entry is kept. Where the cell refused,
/// nothing is settled, `closure` is not called, and `None` comes back.
pub fn visit_borrowed_mut<'a, T: ?Sized, F: FnMut(&mut T)>(
    borrowed: Option<RefMut<'a, T>>,
    closure: &mut F,
) -> (outcome: Option<Outcome>)
    requires
        forall|value: &mut T| (*old(closure)).requires((value,)),
    ensures
        *final(closure) == *old(closure),
        borrowed is None <==> outcome is None,
        borrowed is Some ==> outcome == Some(Outcome::Kept) && exists|value: &mut T|
            (*old(closure)).ensures((value,), ()),
{
    match borrowed {
        Some(mut guard) => {
            closure(guarded_mut(&mut guard));
            Some(Outcome::Kept)
        },
        None => None,
    }
}

/// An ordered registry of weak handles to cells of `T`.
#[verifier::reject_recursive_types(T)]
pub struct WeakVec<T: ?Sized> {
    vec: Vec<WeakCell<T>>,
}

impl<T: ?Sized> View for WeakVec<T> {
    type V = Seq<WeakCell<T>>;

    /// The handles of the registry, in insertion order.
    closed spec fn view(&self) -> Seq<WeakCell<T>> {
        self.vec@
    }
}

impl<T: ?Sized> WeakVec<T> {
    /// The registry without entries.
    pub fn new() -> (registry: Self)
        ensures
            registry@ == Seq::<WeakCell<T>>::empty(),
    {
        Self { vec: Vec::new() }
    }

    /// The registry without entries, with room for `initial_capacity` of
    /// them.
    pub fn with_capacity(initial_capacity: usize) -> (registry: Self)
        ensures
            registry@ == Seq::<WeakCell<T>>::empty(),
    {
        Self { vec: Vec::with_capacity(initial_capacity) }
    }

    /// Appends `element` behind the entries that are there.
    pub fn push(&mut self, element: WeakCell<T>)
        ensures
            final(self)@ == old(self)@.push(element),
    {
        self.vec.push(element);
    }

    /// Visits the cells that are still alive, in insertion order, each
    /// once. An entry leaves the registry, at once and in place, when its
    /// cell is gone, in which case `closure` is not called for it, or when
    /// `closure` answers `true` for its cell. The other entries stay in
    /// their order.
    ///
    /// The pass hands out the cell itself and borrows nothing from it, so
    /// it never meets a borrow conflict of its own. Access to what the cell
    /// holds is for `closure` to take, through the cell's own check of
    /// borrows: there a borrow that conflicts with one still held fails at
    /// once.
    pub fn for_each_cell<F: FnMut(Rc<RefCell<T>>) -> bool>(&mut self, closure: F)
        requires
            forall|cell: Rc<RefCell<T>>| closure.requires((cell,)),
        ensures
            (exists|outcomes: Seq<Outcome>|
                {
                    &&& outcomes.len() == old(self)@.len()
                    &&& forall|i: int|
                        0 <= i < outcomes.len() ==> match #[trigger] outcomes[i] {
                            Outcome::Dead => true,
                            Outcome::Kept => exists|cell: Rc<RefCell<T>>|
                                closure.ensures((cell,), false),
                            Outcome::Removed => exists|cell: Rc<RefCell<T>>|
                                closure.ensures((cell,), true),
                        }
                    &&& final(self)@ == #[trigger] survivors(old(self)@, outcomes)
                }),
    {
        let mut visitor = closure;
        let ghost mut outcomes: Seq<Outcome> = Seq::empty();
        let mut at: usize = 0;
        while at < self.vec.len()
            invariant
                outcomes.len() <= old(self).vec@.len(),
                at == survivors(old(self).vec@.take(outcomes.len() as int), outcomes).len(),
                self.vec@ == left_after(old(self).vec@, outcomes),
                visitor == closure,
                forall|cell: Rc<RefCell<T>>| closure.requires((cell,)),
                forall|i: int|
                    0 <= i < outcomes.len() ==> match #[trigger] outcomes[i] {
                        Outcome::Dead => true,
                        Outcome::Kept => exists|cell: Rc<RefCell<T>>|
                            closure.ensures((cell,), false),
                        Outcome::Removed => exists|cell: Rc<RefCell<T>>|
                            closure.ensures((cell,), true),
                    },
            decreases old(self).vec@.len() - outcomes.len(),
        {
            let resolved = self.vec[at].upgrade();
            let outcome = visit_cell(resolved, &mut visitor);
            proof {
                lemma_left_after_next(old(self).vec@, outcomes, outcome);
                outcomes = outcomes.push(outcome);
            }
            at = settle(&mut self.vec, at, outcome);
        }
        proof {
            lemma_left_after_all(old(self).vec@, outcomes);
        }
        assert(self@ == survivors(old(self)@, outcomes));
    }

    /// Visits what the cells that are still alive hold, in insertion
    /// order, each once. An entry leaves the registry, at once and in
    /// place, when its cell is gone, in which case `closure` is not called
    /// for it. The other entries stay in their order.
    ///
    /// Where a cell that is alive is exclusively borrowed when the pass
    /// comes to it, the pass ends there with a [`BorrowConflict`]:
    /// `closure` is not called for that entry, and it and the entries
    /// behind it stay as they are. Such a conflict is a programming error
    /// and not a state of the data: a caller that gets `Err` must not go
    /// on with the registry, but fail at once.
    pub fn for_each<F: FnMut(&T)>(
        &mut self,
        closure: F,
    ) -> (result: Result<(), BorrowConflict>)
        requires
            forall|value: &T| closure.requires((value,)),
        ensures
            (exists|outcomes: Seq<Outcome>|
                {
                    &&& outcomes.len() <= old(self)@.len()
                    &&& forall|i: int|
                        0 <= i < outcomes.len() ==> match #[trigger] outcomes[i] {
                            Outcome::Dead => true,
                            Outcome::Kept => exists|value: &T| closure.ensures((value,), ()),
                            Outcome::Removed => false,
                        }
                    &&& final(self)@ == #[trigger] left_after(old(self)@, outcomes)
                    &&& match result {
                        Ok(_) => outcomes.len() == old(self)@.len(),
                        Err(conflict) => outcomes.len() < old(self)@.len() && conflict.position
                            == survivors(old(self)@.take(outcomes.len() as int), outcomes).len(),
                    }
                }),
    {
        let mut visitor = closure;
        let ghost mut outcomes: Seq<Outcome> = Seq::empty();
        let mut at: usize = 0;
        while at < self.vec.len()
            invariant
                outcomes.len() <= old(self).vec@.len(),
                at == survivors(old(self).vec@.take(outcomes.len() as int), outcomes).len(),
                self.vec@ == left_after(old(self).vec@, outcomes),
                visitor == closure,
                forall|value: &T| closure.requires((value,)),
                forall|i: int|
                    0 <= i < outcomes.len() ==> match #[trigger] outcomes[i] {
                        Outcome::Dead => true,
                        Outcome::Kept => exists|value: &T| closure.ensures((value,), ()),
                        Outcome::Removed => false,
                    },
            decreases old(self).vec@.len() - outcomes.len(),
        {
            let resolved = self.vec[at].upgrade();
            match visit_value(resolved, &mut visitor) {
                Some(outcome) => {
                    proof {
                        lemma_left_after_next(old(self).vec@, outcomes, outcome);
                        outcomes = outcomes.push(outcome);
                    }
                    at = settle(&mut self.vec, at, outcome);
                },
                None => {
                    assert(self@ == left_after(old(self)@, outcomes));
                    return Err(BorrowConflict { position: at });
                },
            }
        }
        assert(self@ == left_after(old(self)@, outcomes));
        Ok(())
    }

    /// Visits what the cells that are still alive hold, in insertion
    /// order, each once, and lets `closure` change it. An entry leaves the
    /// registry, at once and in place, when its cell is gone, in which case
    /// `closure` is not called for it. The other entries stay in their
    /// order.
    ///
    /// Where a cell that is alive is borrowed when the pass comes to it,
    /// the pass ends there with a [`BorrowConflict`]: `closure` is not
    /// called for that entry, and it and the entries behind it stay as they
    /// are. Such a conflict is a programming error and not a state of the
    /// data: a caller that gets `Err` must not go on with the registry, but
    /// fail at once.
    pub fn for_each_mut<F: FnMut(&mut T)>(
        &mut self,
        closure: F,
    ) -> (result: Result<(), BorrowConflict>)
        requires
            forall|value: &mut T| closure.requires((value,)),
        ensures
            (exists|outcomes: Seq<Outcome>|
                {
                    &&& outcomes.len() <= old(self)@.len()
                    &&& forall|i: int|
                        0 <= i < outcomes.len() ==> match #[trigger] outcomes[i] {
                            Outcome::Dead => true,
                            Outcome::Kept => exists|value: &mut T| closure.ensures((value,), ()),
                            Outcome::Removed => false,
                        }
                    &&& final(self)@ == #[trigger] left_after(old(self)@, outcomes)
                    &&& match result {
                        Ok(_) => outcomes.len() == old(self)@.len(),
                        Err(conflict) => outcomes.len() < old(self)@.len() && conflict.position
                            == survivors(old(self)@.take(outcomes.len() as int), outcomes).len(),
                    }
                }),
    {
        let mut visitor = closure;
        let ghost mut outcomes: Seq<Outcome> = Seq::empty();
        let mut at: usize = 0;
        while at < self.vec.len()
            invariant
                outcomes.len() <= old(self).vec@.len(),
                at == survivors(old(self).vec@.take(outcomes.len() as int), outcomes).len(),
                self.vec@ == left_after(old(self).vec@, outcomes),
                visitor == closure,
                forall|value: &mut T| closure.requires((value,)),
                forall|i: int|
                    0 <= i < outcomes.len() ==> match #[trigger] outcomes[i] {
                        Outcome::Dead => true,
                        Outcome::Kept => exists|value: &mut T| closure.ensures((value,), ()),
                        Outcome::Removed => false,
                    },
            decreases old(self).vec@.len() - outcomes.len(),
        {
            let resolved = self.vec[at].upgrade();
            match visit_value_mut(resolved, &mut visitor) {
                Some(outcome) => {
                    proof {
                        lemma_left_after_next(old(self).vec@, outcomes, outcome);
                        outcomes = outcomes.push(outcome);
                    }
                    at = settle(&mut self.vec, at, outcome);
                },
                None => {
                    assert(self@ == left_after(old(self)@, outcomes));
                    return Err(BorrowConflict { position: at });
                },
            }
        }
        assert(self@ == left_after(old(self)@, outcomes));
        Ok(())
    }
}

/// An entry of a [`WeakMetaVec`]: a weak handle and the metadata that was
/// pushed with it.
#[verifier::reject_recursive_types(T)]
pub struct WeakMetaHandle<T: ?Sized, M> {
    pub weak_cell: WeakCell<T>,
    pub metadata: M,
}

/// An ordered registry of weak handles to cells of `T`, each with metadata
/// of its own that the registry owns.
#[verifier::reject_recursive_types(T)]
pub struct WeakMetaVec<T: ?Sized, M> {
    pub vec: Vec<WeakMetaHandle<T, M>>,
}

impl<T: ?Sized, M> View for WeakMetaVec<T, M> {
    type V = Seq<WeakMetaHandle<T, M>>;

    /// The entries of the registry, in insertion order.
    open spec fn view(&self) -> Seq<WeakMetaHandle<T, M>> {
        self.vec@
    }
}

/// The handles of `entries`, in order.
pub open spec fn handles<T: ?Sized, M>(entries: Seq<WeakMetaHandle<T, M>>) -> Seq<WeakCell<T>> {
    entries.map_values(|entry: WeakMetaHandle<T, M>| entry.weak_cell)
}

/// The metadata of `entries`, in order.
pub open spec fn metadata_of<T: ?Sized, M>(entries: Seq<WeakMetaHandle<T, M>>) -> Seq<M> {
    entries.map_values(|entry: WeakMetaHandle<T, M>| entry.metadata)
}

/// Metadata stays with the handle it was pushed with: whichever entries a
/// pass visits or leaves, their handles are the visited or left ones among
/// the handles, and their metadata the visited or left ones among the
/// metadata, position by position.
pub proof fn lemma_metadata_stays_with_its_handle<T: ?Sized, M>(
    entries: Seq<WeakMetaHandle<T, M>>,
    outcomes: Seq<Outcome>,
)
    requires
        entries.len() == outcomes.len(),
    ensures
        handles(survivors(entries, outcomes)) == survivors(handles(entries), outcomes),
        metadata_of(survivors(entries, outcomes)) == survivors(metadata_of(entries), outcomes),
        handles(visited(entries, outcomes)) == visited(handles(entries), outcomes),
        metadata_of(visited(entries, outcomes)) == visited(metadata_of(entries), outcomes),
{
    let handle = |entry: WeakMetaHandle<T, M>| entry.weak_cell;
    let metadata = |entry: WeakMetaHandle<T, M>| entry.metadata;
    lemma_chosen_map_values(entries, staying(outcomes), handle);
    lemma_chosen_map_values(entries, staying(outcomes), metadata);
    lemma_chosen_map_values(entries, alive(outcomes), handle);
    lemma_chosen_map_values(entries, alive(outcomes), metadata);
}

/// The same holds of what a pass leaves that ended before the last entry.
pub proof fn lemma_left_handles<T: ?Sized, M>(
    entries: Seq<WeakMetaHandle<T, M>>,
    outcomes: Seq<Outcome>,
)
    requires
        outcomes.len() <= entries.len(),
    ensures
        handles(left_after(entries, outcomes)) == left_after(handles(entries), outcomes),
        metadata_of(left_after(entries, outcomes)) == left_after(metadata_of(entries), outcomes),
{
    lemma_left_after_map_values(
        entries,
        outcomes,
        |entry: WeakMetaHandle<T, M>| entry.weak_cell,
    );
    lemma_left_after_map_values(entries, outcomes, |entry: WeakMetaHandle<T, M>| entry.metadata);
}

/// Settles the outcome of `entry`, whose handle resolved to `resolved`: a
/// cell that is alive is handed to `closure` together with the metadata of
/// `entry`, and the answer says whether the entry is to leave. Without a
/// cell the entry is dead and untouched, and `closure` is not called.
pub fn visit_cell_with<T: ?Sized, M, F: FnMut(Rc<RefCell<T>>, &mut M) -> bool>(
    resolved: Option<Rc<RefCell<T>>>,
    entry: &mut WeakMetaHandle<T, M>,
    closure: &mut F,
) -> (outcome: Outcome)
    requires
        forall|cell: Rc<RefCell<T>>, metadata: &mut M| (*old(closure)).requires((cell, metadata)),
    ensures
        *final(closure) == *old(closure),
        final(entry).weak_cell == old(entry).weak_cell,
        (match resolved {
            None => outcome is Dead && final(entry).metadata == old(entry).metadata,
            Some(cell) => !(outcome is Dead) && exists|metadata: &mut M|
                {
                    &&& *metadata == old(entry).metadata
                    &&& *final(metadata) == final(entry).metadata
                    &&& (*old(closure)).ensures((cell, metadata), outcome is Removed)
                },
        }),
{
    match resolved {
        Some(cell) => {
            if closure(cell, &mut entry.metadata) {
                Outcome::Removed
            } else {
                Outcome::Kept
            }
        },
        None => Outcome::Dead,
    }
}

/// Settles the outcome of `entry`, whose handle resolved to `resolved`:
/// what a cell that is alive holds is handed to `closure` together with the
/// metadata of `entry`, and the entry is kept. Without a cell the entry is
/// dead and `closure` is not called. Where the cell is alive and refuses
/// the borrow, nothing is settled, `closure` is not called, and `None`
/// comes back.
pub fn visit_value_with<T: ?Sized, M, F: FnMut(&T, &M)>(
    resolved: Option<Rc<RefCell<T>>>,
    entry: &WeakMetaHandle<T, M>,
    closure: &mut F,
) -> (outcome: Option<Outcome>)
    requires
        forall|value: &T, metadata: &M| (*old(closure)).requires((value, metadata)),
    ensures
        *final(closure) == *old(closure),
        (match resolved {
            None => outcome == Some(Outcome::Dead),
            Some(cell) => outcome is None || (outcome == Some(Outcome::Kept) && exists|value: &T|
                (*old(closure)).ensures((value, &entry.metadata), ())),
        }),
{
    match resolved {
        Some(cell) => visit_borrowed_with(try_borrow_cell(&cell), entry, closure),
        None => Some(Outcome::Dead),
    }
}

/// Settles the outcome of `entry`, whose living cell answered the request
/// for a shared borrow with `borrowed`: what a guard guards is handed to
/// `closure` together with the metadata of `entry`, and the entry is kept.
/// Where the cell refused, nothing is settled, `closure` is not called, and
/// `None` comes back.
pub fn visit_borrowed_with<'a, T: ?Sized, M, F: FnMut(&T, &M)>(
    borrowed: Option<Ref<'a, T>>,
    entry: &WeakMetaHandle<T, M>,
    closure: &mut F,
) -> (outcome: Option<Outcome>)
    requires
        forall|value: &T, metadata: &M| (*old(closure)).requires((value, metadata)),
    ensures
        *final(closure) == *old(closure),
        borrowed is None <==> outcome is None,
        borrowed is Some ==> outcome == Some(Outcome::Kept) && exists|value: &T|
            (*old(closure)).ensures((value, &entry.metadata), ()),
{
    match borrowed {
        Some(guard) => {
            closure(guarded(&guard), &entry.metadata);
            Some(Outcome::Kept)
        },
        None => None,
    }
}

/// Settles the outcome of `entry`, whose handle resolved to `resolved`:
/// what a cell that is alive holds is handed to `closure` together with the
/// metadata of `entry`, both for change, and the entry is kept. Without a
/// cell the entry is dead and untouched, and `closure` is not called. Where
/// the cell is alive and refuses the borrow, nothing is settled, the entry
/// is untouched, `closure` is not called, and `None` comes back.
pub fn visit_value_mut_with<T: ?Sized, M, F: FnMut(&mut T, &mut M)>(
    resolved: Option<Rc<RefCell<T>>>,
    entry: &mut WeakMetaHandle<T, M>,
    closure: &mut F,
) -> (outcome: Option<Outcome>)
    requires
        forall|value: &mut T, metadata: &mut M| (*old(closure)).requires((value, metadata)),
    ensures
        *final(closure) == *old(closure),
        final(entry).weak_cell == old(entry).weak_cell,
        (match resolved {
            None => outcome == Some(Outcome::Dead) && final(entry).metadata == old(
                entry,
            ).metadata,
            Some(cell) => match outcome {
                None => final(entry).metadata == old(entry).metadata,
                Some(settled) => settled is Kept && exists|value: &mut T, metadata: &mut M|
                    {
                        &&& *metadata == old(entry).metadata
                        &&& *final(metadata) == final(entry).metadata
                        &&& (*old(closure)).ensures((value, metadata), ())
                    },
            },
        }),
{
    match resolved {
        Some(cell) => visit_borrowed_mut_with(try_borrow_cell_mut(&cell), entry, closure),
        None => Some(Outcome::Dead),
    }
}

/// Settles the outcome of `entry`, whose living cell answered the request
/// for an exclusive borrow with `borrowed`: what a guard guards is handed
/// to `closure` together with the metadata of `entry`, both for change,
/// and the entry is kept. Where the cell refused, nothing is settled, the
/// entry is untouched, `closure` is not called, and `None` comes back.
pub fn visit_borrowed_mut_with<'a, T: ?Sized, M, F: FnMut(&mut T, &mut M)>(
    borrowed: Option<RefMut<'a, T>>,
    entry: &mut WeakMetaHandle<T, M>,
    closure: &mut F,
) -> (outcome: Option<Outcome>)
    requires
        forall|value: &mut T, metadata: &mut M| (*old(closure)).requires((value, metadata)),
    ensures
        *final(closure) == *old(closure),
        final(entry).weak_cell == old(entry).weak_cell,
        borrowed is None <==> outcome is None,
        borrowed is None ==> final(entry).metadata == old(entry).metadata,
        (borrowed is Some ==> outcome == Some(Outcome::Kept) && exists|
            value: &mut T,
            metadata: &mut M,
        |
            {
                &&& *metadata == old(entry).metadata
                &&& *final(metadata) == final(entry).metadata
                &&& (*old(closure)).ensures((value, metadata), ())
            }),
{
    match borrowed {
        Some(mut guard) => {
            closure(guarded_mut(&mut guard), &mut entry.metadata);
            Some(Outcome::Kept)
        },
        None => None,
    }
}

impl<T: ?Sized, M> WeakMetaVec<T, M> {
    /// The registry without entries.
    pub fn new() -> (registry: Self)
        ensures
            registry@ == Seq::<WeakMetaHandle<T, M>>::empty(),
    {
        Self { vec: Vec::new() }
    }

    /// The registry without entries, with room for `initial_capacity` of
    /// them.
    pub fn with_capacity(initial_capacity: usize) -> (registry: Self)
        ensures
            registry@ == Seq::<WeakMetaHandle<T, M>>::empty(),
    {
        Self { vec: Vec::with_capacity(initial_capacity) }
    }

    /// Appends the entry of `weak_cell` and `metadata` behind the entries
    /// that are there.
    pub fn push(&mut self, weak_cell: WeakCell<T>, metadata: M)
        ensures
            final(self)@ == old(self)@.push(WeakMetaHandle { weak_cell, metadata }),
    {
        self.vec.push(WeakMetaHandle { weak_cell, metadata });
    }

    /// Visits the cells that are still alive, in insertion order, each
    /// once and together with the metadata of its own entry, which
    /// `closure` may change. An entry leaves the registry, at once and in
    /// place, when its cell is gone, in which case `closure` is not called
    /// for it, or when `closure` answers `true` for it. Its metadata is
    /// dropped with it. The other entries stay in their order.
    ///
    /// The pass hands out the cell itself and borrows nothing from it, so
    /// it never meets a borrow conflict of its own. Access to what the cell
    /// holds is for `closure` to take, through the cell's own check of
    /// borrows: there a borrow that conflicts with one still held fails at
    /// once.
    pub fn for_each_cell<F: FnMut(Rc<RefCell<T>>, &mut M) -> bool>(&mut self, closure: F)
        requires
            forall|cell: Rc<RefCell<T>>, metadata: &mut M| closure.requires((cell, metadata)),
        ensures
            (exists|seen: Seq<WeakMetaHandle<T, M>>, outcomes: Seq<Outcome>|
                {
                    &&& seen.len() == old(self)@.len()
                    &&& outcomes.len() == old(self)@.len()
                    &&& handles(seen) == handles(old(self)@)
                    &&& forall|i: int|
                        0 <= i < outcomes.len() ==> match #[trigger] outcomes[i] {
                            Outcome::Dead => seen[i] == old(self)@[i],
                            Outcome::Kept => exists|cell: Rc<RefCell<T>>, metadata: &mut M|
                                {
                                    &&& *metadata == old(self)@[i].metadata
                                    &&& *final(metadata) == seen[i].metadata
                                    &&& closure.ensures((cell, metadata), false)
                                },
                            Outcome::Removed => exists|cell: Rc<RefCell<T>>, metadata: &mut M|
                                {
                                    &&& *metadata == old(self)@[i].metadata
                                    &&& *final(metadata) == seen[i].metadata
                                    &&& closure.ensures((cell, metadata), true)
                                },
                        }
                    &&& final(self)@ == #[trigger] survivors(seen, outcomes)
                    &&& handles(final(self)@) == survivors(handles(old(self)@), outcomes)
                }),
    {
        let mut visitor = closure;
        let ghost mut seen: Seq<WeakMetaHandle<T, M>> = self.vec@;
        let ghost mut outcomes: Seq<Outcome> = Seq::empty();
        let mut at: usize = 0;
        while at < self.vec.len()
            invariant
                seen.len() == old(self).vec@.len(),
                outcomes.len() <= seen.len(),
                at == survivors(seen.take(outcomes.len() as int), outcomes).len(),
                self.vec@ == left_after(seen, outcomes),
                visitor == closure,
                forall|cell: Rc<RefCell<T>>, metadata: &mut M| closure.requires((cell, metadata)),
                handles(seen) == handles(old(self).vec@),
                forall|i: int|
                    0 <= i < outcomes.len() ==> match #[trigger] outcomes[i] {
                        Outcome::Dead => seen[i] == old(self).vec@[i],
                        Outcome::Kept => exists|cell: Rc<RefCell<T>>, metadata: &mut M|
                            {
                                &&& *metadata == old(self).vec@[i].metadata
                                &&& *final(metadata) == seen[i].metadata
                                &&& closure.ensures((cell, metadata), false)
                            },
                        Outcome::Removed => exists|cell: Rc<RefCell<T>>, metadata: &mut M|
                            {
                                &&& *metadata == old(self).vec@[i].metadata
                                &&& *final(metadata) == seen[i].metadata
                                &&& closure.ensures((cell, metadata), true)
                            },
                    },
                forall|i: int| outcomes.len() <= i < seen.len() ==> seen[i] == old(self).vec@[i],
            decreases seen.len() - outcomes.len(),
        {
            let resolved = self.vec[at].weak_cell.upgrade();
            let outcome = visit_cell_with(resolved, &mut self.vec[at], &mut visitor);
            proof {
                let settled = outcomes.len() as int;
                let changed = seen.update(settled, self.vec@[at as int]);
                lemma_left_after_update(seen, outcomes, settled, self.vec@[at as int]);
                seen = changed;
                lemma_left_after_next(seen, outcomes, outcome);
                outcomes = outcomes.push(outcome);
            }
            at = settle(&mut self.vec, at, outcome);
        }
        proof {
            lemma_left_after_all(seen, outcomes);
            lemma_metadata_stays_with_its_handle(seen, outcomes);
        }
    }

    /// Visits what the cells that are still alive hold, in insertion
    /// order, each once and together with the metadata of its own entry.
    /// An entry leaves the registry, at once and in place, when its cell is
    /// gone, in which case `closure` is not called for it. Its metadata is
    /// dropped with it. The other entries stay as they are, in their order.
    ///
    /// Where a cell that is alive is exclusively borrowed when the pass
    /// comes to it, the pass ends there with a [`BorrowConflict`]:
    /// `closure` is not called for that entry, and it and the entries
    /// behind it stay as they are. Such a conflict is a programming error
    /// and not a state of the data: a caller that gets `Err` must not go
    /// on with the registry, but fail at once.
    pub fn for_each<F: FnMut(&T, &M)>(
        &mut self,
        closure: F,
    ) -> (result: Result<(), BorrowConflict>)
        requires
            forall|value: &T, metadata: &M| closure.requires((value, metadata)),
        ensures
            (exists|outcomes: Seq<Outcome>|
                {
                    &&& outcomes.len() <= old(self)@.len()
                    &&& forall|i: int|
                        0 <= i < outcomes.len() ==> match #[trigger] outcomes[i] {
                            Outcome::Dead => true,
                            Outcome::Kept => exists|value: &T|
                                closure.ensures((value, &old(self)@[i].metadata), ()),
                            Outcome::Removed => false,
                        }
                    &&& final(self)@ == #[trigger] left_after(old(self)@, outcomes)
                    &&& match result {
                        Ok(_) => outcomes.len() == old(self)@.len(),
                        Err(conflict) => outcomes.len() < old(self)@.len() && conflict.position
                            == survivors(old(self)@.take(outcomes.len() as int), outcomes).len(),
                    }
                }),
    {
        let mut visitor = closure;
        let ghost mut outcomes: Seq<Outcome> = Seq::empty();
        let mut at: usize = 0;
        while at < self.vec.len()
            invariant
                outcomes.len() <= old(self).vec@.len(),
                at == survivors(old(self).vec@.take(outcomes.len() as int), outcomes).len(),
                self.vec@ == left_after(old(self).vec@, outcomes),
                visitor == closure,
                forall|value: &T, metadata: &M| closure.requires((value, metadata)),
                forall|i: int|
                    0 <= i < outcomes.len() ==> match #[trigger] outcomes[i] {
                        Outcome::Dead => true,
                        Outcome::Kept => exists|value: &T|
                            closure.ensures((value, &old(self).vec@[i].metadata), ()),
                        Outcome::Removed => false,
                    },
            decreases old(self).vec@.len() - outcomes.len(),
        {
            let resolved = self.vec[at].weak_cell.upgrade();
            match visit_value_with(resolved, &self.vec[at], &mut visitor) {
                Some(outcome) => {
                    proof {
                        lemma_left_after_next(old(self).vec@, outcomes, outcome);
                        outcomes = outcomes.push(outcome);
                    }
                    at = settle(&mut self.vec, at, outcome);
                },
                None => {
                    assert(self@ == left_after(old(self)@, outcomes));
                    return Err(BorrowConflict { position: at });
                },
            }
        }
        assert(self@ == left_after(old(self)@, outcomes));
        Ok(())
    }

    /// Visits what the cells that are still alive hold, in insertion
    /// order, each once and together with the metadata of its own entry,
    /// and lets `closure` change both. An entry leaves the registry, at
    /// once and in place, when its cell is gone, in which case `closure` is
    /// not called for it. Its metadata is dropped with it. The other
    /// entries stay in their order.
    ///
    /// Where a cell that is alive is borrowed when the pass comes to it,
    /// the pass ends there with a [`BorrowConflict`]: `closure` is not
    /// called for that entry, and it and the entries behind it stay as they
    /// are. Such a conflict is a programming error and not a state of the
    /// data: a caller that gets `Err` must not go on with the registry, but
    /// fail at once.
    pub fn for_each_mut<F: FnMut(&mut T, &mut M)>(
        &mut self,
        closure: F,
    ) -> (result: Result<(), BorrowConflict>)
        requires
            forall|value: &mut T, metadata: &mut M| closure.requires((value, metadata)),
        ensures
            (exists|seen: Seq<WeakMetaHandle<T, M>>, outcomes: Seq<Outcome>|
                {
                    &&& seen.len() == old(self)@.len()
                    &&& outcomes.len() <= old(self)@.len()
                    &&& handles(seen) == handles(old(self)@)
                    &&& forall|i: int|
                        0 <= i < outcomes.len() ==> match #[trigger] outcomes[i] {
                            Outcome::Dead => seen[i] == old(self)@[i],
                            Outcome::Kept => exists|value: &mut T, metadata: &mut M|
                                {
                                    &&& *metadata == old(self)@[i].metadata
                                    &&& *final(metadata) == seen[i].metadata
                                    &&& closure.ensures((value, metadata), ())
                                },
                            Outcome::Removed => false,
                        }
                    &&& forall|i: int|
                        outcomes.len() <= i < seen.len() ==> #[trigger] seen[i] == old(self)@[i]
                    &&& final(self)@ == #[trigger] left_after(seen, outcomes)
                    &&& handles(final(self)@) == left_after(handles(old(self)@), outcomes)
                    &&& match result {
                        Ok(_) => outcomes.len() == old(self)@.len(),
                        Err(conflict) => outcomes.len() < old(self)@.len() && conflict.position
                            == survivors(seen.take(outcomes.len() as int), outcomes).len(),
                    }
                }),
    {
        let mut visitor = closure;
        let ghost mut seen: Seq<WeakMetaHandle<T, M>> = self.vec@;
        let ghost mut outcomes: Seq<Outcome> = Seq::empty();
        let mut at: usize = 0;
        while at < self.vec.len()
            invariant
                seen.len() == old(self).vec@.len(),
                outcomes.len() <= seen.len(),
                at == survivors(seen.take(outcomes.len() as int), outcomes).len(),
                self.vec@ == left_after(seen, outcomes),
                visitor == closure,
                forall|value: &mut T, metadata: &mut M| closure.requires((value, metadata)),
                handles(seen) == handles(old(self).vec@),
                forall|i: int|
                    0 <= i < outcomes.len() ==> match #[trigger] outcomes[i] {
                        Outcome::Dead => seen[i] == old(self).vec@[i],
                        Outcome::Kept => exists|value: &mut T, metadata: &mut M|
                            {
                                &&& *metadata == old(self).vec@[i].metadata
                                &&& *final(metadata) == seen[i].metadata
                                &&& closure.ensures((value, metadata), ())
                            },
                        Outcome::Removed => false,
                    },
                forall|i: int| outcomes.len() <= i < seen.len() ==> seen[i] == old(self).vec@[i],
            decreases seen.len() - outcomes.len(),
        {
            let resolved = self.vec[at].weak_cell.upgrade();
            match visit_value_mut_with(resolved, &mut self.vec[at], &mut visitor) {
                Some(outcome) => {
                    proof {
                        let settled = outcomes.len() as int;
                        let changed = seen.update(settled, self.vec@[at as int]);
                        lemma_left_after_update(seen, outcomes, settled, self.vec@[at as int]);
                        seen = changed;
                        lemma_left_after_next(seen, outcomes, outcome);
                        outcomes = outcomes.push(outcome);
                    }
                    at = settle(&mut self.vec, at, outcome);
                },
                None => {
                    proof {
                        lemma_left_handles(seen, outcomes);
                    }
                    return Err(BorrowConflict { position: at });
                },
            }
        }
        proof {
            lemma_left_handles(seen, outcomes);
        }
        Ok(())
    }
}

} // verus!
