//! Pruning a registry after a pass over its entries.
//!
//! A pass settles one [`Outcome`] for each entry it comes to and removes
//! the entry in place unless it is kept. Which entries were visited, which
//! stay, and in which order, depends on these outcomes alone, and is said
//! here once for every kind of registry.

use vstd::prelude::*;

verus! {

/// What a pass found out about one entry.
#[derive(Clone, Copy, Debug, PartialEq, Eq, Structural)]
pub enum Outcome {
    /// The target is gone: the entry was not visited and leaves.
    Dead,
    /// The entry was visited and stays.
    Kept,
    /// The entry was visited and its visitor asked for it to leave.
    Removed,
}

/// For each outcome, whether its entry stays in the registry.
pub open spec fn staying(outcomes: Seq<Outcome>) -> Seq<bool> {
    outcomes.map_values(|outcome: Outcome| outcome is Kept)
}

/// For each outcome, whether the target of its entry was alive, so that
/// the entry was visited.
pub open spec fn alive(outcomes: Seq<Outcome>) -> Seq<bool> {
    outcomes.map_values(|outcome: Outcome| !(outcome is Dead))
}

/// For each outcome, whether the target of its entry was gone.
pub open spec fn dead(outcomes: Seq<Outcome>) -> Seq<bool> {
    outcomes.map_values(|outcome: Outcome| outcome is Dead)
}

/// The entries whose flag is set, in their order.
pub open spec fn chosen<E>(entries: Seq<E>, take: Seq<bool>) -> Seq<E>
    recommends
        entries.len() == take.len(),
    decreases entries.len(),
{
    if entries.len() == 0 {
        Seq::empty()
    } else if take.last() {
        chosen(entries.drop_last(), take.drop_last()).push(entries.last())
    } else {
        chosen(entries.drop_last(), take.drop_last())
    }
}

/// The entries that stay after a pass with the given outcomes, in their
/// order: those whose outcome is [`Outcome::Kept`].
pub open spec fn survivors<E>(entries: Seq<E>, outcomes: Seq<Outcome>) -> Seq<E>
    recommends
        entries.len() == outcomes.len(),
{
    chosen(entries, staying(outcomes))
}

/// The entries that a pass with the given outcomes visited, in the order
/// of the visits: those whose outcome is not [`Outcome::Dead`].
pub open spec fn visited<E>(entries: Seq<E>, outcomes: Seq<Outcome>) -> Seq<E>
    recommends
        entries.len() == outcomes.len(),
{
    chosen(entries, alive(outcomes))
}

/// How many flags are set.
pub open spec fn count_set(flags: Seq<bool>) -> nat
    decreases flags.len(),
{
    if flags.len() == 0 {
        0
    } else {
        count_set(flags.drop_last()) + if flags.last() {
            1nat
        } else {
            0nat
        }
    }
}

/// The positions of the flags that are set, from the lowest up.
pub open spec fn positions(flags: Seq<bool>) -> Seq<int>
    decreases flags.len(),
{
    if flags.len() == 0 {
        Seq::empty()
    } else if flags.last() {
        positions(flags.drop_last()).push(flags.len() - 1)
    } else {
        positions(flags.drop_last())
    }
}

/// Each number of `s` is smaller than the next.
pub open spec fn strictly_increasing(s: Seq<int>) -> bool {
    forall|j: int, k: int| 0 <= j < k < s.len() ==> s[j] < s[k]
}

/// The flags of what two passes in a row leave: `first` has a flag for
/// each entry, `second` one for each entry that `first` chose. An entry is
/// chosen when both passes chose it.
pub open spec fn both(first: Seq<bool>, second: Seq<bool>) -> Seq<bool>
    recommends
        second.len() == count_set(first),
    decreases first.len(),
{
    if first.len() == 0 {
        Seq::empty()
    } else if first.last() {
        both(first.drop_last(), second.drop_last()).push(second.last())
    } else {
        both(first.drop_last(), second).push(false)
    }
}

/// What is left of `entries` when a pass has settled the first
/// `outcomes.len()` of them and not come to the others: the survivors among
/// the settled ones, and behind them the others as they were.
pub open spec fn left_after<E>(entries: Seq<E>, outcomes: Seq<Outcome>) -> Seq<E>
    recommends
        outcomes.len() <= entries.len(),
{
    survivors(entries.take(outcomes.len() as int), outcomes) + entries.skip(outcomes.len() as int)
}

/// Files the entry at `at` under its outcome, in place: a kept entry stays,
/// any other entry is removed and dropped at once, and the entries behind
/// it move up. Returns the position of the entry that follows.
pub fn settle<E>(entries: &mut Vec<E>, at: usize, outcome: Outcome) -> (next: usize)
    requires
        at < old(entries).len(),
    ensures
        outcome is Kept ==> next == at + 1 && final(entries)@ == old(entries)@,
        !(outcome is Kept) ==> next == at && final(entries)@ == old(entries)@.remove(at as int),
{
    match outcome {
        Outcome::Kept => at + 1,
        _ => {
            let _ = entries.remove(at);
            at
        },
    }
}

/// A pass that has settled every entry leaves the survivors.
pub proof fn lemma_left_after_all<E>(entries: Seq<E>, outcomes: Seq<Outcome>)
    requires
        outcomes.len() == entries.len(),
    ensures
        left_after(entries, outcomes) == survivors(entries, outcomes),
{
    assert(entries.take(outcomes.len() as int) =~= entries);
}

/// Settling one more entry: the entry that a pass comes to next stands
/// right behind the survivors, and what is left afterwards is the same when
/// the entry is kept, and lacks this one entry when it is not.
pub proof fn lemma_left_after_next<E>(entries: Seq<E>, outcomes: Seq<Outcome>, outcome: Outcome)
    requires
        outcomes.len() < entries.len(),
    ensures
        ({
            let settled = outcomes.len() as int;
            let at = survivors(entries.take(settled), outcomes).len() as int;
            let next = survivors(entries.take(settled + 1), outcomes.push(outcome)).len();
            &&& at < left_after(entries, outcomes).len()
            &&& left_after(entries, outcomes)[at] == entries[settled]
            &&& outcome is Kept ==> next == at + 1 && left_after(entries, outcomes.push(outcome))
                == left_after(entries, outcomes)
            &&& !(outcome is Kept) ==> next == at && left_after(entries, outcomes.push(outcome))
                == left_after(entries, outcomes).remove(at)
        }),
{
    let settled = outcomes.len() as int;
    assert(entries.take(settled + 1).drop_last() =~= entries.take(settled));
    assert(staying(outcomes.push(outcome)).drop_last() =~= staying(outcomes));
    assert(left_after(entries, outcomes.push(outcome)) =~= if outcome is Kept {
        left_after(entries, outcomes)
    } else {
        left_after(entries, outcomes).remove(
            survivors(entries.take(settled), outcomes).len() as int,
        )
    });
}

/// Changing an entry that a pass has not settled yet changes it where it
/// stands in what is left, and nothing else.
pub proof fn lemma_left_after_update<E>(entries: Seq<E>, outcomes: Seq<Outcome>, at: int, entry: E)
    requires
        outcomes.len() <= at < entries.len(),
    ensures
        survivors(entries.update(at, entry).take(outcomes.len() as int), outcomes) == survivors(
            entries.take(outcomes.len() as int),
            outcomes,
        ),
        left_after(entries.update(at, entry), outcomes) == left_after(entries, outcomes).update(
            survivors(entries.take(outcomes.len() as int), outcomes).len() + at - outcomes.len(),
            entry,
        ),
{
    let settled = outcomes.len() as int;
    assert(entries.update(at, entry).take(settled) =~= entries.take(settled));
}

/// Reading a part of each entry and seeing what a pass leaves can be done
/// in either order.
pub proof fn lemma_left_after_map_values<E, P>(
    entries: Seq<E>,
    outcomes: Seq<Outcome>,
    part: spec_fn(E) -> P,
)
    requires
        outcomes.len() <= entries.len(),
    ensures
        left_after(entries.map_values(part), outcomes) == left_after(
            entries,
            outcomes,
        ).map_values(part),
{
    let settled = outcomes.len() as int;
    lemma_chosen_map_values(entries.take(settled), staying(outcomes), part);
    assert(entries.map_values(part).take(settled) =~= entries.take(settled).map_values(part));
}

/// As many entries are chosen as flags are set.
pub proof fn lemma_chosen_len<E>(entries: Seq<E>, take: Seq<bool>)
    requires
        entries.len() == take.len(),
    ensures
        chosen(entries, take).len() == count_set(take),
        count_set(take) <= take.len(),
    decreases entries.len(),
{
    if entries.len() > 0 {
        lemma_chosen_len(entries.drop_last(), take.drop_last());
    }
}

/// Of the flags and their opposites, as many are set as there are flags.
pub proof fn lemma_count_set_opposite(flags: Seq<bool>, opposite: Seq<bool>)
    requires
        flags.len() == opposite.len(),
        forall|i: int| 0 <= i < flags.len() ==> flags[i] != opposite[i],
    ensures
        count_set(flags) + count_set(opposite) == flags.len(),
    decreases flags.len(),
{
    if flags.len() > 0 {
        lemma_count_set_opposite(flags.drop_last(), opposite.drop_last());
    }
}

/// The positions of the set flags: one for each set flag and none else,
/// each within the flags, from the lowest up.
pub proof fn lemma_positions(flags: Seq<bool>)
    ensures
        positions(flags).len() == count_set(flags),
        forall|j: int|
            0 <= j < positions(flags).len() ==> 0 <= #[trigger] positions(flags)[j] < flags.len()
                && flags[positions(flags)[j]],
        forall|i: int|
            0 <= i < flags.len() && #[trigger] flags[i] ==> positions(flags).contains(i),
        strictly_increasing(positions(flags)),
    decreases flags.len(),
{
    if flags.len() > 0 {
        let init = flags.drop_last();
        let last = flags.len() - 1;
        lemma_positions(init);
        assert forall|i: int| 0 <= i < flags.len() && #[trigger] flags[i] implies positions(
            flags,
        ).contains(i) by {
            if i < last {
                assert(init[i]);
                let j = choose|j: int| 0 <= j < positions(init).len() && positions(init)[j] == i;
                assert(positions(flags)[j] == i);
            } else {
                assert(positions(flags)[positions(flags).len() - 1] == i);
            }
        }
    }
}

/// The chosen entries are the entries at the positions of the set flags.
pub proof fn lemma_chosen_by_positions<E>(entries: Seq<E>, take: Seq<bool>)
    requires
        entries.len() == take.len(),
    ensures
        chosen(entries, take) == positions(take).map_values(|i: int| entries[i]),
    decreases entries.len(),
{
    if entries.len() > 0 {
        let init = entries.drop_last();
        lemma_chosen_by_positions(init, take.drop_last());
        lemma_positions(take.drop_last());
        lemma_positions(take);
        lemma_chosen_len(entries, take);
    }
}

/// Where every flag is set, every entry is chosen.
pub proof fn lemma_chosen_all<E>(entries: Seq<E>, take: Seq<bool>)
    requires
        entries.len() == take.len(),
        forall|i: int| 0 <= i < take.len() ==> take[i],
    ensures
        chosen(entries, take) == entries,
    decreases entries.len(),
{
    if entries.len() > 0 {
        lemma_chosen_all(entries.drop_last(), take.drop_last());
    }
}

/// Where every flag but one is set, the entry of that one is missing and
/// the others are left as they were.
pub proof fn lemma_chosen_all_but_one<E>(entries: Seq<E>, take: Seq<bool>, gone: int)
    requires
        entries.len() == take.len(),
        0 <= gone < take.len(),
        forall|i: int| 0 <= i < take.len() ==> take[i] == (i != gone),
    ensures
        chosen(entries, take) == entries.remove(gone),
    decreases entries.len(),
{
    let init = entries.drop_last();
    if gone == entries.len() - 1 {
        lemma_chosen_all(init, take.drop_last());
    } else {
        lemma_chosen_all_but_one(init, take.drop_last(), gone);
    }
}

/// Choosing entries and reading a part of each can be done in either
/// order: every chosen entry keeps the parts it had.
pub proof fn lemma_chosen_map_values<E, P>(entries: Seq<E>, take: Seq<bool>, part: spec_fn(E) -> P)
    requires
        entries.len() == take.len(),
    ensures
        chosen(entries.map_values(part), take) == chosen(entries, take).map_values(part),
    decreases entries.len(),
{
    if entries.len() > 0 {
        lemma_chosen_map_values(entries.drop_last(), take.drop_last(), part);
        assert(entries.map_values(part).drop_last() =~= entries.drop_last().map_values(part));
    }
}

/// Two passes in a row choose what one pass with the flags of [`both`]
/// chooses, and an entry that the first pass dropped is not chosen.
pub proof fn lemma_chosen_twice<E>(entries: Seq<E>, first: Seq<bool>, second: Seq<bool>)
    requires
        entries.len() == first.len(),
        second.len() == count_set(first),
    ensures
        both(first, second).len() == first.len(),
        forall|i: int| 0 <= i < first.len() && both(first, second)[i] ==> first[i],
        chosen(chosen(entries, first), second) == chosen(entries, both(first, second)),
    decreases entries.len(),
{
    if entries.len() > 0 {
        let init = entries.drop_last();
        let flags = first.drop_last();
        lemma_chosen_len(init, flags);
        if first.last() {
            lemma_chosen_twice(init, flags, second.drop_last());
            assert(chosen(entries, first).drop_last() =~= chosen(init, flags));
            assert(both(first, second).drop_last() =~= both(flags, second.drop_last()));
        } else {
            lemma_chosen_twice(init, flags, second);
            assert(both(first, second).drop_last() =~= both(flags, second));
        }
        assert forall|i: int| 0 <= i < first.len() && both(first, second)[i] implies first[i] by {
            if i < first.len() - 1 {
                assert(flags[i] == first[i]);
            }
        }
    }
}

/// A pass visits exactly the entries whose target is alive, each once, in
/// insertion order: of `n` entries with `k` dead targets it visits
/// `n - k`, namely those at the positions of the other outcomes, taken from
/// the lowest position up.
pub proof fn lemma_visits_the_living_in_order<E>(entries: Seq<E>, outcomes: Seq<Outcome>)
    requires
        entries.len() == outcomes.len(),
    ensures
        visited(entries, outcomes).len() == entries.len() - count_set(dead(outcomes)),
        visited(entries, outcomes) == positions(alive(outcomes)).map_values(|i: int| entries[i]),
        strictly_increasing(positions(alive(outcomes))),
        forall|i: int|
            0 <= i < outcomes.len() ==> (positions(alive(outcomes)).contains(i) <==> !(
            #[trigger] outcomes[i] is Dead)),
{
    let flags = alive(outcomes);
    lemma_chosen_len(entries, flags);
    lemma_count_set_opposite(flags, dead(outcomes));
    lemma_chosen_by_positions(entries, flags);
    lemma_positions(flags);
    assert forall|i: int| 0 <= i < outcomes.len() implies (positions(flags).contains(i) <==> !(
    #[trigger] outcomes[i] is Dead)) by {
        if positions(flags).contains(i) {
            let j = choose|j: int| 0 <= j < positions(flags).len() && positions(flags)[j] == i;
            assert(flags[positions(flags)[j]]);
        }
        if !(outcomes[i] is Dead) {
            assert(flags[i]);
        }
    }
}

/// A pass leaves exactly the entries that it kept, in insertion order.
pub proof fn lemma_survivors_in_order<E>(entries: Seq<E>, outcomes: Seq<Outcome>)
    requires
        entries.len() == outcomes.len(),
    ensures
        survivors(entries, outcomes).len() == count_set(staying(outcomes)),
        survivors(entries, outcomes) == positions(staying(outcomes)).map_values(
            |i: int| entries[i],
        ),
        strictly_increasing(positions(staying(outcomes))),
        forall|i: int|
            0 <= i < outcomes.len() ==> (positions(staying(outcomes)).contains(i)
                <==> #[trigger] outcomes[i] is Kept),
{
    let flags = staying(outcomes);
    lemma_chosen_len(entries, flags);
    lemma_chosen_by_positions(entries, flags);
    lemma_positions(flags);
    assert forall|i: int| 0 <= i < outcomes.len() implies (positions(flags).contains(i)
        <==> #[trigger] outcomes[i] is Kept) by {
        if positions(flags).contains(i) {
            let j = choose|j: int| 0 <= j < positions(flags).len() && positions(flags)[j] == i;
            assert(flags[positions(flags)[j]]);
        }
        if outcomes[i] is Kept {
            assert(flags[i]);
        }
    }
}

/// A pass in which no visitor asks for a removal leaves exactly the
/// entries that it visited.
pub proof fn lemma_survivors_are_the_visited<E>(entries: Seq<E>, outcomes: Seq<Outcome>)
    requires
        entries.len() == outcomes.len(),
        forall|i: int| 0 <= i < outcomes.len() ==> !(outcomes[i] is Removed),
    ensures
        survivors(entries, outcomes) == visited(entries, outcomes),
{
    assert(staying(outcomes) =~= alive(outcomes));
}

/// Removing one live entry on request leaves the others and their order
/// as they were.
pub proof fn lemma_removal_leaves_the_others<E>(
    entries: Seq<E>,
    outcomes: Seq<Outcome>,
    gone: int,
)
    requires
        entries.len() == outcomes.len(),
        0 <= gone < outcomes.len(),
        outcomes[gone] is Removed,
        forall|i: int| 0 <= i < outcomes.len() && i != gone ==> outcomes[i] is Kept,
    ensures
        survivors(entries, outcomes) == entries.remove(gone),
        visited(entries, outcomes) == entries,
{
    lemma_chosen_all_but_one(entries, staying(outcomes), gone);
    lemma_chosen_all(entries, alive(outcomes));
}

/// An entry that left in one pass is not back after the next: what two
/// passes in a row leave is chosen from the entries by flags that are set
/// only where the first pass kept the entry.
pub proof fn lemma_gone_stays_gone<E>(
    entries: Seq<E>,
    first: Seq<Outcome>,
    second: Seq<Outcome>,
)
    requires
        entries.len() == first.len(),
        second.len() == survivors(entries, first).len(),
    ensures
        survivors(survivors(entries, first), second) == chosen(
            entries,
            both(staying(first), staying(second)),
        ),
        both(staying(first), staying(second)).len() == entries.len(),
        forall|i: int|
            0 <= i < first.len() && both(staying(first), staying(second))[i]
                ==> #[trigger] first[i] is Kept,
{
    lemma_chosen_len(entries, staying(first));
    lemma_chosen_twice(entries, staying(first), staying(second));
    assert forall|i: int|
        0 <= i < first.len() && both(staying(first), staying(second))[i]
            implies #[trigger] first[i] is Kept by {
        assert(staying(first)[i]);
    }
}

} // verus!
