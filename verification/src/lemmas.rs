//! The global guarantees of the engine, stated once in full.
//!
//! Conservation and ownership are consequences of the contracts that every
//! table operation carries; the proof functions here put the global
//! statements on record so a reader does not have to assemble them from
//! the individual `ensures` clauses.

use vstd::prelude::*;
use vstd::multiset::Multiset;
use crate::cards::{Card, Suite, deck_ms, deck_seq};
use crate::cardstack::Stack;
use crate::animation::flight_ms;
use crate::table::{Table, stacks_ms};

verus! {

/// Conservation: every table operation's contract either preserves
/// `all_cards` or states exactly how it changes, and `new_game` establishes
/// the canonical deck. Hence a table that holds the canonical deck still
/// holds exactly the canonical deck after any operation that preserves
/// `all_cards` — cards are never duplicated or lost.
pub proof fn lemma_deck_conserved(pre: Table, post: Table)
    requires
        pre.deck_complete(),
        post.all_cards() == pre.all_cards(),
    ensures
        post.deck_complete(),
{
}

/// One stack never holds more copies of a card than the whole table.
pub proof fn lemma_stacks_ms_count(ss: Seq<Stack>, i: int, x: Suite)
    requires
        0 <= i < ss.len(),
    ensures
        stacks_ms(ss).count(x) >= ss[i].suites().count(x),
    decreases ss.len(),
{
    broadcast use vstd::multiset::group_multiset_axioms;

    if i == ss.len() - 1 {
        assert(ss.last() == ss[i]);
    } else {
        assert(ss.drop_last()[i] == ss[i]);
        lemma_stacks_ms_count(ss.drop_last(), i, x);
    }
}

/// Two distinct stacks never hold more copies of a card together than the
/// whole table.
pub proof fn lemma_stacks_ms_count_pair(ss: Seq<Stack>, i: int, j: int, x: Suite)
    requires
        0 <= i < j < ss.len(),
    ensures
        stacks_ms(ss).count(x) >= ss[i].suites().count(x) + ss[j].suites().count(x),
    decreases ss.len(),
{
    broadcast use vstd::multiset::group_multiset_axioms;

    if j == ss.len() - 1 {
        assert(ss.last() == ss[j]);
        assert(ss.drop_last()[i] == ss[i]);
        lemma_stacks_ms_count(ss.drop_last(), i, x);
    } else {
        assert(ss.drop_last()[i] == ss[i]);
        assert(ss.drop_last()[j] == ss[j]);
        lemma_stacks_ms_count_pair(ss.drop_last(), i, j, x);
    }
}

/// Mutual exclusion of ownership: on a table that holds the canonical
/// deck, the copies of any card identity found in two distinct stacks, or
/// in one stack together with the in-flight animations, never exceed that
/// identity's multiplicity in the deck. For an identity the deck holds
/// once — any numbered card, or the flower — the card therefore lies in at
/// most one stack, and never both in a stack and inside an animation.
pub proof fn lemma_ownership_exclusive(t: Table, i: int, j: int, x: Suite)
    requires
        t.wf(),
        t.deck_complete(),
        0 <= i < j < 15,
    ensures
        t.stacks@[i].suites().count(x) + t.stacks@[j].suites().count(x) <= deck_ms().count(x),
        t.stacks@[i].suites().count(x) + flight_ms(t.animations.queue@).count(x)
            <= deck_ms().count(x),
{
    broadcast use vstd::multiset::group_multiset_axioms;

    lemma_stacks_ms_count_pair(t.stacks@, i, j, x);
    lemma_stacks_ms_count(t.stacks@, i, x);
    assert(t.all_cards().count(x) == deck_ms().count(x));
    assert(t.all_cards().count(x) == stacks_ms(t.stacks@).count(x) + crate::cards::suites_of(
        t.offscreen_stack.cards@,
    ).count(x) + flight_ms(t.animations.queue@).count(x));
}

/// How often a card identity occurs in a sequence of identities.
pub open spec fn count_eq(s: Seq<Suite>, x: Suite) -> nat
    decreases s.len(),
{
    if s.len() == 0 {
        0
    } else {
        count_eq(s.drop_last(), x) + (if s.last() == x {
            1nat
        } else {
            0nat
        })
    }
}

/// Collecting a sequence counts occurrences.
pub proof fn lemma_count_eq(s: Seq<Suite>, x: Suite)
    ensures
        s.to_multiset().count(x) == count_eq(s, x),
    decreases s.len(),
{
    broadcast use vstd::seq_lib::group_to_multiset_ensures;
    broadcast use vstd::multiset::group_multiset_axioms;

    if s.len() == 0 {
        assert(s.to_multiset() =~= Multiset::<Suite>::empty());
    } else {
        lemma_count_eq(s.drop_last(), x);
        assert(s =~= s.drop_last().push(s.last()));
        assert(s.drop_last().push(s.last()).to_multiset() =~= s.drop_last().to_multiset().insert(
            s.last(),
        ));
    }
}

/// The canonical deck holds each numbered card once, each dragon four
/// times, and the flower once.
pub proof fn lemma_deck_counts(x: Suite)
    ensures
        deck_ms().count(x) == match x {
            Suite::Number(r, _) => if 1 <= r <= 9 {
                1nat
            } else {
                0nat
            },
            Suite::Dragon(_) => 4nat,
            Suite::Flower => 1nat,
            Suite::FaceDown => 0nat,
        },
{
    lemma_count_eq(deck_seq(), x);
    assert(deck_ms().count(x) == count_eq(deck_seq(), x));
    reveal_with_fuel(count_eq, 41);
    assert(count_eq(deck_seq(), x) == match x {
        Suite::Number(r, _) => if 1 <= r <= 9 {
            1nat
        } else {
            0nat
        },
        Suite::Dragon(_) => 4nat,
        Suite::Flower => 1nat,
        Suite::FaceDown => 0nat,
    }) by {
        assert forall|k: int| 0 <= k < 40 implies deck_seq()[k] == crate::cards::deck_card(k) by {}
    }
}

/// Drop rejection round-trip: `start_drag` leaves `take(k)` on the source
/// stack and hands out `skip(k)`; pushing the rejected run back appends it,
/// and the source stack again holds its original cards in their original
/// order, nothing missing and nothing doubled.
pub proof fn lemma_drop_rejection_roundtrip(original: Seq<Card>, k: int)
    requires
        0 <= k <= original.len(),
    ensures
        original.take(k) + original.skip(k) == original,
{
    assert(original.take(k) + original.skip(k) =~= original);
}

} // verus!
