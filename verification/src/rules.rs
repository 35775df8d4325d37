//! The pluggable rule engine that advances the game automatically.
//!
//! The table repeatedly applies a rule set until it reports no further
//! change. To make that fixpoint loop terminate, every rule set carries a
//! measure of remaining automatic work that each applied change must
//! strictly decrease: monotonic progress is part of the contract, not
//! something the table defends against.

use vstd::prelude::*;
use crate::cards::{Color, Suite};
use crate::cardstack::Stack;
use crate::table::{Table, len_sum, lemma_len_sum_update};

verus! {

/// A rule set: one automatic-move pass over the table.
pub trait RuleSet: Sized {
    /// Upper bound on the automatic work that remains on the table.
    spec fn measure(&self, t: Table) -> nat;

    /// Applies at most one pass of automatic moves and reports whether the
    /// table changed. A change must conserve the cards, keep the table well
    /// formed, and strictly decrease the rule set's measure; reporting no
    /// change must leave the table untouched. Rules move cards between
    /// stacks: they never touch the scheduler, the transit buffer, the
    /// buttons, the queued moves or the pending bulk requests.
    fn apply_rules(&self, t: &mut Table) -> (changed: bool)
        requires
            old(t).wf(),
        ensures
            final(t).wf(),
            final(t).all_cards() == old(t).all_cards(),
            final(t).animations == old(t).animations,
            final(t).offscreen_stack == old(t).offscreen_stack,
            final(t).buttons == old(t).buttons,
            final(t).animove == old(t).animove,
            final(t).deal_pending == old(t).deal_pending,
            final(t).drop_pending == old(t).drop_pending,
            changed ==> self.measure(*final(t)) < self.measure(*old(t)),
            !changed ==> *final(t) == *old(t),
    ;
}

/// The measure of the standard rules: how many cards still sit outside the
/// target and flower stacks. Every automatic promotion moves one card out
/// of that set.
pub open spec fn auto_measure(t: Table) -> nat {
    len_sum(t.stacks@, 0, 3) + len_sum(t.stacks@, 6, 14)
}

/// An automatic move from a dragon or solitaire stack to a target or the
/// flower stack shrinks the measure by one.
proof fn lemma_auto_measure_step(pre: Seq<Stack>, post: Seq<Stack>, src: int, dst: int)
    requires
        pre.len() == 15,
        post.len() == 15,
        0 <= src < 15,
        src < 3 || (6 <= src < 14),
        (3 <= dst < 6) || dst == 14,
        src != dst,
        post == pre.update(src, post[src]).update(dst, post[dst]),
        post[src].cards@.len() + 1 == pre[src].cards@.len(),
    ensures
        len_sum(post, 0, 3) + len_sum(post, 6, 14) + 1 == len_sum(pre, 0, 3) + len_sum(
            pre,
            6,
            14,
        ),
{
    let mid = pre.update(src, post[src]);
    lemma_len_sum_update(pre, src, post[src], 0, 3);
    lemma_len_sum_update(pre, src, post[src], 6, 14);
    lemma_len_sum_update(mid, dst, post[dst], 0, 3);
    lemma_len_sum_update(mid, dst, post[dst], 6, 14);
}

/// The standard automatic moves: the flower goes home as soon as it is
/// exposed, and an exposed number goes to a target stack whenever it is the
/// next card of its color (an ace onto an empty target).
pub struct StandardRules {}

impl RuleSet for StandardRules {
    open spec fn measure(&self, t: Table) -> nat {
        auto_measure(t)
    }

    fn apply_rules(&self, t: &mut Table) -> (changed: bool) {
        let mut i: usize = 0;
        while i < 15
            invariant
                old(t).wf(),
                *t == *old(t),
            decreases 15 - i,
        {
            if i < 3 || (6 <= i && i < 14) {
                let top = t.get_stack(i).top_suite();
                match top {
                    Option::Some(Suite::Flower) => {
                        let ghost pre = t.stacks@;
                        t.auto_move(i, 14);
                        proof {
                            lemma_auto_measure_step(pre, t.stacks@, i as int, 14);
                        }
                        return true;
                    },
                    Option::Some(Suite::Number(r, c)) => {
                        match find_promotion_target(t, r, c) {
                            Option::Some(j) => {
                                let ghost pre = t.stacks@;
                                t.auto_move(i, j);
                                proof {
                                    lemma_auto_measure_step(pre, t.stacks@, i as int, j as int);
                                }
                                return true;
                            },
                            Option::None => {},
                        }
                    },
                    _ => {},
                }
            }
            i = i + 1;
        }
        false
    }
}

/// A rule set with no automatic moves: the table then changes only through
/// player intents and scheduled animations.
pub struct NoRules {}

impl RuleSet for NoRules {
    open spec fn measure(&self, t: Table) -> nat {
        0
    }

    fn apply_rules(&self, t: &mut Table) -> (changed: bool) {
        false
    }
}

/// The first target stack that can take `Number(r, c)` right now: one whose
/// top is the same color one rank lower, or an empty one for an ace.
pub fn find_promotion_target(t: &Table, r: u8, c: Color) -> (res: Option<usize>)
    requires
        t.wf(),
    ensures
        match res {
            Option::Some(j) => 3 <= j < 6 && promotes(t.stacks@[j as int].cards@, r, c),
            Option::None => forall|j: int| 3 <= j < 6 ==> !promotes(
                #[trigger] t.stacks@[j].cards@,
                r,
                c,
            ),
        },
{
    let mut j: usize = 3;
    while j < 6
        invariant
            3 <= j <= 6,
            t.wf(),
            forall|k: int| 3 <= k < j ==> !promotes(#[trigger] t.stacks@[k].cards@, r, c),
        decreases 6 - j,
    {
        match t.get_stack(j).top_suite() {
            Option::None => {
                if r == 1 {
                    return Option::Some(j);
                }
            },
            Option::Some(Suite::Number(r2, c2)) => {
                if r >= 2 && r2 == r - 1 && c2 == c {
                    return Option::Some(j);
                }
            },
            _ => {},
        }
        j = j + 1;
    }
    Option::None
}

/// Whether a target stack with these cards takes `Number(r, c)` next: it is
/// empty and `r` is an ace, or its top is the same color one rank lower.
pub open spec fn promotes(cards: Seq<crate::cards::Card>, r: u8, c: Color) -> bool {
    if cards.len() == 0 {
        r == 1
    } else {
        r >= 2 && cards.last().suite == Suite::Number((r - 1) as u8, c)
    }
}

} // verus!
