//! Ordered card stacks with a role tag that fixes layout and drop acceptance.

use vstd::prelude::*;
use vstd::multiset::Multiset;
use crate::cards::{Card, Pos, Suite, suites_of, POS_BOUND};

verus! {

/// Width of a card, in hundredths of a pixel.
pub const CARD_W: i32 = 12300;

/// Height of a card, in hundredths of a pixel.
pub const CARD_H: i32 = 23300;

/// Largest card index the layout arithmetic accepts.
pub const MAX_CARD_INDEX: usize = 100_000;

/// The role of a stack decides its stagger vector, its drop-acceptance
/// policy, and its eligibility for automatic rule moves.
#[derive(Copy, Clone, Debug, PartialEq, Eq, Structural)]
pub enum StackRole {
    Dragon,
    DragonLocked,
    Flower,
    Target,
    Generic,
    Animation,
}

/// An ordered sequence of cards (top = last) with a role and a screen anchor.
#[derive(Debug)]
pub struct Stack {
    pub cards: Vec<Card>,
    pub role: StackRole,
    pub anchor: Pos,
}

/// The per-role stagger vector between successive cards of a stack.
pub open spec fn role_shift(role: StackRole) -> Pos {
    match role {
        StackRole::Generic => Pos { x: 0, y: 3200 },
        StackRole::Animation => Pos { x: 0, y: 0 },
        _ => Pos { x: 10, y: -25i32 },
    }
}

/// Where the `n`-th card of a stack lies: anchor plus `n` stagger steps.
pub open spec fn card_pos_at(s: Stack, n: int) -> Pos {
    Pos {
        x: (s.anchor.x + role_shift(s.role).x * n) as i32,
        y: (s.anchor.y + role_shift(s.role).y * n) as i32,
    }
}

/// `upper` may lie directly on `lower` in a dragged run: numbers descending
/// by one with differing colors.
pub open spec fn stacks_on(upper: Suite, lower: Suite) -> bool {
    match (lower, upper) {
        (Suite::Number(rl, cl), Suite::Number(ru, cu)) => ru + 1 == rl && cl != cu,
        _ => false,
    }
}

/// A draggable run: every card face up, each card chained onto the one
/// below it.
pub open spec fn is_run(s: Seq<Card>) -> bool {
    (forall|j: int| 0 <= j < s.len() ==> (#[trigger] s[j]).faceup) && (forall|j: int|
        0 <= j && j + 1 < s.len() ==> stacks_on(s[j + 1].suite, #[trigger] s[j].suite))
}

/// Whether the point (`x`, `y`) lies on the face of `c`.
pub open spec fn card_hit(c: Card, x: int, y: int) -> bool {
    c.pos.x <= x <= c.pos.x + CARD_W && c.pos.y <= y <= c.pos.y + CARD_H
}

/// The topmost card of the sequence hit by the point, if any.
pub open spec fn top_hit(s: Seq<Card>, x: int, y: int) -> Option<int>
    decreases s.len(),
{
    if s.len() == 0 {
        Option::None
    } else if card_hit(s.last(), x, y) {
        Option::Some(s.len() - 1)
    } else {
        top_hit(s.drop_last(), x, y)
    }
}

/// The split index of the run that a pointer press at (`x`, `y`) detaches:
/// the topmost hit card, provided the cards above and including it form a
/// valid run.
pub open spec fn draggable_at(s: Seq<Card>, x: int, y: int) -> Option<int> {
    match top_hit(s, x, y) {
        Option::Some(k) => if is_run(s.skip(k)) {
            Option::Some(k)
        } else {
            Option::None
        },
        Option::None => Option::None,
    }
}

impl Stack {
    /// Anchor coordinates small enough for the layout arithmetic.
    pub open spec fn wf(self) -> bool {
        self.anchor.wf()
    }

    pub open spec fn suites(self) -> Multiset<Suite> {
        suites_of(self.cards@)
    }

    pub fn new(role: StackRole) -> (s: Stack)
        ensures
            s.cards@.len() == 0,
            s.role == role,
            s.anchor == (Pos { x: 0, y: 0 }),
            s.wf(),
    {
        Stack { cards: Vec::new(), role, anchor: Pos { x: 0, y: 0 } }
    }

    /// An empty stack with the given role anchored at (`x`, `y`).
    pub fn new_at(role: StackRole, x: i32, y: i32) -> (s: Stack)
        requires
            (Pos { x, y }).wf(),
        ensures
            s.cards@.len() == 0,
            s.role == role,
            s.anchor == (Pos { x, y }),
            s.wf(),
    {
        Stack { cards: Vec::new(), role, anchor: Pos { x, y } }
    }

    pub fn len(&self) -> (n: usize)
        ensures
            n == self.cards@.len(),
    {
        self.cards.len()
    }

    /// The top card, without removing it.
    pub fn top(&self) -> (r: Option<Card>)
        ensures
            match r {
                Option::Some(c) => self.cards@.len() > 0 && c == self.cards@.last(),
                Option::None => self.cards@.len() == 0,
            },
    {
        if self.cards.len() == 0 {
            Option::None
        } else {
            Option::Some(self.cards[self.cards.len() - 1])
        }
    }

    /// The identity of the top card, without removing it.
    pub fn top_suite(&self) -> (r: Option<Suite>)
        ensures
            match r {
                Option::Some(s) => self.cards@.len() > 0 && s == self.cards@.last().suite,
                Option::None => self.cards@.len() == 0,
            },
    {
        match self.top() {
            Option::Some(c) => Option::Some(c.suite),
            Option::None => Option::None,
        }
    }

    pub fn push_card(&mut self, card: Card)
        ensures
            final(self).cards@ == old(self).cards@.push(card),
            final(self).role == old(self).role,
            final(self).anchor == old(self).anchor,
            final(self).suites() == old(self).suites().insert(card.suite),
    {
        proof {
            crate::cards::lemma_suites_of_push(self.cards@, card);
        }
        self.cards.push(card);
    }

    /// Popping an empty stack yields no card; this is a normal outcome.
    pub fn pop_card(&mut self) -> (r: Option<Card>)
        ensures
            final(self).role == old(self).role,
            final(self).anchor == old(self).anchor,
            match r {
                Option::Some(c) => old(self).cards@.len() > 0 && c == old(self).cards@.last()
                    && final(self).cards@ == old(self).cards@.drop_last() && old(self).suites()
                    == final(self).suites().insert(c.suite),
                Option::None => old(self).cards@.len() == 0 && final(self).cards@ == old(
                    self,
                ).cards@,
            },
    {
        let r = self.cards.pop();
        proof {
            if old(self).cards@.len() > 0 {
                crate::cards::lemma_suites_of_drop_last(old(self).cards@);
            }
        }
        r
    }

    /// Empties the stack; the stack object itself survives a new game.
    pub fn clear(&mut self)
        ensures
            final(self).cards@.len() == 0,
            final(self).role == old(self).role,
            final(self).anchor == old(self).anchor,
    {
        self.cards.clear();
    }

    /// Appends a detached run on top, preserving its internal order.
    pub fn push(&mut self, substack: Stack)
        ensures
            final(self).cards@ == old(self).cards@ + substack.cards@,
            final(self).role == old(self).role,
            final(self).anchor == old(self).anchor,
            final(self).suites() == old(self).suites().add(substack.suites()),
    {
        proof {
            crate::cards::lemma_suites_of_add(self.cards@, substack.cards@);
        }
        let mut incoming = substack;
        let n = incoming.cards.len();
        let mut k: usize = 0;
        while k < n
            invariant
                k <= n,
                n == incoming.cards@.len(),
                incoming.cards@ == substack.cards@,
                self.cards@ == old(self).cards@ + substack.cards@.take(k as int),
                self.role == old(self).role,
                self.anchor == old(self).anchor,
            decreases n - k,
        {
            let c = incoming.cards[k];
            self.cards.push(c);
            proof {
                assert(old(self).cards@ + substack.cards@.take(k as int + 1) =~= (old(self).cards@
                    + substack.cards@.take(k as int)).push(c));
            }
            k = k + 1;
        }
        proof {
            assert(substack.cards@.take(n as int) =~= substack.cards@);
        }
    }

    /// The role-specific stagger vector used to fan out the stack.
    pub fn get_stackshift(&self) -> (v: Pos)
        ensures
            v == role_shift(self.role),
    {
        match self.role {
            StackRole::Dragon => Pos { x: 10, y: -25 },
            StackRole::DragonLocked => Pos { x: 10, y: -25 },
            StackRole::Flower => Pos { x: 10, y: -25 },
            StackRole::Target => Pos { x: 10, y: -25 },
            StackRole::Generic => Pos { x: 0, y: 3200 },
            StackRole::Animation => Pos { x: 0, y: 0 },
        }
    }

    /// Where the `n`-th card of this stack lies (or will lie, for cards that
    /// have not arrived yet).
    pub fn calc_card_pos(&self, n: usize) -> (p: Pos)
        requires
            self.wf(),
            n <= MAX_CARD_INDEX,
        ensures
            p == card_pos_at(*self, n as int),
    {
        let ni: i32 = n as i32;
        match self.role {
            StackRole::Generic => Pos { x: self.anchor.x, y: self.anchor.y + 3200 * ni },
            StackRole::Animation => Pos { x: self.anchor.x, y: self.anchor.y },
            _ => Pos { x: self.anchor.x + 10 * ni, y: self.anchor.y - 25 * ni },
        }
    }

    /// Re-lays the stack out: each card is placed at its computed slot.
    /// Identities, order and face-up flags are untouched.
    pub fn layout(&mut self)
        requires
            old(self).wf(),
            old(self).cards@.len() <= MAX_CARD_INDEX,
        ensures
            final(self).cards@.len() == old(self).cards@.len(),
            forall|k: int|
                0 <= k < old(self).cards@.len() ==> #[trigger] final(self).cards@[k] == (Card {
                    pos: card_pos_at(*old(self), k),
                    ..old(self).cards@[k]
                }),
            final(self).role == old(self).role,
            final(self).anchor == old(self).anchor,
            final(self).suites() == old(self).suites(),
    {
        let n = self.cards.len();
        let mut k: usize = 0;
        while k < n
            invariant
                k <= n,
                self.wf(),
                n == self.cards@.len(),
                n == old(self).cards@.len(),
                n <= MAX_CARD_INDEX,
                self.role == old(self).role,
                self.anchor == old(self).anchor,
                forall|j: int|
                    0 <= j < k ==> #[trigger] self.cards@[j] == (Card {
                        pos: card_pos_at(*old(self), j),
                        ..old(self).cards@[j]
                    }),
                forall|j: int| k <= j < n ==> #[trigger] self.cards@[j] == old(self).cards@[j],
            decreases n - k,
        {
            let p = self.calc_card_pos(k);
            let mut c = self.cards[k];
            c.pos = p;
            self.cards.set(k, c);
            k = k + 1;
        }
        proof {
            lemma_suites_pointwise(final(self).cards@, old(self).cards@);
        }
    }
}

impl Stack {
    /// Drop-acceptance policy, by role. `Generic` takes a valid run chained
    /// onto its top card (anything when empty); `Target` takes a single
    /// number one above its top (an ace when empty); `Dragon` takes a single
    /// card when empty; `Flower` takes the flower when empty; locked dragon
    /// stacks and the transit buffer accept nothing.
    pub open spec fn accepts(self, run: Seq<Card>) -> bool {
        match self.role {
            StackRole::Generic => run.len() > 0 && is_run(run) && (self.cards@.len() == 0
                || stacks_on(run[0].suite, self.cards@.last().suite)),
            StackRole::Target => run.len() == 1 && match run[0].suite {
                Suite::Number(r, c) => if self.cards@.len() == 0 {
                    r == 1
                } else {
                    r >= 2 && self.cards@.last().suite == Suite::Number((r - 1) as u8, c)
                },
                _ => false,
            },
            StackRole::Dragon => run.len() == 1 && self.cards@.len() == 0,
            StackRole::Flower => run.len() == 1 && run[0].suite == Suite::Flower
                && self.cards@.len() == 0,
            StackRole::DragonLocked => false,
            StackRole::Animation => false,
        }
    }

    /// Whether the dragged run may be dropped here. Pure: no state changes.
    pub fn accept_drop(&self, dstack: &Stack) -> (r: bool)
        ensures
            r == self.accepts(dstack.cards@),
    {
        let n = dstack.cards.len();
        match self.role {
            StackRole::Generic => {
                if n == 0 || !check_run(&dstack.cards) {
                    false
                } else if self.cards.len() == 0 {
                    true
                } else {
                    let top = self.cards[self.cards.len() - 1];
                    accept_exec(dstack.cards[0].suite, top.suite)
                }
            },
            StackRole::Target => {
                if n != 1 {
                    false
                } else {
                    match dstack.cards[0].suite {
                        Suite::Number(r, c) => {
                            if self.cards.len() == 0 {
                                r == 1
                            } else {
                                let top = self.cards[self.cards.len() - 1];
                                r >= 2 && top.suite == Suite::Number(r - 1, c)
                            }
                        },
                        _ => false,
                    }
                }
            },
            StackRole::Dragon => n == 1 && self.cards.len() == 0,
            StackRole::Flower => n == 1 && matches!(dstack.cards[0].suite, Suite::Flower)
                && self.cards.len() == 0,
            StackRole::DragonLocked => false,
            StackRole::Animation => false,
        }
    }

    /// Splits out the run under the pointer, if the pointer hits a card and
    /// the cards from there to the top form a valid run. The stack keeps the
    /// remainder; on a miss nothing changes.
    #[verifier::loop_isolation(false)]
    pub fn start_drag(&mut self, x: i32, y: i32) -> (r: Option<Stack>)
        ensures
            final(self).role == old(self).role,
            final(self).anchor == old(self).anchor,
            match r {
                Option::Some(run) => {
                    &&& draggable_at(old(self).cards@, x as int, y as int) matches Option::Some(k)
                    &&& run.cards@ == old(self).cards@.skip(k)
                    &&& final(self).cards@ == old(self).cards@.take(k)
                    &&& run.role == StackRole::Animation
                    &&& old(self).suites() == final(self).suites().add(run.suites())
                },
                Option::None => *final(self) == *old(self) && draggable_at(
                    old(self).cards@,
                    x as int,
                    y as int,
                ) is None,
            },
    {
        let ghost s = self.cards@;
        let n = self.cards.len();
        proof {
            assert(s.take(n as int) =~= s);
        }
        let mut idx: usize = n;
        while idx > 0
            invariant
                idx <= n,
                n == s.len(),
                *self == *old(self),
                top_hit(s, x as int, y as int) == top_hit(s.take(idx as int), x as int, y as int),
            decreases idx,
        {
            let c = self.cards[idx - 1];
            proof {
                assert(s.take(idx as int).drop_last() =~= s.take(idx as int - 1));
                assert(s.take(idx as int).last() == s[idx as int - 1]);
            }
            let xi: i64 = x as i64;
            let yi: i64 = y as i64;
            let cx: i64 = c.pos.x as i64;
            let cy: i64 = c.pos.y as i64;
            if xi >= cx && xi <= cx + (CARD_W as i64) && yi >= cy && yi <= cy + (CARD_H as i64) {
                proof {
                    assert(card_hit(c, x as int, y as int));
                    assert(top_hit(s.take(idx as int), x as int, y as int) == Option::Some(
                        idx as int - 1,
                    ));
                }
                if check_run_from(&self.cards, idx - 1) {
                    let run_vec = self.cards.split_off(idx - 1);
                    proof {
                        assert(s.subrange(idx - 1, s.len() as int) =~= s.skip(idx - 1));
                        assert(s.subrange(0, idx - 1) =~= s.take(idx - 1));
                        assert(s.take(idx - 1) + s.skip(idx - 1) =~= s);
                        crate::cards::lemma_suites_of_add(s.take(idx - 1), s.skip(idx - 1));
                    }
                    return Option::Some(
                        Stack { cards: run_vec, role: StackRole::Animation, anchor: c.pos },
                    );
                } else {
                    return Option::None;
                }
            }
            proof {
                assert(!card_hit(s[idx as int - 1], x as int, y as int));
            }
            idx = idx - 1;
        }
        proof {
            assert(s.take(0) =~= Seq::<Card>::empty());
        }
        Option::None
    }

    /// Shifts the whole dragged stack by (`dx`, `dy`): the anchor and every
    /// card move together.
    #[verifier::loop_isolation(false)]
    pub fn move_pos(&mut self, dx: i32, dy: i32)
        requires
            -POS_BOUND <= dx <= POS_BOUND,
            -POS_BOUND <= dy <= POS_BOUND,
            old(self).wf(),
            forall|k: int| 0 <= k < old(self).cards@.len() ==> (#[trigger] old(
                self,
            ).cards@[k]).pos.wf(),
        ensures
            final(self).role == old(self).role,
            final(self).anchor.x == old(self).anchor.x + dx,
            final(self).anchor.y == old(self).anchor.y + dy,
            final(self).cards@.len() == old(self).cards@.len(),
            forall|k: int|
                0 <= k < old(self).cards@.len() ==> #[trigger] final(self).cards@[k] == (Card {
                    pos: Pos {
                        x: (old(self).cards@[k].pos.x + dx) as i32,
                        y: (old(self).cards@[k].pos.y + dy) as i32,
                    },
                    ..old(self).cards@[k]
                }),
            final(self).suites() == old(self).suites(),
    {
        self.anchor = Pos { x: self.anchor.x + dx, y: self.anchor.y + dy };
        let n = self.cards.len();
        let mut k: usize = 0;
        while k < n
            invariant
                k <= n,
                n == self.cards@.len(),
                self.role == old(self).role,
                self.anchor.x == old(self).anchor.x + dx,
                self.anchor.y == old(self).anchor.y + dy,
                forall|j: int| k <= j < n ==> #[trigger] self.cards@[j] == old(self).cards@[j],
                forall|j: int| 0 <= j < n ==> (#[trigger] old(self).cards@[j]).pos.wf(),
                forall|j: int|
                    0 <= j < k ==> #[trigger] self.cards@[j] == (Card {
                        pos: Pos {
                            x: (old(self).cards@[j].pos.x + dx) as i32,
                            y: (old(self).cards@[j].pos.y + dy) as i32,
                        },
                        ..old(self).cards@[j]
                    }),
            decreases n - k,
        {
            let mut c = self.cards[k];
            c.pos = Pos { x: c.pos.x + dx, y: c.pos.y + dy };
            self.cards.set(k, c);
            k = k + 1;
        }
        proof {
            lemma_suites_pointwise(self.cards@, old(self).cards@);
        }
    }
}

/// Whether `upper` may be stacked directly on `lower`, as executable code.
pub fn accept_exec(upper: Suite, lower: Suite) -> (r: bool)
    ensures
        r == stacks_on(upper, lower),
{
    match (lower, upper) {
        (Suite::Number(rl, cl), Suite::Number(ru, cu)) => ru < 255 && ru + 1 == rl && cl != cu,
        _ => false,
    }
}

/// Whether the whole card sequence forms a valid draggable run.
pub fn check_run(cards: &Vec<Card>) -> (r: bool)
    ensures
        r == is_run(cards@),
{
    proof {
        assert(cards@.skip(0) =~= cards@);
    }
    check_run_from(cards, 0)
}

/// Whether the cards from index `from` to the top form a valid run.
#[verifier::loop_isolation(false)]
#[verifier::rlimit(30)]
pub fn check_run_from(cards: &Vec<Card>, from: usize) -> (r: bool)
    requires
        from <= cards@.len(),
    ensures
        r == is_run(cards@.skip(from as int)),
{
    let ghost tail = cards@.skip(from as int);
    let n = cards.len();
    let mut j: usize = from;
    while j < n
        invariant
            from <= j <= n,
            forall|i: int| from <= i < j ==> (#[trigger] cards@[i]).faceup,
            forall|i: int|
                from <= i < j && i + 1 < n ==> stacks_on(
                    cards@[i + 1].suite,
                    (#[trigger] cards@[i]).suite,
                ),
        decreases n - j,
    {
        let c = cards[j];
        if !c.faceup {
            proof {
                assert(cards@.skip(from as int)[j - from] == cards@[j as int]);
            }
            return false;
        }
        if j + 1 < n {
            if !accept_exec(cards[j + 1].suite, c.suite) {
                proof {
                    assert(cards@.skip(from as int)[j - from] == cards@[j as int]);
                    assert(cards@.skip(from as int)[j - from + 1] == cards@[j as int + 1]);
                }
                return false;
            }
        }
        j = j + 1;
    }
    proof {
        assert forall|i: int| 0 <= i < tail.len() implies (#[trigger] tail[i]).faceup by {
            assert(cards@.skip(from as int)[i] == cards@[from + i]);
        }
        assert forall|i: int|
            0 <= i && i + 1 < tail.len() implies stacks_on(
            tail[i + 1].suite,
            (#[trigger] tail[i]).suite,
        ) by {
            assert(cards@.skip(from as int)[i] == cards@[from + i]);
            assert(cards@.skip(from as int)[i + 1] == cards@[from + i + 1]);
        }
    }
    true
}

/// A hit index always lies within the sequence.
pub proof fn lemma_top_hit_in_range(s: Seq<Card>, x: int, y: int)
    ensures
        top_hit(s, x, y) matches Option::Some(k) ==> 0 <= k < s.len(),
    decreases s.len(),
{
    if s.len() > 0 && !card_hit(s.last(), x, y) {
        lemma_top_hit_in_range(s.drop_last(), x, y);
    }
}

/// A draggable split index always lies within the sequence, so the split
/// run is never empty.
pub proof fn lemma_draggable_in_range(s: Seq<Card>, x: int, y: int)
    ensures
        draggable_at(s, x, y) matches Option::Some(k) ==> 0 <= k < s.len(),
{
    lemma_top_hit_in_range(s, x, y);
}

/// Two card sequences with the same identities slot for slot carry the same
/// identity multiset.
pub proof fn lemma_suites_pointwise(a: Seq<Card>, b: Seq<Card>)
    requires
        a.len() == b.len(),
        forall|k: int| 0 <= k < a.len() ==> (#[trigger] a[k]).suite == b[k].suite,
    ensures
        suites_of(a) == suites_of(b),
    decreases a.len(),
{
    if a.len() > 0 {
        lemma_suites_pointwise(a.drop_last(), b.drop_last());
    }
}

} // verus!
