//! The table: all stacks, the button row, the animation scheduler, and the
//! per-frame update cycle that resolves pending bulk operations, drains
//! completed animations, and runs the rule loop to a fixpoint.

use vstd::prelude::*;
use vstd::multiset::Multiset;
use crate::cards::{
    Button, ButtonState, Card, Color, Pos, Suite, deck_card, deck_ms, deck_seq, suites_of,
    suite_at, shuffle_deck, lemma_suites_of_to_multiset,
};
use crate::cardstack::{Stack, StackRole, draggable_at};
use crate::animation::{
    Animation, AnimationHandler, Sound, finish_total, flight_ms, sorted_by_finish,
    completions_spec, survivors_spec, sounds_spec, comps_ms, lemma_advance_conserves,
    lemma_survivors_sorted,
};
use crate::rules::RuleSet;

verus! {

/// Flight time of a single scheduled move, in nanoseconds.
pub const ANIMATION_DURATION: u64 = 200_000_000;

/// Delay between successive cards of a bulk deal, in nanoseconds.
pub const DEAL_INTERVAL: u64 = 100_000_000;

/// Flight time of a card returned to the deal stack, in nanoseconds.
pub const DROP_DURATION: u64 = 100_000_000;

/// Delay between successive cards of a bulk drop, in nanoseconds.
pub const DROP_INTERVAL: u64 = 10_000_000;

/// Hard cap on how many cards the table will track; keeps every layout
/// index within the arithmetic bounds.
pub const CARD_LIMIT: usize = 10_000;

/// Half-width of a button's clickable box, in hundredths of a pixel.
pub const BUTTON_W: i32 = 6700;

/// Half-height of a button's clickable box, in hundredths of a pixel.
pub const BUTTON_H: i32 = 6700;

/// The role each stack starts with: three dragon stacks, three target
/// stacks, eight solitaire stacks, and the flower/deal stack.
pub open spec fn initial_role(i: int) -> StackRole {
    if i < 3 {
        StackRole::Dragon
    } else if i < 6 {
        StackRole::Target
    } else if i < 14 {
        StackRole::Generic
    } else {
        StackRole::Flower
    }
}

/// The role the stack at index `i` may carry as the game runs: as at the
/// start, except that a dragon stack may lock.
pub open spec fn role_ok(i: int, r: StackRole) -> bool {
    if i < 3 {
        r == StackRole::Dragon || r == StackRole::DragonLocked
    } else if i < 6 {
        r == StackRole::Target
    } else if i < 14 {
        r == StackRole::Generic
    } else {
        r == StackRole::Flower
    }
}

/// The card identities held across a sequence of stacks.
pub open spec fn stacks_ms(ss: Seq<Stack>) -> Multiset<Suite>
    decreases ss.len(),
{
    if ss.len() == 0 {
        Multiset::empty()
    } else {
        stacks_ms(ss.drop_last()).add(ss.last().suites())
    }
}

/// Total card count over the stacks with indices in `lo..hi`.
pub open spec fn len_sum(ss: Seq<Stack>, lo: int, hi: int) -> nat
    decreases hi - lo,
{
    if lo >= hi || lo < 0 || hi > ss.len() {
        0
    } else {
        ss[lo].cards@.len() + len_sum(ss, lo + 1, hi)
    }
}

/// The card sequences of the stacks, stack by stack.
pub open spec fn stack_views(ss: Seq<Stack>) -> Seq<Seq<Card>> {
    ss.map_values(|s: Stack| s.cards@)
}

/// The animation the bulk drop creates for the `k`-th card popped off the
/// transit buffer `off`: it flies to the deal stack's `k`-th slot after
/// `k` stagger delays, with a pickup sound on every tenth card.
pub open spec fn drop_anim(off: Seq<Card>, flower: Stack, k: int) -> Animation {
    Animation {
        card: off[off.len() - 1 - k],
        start_delay: (k * DROP_INTERVAL) as u64,
        time_left: DROP_DURATION,
        duration: DROP_DURATION,
        target_pos: crate::cardstack::card_pos_at(flower, k),
        target_stack: 14,
        start_sound: Sound::Silent,
        finish_sound: if k % 10 == 0 {
            Sound::Pickup
        } else {
            Sound::Silent
        },
        started: false,
    }
}

/// The animation the bulk deal creates for the `k`-th card popped off the
/// deal stack `flower`: face up, toward solitaire stack `6 + k % 8` at the
/// slot its earlier cards leave free, one deal interval apart, with a
/// place sound at the start of each flight.
pub open spec fn deal_anim(pre: Seq<Stack>, flower: Seq<Card>, k: int) -> Animation {
    Animation {
        card: Card { faceup: true, ..flower[flower.len() - 1 - k] },
        start_delay: (k * DEAL_INTERVAL) as u64,
        time_left: ANIMATION_DURATION,
        duration: ANIMATION_DURATION,
        target_pos: crate::cardstack::card_pos_at(pre[6 + (k % 8)], k / 8),
        target_stack: (6 + (k % 8)) as usize,
        start_sound: Sound::Place,
        finish_sound: Sound::Silent,
        started: false,
    }
}

/// One queued move applied to the stack card-sequences `views` and the
/// animation queue `q`: a non-empty source loses its exposed card to one
/// new animation flying to the destination's next free slot (the first
/// materialized move of a batch carries the sweep sound); a move whose
/// source has emptied is skipped. `anchors` supplies the destination
/// stacks' fixed anchors and roles.
pub open spec fn apply_move(
    anchors: Seq<Stack>,
    views: Seq<Seq<Card>>,
    q: Seq<Animation>,
    first: bool,
    mv: (usize, usize),
) -> (Seq<Seq<Card>>, Seq<Animation>, bool) {
    let src = mv.0 as int;
    let dst = mv.1 as int;
    if views[src].len() > 0 {
        let views2 = views.update(src, views[src].drop_last());
        let anim = Animation {
            card: views[src].last(),
            start_delay: 0,
            time_left: ANIMATION_DURATION,
            duration: ANIMATION_DURATION,
            target_pos: crate::cardstack::card_pos_at(anchors[dst], views2[dst].len() as int),
            target_stack: mv.1,
            start_sound: if first {
                Sound::Sweep
            } else {
                Sound::Silent
            },
            finish_sound: Sound::Silent,
            started: false,
        };
        (views2, q.push(anim), false)
    } else {
        (views, q, first)
    }
}

/// The queued moves applied in order.
pub open spec fn apply_moves(
    anchors: Seq<Stack>,
    views: Seq<Seq<Card>>,
    q: Seq<Animation>,
    first: bool,
    moves: Seq<(usize, usize)>,
) -> (Seq<Seq<Card>>, Seq<Animation>, bool)
    decreases moves.len(),
{
    if moves.len() == 0 {
        (views, q, first)
    } else {
        let mid = apply_moves(anchors, views, q, first, moves.drop_last());
        apply_move(anchors, mid.0, mid.1, mid.2, moves.last())
    }
}

/// The stack card-sequences after delivering the completed animations in
/// order: each delivered card is pushed onto its destination stack.
pub open spec fn deliver_views(views: Seq<Seq<Card>>, comps: Seq<(Card, usize)>) -> Seq<Seq<Card>>
    decreases comps.len(),
{
    if comps.len() == 0 {
        views
    } else {
        let mid = deliver_views(views, comps.drop_last());
        let t = comps.last().1 as int;
        mid.update(t, mid[t].push(comps.last().0))
    }
}

/// The queue the bulk drop would build this tick.
pub open spec fn drop_queue(t: Table) -> Seq<Animation> {
    Seq::new(
        t.offscreen_stack.cards@.len(),
        |k: int| drop_anim(t.offscreen_stack.cards@, t.stacks@[14], k),
    )
}

/// The queue the bulk deal would build this tick.
pub open spec fn deal_queue(t: Table) -> Seq<Animation> {
    Seq::new(t.stacks@[14].cards@.len(), |k: int| deal_anim(t.stacks@, t.stacks@[14].cards@, k))
}

/// Whether one tick materializes the pending bulk drop: it is requested
/// and the scheduler is idle.
pub open spec fn frame_do_drop(t: Table) -> bool {
    t.drop_pending && t.animations.queue@.len() == 0
}

/// The animation queue after the drop stage of one tick.
pub open spec fn frame_q_after_drop(t: Table) -> Seq<Animation> {
    if frame_do_drop(t) {
        drop_queue(t)
    } else {
        t.animations.queue@
    }
}

/// Whether one tick materializes the pending bulk deal: it is requested
/// and the scheduler is still idle after the drop stage.
pub open spec fn frame_do_deal(t: Table) -> bool {
    t.deal_pending && frame_q_after_drop(t).len() == 0
}

/// The animation queue after both bulk stages of one tick.
pub open spec fn frame_q_bulk(t: Table) -> Seq<Animation> {
    if frame_do_deal(t) {
        deal_queue(t)
    } else {
        frame_q_after_drop(t)
    }
}

/// The stack card-sequences after the bulk stages: a deal empties the deal
/// stack; nothing else moves yet.
pub open spec fn frame_views_bulk(t: Table) -> Seq<Seq<Card>> {
    if frame_do_deal(t) {
        stack_views(t.stacks@).update(14, Seq::<Card>::empty())
    } else {
        stack_views(t.stacks@)
    }
}

/// The transit buffer after the bulk stages: a drop empties it.
pub open spec fn frame_off_bulk(t: Table) -> Seq<Card> {
    if frame_do_drop(t) {
        Seq::<Card>::empty()
    } else {
        t.offscreen_stack.cards@
    }
}

/// Whether one tick materializes the queued single moves: the scheduler is
/// idle after the bulk stages.
pub open spec fn frame_do_moves(t: Table) -> bool {
    frame_q_bulk(t).len() == 0
}

/// The stack card-sequences right before the scheduler advances.
pub open spec fn frame_views_pre(t: Table) -> Seq<Seq<Card>> {
    if frame_do_moves(t) {
        apply_moves(t.stacks@, frame_views_bulk(t), frame_q_bulk(t), true, t.animove@).0
    } else {
        frame_views_bulk(t)
    }
}

/// The animation queue right before the scheduler advances.
pub open spec fn frame_queue_pre(t: Table) -> Seq<Animation> {
    if frame_do_moves(t) {
        apply_moves(t.stacks@, frame_views_bulk(t), frame_q_bulk(t), true, t.animove@).1
    } else {
        frame_q_bulk(t)
    }
}

/// Applying moves reads only the anchors and roles of the anchor stacks:
/// two stack sequences that agree on those give the same result.
pub proof fn lemma_apply_moves_anchors(
    a1: Seq<Stack>,
    a2: Seq<Stack>,
    views: Seq<Seq<Card>>,
    q: Seq<Animation>,
    first: bool,
    moves: Seq<(usize, usize)>,
)
    requires
        a1.len() == a2.len(),
        forall|i: int|
            0 <= i < a1.len() ==> (#[trigger] a1[i]).anchor == a2[i].anchor && a1[i].role
                == a2[i].role,
        forall|k: int| 0 <= k < moves.len() ==> (#[trigger] moves[k]).1 < a1.len(),
    ensures
        apply_moves(a1, views, q, first, moves) == apply_moves(a2, views, q, first, moves),
    decreases moves.len(),
{
    if moves.len() > 0 {
        assert(forall|k: int|
            0 <= k < moves.len() - 1 ==> #[trigger] moves.drop_last()[k] == moves[k]);
        lemma_apply_moves_anchors(a1, a2, views, q, first, moves.drop_last());
        let mid = apply_moves(a1, views, q, first, moves.drop_last());
        let mv = moves.last();
        assert(mv == moves[moves.len() - 1]);
        let dst = mv.1 as int;
        assert(crate::cardstack::card_pos_at(
            a1[dst],
            mid.0.update(mv.0 as int, mid.0[mv.0 as int].drop_last())[dst].len() as int,
        ) == crate::cardstack::card_pos_at(
            a2[dst],
            mid.0.update(mv.0 as int, mid.0[mv.0 as int].drop_last())[dst].len() as int,
        ));
    }
}

/// The first button the point hits, scanning from index `i` upward.
pub open spec fn first_hit_button(bs: Seq<Button>, x: int, y: int, i: int) -> Option<int>
    decreases bs.len() - i,
{
    if i < 0 || i >= bs.len() {
        Option::None
    } else if button_hit(bs[i], x, y) {
        Option::Some(i)
    } else {
        first_hit_button(bs, x, y, i + 1)
    }
}

/// The stacks a button press scans for exposed dragons: the dragon and
/// solitaire stacks.
pub open spec fn scan_index(i: int) -> bool {
    (0 <= i < 3) || (6 <= i < 14)
}

/// Whether the stack's exposed card is a dragon of this color.
pub open spec fn dragon_on_top(s: Stack, color: Color) -> bool {
    s.cards@.len() > 0 && s.cards@.last().suite == Suite::Dragon(color)
}

/// The single-card moves a collection of `color` toward stack `t` queues:
/// one per scanned stack with index below `hi` whose exposed card is a
/// matching dragon, in display order.
pub open spec fn collect_moves(pre: Seq<Stack>, color: Color, t: usize, hi: int) -> Seq<
    (usize, usize),
>
    decreases hi,
{
    if hi <= 0 {
        Seq::empty()
    } else {
        collect_moves(pre, color, t, hi - 1) + (if scan_index(hi - 1) && dragon_on_top(
            pre[hi - 1],
            color,
        ) {
            seq![((hi - 1) as usize, t)]
        } else {
            Seq::<(usize, usize)>::empty()
        })
    }
}

/// Whether the point (`x`, `y`) lies on the button.
pub open spec fn button_hit(b: Button, x: int, y: int) -> bool {
    b.pos.x - BUTTON_W <= x <= b.pos.x + BUTTON_W && b.pos.y - BUTTON_H <= y <= b.pos.y
        + BUTTON_H
}

/// The aggregate root: owns the stacks, buttons, scheduler and the pending
/// bulk-operation queues.
#[derive(Debug)]
pub struct Table {
    /// Stack contents changed since the last rule pass.
    pub dirty: bool,
    /// The 15 visible stacks, in display order.
    pub stacks: Vec<Stack>,
    /// Hidden transit buffer holding the shuffled deck before a deal.
    pub offscreen_stack: Stack,
    /// The three dragon-collection buttons.
    pub buttons: Vec<Button>,
    /// All in-flight animations.
    pub animations: AnimationHandler,
    /// A bulk deal is requested and waits for an idle scheduler.
    pub deal_pending: bool,
    /// A bulk drop (return to the deal stack) is requested and waits.
    pub drop_pending: bool,
    /// Queued single-card moves, as (source, destination) stack indices.
    pub animove: Vec<(usize, usize)>,
}

impl Table {
    /// The multiset of card identities on the whole table: every stack, the
    /// transit buffer, and every in-flight animation.
    pub open spec fn all_cards(self) -> Multiset<Suite> {
        stacks_ms(self.stacks@).add(suites_of(self.offscreen_stack.cards@)).add(
            flight_ms(self.animations.queue@),
        )
    }

    /// The conserved state: the table holds exactly the canonical deck.
    pub open spec fn deck_complete(self) -> bool {
        self.all_cards() == deck_ms()
    }

    /// Structural well-formedness: 15 stacks with their fixed roles and
    /// in-bounds anchors, three buttons, a sorted animation queue aimed at
    /// existing stacks, queued moves within bounds, and a card total small
    /// enough for the layout arithmetic.
    pub open spec fn wf(self) -> bool {
        &&& self.stacks@.len() == 15
        &&& forall|i: int| 0 <= i < 15 ==> (#[trigger] self.stacks@[i]).wf()
        &&& forall|i: int| 0 <= i < 15 ==> role_ok(i, (#[trigger] self.stacks@[i]).role)
        &&& self.offscreen_stack.wf()
        &&& self.offscreen_stack.role == StackRole::Animation
        &&& self.buttons@.len() == 3
        &&& sorted_by_finish(self.animations.queue@)
        &&& forall|i: int|
            0 <= i < self.animations.queue@.len() ==> (#[trigger] self.animations.queue@[i]).target_stack < 15
        &&& forall|k: int|
            0 <= k < self.animove@.len() ==> (#[trigger] self.animove@[k]).0 < 15
                && self.animove@[k].1 < 15
        &&& self.all_cards().len() <= CARD_LIMIT
    }

    pub fn new() -> (t: Table)
        ensures
            t.wf(),
            t.all_cards() == Multiset::<Suite>::empty(),
            t.dirty,
            !t.deal_pending,
            !t.drop_pending,
            t.animove@.len() == 0,
            t.animations.queue@.len() == 0,
            forall|i: int| 0 <= i < 15 ==> (#[trigger] t.stacks@[i]).cards@.len() == 0,
            forall|i: int| 0 <= i < 15 ==> (#[trigger] t.stacks@[i]).role == initial_role(i),
            t.offscreen_stack.cards@.len() == 0,
            t.buttons@.len() == 3,
            t.buttons@[0].color == Color::Red,
            t.buttons@[1].color == Color::Green,
            t.buttons@[2].color == Color::White,
            forall|b: int| 0 <= b < 3 ==> (#[trigger] t.buttons@[b]).state == ButtonState::Up,
    {
        let mut buttons: Vec<Button> = Vec::new();
        let mut red = Button::new(Color::Red);
        red.pos = Pos { x: 53300, y: 5400 };
        buttons.push(red);
        let mut green = Button::new(Color::Green);
        green.pos = Pos { x: 53300, y: 13700 };
        buttons.push(green);
        let mut white = Button::new(Color::White);
        white.pos = Pos { x: 53300, y: 22000 };
        buttons.push(white);

        let mut stacks: Vec<Stack> = Vec::new();
        stacks.push(Stack::new_at(StackRole::Dragon, 4500, 2000));
        stacks.push(Stack::new_at(StackRole::Dragon, 19700, 2000));
        stacks.push(Stack::new_at(StackRole::Dragon, 34900, 2000));
        stacks.push(Stack::new_at(StackRole::Target, 80500, 2000));
        stacks.push(Stack::new_at(StackRole::Target, 95700, 2000));
        stacks.push(Stack::new_at(StackRole::Target, 110900, 2000));
        stacks.push(Stack::new_at(StackRole::Generic, 4500, 28300));
        stacks.push(Stack::new_at(StackRole::Generic, 19700, 28300));
        stacks.push(Stack::new_at(StackRole::Generic, 34900, 28300));
        stacks.push(Stack::new_at(StackRole::Generic, 50100, 28300));
        stacks.push(Stack::new_at(StackRole::Generic, 65300, 28300));
        stacks.push(Stack::new_at(StackRole::Generic, 80500, 28300));
        stacks.push(Stack::new_at(StackRole::Generic, 95700, 28300));
        stacks.push(Stack::new_at(StackRole::Generic, 110900, 28300));
        stacks.push(Stack::new_at(StackRole::Flower, 61400, 2000));

        let offscreen_stack = Stack::new_at(StackRole::Animation, 61400, -30000);

        let t = Table {
            dirty: true,
            stacks,
            offscreen_stack,
            buttons,
            animations: AnimationHandler::new(),
            deal_pending: false,
            drop_pending: false,
            animove: Vec::new(),
        };
        proof {
            lemma_stacks_ms_all_empty(t.stacks@);
            assert(t.all_cards() =~= Multiset::<Suite>::empty());
        }
        t
    }

    /// Half-open index range of the dragon stacks.
    pub fn dragon_stacks(&self) -> (r: (usize, usize))
        ensures
            r == (0usize, 3usize),
    {
        (0, 3)
    }

    /// Half-open index range of the target stacks.
    pub fn target_stacks(&self) -> (r: (usize, usize))
        ensures
            r == (3usize, 6usize),
    {
        (3, 6)
    }

    /// Half-open index range of the solitaire stacks.
    pub fn solitaire_stacks(&self) -> (r: (usize, usize))
        ensures
            r == (6usize, 14usize),
    {
        (6, 14)
    }

    /// Index of the flower/deal stack.
    pub fn flower_stack(&self) -> (r: usize)
        ensures
            r == 14,
    {
        14
    }

    /// The dragon and solitaire stack indices, in display order: the stacks
    /// whose exposed cards the buttons and rules inspect.
    pub fn dragon_and_solitaire_stacks(&self) -> (r: Vec<usize>)
        ensures
            r@ == seq![0usize, 1, 2, 6, 7, 8, 9, 10, 11, 12, 13],
    {
        let mut v: Vec<usize> = Vec::new();
        v.push(0);
        v.push(1);
        v.push(2);
        v.push(6);
        v.push(7);
        v.push(8);
        v.push(9);
        v.push(10);
        v.push(11);
        v.push(12);
        v.push(13);
        proof {
            assert(v@ =~= seq![0usize, 1, 2, 6, 7, 8, 9, 10, 11, 12, 13]);
        }
        v
    }

    pub fn get_stack(&self, i: usize) -> (s: &Stack)
        requires
            i < self.stacks@.len(),
        ensures
            *s == self.stacks@[i as int],
    {
        &self.stacks[i]
    }

    pub fn n_stacks(&self) -> (n: usize)
        ensures
            n == self.stacks@.len(),
    {
        self.stacks.len()
    }

    pub fn get_button(&self, i: usize) -> (b: &Button)
        requires
            i < self.buttons@.len(),
        ensures
            *b == self.buttons@[i as int],
    {
        &self.buttons[i]
    }

    /// Sets a button's state and marks the table dirty when it changed.
    pub fn set_button(&mut self, i: usize, state: ButtonState)
        requires
            i < old(self).buttons@.len(),
        ensures
            *final(self) == (Table {
                buttons: final(self).buttons,
                dirty: final(self).dirty,
                ..*old(self)
            }),
            final(self).buttons@ == old(self).buttons@.update(
                i as int,
                Button { state, ..old(self).buttons@[i as int] },
            ),
            final(self).dirty == (old(self).dirty || old(self).buttons@[i as int].state != state),
            old(self).wf() ==> final(self).wf(),
    {
        let changed = self.buttons[i].state != state;
        if changed {
            self.dirty = true;
        }
        let b = self.buttons[i];
        let nb = Button { state, ..b };
        self.buttons.set(i, nb);
    }

    pub fn n_buttons(&self) -> (n: usize)
        ensures
            n == self.buttons@.len(),
    {
        self.buttons.len()
    }

    pub fn set_dirty(&mut self)
        ensures
            *final(self) == (Table { dirty: true, ..*old(self) }),
            old(self).wf() ==> final(self).wf(),
    {
        self.dirty = true;
    }

    /// Rule evaluation and player input are eligible exactly while no
    /// animation is pending or active.
    pub fn game_enabled(&self) -> (r: bool)
        ensures
            r == (self.animations.queue@.len() == 0),
    {
        !self.animations.busy()
    }

    /// Requests the bulk return of the transit buffer to the deal stack;
    /// materialized by the next update with an idle scheduler.
    pub fn animate_drop(&mut self)
        ensures
            *final(self) == (Table { drop_pending: true, ..*old(self) }),
            old(self).wf() ==> final(self).wf(),
    {
        self.drop_pending = true;
    }

    /// Requests the bulk deal; materialized by the next update with an idle
    /// scheduler.
    pub fn animate_deal(&mut self)
        ensures
            *final(self) == (Table { deal_pending: true, ..*old(self) }),
            old(self).wf() ==> final(self).wf(),
    {
        self.deal_pending = true;
    }

    /// Queues a single-card move; materialized by the next update with an
    /// idle scheduler.
    pub fn animate_move(&mut self, src: usize, dst: usize)
        requires
            src < 15,
            dst < 15,
        ensures
            *final(self) == (Table { animove: final(self).animove, ..*old(self) }),
            final(self).animove@ == old(self).animove@.push((src, dst)),
            old(self).wf() ==> final(self).wf(),
    {
        self.animove.push((src, dst));
    }

    /// Resets the table for a new game: buttons up, every stack and
    /// animation cleared, the canonical 40-card deck rebuilt, shuffled
    /// uniformly at random, placed on the hidden transit buffer, and the
    /// bulk drop toward the deal stack requested.
    #[verifier::loop_isolation(false)]
    pub fn new_game(&mut self)
        requires
            old(self).wf(),
        ensures
            final(self).wf(),
            final(self).deck_complete(),
            final(self).drop_pending,
            !final(self).deal_pending,
            final(self).dirty,
            final(self).animations.queue@.len() == 0,
            final(self).animove@.len() == 0,
            forall|i: int| 0 <= i < 15 ==> (#[trigger] final(self).stacks@[i]).cards@.len() == 0,
            final(self).offscreen_stack.cards@.len() == 40,
            suites_of(final(self).offscreen_stack.cards@) == deck_ms(),
            forall|b: int|
                0 <= b < 3 ==> (#[trigger] final(self).buttons@[b]).state == ButtonState::Up
                    && final(self).buttons@[b].color == old(self).buttons@[b].color,
    {
        broadcast use vstd::seq_lib::group_to_multiset_ensures;

        let mut b: usize = 0;
        while b < 3
            invariant
                b <= 3,
                self.buttons@.len() == 3,
                forall|k: int|
                    0 <= k < 3 ==> (#[trigger] self.buttons@[k]).color == old(
                        self,
                    ).buttons@[k].color,
                forall|k: int| 0 <= k < b ==> (#[trigger] self.buttons@[k]).state == ButtonState::Up,
                self.stacks@ == old(self).stacks@,
                self.offscreen_stack == old(self).offscreen_stack,
                self.animations.queue@ == old(self).animations.queue@,
                self.animove@ == old(self).animove@,
            decreases 3 - b,
        {
            let btn = self.buttons[b];
            self.buttons.set(b, Button { state: ButtonState::Up, ..btn });
            b = b + 1;
        }
        let ghost btns = self.buttons@;
        let mut i: usize = 0;
        while i < 15
            invariant
                i <= 15,
                self.stacks@.len() == 15,
                forall|k: int| 0 <= k < i ==> (#[trigger] self.stacks@[k]).cards@.len() == 0,
                forall|k: int|
                    0 <= k < 15 ==> (#[trigger] self.stacks@[k]).role == old(
                        self,
                    ).stacks@[k].role && self.stacks@[k].anchor == old(self).stacks@[k].anchor,
                self.buttons@ == btns,
                self.offscreen_stack == old(self).offscreen_stack,
            decreases 15 - i,
        {
            self.stacks[i].clear();
            i = i + 1;
        }
        self.offscreen_stack.clear();
        self.animations.clear();
        self.animove = Vec::new();
        self.deal_pending = false;
        self.drop_pending = true;
        self.dirty = true;

        let mut cards: Vec<Card> = Vec::new();
        let mut k: usize = 0;
        while k < 40
            invariant
                k <= 40,
                cards@.len() == k,
                forall|idx: int| 0 <= idx < k ==> (#[trigger] cards@[idx]).suite == deck_card(idx),
            decreases 40 - k,
        {
            cards.push(Card::new(suite_at(k)));
            k = k + 1;
        }
        proof {
            assert(cards@.map_values(|c: Card| c.suite) =~= deck_seq());
            lemma_suites_of_to_multiset(cards@);
        }
        shuffle_deck(&mut cards);
        proof {
            lemma_suites_of_to_multiset(cards@);
            assert(suites_of(cards@) == deck_ms());
        }
        let n = cards.len();
        let ghost shuffled = cards@;
        let mut j: usize = 0;
        proof {
            assert(shuffled.take(0) =~= Seq::<Card>::empty());
        }
        while j < n
            invariant
                j <= n,
                cards@ == shuffled,
                n == shuffled.len(),
                self.offscreen_stack.cards@ == shuffled.take(j as int),
                self.offscreen_stack.role == StackRole::Animation,
                self.offscreen_stack.anchor == old(self).offscreen_stack.anchor,
                self.stacks@.len() == 15,
                forall|k: int| 0 <= k < 15 ==> (#[trigger] self.stacks@[k]).cards@.len() == 0,
                forall|k: int|
                    0 <= k < 15 ==> (#[trigger] self.stacks@[k]).role == old(
                        self,
                    ).stacks@[k].role && self.stacks@[k].anchor == old(self).stacks@[k].anchor,
                self.animations.queue@.len() == 0,
                self.animove@.len() == 0,
                self.buttons@ == btns,
                !self.deal_pending,
                self.drop_pending,
                self.dirty,
            decreases n - j,
        {
            let c = cards[j];
            self.offscreen_stack.push_card(c);
            proof {
                assert(shuffled.take(j as int).push(c) =~= shuffled.take(j as int + 1));
            }
            j = j + 1;
        }
        proof {
            assert(shuffled.take(n as int) =~= shuffled);
            lemma_stacks_ms_all_empty(self.stacks@);
            assert(self.all_cards() =~= suites_of(self.offscreen_stack.cards@));
            assert(deck_ms().len() == deck_seq().len());
        }
    }

    /// Moves the exposed card of `src` onto `dst`, turned face up, in one
    /// step: the primitive behind every automatic rule move.
    pub fn auto_move(&mut self, src: usize, dst: usize)
        requires
            old(self).wf(),
            src < 15,
            dst < 15,
            src != dst,
            old(self).stacks@[src as int].cards@.len() > 0,
        ensures
            final(self).wf(),
            final(self).all_cards() == old(self).all_cards(),
            final(self).stacks@.len() == 15,
            final(self).stacks@ == old(self).stacks@.update(
                src as int,
                final(self).stacks@[src as int],
            ).update(dst as int, final(self).stacks@[dst as int]),
            final(self).stacks@[src as int].cards@ == old(self).stacks@[src as int].cards@.drop_last(),
            final(self).stacks@[dst as int].cards@ == old(self).stacks@[dst as int].cards@.push(
                Card { faceup: true, ..old(self).stacks@[src as int].cards@.last() },
            ),
            forall|k: int|
                0 <= k < 15 && k != src && k != dst ==> #[trigger] final(self).stacks@[k] == old(
                    self,
                ).stacks@[k],
            final(self).offscreen_stack == old(self).offscreen_stack,
            final(self).animations == old(self).animations,
            final(self).animove == old(self).animove,
            final(self).buttons == old(self).buttons,
            final(self).deal_pending == old(self).deal_pending,
            final(self).drop_pending == old(self).drop_pending,
            final(self).dirty,
    {
        broadcast use vstd::multiset::group_multiset_axioms;

        let ghost pre = self.stacks@;
        let popped = self.stacks[src].pop_card();
        let c = match popped {
            Option::Some(c) => c,
            Option::None => {
                proof {
                    assert(false);
                }
                Card::new(Suite::Flower)
            },
        };
        let ghost mid = self.stacks@;
        proof {
            assert(mid == pre.update(src as int, mid[src as int]));
            lemma_stacks_ms_update(pre, src as int, mid[src as int]);
        }
        let c2 = Card { faceup: true, ..c };
        self.stacks[dst].push_card(c2);
        proof {
            let fin = self.stacks@;
            assert(fin == mid.update(dst as int, fin[dst as int]));
            assert(mid[dst as int] == pre[dst as int]);
            lemma_stacks_ms_update(mid, dst as int, fin[dst as int]);
            assert forall|x: Suite| stacks_ms(fin).count(x) == stacks_ms(pre).count(x) by {
                assert(stacks_ms(mid).add(pre[src as int].suites()).count(x) == stacks_ms(
                    pre,
                ).add(mid[src as int].suites()).count(x));
                assert(stacks_ms(fin).add(mid[dst as int].suites()).count(x) == stacks_ms(
                    mid,
                ).add(fin[dst as int].suites()).count(x));
                assert(pre[src as int].suites().count(x) == mid[src as int].suites().insert(
                    c.suite,
                ).count(x));
                assert(fin[dst as int].suites().count(x) == mid[dst as int].suites().insert(
                    c2.suite,
                ).count(x));
            }
            assert(stacks_ms(fin) =~= stacks_ms(pre));
            assert(fin =~= pre.update(src as int, fin[src as int]).update(
                dst as int,
                fin[dst as int],
            ));
        }
        self.dirty = true;
    }

    /// Materializes the pending bulk drop: every card of the transit buffer
    /// is sent flying toward the deal stack, with a small incremental start
    /// delay per card so the cards fan out, and a pickup sound on every
    /// tenth card.
    #[verifier::loop_isolation(false)]
    pub fn schedule_drop(&mut self)
        requires
            old(self).wf(),
            old(self).animations.queue@.len() == 0,
        ensures
            final(self).wf(),
            final(self).all_cards() == old(self).all_cards(),
            final(self).offscreen_stack.cards@.len() == 0,
            final(self).animations.queue@.len() == old(self).offscreen_stack.cards@.len(),
            forall|k: int|
                0 <= k < final(self).animations.queue@.len() ==> #[trigger] final(self).animations.queue@[k] == drop_anim(old(self).offscreen_stack.cards@, old(self).stacks@[14], k),
            final(self).stacks@ == old(self).stacks@,
            final(self).buttons@ == old(self).buttons@,
            final(self).animove@ == old(self).animove@,
            final(self).deal_pending == old(self).deal_pending,
            final(self).drop_pending == old(self).drop_pending,
            final(self).dirty == old(self).dirty,
    {
        broadcast use vstd::multiset::group_multiset_axioms;

        proof {
            lemma_table_bounds(*self);
        }
        let total = self.offscreen_stack.len();
        let ghost off0 = self.offscreen_stack.cards@;
        let mut k: usize = 0;
        let mut t_start: u64 = 0;
        proof {
            assert(off0.take(total as int) =~= off0);
        }
        while k < total
            invariant
                k <= total,
                total <= CARD_LIMIT,
                t_start == k as u64 * DROP_INTERVAL,
                self.offscreen_stack.cards@ == off0.take((total - k) as int),
                self.offscreen_stack.role == old(self).offscreen_stack.role,
                self.offscreen_stack.anchor == old(self).offscreen_stack.anchor,
                self.stacks@ == old(self).stacks@,
                self.buttons@ == old(self).buttons@,
                self.animove@ == old(self).animove@,
                self.deal_pending == old(self).deal_pending,
                self.drop_pending == old(self).drop_pending,
                self.dirty == old(self).dirty,
                self.animations.queue@.len() == k,
                sorted_by_finish(self.animations.queue@),
                forall|i: int|
                    0 <= i < self.animations.queue@.len() ==> finish_total(
                        #[trigger] self.animations.queue@[i],
                    ) <= k as int * DROP_INTERVAL + DROP_DURATION,
                forall|ki: int|
                    0 <= ki < self.animations.queue@.len() ==> #[trigger] self.animations.queue@[ki] == drop_anim(off0, old(self).stacks@[14], ki),
                suites_of(self.offscreen_stack.cards@).add(flight_ms(self.animations.queue@))
                    =~= suites_of(off0),
            decreases total - k,
        {
            let popped = self.offscreen_stack.pop_card();
            let card = match popped {
                Option::Some(c) => c,
                Option::None => {
                    proof {
                        assert(false);
                    }
                    Card::new(Suite::Flower)
                },
            };
            let sound = if k % 10 == 0 {
                Sound::Pickup
            } else {
                Sound::Silent
            };
            let dest = self.stacks[14].calc_card_pos(k);
            let anim = Animation::new(card, dest, t_start, DROP_DURATION, 14, Sound::Silent, sound);
            proof {
                assert(finish_total(anim) == t_start + DROP_DURATION);
            }
            self.animations.add(anim);
            proof {
                assert(suites_of(self.offscreen_stack.cards@).add(
                    flight_ms(self.animations.queue@),
                ) =~= suites_of(off0));
            }
            t_start = t_start + DROP_INTERVAL;
            k = k + 1;
        }
        proof {
            assert(self.offscreen_stack.cards@ =~= off0.take(0));
            assert(self.all_cards() =~= old(self).all_cards());
        }
    }

    /// Materializes the pending bulk deal: the deal stack is emptied
    /// cyclically onto the eight solitaire stacks, each card face up, with
    /// a fixed interval between cards and destination slots computed as if
    /// earlier cards had already landed.
    #[verifier::loop_isolation(false)]
    pub fn schedule_deal(&mut self)
        requires
            old(self).wf(),
            old(self).animations.queue@.len() == 0,
        ensures
            final(self).wf(),
            final(self).all_cards() == old(self).all_cards(),
            final(self).stacks@[14].cards@.len() == 0,
            final(self).stacks@[14].role == old(self).stacks@[14].role,
            final(self).stacks@[14].anchor == old(self).stacks@[14].anchor,
            final(self).animations.queue@.len() == old(self).stacks@[14].cards@.len(),
            forall|k: int|
                0 <= k < final(self).animations.queue@.len() ==> #[trigger] final(self).animations.queue@[k] == deal_anim(old(self).stacks@, old(self).stacks@[14].cards@, k),
            final(self).offscreen_stack == old(self).offscreen_stack,
            final(self).buttons@ == old(self).buttons@,
            final(self).animove@ == old(self).animove@,
            final(self).deal_pending == old(self).deal_pending,
            final(self).drop_pending == old(self).drop_pending,
            final(self).dirty == old(self).dirty,
            forall|j: int| 0 <= j < 15 && j != 14 ==> #[trigger] final(self).stacks@[j] == old(
                self,
            ).stacks@[j],
    {
        broadcast use vstd::multiset::group_multiset_axioms;

        proof {
            lemma_table_bounds(*self);
        }
        let total = (&self.stacks[14]).len();
        let ghost flower0 = self.stacks@[14].cards@;
        let ghost pre = self.stacks@;
        let mut cnt: usize = 0;
        let mut t_start: u64 = 0;
        proof {
            assert(flower0.take(total as int) =~= flower0);
        }
        while cnt < total
            invariant
                cnt <= total,
                total <= CARD_LIMIT,
                t_start == cnt as u64 * DEAL_INTERVAL,
                self.stacks@.len() == 15,
                self.stacks@ == pre.update(14, self.stacks@[14]),
                self.stacks@[14].cards@ == flower0.take((total - cnt) as int),
                self.stacks@[14].role == pre[14].role,
                self.stacks@[14].anchor == pre[14].anchor,
                self.offscreen_stack == old(self).offscreen_stack,
                self.buttons@ == old(self).buttons@,
                self.animove@ == old(self).animove@,
                self.deal_pending == old(self).deal_pending,
                self.drop_pending == old(self).drop_pending,
                self.dirty == old(self).dirty,
                self.animations.queue@.len() == cnt,
                sorted_by_finish(self.animations.queue@),
                forall|i: int|
                    0 <= i < self.animations.queue@.len() ==> finish_total(
                        #[trigger] self.animations.queue@[i],
                    ) <= cnt as int * DEAL_INTERVAL + ANIMATION_DURATION,
                forall|ki: int|
                    0 <= ki < self.animations.queue@.len() ==> #[trigger] self.animations.queue@[ki] == deal_anim(pre, flower0, ki),
                suites_of(self.stacks@[14].cards@).add(flight_ms(self.animations.queue@))
                    =~= suites_of(flower0),
            decreases total - cnt,
        {
            let ghost mid = self.stacks@;
            let popped = self.stacks[14].pop_card();
            let card = match popped {
                Option::Some(c) => c,
                Option::None => {
                    proof {
                        assert(false);
                    }
                    Card::new(Suite::Flower)
                },
            };
            let card = Card { faceup: true, ..card };
            let t: usize = 6 + (cnt % 8);
            let n: usize = cnt / 8;
            let dest = self.stacks[t].calc_card_pos(n);
            let anim = Animation::new(
                card,
                dest,
                t_start,
                ANIMATION_DURATION,
                t,
                Sound::Place,
                Sound::Silent,
            );
            self.animations.add(anim);
            proof {
                assert(self.stacks@ =~= pre.update(14, self.stacks@[14]));
                assert(suites_of(self.stacks@[14].cards@).add(flight_ms(self.animations.queue@))
                    =~= suites_of(flower0));
            }
            t_start = t_start + DEAL_INTERVAL;
            cnt = cnt + 1;
        }
        proof {
            assert(self.stacks@[14].cards@ =~= flower0.take(0));
            lemma_stacks_ms_update(pre, 14, self.stacks@[14 as int]);
            assert forall|x: Suite|
                self.all_cards().count(x) == old(self).all_cards().count(x) by {
                assert(stacks_ms(self.stacks@).add(pre[14].suites()).count(x) == stacks_ms(
                    pre,
                ).add(self.stacks@[14].suites()).count(x));
                assert(suites_of(self.stacks@[14].cards@).add(
                    flight_ms(self.animations.queue@),
                ).count(x) == suites_of(flower0).count(x));
            }
            assert(self.all_cards() =~= old(self).all_cards());
        }
    }

    /// Materializes the queued single-card moves: each source stack loses
    /// its exposed card to an animation toward its destination stack, with
    /// at most one sweep sound for the whole batch. A queued move whose
    /// source has meanwhile emptied is skipped.
    ///
    /// Moves require an idle scheduler: adding their short flights behind a
    /// longer bulk flight would break the delivery-time ordering of the
    /// queue on which the chunking-determinism guarantee rests. Since
    /// player input is gated while the scheduler is busy, a queued move can
    /// only wait when a click races a bulk request into the same tick; it
    /// is materialized on the first idle tick after.
    #[verifier::loop_isolation(false)]
    pub fn schedule_moves(&mut self)
        requires
            old(self).wf(),
            old(self).animations.queue@.len() == 0,
        ensures
            final(self).wf(),
            final(self).all_cards() == old(self).all_cards(),
            final(self).animove@.len() == 0,
            ({
                let r = apply_moves(
                    old(self).stacks@,
                    stack_views(old(self).stacks@),
                    Seq::<Animation>::empty(),
                    true,
                    old(self).animove@,
                );
                stack_views(final(self).stacks@) == r.0 && final(self).animations.queue@ == r.1
            }),
            forall|j: int|
                0 <= j < 15 ==> (#[trigger] final(self).stacks@[j]).role == old(
                    self,
                ).stacks@[j].role && final(self).stacks@[j].anchor == old(self).stacks@[j].anchor,
            final(self).offscreen_stack == old(self).offscreen_stack,
            final(self).buttons@ == old(self).buttons@,
            final(self).deal_pending == old(self).deal_pending,
            final(self).drop_pending == old(self).drop_pending,
            final(self).dirty == old(self).dirty,
            old(self).animove@.len() == 0 ==> final(self).stacks@ == old(self).stacks@ && final(self).animations.queue@ == old(self).animations.queue@,
    {
        broadcast use vstd::multiset::group_multiset_axioms;

        let ghost pre0 = old(self).stacks@;
        let ghost views0 = stack_views(old(self).stacks@);
        let ghost moves0 = old(self).animove@;
        proof {
            assert(moves0.take(0) =~= Seq::<(usize, usize)>::empty());
        }
        let nmoves = self.animove.len();
        let mut m: usize = 0;
        let mut sound = Sound::Sweep;
        while m < nmoves
            invariant
                m <= nmoves,
                self.wf(),
                nmoves == self.animove@.len(),
                self.animove@ == moves0,
                nmoves == 0 ==> self.stacks@ == old(self).stacks@ && self.animations.queue@ == old(self).animations.queue@,
                ({
                    let r = apply_moves(pre0, views0, Seq::<Animation>::empty(), true, moves0.take(m as int));
                    stack_views(self.stacks@) == r.0 && self.animations.queue@ == r.1 && sound == (if r.2 { Sound::Sweep } else { Sound::Silent })
                }),
                forall|j: int|
                    0 <= j < 15 ==> (#[trigger] self.stacks@[j]).role == pre0[j].role
                        && self.stacks@[j].anchor == pre0[j].anchor,
                self.all_cards() == old(self).all_cards(),
                self.offscreen_stack == old(self).offscreen_stack,
                self.buttons@ == old(self).buttons@,
                self.deal_pending == old(self).deal_pending,
                self.drop_pending == old(self).drop_pending,
                self.dirty == old(self).dirty,
                forall|i: int|
                    0 <= i < self.animations.queue@.len() ==> finish_total(
                        #[trigger] self.animations.queue@[i],
                    ) <= ANIMATION_DURATION,
            decreases nmoves - m,
        {
            let (src, dst) = self.animove[m];
            proof {
                lemma_table_bounds(*self);
                assert(moves0.take(m as int + 1).drop_last() =~= moves0.take(m as int));
                assert(moves0.take(m as int + 1).last() == moves0[m as int]);
            }
            let ghost pre = self.stacks@;
            let ghost preq = self.animations.queue@;
            let popped = self.stacks[src].pop_card();
            match popped {
                Option::Some(card) => {
                    proof {
                        assert(self.stacks@ =~= pre.update(src as int, self.stacks@[src as int]));
                        lemma_stacks_ms_update(pre, src as int, self.stacks@[src as int]);
                    }
                    let dlen = (&self.stacks[dst]).len();
                    let dest = self.stacks[dst].calc_card_pos(dlen);
                    let anim = Animation::new(
                        card,
                        dest,
                        0,
                        ANIMATION_DURATION,
                        dst,
                        sound,
                        Sound::Silent,
                    );
                    self.animations.add(anim);
                    proof {
                        let r_prev = apply_moves(pre0, views0, Seq::<Animation>::empty(), true, moves0.take(m as int));
                        let r_next = apply_moves(pre0, views0, Seq::<Animation>::empty(), true, moves0.take(m as int + 1));
                        assert(r_next == apply_move(pre0, r_prev.0, r_prev.1, r_prev.2, moves0[m as int]));
                        assert(r_prev.0[src as int] == pre[src as int].cards@);
                        assert(r_prev.0[src as int].len() > 0);
                        assert(stack_views(self.stacks@) =~= r_prev.0.update(src as int, pre[src as int].cards@.drop_last()));
                        assert(crate::cardstack::card_pos_at(self.stacks@[dst as int], dlen as int) == crate::cardstack::card_pos_at(pre0[dst as int], dlen as int));
                        assert(stack_views(self.stacks@)[dst as int].len() == dlen);
                        assert(anim == apply_move(pre0, r_prev.0, r_prev.1, r_prev.2, moves0[m as int]).1.last());
                        assert(stack_views(self.stacks@) == r_next.0);
                        assert(self.animations.queue@ == r_next.1);
                        assert(!r_next.2);
                    }
                    sound = Sound::Silent;
                    proof {
                        assert forall|x: Suite|
                            self.all_cards().count(x) == old(self).all_cards().count(x) by {
                            assert(stacks_ms(self.stacks@).add(pre[src as int].suites()).count(x)
                                == stacks_ms(pre).add(self.stacks@[src as int].suites()).count(x));
                            assert(pre[src as int].suites().count(x)
                                == self.stacks@[src as int].suites().insert(card.suite).count(x));
                            assert(flight_ms(self.animations.queue@).count(x) == flight_ms(
                                preq,
                            ).insert(card.suite).count(x));
                        }
                        assert(self.all_cards() =~= old(self).all_cards());
                    }
                },
                Option::None => {
                    proof {
                        assert(self.stacks@ =~= pre.update(src as int, self.stacks@[src as int]));
                        lemma_stacks_ms_update(pre, src as int, self.stacks@[src as int]);
                        assert(self.stacks@[src as int].suites() == pre[src as int].suites());
                        assert forall|x: Suite|
                            self.all_cards().count(x) == old(self).all_cards().count(x) by {
                            assert(stacks_ms(self.stacks@).add(pre[src as int].suites()).count(x)
                                == stacks_ms(pre).add(self.stacks@[src as int].suites()).count(x));
                        }
                        assert(self.all_cards() =~= old(self).all_cards());
                        let r_prev = apply_moves(pre0, views0, Seq::<Animation>::empty(), true, moves0.take(m as int));
                        let r_next = apply_moves(pre0, views0, Seq::<Animation>::empty(), true, moves0.take(m as int + 1));
                        assert(r_next == apply_move(pre0, r_prev.0, r_prev.1, r_prev.2, moves0[m as int]));
                        assert(r_prev.0[src as int] == pre[src as int].cards@);
                        assert(r_prev.0[src as int].len() == 0);
                        assert(stack_views(self.stacks@) =~= r_prev.0);
                    }
                },
            }
            m = m + 1;
        }
        proof {
            assert(moves0.take(nmoves as int) =~= moves0);
        }
        self.animove = Vec::new();
    }

    /// Steps one frame, without rule evaluation: materializes a pending
    /// bulk drop or deal when the scheduler is idle, then the queued single
    /// moves when it is still idle, advances the scheduler by `dt`
    /// nanoseconds, and pushes every delivered card onto its destination
    /// stack, marking the table dirty. Every effect is pinned to the frame
    /// pipeline spec functions. Returns the due sound triggers.
    #[verifier::loop_isolation(false)]
    #[verifier::rlimit(60)]
    pub fn advance_frame(&mut self, dt: u64) -> (sounds: Vec<Sound>)
        requires
            old(self).wf(),
        ensures
            final(self).wf(),
            final(self).all_cards() == old(self).all_cards(),
            stack_views(final(self).stacks@) == deliver_views(
                frame_views_pre(*old(self)),
                completions_spec(frame_queue_pre(*old(self)), dt as int),
            ),
            final(self).animations.queue@ == survivors_spec(frame_queue_pre(*old(self)), dt as int),
            sounds@ == sounds_spec(frame_queue_pre(*old(self)), dt as int),
            final(self).offscreen_stack.cards@ == frame_off_bulk(*old(self)),
            final(self).drop_pending == (old(self).drop_pending && !frame_do_drop(*old(self))),
            final(self).deal_pending == (old(self).deal_pending && !frame_do_deal(*old(self))),
            final(self).animove@ == (if frame_do_moves(*old(self)) {
                Seq::<(usize, usize)>::empty()
            } else {
                old(self).animove@
            }),
            final(self).dirty == (old(self).dirty || completions_spec(
                frame_queue_pre(*old(self)),
                dt as int,
            ).len() > 0),
            final(self).buttons@ == old(self).buttons@,
            forall|j: int|
                0 <= j < 15 ==> (#[trigger] final(self).stacks@[j]).role == old(
                    self,
                ).stacks@[j].role && final(self).stacks@[j].anchor == old(self).stacks@[j].anchor,
    {
        broadcast use vstd::multiset::group_multiset_axioms;

        if self.drop_pending && !self.animations.busy() {
            self.drop_pending = false;
            self.schedule_drop();
            proof {
                assert(self.animations.queue@ =~= drop_queue(*old(self)));
            }
        }
        proof {
            assert(self.animations.queue@ == frame_q_after_drop(*old(self)));
        }
        if self.deal_pending && !self.animations.busy() {
            self.deal_pending = false;
            let ghost pre_deal = *self;
            self.schedule_deal();
            proof {
                assert(pre_deal.stacks@ == old(self).stacks@);
                assert forall|k: int|
                    0 <= k < self.animations.queue@.len() implies #[trigger] self.animations.queue@[k]
                    == deal_anim(old(self).stacks@, old(self).stacks@[14].cards@, k) by {
                    assert(self.animations.queue@[k] == deal_anim(
                        pre_deal.stacks@,
                        pre_deal.stacks@[14].cards@,
                        k,
                    ));
                }
                assert(self.animations.queue@ =~= deal_queue(*old(self)));
                assert(self.stacks@[14].cards@ =~= Seq::<Card>::empty());
                assert(stack_views(self.stacks@) =~= frame_views_bulk(*old(self)));
            }
        }
        proof {
            assert(self.animations.queue@ == frame_q_bulk(*old(self)));
            assert(stack_views(self.stacks@) =~= frame_views_bulk(*old(self)));
            assert(self.animove@ == old(self).animove@);
        }
        if !self.animations.busy() {
            let ghost pre_moves = *self;
            self.schedule_moves();
            proof {
                assert(frame_do_moves(*old(self)));
                assert(frame_q_bulk(*old(self)) =~= Seq::<Animation>::empty());
                assert(stack_views(pre_moves.stacks@) == frame_views_bulk(*old(self)));
                assert(pre_moves.animove@ == old(self).animove@);
                lemma_apply_moves_anchors(
                    pre_moves.stacks@,
                    old(self).stacks@,
                    stack_views(pre_moves.stacks@),
                    Seq::<Animation>::empty(),
                    true,
                    pre_moves.animove@,
                );
                assert(stack_views(self.stacks@) == frame_views_pre(*old(self)));
                assert(self.animations.queue@ == frame_queue_pre(*old(self)));
            }
        }
        proof {
            assert(stack_views(self.stacks@) == frame_views_pre(*old(self)));
            assert(self.animations.queue@ == frame_queue_pre(*old(self)));
        }
        let ghost mid = *self;
        let ghost q0 = self.animations.queue@;
        let ghost views2 = stack_views(mid.stacks@);
        let (comps, sounds) = self.animations.update(dt);
        proof {
            lemma_advance_conserves(q0, dt as int);
            crate::animation::lemma_completions_targets(q0, dt as int, 15);
            crate::animation::lemma_survivors_targets(q0, dt as int, 15);
            lemma_survivors_sorted(q0, dt as int);
            assert(comps@.skip(0) =~= comps@);
            assert(comps@.take(0) =~= Seq::<(Card, usize)>::empty());
            assert forall|x: Suite|
                self.all_cards().add(comps_ms(comps@)).count(x) == mid.all_cards().count(x) by {
                assert(flight_ms(q0).count(x) == flight_ms(self.animations.queue@).add(
                    comps_ms(comps@),
                ).count(x));
            }
            assert(self.all_cards().add(comps_ms(comps@)) =~= mid.all_cards());
        }
        let ncomps = comps.len();
        let mut k: usize = 0;
        while k < ncomps
            invariant
                k <= ncomps,
                ncomps == comps@.len(),
                self.wf(),
                self.dirty == (mid.dirty || k > 0),
                self.offscreen_stack == mid.offscreen_stack,
                self.buttons@ == mid.buttons@,
                self.animove@ == mid.animove@,
                self.deal_pending == mid.deal_pending,
                self.drop_pending == mid.drop_pending,
                stack_views(self.stacks@) == deliver_views(views2, comps@.take(k as int)),
                forall|j: int|
                    0 <= j < 15 ==> (#[trigger] self.stacks@[j]).role == mid.stacks@[j].role
                        && self.stacks@[j].anchor == mid.stacks@[j].anchor,
                self.all_cards().add(comps_ms(comps@.skip(k as int))) == mid.all_cards(),
                mid.all_cards() == old(self).all_cards(),
                forall|i: int| 0 <= i < ncomps ==> (#[trigger] comps@[i]).1 < 15,
                self.animations.queue@ == survivors_spec(q0, dt as int),
            decreases ncomps - k,
        {
            let (card, t) = comps[k];
            let ghost pre = self.stacks@;
            self.stacks[t].push_card(card);
            self.dirty = true;
            proof {
                assert(self.stacks@ =~= pre.update(t as int, self.stacks@[t as int]));
                lemma_stacks_ms_update(pre, t as int, self.stacks@[t as int]);
                crate::animation::lemma_comps_ms_skip(comps@, k as int);
                assert(comps@.take(k as int + 1).drop_last() =~= comps@.take(k as int));
                assert(comps@.take(k as int + 1).last() == comps@[k as int]);
                assert(stack_views(self.stacks@) =~= deliver_views(
                    views2,
                    comps@.take(k as int),
                ).update(t as int, deliver_views(views2, comps@.take(k as int))[t as int].push(card)));
                assert forall|x: Suite|
                    self.all_cards().add(comps_ms(comps@.skip(k as int + 1))).count(x)
                        == mid.all_cards().count(x) by {
                    assert(stacks_ms(self.stacks@).add(pre[t as int].suites()).count(x)
                        == stacks_ms(pre).add(self.stacks@[t as int].suites()).count(x));
                    assert(self.stacks@[t as int].suites().count(x) == pre[t as int].suites().insert(
                        card.suite,
                    ).count(x));
                    assert(comps_ms(comps@.skip(k as int)).count(x) == comps_ms(
                        comps@.skip(k as int + 1),
                    ).insert(card.suite).count(x));
                }
                assert(self.all_cards().add(comps_ms(comps@.skip(k as int + 1)))
                    =~= mid.all_cards());
            }
            k = k + 1;
        }
        proof {
            assert(comps@.skip(ncomps as int) =~= Seq::<(Card, usize)>::empty());
            assert(comps@.take(ncomps as int) =~= comps@);
            assert(self.all_cards().add(Multiset::empty()) =~= self.all_cards());
        }
        sounds
    }

    /// One tick of the update cycle: one `advance_frame`, then the rule
    /// engine applied to a fixpoint while the scheduler stays idle. The
    /// parts no rule set may touch — the scheduler, the transit buffer, the
    /// buttons, the queued moves, the pending flags and the returned
    /// sounds — follow the frame pipeline exactly; the stacks additionally
    /// do whenever the rule loop had nothing to run on.
    pub fn update<R: RuleSet>(&mut self, dt: u64, rules: &R) -> (sounds: Vec<Sound>)
        requires
            old(self).wf(),
        ensures
            final(self).wf(),
            final(self).all_cards() == old(self).all_cards(),
            final(self).dirty ==> final(self).animations.queue@.len() > 0,
            final(self).animations.queue@ == survivors_spec(frame_queue_pre(*old(self)), dt as int),
            sounds@ == sounds_spec(frame_queue_pre(*old(self)), dt as int),
            final(self).offscreen_stack.cards@ == frame_off_bulk(*old(self)),
            final(self).drop_pending == (old(self).drop_pending && !frame_do_drop(*old(self))),
            final(self).deal_pending == (old(self).deal_pending && !frame_do_deal(*old(self))),
            final(self).animove@ == (if frame_do_moves(*old(self)) {
                Seq::<(usize, usize)>::empty()
            } else {
                old(self).animove@
            }),
            final(self).buttons@ == old(self).buttons@,
            (completions_spec(frame_queue_pre(*old(self)), dt as int).len() == 0 && !old(self).dirty) ==> (stack_views(final(self).stacks@) == frame_views_pre(*old(self)) && !final(self).dirty),
    {
        let sounds = self.advance_frame(dt);
        let ghost mid = *self;
        let mut go = self.dirty;
        while go && self.animations.queue.len() == 0
            invariant
                self.wf(),
                self.all_cards() == old(self).all_cards(),
                self.animations == mid.animations,
                self.offscreen_stack == mid.offscreen_stack,
                self.buttons == mid.buttons,
                self.animove == mid.animove,
                self.deal_pending == mid.deal_pending,
                self.drop_pending == mid.drop_pending,
                !mid.dirty ==> *self == mid && !go,
            decreases rules.measure(*self), (if go {
                1int
            } else {
                0int
            }),
        {
            let changed = rules.apply_rules(self);
            go = changed;
        }
        self.dirty = go;
        sounds
    }

    /// Turns the exposed card of stack `s` face down in place; the stack's
    /// cards and their order are otherwise untouched.
    pub fn flip_top_facedown(&mut self, s: usize)
        requires
            old(self).wf(),
            s < 15,
            old(self).stacks@[s as int].cards@.len() > 0,
        ensures
            final(self).wf(),
            final(self).all_cards() == old(self).all_cards(),
            final(self).stacks@ == old(self).stacks@.update(
                s as int,
                final(self).stacks@[s as int],
            ),
            final(self).stacks@[s as int].cards@ == old(self).stacks@[s as int].cards@.update(
                old(self).stacks@[s as int].cards@.len() - 1,
                Card { faceup: false, ..old(self).stacks@[s as int].cards@.last() },
            ),
            final(self).stacks@[s as int].role == old(self).stacks@[s as int].role,
            final(self).stacks@[s as int].anchor == old(self).stacks@[s as int].anchor,
            final(self).offscreen_stack == old(self).offscreen_stack,
            final(self).animations == old(self).animations,
            final(self).animove == old(self).animove,
            final(self).buttons == old(self).buttons,
            final(self).deal_pending == old(self).deal_pending,
            final(self).drop_pending == old(self).drop_pending,
            final(self).dirty == old(self).dirty,
    {
        broadcast use vstd::multiset::group_multiset_axioms;

        let ghost pre = self.stacks@;
        let popped = self.stacks[s].pop_card();
        let c = match popped {
            Option::Some(c) => c,
            Option::None => {
                proof {
                    assert(false);
                }
                Card::new(Suite::Flower)
            },
        };
        let c2 = Card { faceup: false, ..c };
        self.stacks[s].push_card(c2);
        proof {
            let fin = self.stacks@;
            assert(fin =~= pre.update(s as int, fin[s as int]));
            lemma_stacks_ms_update(pre, s as int, fin[s as int]);
            assert(fin[s as int].cards@ =~= pre[s as int].cards@.update(
                pre[s as int].cards@.len() - 1,
                c2,
            ));
            assert forall|x: Suite| stacks_ms(fin).count(x) == stacks_ms(pre).count(x) by {
                assert(stacks_ms(fin).add(pre[s as int].suites()).count(x) == stacks_ms(pre).add(
                    fin[s as int].suites(),
                ).count(x));
                assert(pre[s as int].suites().count(x) == fin[s as int].suites().count(x)) by {
                    assert(pre[s as int].suites() == suites_of(
                        pre[s as int].cards@.drop_last(),
                    ).insert(c.suite));
                    assert(fin[s as int].suites() == suites_of(
                        pre[s as int].cards@.drop_last(),
                    ).insert(c2.suite));
                }
            }
            assert(stacks_ms(fin) =~= stacks_ms(pre));
        }
    }

    /// A button press. Input is gated: while an animation is in flight the
    /// click is ignored. Otherwise the first button hit by the point is
    /// tried: if its color has a free or matching dragon stack, every
    /// dragon or solitaire stack showing that dragon on top has it turned
    /// face down and one move per such stack is queued toward the chosen
    /// dragon stack, the button goes down and the table is marked dirty. A
    /// press with no available dragon stack, or no hit, changes nothing.
    #[verifier::loop_isolation(false)]
    pub fn handle_click(&mut self, x: i32, y: i32)
        requires
            old(self).wf(),
        ensures
            final(self).wf(),
            final(self).all_cards() == old(self).all_cards(),
            old(self).animations.queue@.len() > 0 ==> *final(self) == *old(self),
            old(self).animations.queue@.len() == 0 ==> ({
                match first_hit_button(old(self).buttons@, x as int, y as int, 0) {
                    Option::None => *final(self) == *old(self),
                    Option::Some(b) => {
                        let color = old(self).buttons@[b].color;
                        match find_dragon_spec(old(self).stacks@, color, 0, Option::<usize>::None) {
                            Option::None => *final(self) == *old(self),
                            Option::Some(t) => {
                                &&& final(self).stacks@.len() == 15
                                &&& forall|i: int|
                                    0 <= i < 15 && !(scan_index(i) && dragon_on_top(
                                        old(self).stacks@[i],
                                        color,
                                    )) ==> #[trigger] final(self).stacks@[i] == old(self).stacks@[i]
                                &&& forall|i: int|
                                    0 <= i < 15 && scan_index(i) && dragon_on_top(
                                        old(self).stacks@[i],
                                        color,
                                    ) ==> (#[trigger] final(self).stacks@[i]).cards@ == old(
                                        self,
                                    ).stacks@[i].cards@.update(
                                        old(self).stacks@[i].cards@.len() - 1,
                                        (Card {
                                            faceup: false,
                                            ..old(self).stacks@[i].cards@.last()
                                        }),
                                    ) && final(self).stacks@[i].role == old(self).stacks@[i].role
                                        && final(self).stacks@[i].anchor == old(
                                        self,
                                    ).stacks@[i].anchor
                                &&& final(self).animove@ == old(self).animove@ + collect_moves(
                                    old(self).stacks@,
                                    color,
                                    t,
                                    14,
                                )
                                &&& final(self).buttons@ == old(self).buttons@.update(
                                    b,
                                    (Button { state: ButtonState::Down, ..old(self).buttons@[b] }),
                                )
                                &&& final(self).dirty
                                &&& final(self).offscreen_stack == old(self).offscreen_stack
                                &&& final(self).animations == old(self).animations
                                &&& final(self).deal_pending == old(self).deal_pending
                                &&& final(self).drop_pending == old(self).drop_pending
                            },
                        }
                    },
                }
            }),
    {
        if self.animations.busy() {
            return ;
        }
        let mut hit: Option<usize> = Option::None;
        let mut b: usize = 0;
        while b < 3
            invariant
                b <= 3,
                *self == *old(self),
                match hit {
                    Option::Some(h) => h < 3 && first_hit_button(
                        old(self).buttons@,
                        x as int,
                        y as int,
                        0,
                    ) == Option::Some(h as int),
                    Option::None => first_hit_button(old(self).buttons@, x as int, y as int, 0)
                        == first_hit_button(old(self).buttons@, x as int, y as int, b as int),
                },
            decreases 3 - b,
        {
            if matches!(hit, Option::None) {
                let btn = self.buttons[b];
                let xi: i64 = x as i64;
                let yi: i64 = y as i64;
                let bx: i64 = btn.pos.x as i64;
                let by: i64 = btn.pos.y as i64;
                let hw: i64 = BUTTON_W as i64;
                let hh: i64 = BUTTON_H as i64;
                if xi >= bx - hw && xi <= bx + hw && yi >= by - hh && yi <= by + hh {
                    proof {
                        assert(button_hit(old(self).buttons@[b as int], x as int, y as int));
                    }
                    hit = Option::Some(b);
                } else {
                    proof {
                        assert(!button_hit(old(self).buttons@[b as int], x as int, y as int));
                    }
                }
            }
            b = b + 1;
        }
        let pressed = match hit {
            Option::Some(h) => h,
            Option::None => {
                return ;
            },
        };
        let color = self.buttons[pressed].color;
        match self.find_dragon_target(color) {
            Option::None => {},
            Option::Some(t) => {
                let ghost pre = *old(self);
                proof {
                    assert(collect_moves(pre.stacks@, color, t, 0) =~= Seq::<(usize, usize)>::empty());
                    assert(pre.animove@ + collect_moves(pre.stacks@, color, t, 0) =~= pre.animove@);
                }
                let mut i: usize = 0;
                while i < 14
                    invariant
                        i <= 14,
                        t < 15,
                        pressed < 3,
                        self.wf(),
                        self.all_cards() == old(self).all_cards(),
                        self.stacks@.len() == 15,
                        forall|j: int| i <= j < 15 ==> #[trigger] self.stacks@[j] == pre.stacks@[j],
                        forall|j: int|
                            0 <= j < i && !(scan_index(j) && dragon_on_top(pre.stacks@[j], color))
                                ==> #[trigger] self.stacks@[j] == pre.stacks@[j],
                        forall|j: int|
                            0 <= j < i && scan_index(j) && dragon_on_top(pre.stacks@[j], color)
                                ==> (#[trigger] self.stacks@[j]).cards@
                                == pre.stacks@[j].cards@.update(
                                pre.stacks@[j].cards@.len() - 1,
                                (Card { faceup: false, ..pre.stacks@[j].cards@.last() }),
                            ) && self.stacks@[j].role == pre.stacks@[j].role
                                && self.stacks@[j].anchor == pre.stacks@[j].anchor,
                        self.animove@ == pre.animove@ + collect_moves(
                            pre.stacks@,
                            color,
                            t,
                            i as int,
                        ),
                        self.buttons@ == pre.buttons@,
                        self.offscreen_stack == pre.offscreen_stack,
                        self.animations == pre.animations,
                        self.deal_pending == pre.deal_pending,
                        self.drop_pending == pre.drop_pending,
                        self.dirty == pre.dirty,
                    decreases 14 - i,
                {
                    if i < 3 || i >= 6 {
                        let is_match = match (&self.stacks[i]).top_suite() {
                            Option::Some(Suite::Dragon(c)) => c == color,
                            _ => false,
                        };
                        if is_match {
                            self.flip_top_facedown(i);
                            self.animate_move(i, t);
                            proof {
                                assert(self.animove@ =~= pre.animove@ + collect_moves(
                                    pre.stacks@,
                                    color,
                                    t,
                                    i as int + 1,
                                ));
                            }
                        } else {
                            proof {
                                assert(pre.animove@ + collect_moves(
                                    pre.stacks@,
                                    color,
                                    t,
                                    i as int + 1,
                                ) =~= pre.animove@ + collect_moves(pre.stacks@, color, t, i as int));
                            }
                        }
                    } else {
                        proof {
                            assert(pre.animove@ + collect_moves(pre.stacks@, color, t, i as int + 1)
                                =~= pre.animove@ + collect_moves(pre.stacks@, color, t, i as int));
                        }
                    }
                    i = i + 1;
                }
                self.set_button(pressed, ButtonState::Down);
                self.set_dirty();
            },
        }
    }

    /// Starts a drag at table coordinates (`x`, `y`): the stacks are tried
    /// in display order and the first draggable run hit is split out and
    /// returned with its source stack index. While an animation is in
    /// flight, input is ignored.
    #[verifier::loop_isolation(false)]
    pub fn start_drag(&mut self, x: i32, y: i32) -> (r: Option<(usize, Stack)>)
        requires
            old(self).wf(),
        ensures
            final(self).wf(),
            match r {
                Option::Some((i, run)) => {
                    &&& old(self).animations.queue@.len() == 0
                    &&& i < 15
                    &&& draggable_at(
                        old(self).stacks@[i as int].cards@,
                        x as int,
                        y as int,
                    ) matches Option::Some(k)
                    &&& run.cards@ == old(self).stacks@[i as int].cards@.skip(k)
                    &&& final(self).stacks@[i as int].cards@ == old(
                        self,
                    ).stacks@[i as int].cards@.take(k)
                    &&& forall|j: int|
                        0 <= j < i ==> draggable_at(
                            (#[trigger] old(self).stacks@[j]).cards@,
                            x as int,
                            y as int,
                        ) is None
                    &&& forall|j: int|
                        0 <= j < 15 && j != i ==> #[trigger] final(self).stacks@[j] == old(
                            self,
                        ).stacks@[j]
                    &&& final(self).all_cards().add(run.suites()) == old(self).all_cards()
                    &&& run.cards@.len() > 0
                },
                Option::None => {
                    &&& final(self).stacks@ == old(self).stacks@
                    &&& final(self).offscreen_stack == old(self).offscreen_stack
                    &&& final(self).animations == old(self).animations
                    &&& final(self).buttons == old(self).buttons
                    &&& final(self).animove == old(self).animove
                    &&& final(self).dirty == old(self).dirty
                    &&& final(self).deal_pending == old(self).deal_pending
                    &&& final(self).drop_pending == old(self).drop_pending
                    &&& (old(self).animations.queue@.len() == 0 ==> forall|j: int|
                        0 <= j < 15 ==> draggable_at(
                            (#[trigger] old(self).stacks@[j]).cards@,
                            x as int,
                            y as int,
                        ) is None)
                },
            },
    {
        broadcast use vstd::multiset::group_multiset_axioms;

        if self.animations.busy() {
            return Option::None;
        }
        let mut i: usize = 0;
        while i < 15
            invariant
                i <= 15,
                self.wf(),
                self.stacks@ == old(self).stacks@,
                self.offscreen_stack == old(self).offscreen_stack,
                self.animations == old(self).animations,
                self.buttons == old(self).buttons,
                self.animove == old(self).animove,
                self.dirty == old(self).dirty,
                self.deal_pending == old(self).deal_pending,
                self.drop_pending == old(self).drop_pending,
                forall|j: int|
                    0 <= j < i ==> draggable_at(
                        (#[trigger] old(self).stacks@[j]).cards@,
                        x as int,
                        y as int,
                    ) is None,
            decreases 15 - i,
        {
            let ghost pre = self.stacks@;
            let res = self.stacks[i].start_drag(x, y);
            match res {
                Option::Some(run) => {
                    proof {
                        assert(self.stacks@ =~= pre.update(i as int, self.stacks@[i as int]));
                        lemma_stacks_ms_update(pre, i as int, self.stacks@[i as int]);
                        assert forall|z: Suite|
                            self.all_cards().add(run.suites()).count(z) == old(
                                self,
                            ).all_cards().count(z) by {
                            assert(stacks_ms(self.stacks@).add(pre[i as int].suites()).count(z)
                                == stacks_ms(pre).add(self.stacks@[i as int].suites()).count(z));
                            assert(pre[i as int].suites().count(z)
                                == self.stacks@[i as int].suites().add(run.suites()).count(z));
                        }
                        assert(self.all_cards().add(run.suites()) =~= old(self).all_cards());
                        assert(self.all_cards().len() <= old(self).all_cards().len());
                        assert(draggable_at(pre[i as int].cards@, x as int, y as int) is Some);
                        crate::cardstack::lemma_draggable_in_range(
                            pre[i as int].cards@,
                            x as int,
                            y as int,
                        );
                        assert(run.cards@.len() > 0);
                    }
                    return Option::Some((i, run));
                },
                Option::None => {
                    proof {
                        assert(self.stacks@ =~= pre.update(i as int, self.stacks@[i as int]));
                        assert(self.stacks@ =~= pre);
                    }
                },
            }
            i = i + 1;
        }
        Option::None
    }

    /// Appends a detached run onto stack `i`, preserving its order, and
    /// marks the table dirty. The caller uses this to return a rejected
    /// drag to its source.
    pub fn push_stack(&mut self, i: usize, substack: Stack)
        requires
            old(self).wf(),
            i < 15,
            old(self).all_cards().len() + substack.cards@.len() <= CARD_LIMIT,
        ensures
            final(self).wf(),
            final(self).all_cards() == old(self).all_cards().add(substack.suites()),
            final(self).stacks@[i as int].cards@ == old(self).stacks@[i as int].cards@
                + substack.cards@,
            final(self).stacks@[i as int].role == old(self).stacks@[i as int].role,
            final(self).stacks@[i as int].anchor == old(self).stacks@[i as int].anchor,
            forall|j: int|
                0 <= j < 15 && j != i ==> #[trigger] final(self).stacks@[j] == old(
                    self,
                ).stacks@[j],
            final(self).offscreen_stack == old(self).offscreen_stack,
            final(self).animations == old(self).animations,
            final(self).buttons == old(self).buttons,
            final(self).animove == old(self).animove,
            final(self).deal_pending == old(self).deal_pending,
            final(self).drop_pending == old(self).drop_pending,
            final(self).dirty,
    {
        broadcast use vstd::multiset::group_multiset_axioms;

        let ghost pre = self.stacks@;
        proof {
            crate::cards::lemma_suites_of_len(substack.cards@);
        }
        self.stacks[i].push(substack);
        self.dirty = true;
        proof {
            assert(self.stacks@ =~= pre.update(i as int, self.stacks@[i as int]));
            lemma_stacks_ms_update(pre, i as int, self.stacks@[i as int]);
            assert forall|z: Suite|
                self.all_cards().count(z) == old(self).all_cards().add(
                    substack.suites(),
                ).count(z) by {
                assert(stacks_ms(self.stacks@).add(pre[i as int].suites()).count(z) == stacks_ms(
                    pre,
                ).add(self.stacks@[i as int].suites()).count(z));
            }
            assert(self.all_cards() =~= old(self).all_cards().add(substack.suites()));
            crate::cards::lemma_suites_of_len(substack.cards@);
        }
    }

    /// Resolves a drop: when the scheduler is idle and the target stack's
    /// acceptance policy approves the dragged run, the run lands there and
    /// nothing is returned; otherwise the table is untouched and the run is
    /// handed back to the caller, who still owns it.
    pub fn complete_drop(&mut self, dragged: Stack, target: usize) -> (r: Option<Stack>)
        requires
            old(self).wf(),
            target < 15,
            old(self).all_cards().len() + dragged.cards@.len() <= CARD_LIMIT,
        ensures
            final(self).wf(),
            match r {
                Option::None => {
                    &&& old(self).animations.queue@.len() == 0
                    &&& old(self).stacks@[target as int].accepts(dragged.cards@)
                    &&& final(self).all_cards() == old(self).all_cards().add(dragged.suites())
                    &&& final(self).stacks@[target as int].cards@ == old(
                        self,
                    ).stacks@[target as int].cards@ + dragged.cards@
                    &&& forall|j: int|
                        0 <= j < 15 && j != target ==> #[trigger] final(self).stacks@[j] == old(
                            self,
                        ).stacks@[j]
                },
                Option::Some(back) => back == dragged && *final(self) == *old(self) && (old(
                    self,
                ).animations.queue@.len() == 0 ==> !old(self).stacks@[target as int].accepts(
                    dragged.cards@,
                )),
            },
    {
        if self.animations.busy() {
            return Option::Some(dragged);
        }
        let ok = (&self.stacks[target]).accept_drop(&dragged);
        if ok {
            self.push_stack(target, dragged);
            Option::None
        } else {
            Option::Some(dragged)
        }
    }

    /// The dragon stack that a collection of `color` should fly to: one
    /// already showing that dragon on top, else the first free dragon
    /// stack, else nothing.
    pub fn find_dragon_target(&self, color: Color) -> (r: Option<usize>)
        requires
            self.wf(),
        ensures
            r == find_dragon_spec(self.stacks@, color, 0, Option::<usize>::None),
            r matches Option::Some(t) ==> t < 3,
    {
        let mut target: Option<usize> = Option::None;
        let mut i: usize = 0;
        while i < 3
            invariant
                i <= 3,
                self.wf(),
                find_dragon_spec(self.stacks@, color, 0, Option::<usize>::None)
                    == find_dragon_spec(self.stacks@, color, i as int, target),
                target matches Option::Some(a) ==> a < 3,
            decreases 3 - i,
        {
            match self.stacks[i].top_suite() {
                Option::Some(Suite::Dragon(c)) => {
                    if c == color {
                        return Option::Some(i);
                    }
                },
                Option::None => {
                    if matches!(target, Option::None) {
                        target = Option::Some(i);
                    }
                },
                _ => {},
            }
            i = i + 1;
        }
        target
    }

    /// True when the game is won: every target stack carries a full
    /// ascending run of one color, every dragon stack carries a collected
    /// set of four dragons of one color, and the flower rests alone on the
    /// flower stack.
    pub open spec fn is_won(self) -> bool {
        &&& forall|t: int| 3 <= t < 6 ==> target_complete((#[trigger] self.stacks@[t]).cards@)
        &&& forall|d: int| 0 <= d < 3 ==> dragon_collected((#[trigger] self.stacks@[d]).cards@)
        &&& self.stacks@[14].cards@.len() == 1
        &&& self.stacks@[14].cards@[0].suite == Suite::Flower
    }

    pub fn check_win_condition(&self) -> (r: bool)
        requires
            self.wf(),
        ensures
            r == self.is_won(),
    {
        let mut t: usize = 3;
        while t < 6
            invariant
                3 <= t <= 6,
                self.wf(),
                forall|k: int| 3 <= k < t ==> target_complete((#[trigger] self.stacks@[k]).cards@),
            decreases 6 - t,
        {
            if !check_target(&self.stacks[t]) {
                return false;
            }
            t = t + 1;
        }
        let mut d: usize = 0;
        while d < 3
            invariant
                d <= 3,
                self.wf(),
                forall|k: int| 3 <= k < 6 ==> target_complete((#[trigger] self.stacks@[k]).cards@),
                forall|k: int| 0 <= k < d ==> dragon_collected((#[trigger] self.stacks@[k]).cards@),
            decreases 3 - d,
        {
            if !check_dragon(&self.stacks[d]) {
                return false;
            }
            d = d + 1;
        }
        if (&self.stacks[14]).len() != 1 {
            return false;
        }
        match (&self.stacks[14]).top_suite() {
            Option::Some(Suite::Flower) => true,
            _ => false,
        }
    }
}

/// The cards are exactly the ascending numbers of color `c`, from the ace
/// up.
pub open spec fn target_run(cards: Seq<Card>, c: Color) -> bool {
    forall|k: int| 0 <= k < cards.len() ==> (#[trigger] cards[k]).suite == Suite::Number(
        (k + 1) as u8,
        c,
    )
}

/// A complete target stack: the nine numbers of one color, ascending.
pub open spec fn target_complete(cards: Seq<Card>) -> bool {
    cards.len() == 9 && exists|c: Color| #[trigger] target_run(cards, c)
}

/// The cards are all dragons of color `c`.
pub open spec fn dragon_run(cards: Seq<Card>, c: Color) -> bool {
    forall|k: int| 0 <= k < cards.len() ==> (#[trigger] cards[k]).suite == Suite::Dragon(c)
}

/// A fully collected dragon stack: four dragons of one color.
pub open spec fn dragon_collected(cards: Seq<Card>) -> bool {
    cards.len() == 4 && exists|c: Color| #[trigger] dragon_run(cards, c)
}

/// Whether this stack carries a complete ascending run of one color.
pub fn check_target(s: &Stack) -> (r: bool)
    ensures
        r == target_complete(s.cards@),
{
    if s.cards.len() != 9 {
        return false;
    }
    let col = match s.cards[0].suite {
        Suite::Number(1, c) => c,
        _ => {
            proof {
                assert forall|c: Color| !target_run(s.cards@, c) by {
                    assert(s.cards@[0].suite != Suite::Number(1u8, c));
                }
            }
            return false;
        },
    };
    let mut k: usize = 1;
    while k < 9
        invariant
            1 <= k <= 9,
            s.cards@.len() == 9,
            s.cards@[0].suite == Suite::Number(1u8, col),
            forall|j: int| 0 <= j < k ==> (#[trigger] s.cards@[j]).suite == Suite::Number(
                (j + 1) as u8,
                col,
            ),
        decreases 9 - k,
    {
        let expected: u8 = (k + 1) as u8;
        let ok = match s.cards[k].suite {
            Suite::Number(r2, c2) => r2 == expected && c2 == col,
            _ => false,
        };
        if !ok {
            proof {
                assert forall|c: Color| !target_run(s.cards@, c) by {
                    if c == col {
                        assert(s.cards@[k as int].suite != Suite::Number((k + 1) as u8, c));
                    } else {
                        assert(s.cards@[0].suite != Suite::Number(1u8, c));
                    }
                }
            }
            return false;
        }
        k = k + 1;
    }
    proof {
        assert(target_run(s.cards@, col));
    }
    true
}

/// Whether this stack carries four collected dragons of one color.
pub fn check_dragon(s: &Stack) -> (r: bool)
    ensures
        r == dragon_collected(s.cards@),
{
    if s.cards.len() != 4 {
        return false;
    }
    let col = match s.cards[0].suite {
        Suite::Dragon(c) => c,
        _ => {
            proof {
                assert forall|c: Color| !dragon_run(s.cards@, c) by {
                    assert(s.cards@[0].suite != Suite::Dragon(c));
                }
            }
            return false;
        },
    };
    let mut k: usize = 1;
    while k < 4
        invariant
            1 <= k <= 4,
            s.cards@.len() == 4,
            s.cards@[0].suite == Suite::Dragon(col),
            forall|j: int| 0 <= j < k ==> (#[trigger] s.cards@[j]).suite == Suite::Dragon(col),
        decreases 4 - k,
    {
        let ok = match s.cards[k].suite {
            Suite::Dragon(c2) => c2 == col,
            _ => false,
        };
        if !ok {
            proof {
                assert forall|c: Color| !dragon_run(s.cards@, c) by {
                    if c == col {
                        assert(s.cards@[k as int].suite != Suite::Dragon(c));
                    } else {
                        assert(s.cards@[0].suite != Suite::Dragon(c));
                    }
                }
            }
            return false;
        }
        k = k + 1;
    }
    proof {
        assert(dragon_run(s.cards@, col));
    }
    true
}

/// The scan behind `find_dragon_target`: walk the dragon stacks from `i`,
/// carrying the first free stack seen in `acc`.
pub open spec fn find_dragon_spec(
    ss: Seq<Stack>,
    color: Color,
    i: int,
    acc: Option<usize>,
) -> Option<usize>
    decreases 3 - i,
{
    if i < 0 || i >= 3 || ss.len() < 3 {
        acc
    } else if ss[i].cards@.len() > 0 && ss[i].cards@.last().suite == Suite::Dragon(color) {
        Option::Some(i as usize)
    } else if ss[i].cards@.len() == 0 && acc is None {
        find_dragon_spec(ss, color, i + 1, Option::Some(i as usize))
    } else {
        find_dragon_spec(ss, color, i + 1, acc)
    }
}

/// A sequence of empty stacks holds no cards.
pub proof fn lemma_stacks_ms_all_empty(ss: Seq<Stack>)
    requires
        forall|i: int| 0 <= i < ss.len() ==> (#[trigger] ss[i]).cards@.len() == 0,
    ensures
        stacks_ms(ss) == Multiset::<Suite>::empty(),
    decreases ss.len(),
{
    if ss.len() > 0 {
        assert(ss.last() == ss[ss.len() - 1]);
        assert(forall|i: int| 0 <= i < ss.len() - 1 ==> #[trigger] ss.drop_last()[i] == ss[i]);
        lemma_stacks_ms_all_empty(ss.drop_last());
        assert(stacks_ms(ss) =~= Multiset::<Suite>::empty());
    }
}

/// Replacing one stack exchanges exactly its cards in the total.
pub proof fn lemma_stacks_ms_update(ss: Seq<Stack>, i: int, s2: Stack)
    requires
        0 <= i < ss.len(),
    ensures
        stacks_ms(ss.update(i, s2)).add(ss[i].suites()) == stacks_ms(ss).add(s2.suites()),
    decreases ss.len(),
{
    let u = ss.update(i, s2);
    if i == ss.len() - 1 {
        assert(u.drop_last() =~= ss.drop_last());
        assert(u.last() == s2);
        assert(ss.last() == ss[i]);
        assert(stacks_ms(ss.drop_last()).add(s2.suites()).add(ss[i].suites())
            =~= stacks_ms(ss.drop_last()).add(ss[i].suites()).add(s2.suites()));
    } else {
        assert(u.drop_last() =~= ss.drop_last().update(i, s2));
        assert(u.last() == ss.last());
        lemma_stacks_ms_update(ss.drop_last(), i, s2);
        assert(ss.drop_last()[i] == ss[i]);
        assert(stacks_ms(ss.drop_last().update(i, s2)).add(ss.last().suites()).add(
            ss[i].suites(),
        ) =~= stacks_ms(ss.drop_last().update(i, s2)).add(ss[i].suites()).add(ss.last().suites()));
        assert(stacks_ms(ss.drop_last()).add(s2.suites()).add(ss.last().suites())
            =~= stacks_ms(ss.drop_last()).add(ss.last().suites()).add(s2.suites()));
    }
}

/// How replacing one stack changes a group total: by the difference in that
/// stack's size when it lies in the group, not at all otherwise.
pub proof fn lemma_len_sum_update(ss: Seq<Stack>, i: int, s2: Stack, lo: int, hi: int)
    requires
        0 <= i < ss.len(),
        0 <= lo,
        hi <= ss.len(),
    ensures
        lo <= i < hi ==> len_sum(ss.update(i, s2), lo, hi) + ss[i].cards@.len() == len_sum(
            ss,
            lo,
            hi,
        ) + s2.cards@.len(),
        !(lo <= i < hi) ==> len_sum(ss.update(i, s2), lo, hi) == len_sum(ss, lo, hi),
    decreases hi - lo,
{
    if lo < hi {
        lemma_len_sum_update(ss, i, s2, lo + 1, hi);
    }
}

/// Every stack holds at most the table total.
pub proof fn lemma_stacks_ms_len_ge(ss: Seq<Stack>, i: int)
    requires
        0 <= i < ss.len(),
    ensures
        stacks_ms(ss).len() >= ss[i].cards@.len(),
    decreases ss.len(),
{
    broadcast use vstd::multiset::group_multiset_axioms;

    crate::cards::lemma_suites_of_len(ss.last().cards@);
    if i == ss.len() - 1 {
        assert(ss.last() == ss[i]);
    } else {
        assert(ss.drop_last()[i] == ss[i]);
        lemma_stacks_ms_len_ge(ss.drop_last(), i);
    }
}

/// As many cards are in flight as there are animations.
pub proof fn lemma_flight_ms_len(q: Seq<Animation>)
    ensures
        flight_ms(q).len() == q.len(),
    decreases q.len(),
{
    broadcast use vstd::multiset::group_multiset_axioms;

    if q.len() > 0 {
        lemma_flight_ms_len(q.drop_last());
    }
}

/// Bounds every component of a well-formed table by the card cap: single
/// stacks, the transit buffer, and the animation queue.
pub proof fn lemma_table_bounds(t: Table)
    requires
        t.wf(),
    ensures
        forall|i: int| 0 <= i < 15 ==> (#[trigger] t.stacks@[i]).cards@.len() <= CARD_LIMIT,
        t.offscreen_stack.cards@.len() <= CARD_LIMIT,
        t.animations.queue@.len() <= CARD_LIMIT,
{
    broadcast use vstd::multiset::group_multiset_axioms;

    crate::cards::lemma_suites_of_len(t.offscreen_stack.cards@);
    lemma_flight_ms_len(t.animations.queue@);
    assert forall|i: int| 0 <= i < 15 implies (#[trigger] t.stacks@[i]).cards@.len()
        <= CARD_LIMIT by {
        lemma_stacks_ms_len_ge(t.stacks@, i);
    }
}

} // verus!
