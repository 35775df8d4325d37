//! Timed card animations and the scheduler that advances them.
//!
//! Each animation goes pending → active → complete: the start delay counts
//! down first, then the flight time; at zero the card is delivered to its
//! destination stack. The scheduler advances all animations by elapsed time
//! and yields completed `(card, destination)` pairs in insertion order,
//! together with due sound triggers.

use vstd::prelude::*;
use vstd::multiset::Multiset;
use crate::cards::{Card, Pos, Suite};

verus! {

/// Discrete sound triggers handed to the caller's audio layer.
#[derive(Copy, Clone, Debug, PartialEq, Eq, Structural)]
pub enum Sound {
    Silent,
    Pickup,
    Place,
    Sweep,
}

/// A timed transition of one card toward a destination stack.
/// Times are in nanoseconds.
#[derive(Copy, Clone, Debug, PartialEq, Eq, Structural)]
pub struct Animation {
    /// The card in transit; it belongs to no stack while the animation runs.
    pub card: Card,
    /// Time before the flight starts.
    pub start_delay: u64,
    /// Flight time that remains once started.
    pub time_left: u64,
    /// Total flight time, kept for interpolating the drawn position.
    pub duration: u64,
    /// Where the card lands.
    pub target_pos: Pos,
    /// Index of the stack that receives the card on delivery.
    pub target_stack: usize,
    /// Played when the flight starts.
    pub start_sound: Sound,
    /// Played when the card is delivered.
    pub finish_sound: Sound,
    /// Whether the flight has started (the delay has elapsed).
    pub started: bool,
}

impl Animation {
    pub fn new(
        card: Card,
        target_pos: Pos,
        start_delay: u64,
        time_left: u64,
        target_stack: usize,
        start_sound: Sound,
        finish_sound: Sound,
    ) -> (a: Animation)
        ensures
            a == (Animation {
                card,
                start_delay,
                time_left,
                duration: time_left,
                target_pos,
                target_stack,
                start_sound,
                finish_sound,
                started: false,
            }),
    {
        Animation {
            card,
            start_delay,
            time_left,
            duration: time_left,
            target_pos,
            target_stack,
            start_sound,
            finish_sound,
            started: false,
        }
    }
}

/// Time until the card is delivered: remaining delay plus remaining flight.
pub open spec fn finish_total(a: Animation) -> int {
    a.start_delay + a.time_left
}

/// One animation after `dt` nanoseconds pass without it completing.
pub open spec fn step_anim(a: Animation, dt: int) -> Animation {
    if a.start_delay > dt {
        Animation { start_delay: (a.start_delay - dt) as u64, ..a }
    } else {
        Animation {
            start_delay: 0,
            time_left: (a.time_left - (dt - a.start_delay)) as u64,
            started: true,
            ..a
        }
    }
}

/// What a completed animation delivers: its card, placed at the destination,
/// and the destination stack index.
pub open spec fn delivered(a: Animation) -> (Card, usize) {
    (Card { pos: a.target_pos, ..a.card }, a.target_stack)
}

/// The completions that advancing a queue by `dt` yields, in queue order.
pub open spec fn completions_spec(q: Seq<Animation>, dt: int) -> Seq<(Card, usize)>
    decreases q.len(),
{
    if q.len() == 0 {
        Seq::empty()
    } else {
        completions_spec(q.drop_last(), dt) + (if finish_total(q.last()) <= dt {
            seq![delivered(q.last())]
        } else {
            Seq::empty()
        })
    }
}

/// The animations that remain after advancing a queue by `dt`, each stepped
/// forward, in queue order.
pub open spec fn survivors_spec(q: Seq<Animation>, dt: int) -> Seq<Animation>
    decreases q.len(),
{
    if q.len() == 0 {
        Seq::empty()
    } else {
        survivors_spec(q.drop_last(), dt) + (if finish_total(q.last()) <= dt {
            Seq::empty()
        } else {
            seq![step_anim(q.last(), dt)]
        })
    }
}

/// The sound triggers one animation contributes during an advance by `dt`:
/// its start sound if the flight starts, then its finish sound if the card
/// is delivered.
pub open spec fn anim_sounds(a: Animation, dt: int) -> Seq<Sound> {
    (if !a.started && a.start_delay <= dt && a.start_sound != Sound::Silent {
        seq![a.start_sound]
    } else {
        Seq::empty()
    }) + (if finish_total(a) <= dt && a.finish_sound != Sound::Silent {
        seq![a.finish_sound]
    } else {
        Seq::empty()
    })
}

/// The sound triggers an advance by `dt` yields, in queue order.
pub open spec fn sounds_spec(q: Seq<Animation>, dt: int) -> Seq<Sound>
    decreases q.len(),
{
    if q.len() == 0 {
        Seq::empty()
    } else {
        sounds_spec(q.drop_last(), dt) + anim_sounds(q.last(), dt)
    }
}

/// The card identities in flight in an animation queue.
pub open spec fn flight_ms(q: Seq<Animation>) -> Multiset<Suite>
    decreases q.len(),
{
    if q.len() == 0 {
        Multiset::empty()
    } else {
        flight_ms(q.drop_last()).insert(q.last().card.suite)
    }
}

/// The card identities in a completion list.
pub open spec fn comps_ms(c: Seq<(Card, usize)>) -> Multiset<Suite>
    decreases c.len(),
{
    if c.len() == 0 {
        Multiset::empty()
    } else {
        comps_ms(c.drop_last()).insert(c.last().0.suite)
    }
}

/// Animations sorted by delivery time, ties kept in queue order.
pub open spec fn sorted_by_finish(q: Seq<Animation>) -> bool {
    forall|i: int, j: int|
        0 <= i <= j < q.len() ==> finish_total(#[trigger] q[i]) <= finish_total(#[trigger] q[j])
}

/// Holds all in-flight animations and advances them by elapsed time.
#[derive(Debug)]
pub struct AnimationHandler {
    pub queue: Vec<Animation>,
}

impl AnimationHandler {
    /// The card identities currently in flight.
    pub open spec fn in_flight(self) -> Multiset<Suite> {
        flight_ms(self.queue@)
    }

    pub fn new() -> (h: AnimationHandler)
        ensures
            h.queue@.len() == 0,
    {
        AnimationHandler { queue: Vec::new() }
    }

    /// True while any animation is pending or active; gates rule evaluation
    /// and player input.
    pub fn busy(&self) -> (r: bool)
        ensures
            r == (self.queue@.len() > 0),
    {
        self.queue.len() > 0
    }

    /// Adds an animation. It must not be due before anything already queued,
    /// which keeps the queue sorted by delivery time.
    pub fn add(&mut self, anim: Animation)
        requires
            forall|i: int|
                0 <= i < old(self).queue@.len() ==> finish_total(
                    #[trigger] old(self).queue@[i],
                ) <= finish_total(anim),
        ensures
            final(self).queue@ == old(self).queue@.push(anim),
            sorted_by_finish(old(self).queue@) ==> sorted_by_finish(final(self).queue@),
            final(self).in_flight() == old(self).in_flight().insert(anim.card.suite),
    {
        proof {
            lemma_flight_ms_push(self.queue@, anim);
        }
        self.queue.push(anim);
    }

    /// Drops every queued animation, cards included; used when a new game
    /// rebuilds the full deck from scratch.
    pub fn clear(&mut self)
        ensures
            final(self).queue@.len() == 0,
    {
        self.queue.clear();
    }

    /// Advances every animation by `dt` nanoseconds and removes the finished
    /// ones. Returns the delivered `(card, destination)` pairs in queue
    /// order, and the due sound triggers.
    #[verifier::loop_isolation(false)]
    pub fn update(&mut self, dt: u64) -> (r: (Vec<(Card, usize)>, Vec<Sound>))
        ensures
            final(self).queue@ == survivors_spec(old(self).queue@, dt as int),
            r.0@ == completions_spec(old(self).queue@, dt as int),
            r.1@ == sounds_spec(old(self).queue@, dt as int),
    {
        let ghost q = self.queue@;
        let n = self.queue.len();
        let mut comps: Vec<(Card, usize)> = Vec::new();
        let mut sounds: Vec<Sound> = Vec::new();
        let mut rest: Vec<Animation> = Vec::new();
        proof {
            assert(q.take(0) =~= Seq::<Animation>::empty());
        }
        let mut i: usize = 0;
        while i < n
            invariant
                i <= n,
                self.queue@ == q,
                comps@ == completions_spec(q.take(i as int), dt as int),
                sounds@ == sounds_spec(q.take(i as int), dt as int),
                rest@ == survivors_spec(q.take(i as int), dt as int),
            decreases n - i,
        {
            let a = self.queue[i];
            proof {
                assert(q.take(i as int + 1).drop_last() =~= q.take(i as int));
                assert(q.take(i as int + 1).last() == q[i as int]);
            }
            if !a.started && a.start_delay <= dt {
                match a.start_sound {
                    Sound::Silent => {},
                    s => sounds.push(s),
                }
            }
            if a.start_delay <= dt && a.time_left <= dt - a.start_delay {
                let mut card = a.card;
                card.pos = a.target_pos;
                comps.push((card, a.target_stack));
                match a.finish_sound {
                    Sound::Silent => {},
                    s => sounds.push(s),
                }
            } else {
                let stepped = if a.start_delay > dt {
                    Animation { start_delay: a.start_delay - dt, ..a }
                } else {
                    Animation {
                        start_delay: 0,
                        time_left: a.time_left - (dt - a.start_delay),
                        started: true,
                        ..a
                    }
                };
                rest.push(stepped);
            }
            i = i + 1;
        }
        proof {
            assert(q.take(n as int) =~= q);
        }
        self.queue = rest;
        (comps, sounds)
    }
}

pub proof fn lemma_flight_ms_push(q: Seq<Animation>, a: Animation)
    ensures
        flight_ms(q.push(a)) == flight_ms(q).insert(a.card.suite),
{
    assert(q.push(a).drop_last() =~= q);
}

/// An advance conserves cards: what was in flight is exactly what is still
/// in flight plus what was delivered.
pub proof fn lemma_advance_conserves(q: Seq<Animation>, dt: int)
    ensures
        flight_ms(q) == flight_ms(survivors_spec(q, dt)).add(comps_ms(completions_spec(q, dt))),
    decreases q.len(),
{
    if q.len() == 0 {
        assert(flight_ms(q).add(comps_ms(completions_spec(q, dt))) =~= flight_ms(q));
    } else {
        let t = q.drop_last();
        let h = q.last();
        lemma_advance_conserves(t, dt);
        if finish_total(h) <= dt {
            assert(completions_spec(q, dt) == completions_spec(t, dt) + seq![delivered(h)]);
            assert(survivors_spec(q, dt) == survivors_spec(t, dt));
            lemma_comps_ms_snoc(completions_spec(t, dt), delivered(h));
            assert(flight_ms(survivors_spec(t, dt)).add(
                comps_ms(completions_spec(t, dt)).insert(delivered(h).0.suite),
            ) =~= flight_ms(survivors_spec(t, dt)).add(comps_ms(completions_spec(t, dt))).insert(
                h.card.suite,
            ));
        } else {
            assert(survivors_spec(q, dt) == survivors_spec(t, dt) + seq![step_anim(h, dt)]);
            assert(completions_spec(q, dt) == completions_spec(t, dt));
            lemma_flight_ms_snoc(survivors_spec(t, dt), step_anim(h, dt));
            assert(flight_ms(survivors_spec(t, dt)).insert(step_anim(h, dt).card.suite).add(
                comps_ms(completions_spec(t, dt)),
            ) =~= flight_ms(survivors_spec(t, dt)).add(comps_ms(completions_spec(t, dt))).insert(
                h.card.suite,
            ));
        }
    }
}

pub proof fn lemma_flight_ms_snoc(q: Seq<Animation>, a: Animation)
    ensures
        flight_ms(q + seq![a]) == flight_ms(q).insert(a.card.suite),
{
    assert((q + seq![a]).drop_last() =~= q);
    assert((q + seq![a]).last() == a);
}

pub proof fn lemma_comps_ms_snoc(c: Seq<(Card, usize)>, p: (Card, usize))
    ensures
        comps_ms(c + seq![p]) == comps_ms(c).insert(p.0.suite),
{
    assert((c + seq![p]).drop_last() =~= c);
    assert((c + seq![p]).last() == p);
}

/// When every queued animation is due within `dt`, none survives.
pub proof fn lemma_all_complete(q: Seq<Animation>, dt: int)
    requires
        forall|i: int| 0 <= i < q.len() ==> finish_total(#[trigger] q[i]) <= dt,
    ensures
        survivors_spec(q, dt) == Seq::<Animation>::empty(),
    decreases q.len(),
{
    if q.len() > 0 {
        assert(q.last() == q[q.len() - 1]);
        lemma_all_complete(q.drop_last(), dt);
        assert(survivors_spec(q, dt) =~= Seq::<Animation>::empty());
    }
}

/// Completions aim only at stacks that the queue aimed at.
pub proof fn lemma_completions_targets(q: Seq<Animation>, dt: int, bound: int)
    requires
        forall|i: int| 0 <= i < q.len() ==> (#[trigger] q[i]).target_stack < bound,
    ensures
        forall|k: int|
            0 <= k < completions_spec(q, dt).len() ==> (#[trigger] completions_spec(
                q,
                dt,
            )[k]).1 < bound,
    decreases q.len(),
{
    if q.len() > 0 {
        let t = q.drop_last();
        let h = q.last();
        assert(h == q[q.len() - 1]);
        assert(forall|i: int| 0 <= i < t.len() ==> #[trigger] t[i] == q[i]);
        lemma_completions_targets(t, dt, bound);
        let c = completions_spec(q, dt);
        if finish_total(h) <= dt {
            assert forall|k: int| 0 <= k < c.len() implies (#[trigger] c[k]).1 < bound by {
                if k < c.len() - 1 {
                    assert(c[k] == completions_spec(t, dt)[k]);
                } else {
                    assert(c[k] == delivered(h));
                }
            }
        }
    }
}

/// Surviving animations aim only at stacks that the queue aimed at.
pub proof fn lemma_survivors_targets(q: Seq<Animation>, dt: int, bound: int)
    requires
        forall|i: int| 0 <= i < q.len() ==> (#[trigger] q[i]).target_stack < bound,
    ensures
        forall|k: int|
            0 <= k < survivors_spec(q, dt).len() ==> (#[trigger] survivors_spec(
                q,
                dt,
            )[k]).target_stack < bound,
    decreases q.len(),
{
    if q.len() > 0 {
        let t = q.drop_last();
        let h = q.last();
        assert(h == q[q.len() - 1]);
        assert(forall|i: int| 0 <= i < t.len() ==> #[trigger] t[i] == q[i]);
        lemma_survivors_targets(t, dt, bound);
        let s = survivors_spec(q, dt);
        if finish_total(h) > dt {
            assert forall|k: int| 0 <= k < s.len() implies (#[trigger] s[k]).target_stack
                < bound by {
                if k < s.len() - 1 {
                    assert(s[k] == survivors_spec(t, dt)[k]);
                } else {
                    assert(s[k] == step_anim(h, dt));
                }
            }
        }
    }
}

/// Concatenation splits the completion multiset.
pub proof fn lemma_comps_ms_add(a: Seq<(Card, usize)>, b: Seq<(Card, usize)>)
    ensures
        comps_ms(a + b) == comps_ms(a).add(comps_ms(b)),
    decreases b.len(),
{
    broadcast use vstd::multiset::group_multiset_axioms;

    if b.len() == 0 {
        assert(a + b =~= a);
        assert(comps_ms(a).add(Multiset::empty()) =~= comps_ms(a));
    } else {
        lemma_comps_ms_add(a, b.drop_last());
        assert((a + b).drop_last() =~= a + b.drop_last());
        assert((a + b).last() == b.last());
        assert(comps_ms(a).add(comps_ms(b.drop_last()).insert(b.last().0.suite)) =~= comps_ms(
            a,
        ).add(comps_ms(b.drop_last())).insert(b.last().0.suite));
    }
}

/// Walking a completion list from the front peels its multiset one card at
/// a time.
pub proof fn lemma_comps_ms_skip(c: Seq<(Card, usize)>, k: int)
    requires
        0 <= k < c.len(),
    ensures
        comps_ms(c.skip(k)) == comps_ms(c.skip(k + 1)).insert(c[k].0.suite),
{
    broadcast use vstd::multiset::group_multiset_axioms;

    assert(c.skip(k) =~= seq![c[k]] + c.skip(k + 1));
    lemma_comps_ms_add(seq![c[k]], c.skip(k + 1));
    assert(seq![c[k]].len() == 1);
    assert(seq![c[k]].last() == c[k]);
    assert(seq![c[k]].drop_last() =~= Seq::<(Card, usize)>::empty());
    assert(comps_ms(seq![c[k]].drop_last()) == Multiset::<Suite>::empty());
    assert(comps_ms(seq![c[k]]) == Multiset::empty().insert(c[k].0.suite));
    assert(Multiset::empty().insert(c[k].0.suite).add(comps_ms(c.skip(k + 1))) =~= comps_ms(
        c.skip(k + 1),
    ).insert(c[k].0.suite));
}

/// Stepping an animation that does not complete moves its delivery time
/// forward by exactly the elapsed time and changes nothing it will deliver.
pub proof fn lemma_step_finish(a: Animation, dt: int)
    requires
        0 <= dt < finish_total(a),
    ensures
        finish_total(step_anim(a, dt)) == finish_total(a) - dt,
        delivered(step_anim(a, dt)) == delivered(a),
{
}

/// Stepping twice is stepping once by the sum, for an animation that
/// survives both advances.
pub proof fn lemma_step_comp(a: Animation, d1: int, d2: int)
    requires
        0 <= d1,
        0 <= d2,
        finish_total(a) > d1 + d2,
    ensures
        step_anim(step_anim(a, d1), d2) == step_anim(a, d1 + d2),
{
}

/// Dropping the last element keeps the queue sorted.
pub proof fn lemma_sorted_drop_last(q: Seq<Animation>)
    requires
        sorted_by_finish(q),
        q.len() > 0,
    ensures
        sorted_by_finish(q.drop_last()),
{
    let t = q.drop_last();
    assert forall|i: int, j: int|
        0 <= i <= j < t.len() implies finish_total(#[trigger] t[i]) <= finish_total(
        #[trigger] t[j],
    ) by {
        assert(t[i] == q[i]);
        assert(t[j] == q[j]);
    }
}

/// Survivors of a queue whose delivery times are bounded by `b` have
/// delivery times bounded by `b - dt`.
pub proof fn lemma_survivors_ub(q: Seq<Animation>, dt: int, b: int)
    requires
        0 <= dt,
        forall|i: int| 0 <= i < q.len() ==> finish_total(#[trigger] q[i]) <= b,
    ensures
        forall|i: int|
            0 <= i < survivors_spec(q, dt).len() ==> finish_total(
                #[trigger] survivors_spec(q, dt)[i],
            ) <= b - dt,
    decreases q.len(),
{
    if q.len() > 0 {
        let t = q.drop_last();
        let h = q.last();
        assert(h == q[q.len() - 1]);
        assert(forall|i: int| 0 <= i < t.len() ==> #[trigger] t[i] == q[i]);
        lemma_survivors_ub(t, dt, b);
        let s = survivors_spec(q, dt);
        if finish_total(h) <= dt {
            assert(s == survivors_spec(t, dt));
        } else {
            assert(s == survivors_spec(t, dt) + seq![step_anim(h, dt)]);
            lemma_step_finish(h, dt);
            assert forall|i: int| 0 <= i < s.len() implies finish_total(#[trigger] s[i]) <= b
                - dt by {
                if i < s.len() - 1 {
                    assert(s[i] == survivors_spec(t, dt)[i]);
                } else {
                    assert(s[i] == step_anim(h, dt));
                }
            }
        }
    }
}

/// An advance keeps the queue sorted by delivery time.
pub proof fn lemma_survivors_sorted(q: Seq<Animation>, dt: int)
    requires
        0 <= dt,
        sorted_by_finish(q),
    ensures
        sorted_by_finish(survivors_spec(q, dt)),
    decreases q.len(),
{
    if q.len() > 0 {
        let t = q.drop_last();
        let h = q.last();
        assert(h == q[q.len() - 1]);
        lemma_sorted_drop_last(q);
        lemma_survivors_sorted(t, dt);
        let s = survivors_spec(q, dt);
        if finish_total(h) <= dt {
            assert(s == survivors_spec(t, dt));
        } else {
            assert(s == survivors_spec(t, dt) + seq![step_anim(h, dt)]);
            assert(forall|i: int| 0 <= i < t.len() ==> finish_total(#[trigger] t[i]) <= finish_total(h));
            lemma_survivors_ub(t, dt, finish_total(h));
            lemma_step_finish(h, dt);
            assert forall|i: int, j: int|
                0 <= i <= j < s.len() implies finish_total(#[trigger] s[i]) <= finish_total(
                #[trigger] s[j],
            ) by {
                if j < s.len() - 1 {
                    assert(s[i] == survivors_spec(t, dt)[i]);
                    assert(s[j] == survivors_spec(t, dt)[j]);
                } else {
                    assert(s[j] == step_anim(h, dt));
                    if i < s.len() - 1 {
                        assert(s[i] == survivors_spec(t, dt)[i]);
                    }
                }
            }
        }
    }
}

/// Determinism under chunking: advancing a sorted queue by `d1` and then by
/// `d2` completes the same animations, in the same order, as one advance by
/// `d1 + d2`, and leaves the same queue behind.
pub proof fn lemma_advance_split(q: Seq<Animation>, d1: int, d2: int)
    requires
        0 <= d1,
        0 <= d2,
        sorted_by_finish(q),
    ensures
        completions_spec(q, d1) + completions_spec(survivors_spec(q, d1), d2) == completions_spec(
            q,
            d1 + d2,
        ),
        survivors_spec(survivors_spec(q, d1), d2) == survivors_spec(q, d1 + d2),
    decreases q.len(),
{
    if q.len() == 0 {
        assert(completions_spec(q, d1) + completions_spec(survivors_spec(q, d1), d2)
            =~= completions_spec(q, d1 + d2));
    } else {
        let t = q.drop_last();
        let h = q.last();
        assert(h == q[q.len() - 1]);
        assert(forall|i: int| 0 <= i < t.len() ==> #[trigger] t[i] == q[i]);
        lemma_sorted_drop_last(q);
        lemma_advance_split(t, d1, d2);
        if finish_total(h) <= d1 {
            assert(forall|i: int| 0 <= i < q.len() ==> finish_total(#[trigger] q[i]) <= d1);
            lemma_all_complete(t, d1);
            assert(survivors_spec(q, d1) == survivors_spec(t, d1));
            assert(completions_spec(survivors_spec(t, d1), d2) == Seq::<(Card, usize)>::empty());
            assert(completions_spec(q, d1) + completions_spec(survivors_spec(q, d1), d2)
                =~= completions_spec(t, d1) + completions_spec(survivors_spec(t, d1), d2) + seq![
                delivered(h),
            ]);
            assert(completions_spec(q, d1 + d2) == completions_spec(t, d1 + d2) + seq![
                delivered(h),
            ]);
        } else if finish_total(h) <= d1 + d2 {
            lemma_step_finish(h, d1);
            let s1 = survivors_spec(t, d1) + seq![step_anim(h, d1)];
            assert(survivors_spec(q, d1) == s1);
            assert(s1.drop_last() =~= survivors_spec(t, d1));
            assert(s1.last() == step_anim(h, d1));
            assert(completions_spec(s1, d2) == completions_spec(survivors_spec(t, d1), d2) + seq![
                delivered(h),
            ]);
            assert(survivors_spec(s1, d2) == survivors_spec(survivors_spec(t, d1), d2));
            assert(completions_spec(q, d1) + completions_spec(s1, d2) =~= completions_spec(t, d1)
                + completions_spec(survivors_spec(t, d1), d2) + seq![delivered(h)]);
            assert(completions_spec(q, d1 + d2) == completions_spec(t, d1 + d2) + seq![
                delivered(h),
            ]);
        } else {
            lemma_step_finish(h, d1);
            lemma_step_comp(h, d1, d2);
            let s1 = survivors_spec(t, d1) + seq![step_anim(h, d1)];
            assert(survivors_spec(q, d1) == s1);
            assert(s1.drop_last() =~= survivors_spec(t, d1));
            assert(s1.last() == step_anim(h, d1));
            assert(completions_spec(s1, d2) == completions_spec(survivors_spec(t, d1), d2));
            assert(survivors_spec(s1, d2) == survivors_spec(survivors_spec(t, d1), d2) + seq![
                step_anim(step_anim(h, d1), d2),
            ]);
            assert(completions_spec(q, d1) + completions_spec(s1, d2) =~= completions_spec(t, d1)
                + completions_spec(survivors_spec(t, d1), d2));
            assert(completions_spec(q, d1 + d2) == completions_spec(t, d1 + d2));
            assert(survivors_spec(q, d1 + d2) == survivors_spec(t, d1 + d2) + seq![
                step_anim(h, d1 + d2),
            ]);
        }
    }
}

} // verus!
