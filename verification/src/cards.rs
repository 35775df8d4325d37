//! Cards, colors, buttons, and the canonical 40-card deck.
//!
//! Screen coordinates are integers in hundredths of a pixel, so the
//! role-specific stagger vectors of the stacks stay exact.

use vstd::prelude::*;
use vstd::multiset::Multiset;
use rand::seq::SliceRandom;

verus! {

/// Suit colors, also the colors of the three dragon-collection buttons.
#[derive(Copy, Clone, Debug, PartialEq, Eq, Structural)]
pub enum Color {
    Red,
    Green,
    White,
}

/// Card identity: one flower, dragons in three colors, numbers 1..=9 in
/// three colors. `FaceDown` stands for a card whose face is hidden.
#[derive(Copy, Clone, Debug, PartialEq, Eq, Structural)]
pub enum Suite {
    FaceDown,
    Flower,
    Dragon(Color),
    Number(u8, Color),
}

/// A screen position in hundredths of a pixel.
#[derive(Copy, Clone, Debug, PartialEq, Eq, Structural)]
pub struct Pos {
    pub x: i32,
    pub y: i32,
}

/// Coordinates this far from the origin (in hundredths of a pixel) are
/// accepted by the layout arithmetic without overflow.
pub const POS_BOUND: i32 = 0x2000_0000;

impl Pos {
    pub open spec fn wf(self) -> bool {
        -POS_BOUND <= self.x <= POS_BOUND && -POS_BOUND <= self.y <= POS_BOUND
    }

    pub fn new(x: i32, y: i32) -> (p: Pos)
        ensures
            p.x == x && p.y == y,
    {
        Pos { x, y }
    }
}

/// A playing card: identity, current screen position, face-up flag.
#[derive(Copy, Clone, Debug, PartialEq, Eq, Structural)]
pub struct Card {
    pub suite: Suite,
    pub pos: Pos,
    pub faceup: bool,
}

impl Card {
    pub fn new(suite: Suite) -> (c: Card)
        ensures
            c.suite == suite && !c.faceup && c.pos == (Pos { x: 0, y: 0 }),
    {
        Card { suite, pos: Pos { x: 0, y: 0 }, faceup: false }
    }

    pub fn set_pos(&mut self, pos: Pos)
        ensures
            *final(self) == (Card { pos, ..*old(self) }),
    {
        self.pos = pos;
    }

    pub fn set_faceup(&mut self, faceup: bool)
        ensures
            *final(self) == (Card { faceup, ..*old(self) }),
    {
        self.faceup = faceup;
    }
}

/// An opaque identifier, used to refer to a stack by its index on the table.
#[derive(Copy, Clone, Debug, PartialEq, Eq, Structural, Hash)]
pub struct Entity(pub usize);

impl Entity {
    pub fn new(id: usize) -> (e: Entity)
        ensures
            e.0 == id,
    {
        Entity(id)
    }
}

/// Whether a dragon-collection button is available or already spent.
#[derive(Copy, Clone, Debug, PartialEq, Eq, Structural)]
pub enum ButtonState {
    Up,
    Down,
}

/// A dragon-collection button: its color, state and screen position.
#[derive(Copy, Clone, Debug, PartialEq, Eq, Structural)]
pub struct Button {
    pub color: Color,
    pub state: ButtonState,
    pub pos: Pos,
}

impl Button {
    pub fn new(color: Color) -> (b: Button)
        ensures
            b.color == color && b.state == ButtonState::Up && b.pos == (Pos { x: 0, y: 0 }),
    {
        Button { color, state: ButtonState::Up, pos: Pos { x: 0, y: 0 } }
    }
}

/// The color encoded by an index modulo three, in deal order.
pub open spec fn color_at(k: int) -> Color {
    if k == 0 {
        Color::Red
    } else if k == 1 {
        Color::Green
    } else {
        Color::White
    }
}

/// The canonical deck, as a sequence in construction order: the 27 numbered
/// cards, then the 12 dragons, then the flower.
pub open spec fn deck_card(i: int) -> Suite {
    if i < 27 {
        Suite::Number((i / 3 + 1) as u8, color_at(i % 3))
    } else if i < 39 {
        Suite::Dragon(color_at((i - 27) % 3))
    } else {
        Suite::Flower
    }
}

pub open spec fn deck_seq() -> Seq<Suite> {
    Seq::new(40, |i: int| deck_card(i))
}

/// The canonical deck as a multiset: the conserved quantity of the table.
pub open spec fn deck_ms() -> Multiset<Suite> {
    deck_seq().to_multiset()
}

/// The identity of the `i`-th card of a fresh, unshuffled deck.
pub fn suite_at(i: usize) -> (s: Suite)
    requires
        i < 40,
    ensures
        s == deck_card(i as int),
{
    if i < 27 {
        let rank: u8 = (i / 3 + 1) as u8;
        Suite::Number(rank, color_index(i % 3))
    } else if i < 39 {
        Suite::Dragon(color_index((i - 27) % 3))
    } else {
        Suite::Flower
    }
}

fn color_index(k: usize) -> (c: Color)
    ensures
        c == color_at(k as int),
{
    if k == 0 {
        Color::Red
    } else if k == 1 {
        Color::Green
    } else {
        Color::White
    }
}

/// The multiset of card identities held by a sequence of cards.
pub open spec fn suites_of(s: Seq<Card>) -> Multiset<Suite>
    decreases s.len(),
{
    if s.len() == 0 {
        Multiset::empty()
    } else {
        suites_of(s.drop_last()).insert(s.last().suite)
    }
}

pub proof fn lemma_suites_of_len(s: Seq<Card>)
    ensures
        suites_of(s).len() == s.len(),
    decreases s.len(),
{
    if s.len() > 0 {
        lemma_suites_of_len(s.drop_last());
    }
}

pub proof fn lemma_suites_of_push(s: Seq<Card>, c: Card)
    ensures
        suites_of(s.push(c)) == suites_of(s).insert(c.suite),
{
    assert(s.push(c).drop_last() =~= s);
}

/// Removing the last card removes its identity from the multiset.
pub proof fn lemma_suites_of_drop_last(s: Seq<Card>)
    requires
        s.len() > 0,
    ensures
        suites_of(s) == suites_of(s.drop_last()).insert(s.last().suite),
{
}

/// `suites_of` agrees with mapping to identities and collecting.
pub proof fn lemma_suites_of_to_multiset(s: Seq<Card>)
    ensures
        suites_of(s) == s.map_values(|c: Card| c.suite).to_multiset(),
    decreases s.len(),
{
    broadcast use vstd::seq_lib::group_to_multiset_ensures;

    if s.len() == 0 {
        assert(s.map_values(|c: Card| c.suite) =~= Seq::<Suite>::empty());
        assert(suites_of(s) =~= s.map_values(|c: Card| c.suite).to_multiset());
    } else {
        let t = s.drop_last();
        lemma_suites_of_to_multiset(t);
        assert(s =~= t.push(s.last()));
        assert(s.map_values(|c: Card| c.suite) =~= t.map_values(|c: Card| c.suite).push(
            s.last().suite,
        ));
        assert(t.map_values(|c: Card| c.suite).push(s.last().suite).to_multiset()
            =~= t.map_values(|c: Card| c.suite).to_multiset().insert(s.last().suite));
    }
}

/// Relies on rand's `SliceRandom::shuffle`: an in-place Fisher-Yates
/// permutation of the slice, so the sequence of cards afterward is a
/// rearrangement of the same cards — same length, same multiset of cards,
/// same multiset of card identities.
#[verifier::external_body]
pub fn shuffle_deck(cards: &mut Vec<Card>)
    ensures
        final(cards)@.len() == old(cards)@.len(),
        final(cards)@.to_multiset() == old(cards)@.to_multiset(),
        final(cards)@.map_values(|c: Card| c.suite).to_multiset() == old(cards)@.map_values(
            |c: Card| c.suite,
        ).to_multiset(),
{
    cards.as_mut_slice().shuffle(&mut rand::rng());
}

/// Splitting a sequence splits its identity multiset.
pub proof fn lemma_suites_of_add(a: Seq<Card>, b: Seq<Card>)
    ensures
        suites_of(a + b) == suites_of(a).add(suites_of(b)),
    decreases b.len(),
{
    if b.len() == 0 {
        assert(a + b =~= a);
        assert(suites_of(a).add(Multiset::empty()) =~= suites_of(a));
    } else {
        lemma_suites_of_add(a, b.drop_last());
        assert((a + b).drop_last() =~= a + b.drop_last());
        assert((a + b).last() == b.last());
        assert(suites_of(a).add(suites_of(b.drop_last()).insert(b.last().suite)) =~= suites_of(
            a,
        ).add(suites_of(b.drop_last())).insert(b.last().suite));
    }
}

} // verus!
