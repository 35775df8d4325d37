use solitaire::cards::{Button, ButtonState, Card, Color, Entity, Pos, Suite};
use solitaire::cardstack::{Stack, StackRole, CARD_W};

fn num(r: u8, c: Color) -> Card {
    let mut card = Card::new(Suite::Number(r, c));
    card.set_faceup(true);
    card
}

#[test]
fn entity_keeps_its_id() {
    let e = Entity::new(7);
    assert_eq!(e.0, 7);
}

#[test]
fn button_starts_up() {
    let b = Button::new(Color::Green);
    assert_eq!(b.color, Color::Green);
    assert_eq!(b.state, ButtonState::Up);
}

#[test]
fn push_pop_round_trip() {
    let mut s = Stack::new(StackRole::Generic);
    assert_eq!(s.len(), 0);
    assert!(s.pop_card().is_none());
    let c = num(5, Color::Red);
    s.push_card(c);
    assert_eq!(s.len(), 1);
    assert_eq!(s.top().unwrap().suite, Suite::Number(5, Color::Red));
    let back = s.pop_card().unwrap();
    assert_eq!(back.suite, Suite::Number(5, Color::Red));
    assert_eq!(s.len(), 0);
}

#[test]
fn clear_keeps_role_and_anchor() {
    let mut s = Stack::new_at(StackRole::Target, 100, 200);
    s.push_card(num(1, Color::White));
    s.clear();
    assert_eq!(s.len(), 0);
    assert_eq!(s.role, StackRole::Target);
    assert_eq!(s.anchor, Pos { x: 100, y: 200 });
}

#[test]
fn stackshift_by_role() {
    let generic = Stack::new(StackRole::Generic);
    assert_eq!(generic.get_stackshift(), Pos { x: 0, y: 3200 });
    let dragon = Stack::new(StackRole::Dragon);
    assert_eq!(dragon.get_stackshift(), Pos { x: 10, y: -25 });
    let buffer = Stack::new(StackRole::Animation);
    assert_eq!(buffer.get_stackshift(), Pos { x: 0, y: 0 });
}

#[test]
fn card_positions_follow_the_stagger() {
    let s = Stack::new_at(StackRole::Generic, 4500, 28300);
    assert_eq!(s.calc_card_pos(0), Pos { x: 4500, y: 28300 });
    assert_eq!(s.calc_card_pos(2), Pos { x: 4500, y: 34700 });
    let d = Stack::new_at(StackRole::Dragon, 4500, 2000);
    assert_eq!(d.calc_card_pos(4), Pos { x: 4540, y: 1900 });
}

#[test]
fn layout_places_each_card_at_its_slot() {
    let mut s = Stack::new_at(StackRole::Generic, 1000, 2000);
    s.push_card(num(5, Color::Red));
    s.push_card(num(4, Color::Green));
    s.layout();
    assert_eq!(s.cards[0].pos, Pos { x: 1000, y: 2000 });
    assert_eq!(s.cards[1].pos, Pos { x: 1000, y: 5200 });
    assert_eq!(s.cards[1].suite, Suite::Number(4, Color::Green));
}

#[test]
fn generic_accepts_chained_run_only() {
    let mut dst = Stack::new(StackRole::Generic);
    dst.push_card(num(5, Color::Red));
    let mut run = Stack::new(StackRole::Animation);
    run.push_card(num(4, Color::Green));
    assert!(dst.accept_drop(&run));
    let mut same_color = Stack::new(StackRole::Animation);
    same_color.push_card(num(4, Color::Red));
    assert!(!dst.accept_drop(&same_color));
    let mut wrong_rank = Stack::new(StackRole::Animation);
    wrong_rank.push_card(num(3, Color::Green));
    assert!(!dst.accept_drop(&wrong_rank));
}

#[test]
fn empty_generic_accepts_any_run() {
    let dst = Stack::new(StackRole::Generic);
    let mut run = Stack::new(StackRole::Animation);
    run.push_card(num(9, Color::White));
    assert!(dst.accept_drop(&run));
}

#[test]
fn target_accepts_only_the_next_number() {
    let mut dst = Stack::new(StackRole::Target);
    let mut ace = Stack::new(StackRole::Animation);
    ace.push_card(num(1, Color::Red));
    assert!(dst.accept_drop(&ace));
    let mut two = Stack::new(StackRole::Animation);
    two.push_card(num(2, Color::Red));
    assert!(!dst.accept_drop(&two));
    dst.push_card(num(1, Color::Red));
    assert!(dst.accept_drop(&two));
    let mut wrong_color = Stack::new(StackRole::Animation);
    wrong_color.push_card(num(2, Color::Green));
    assert!(!dst.accept_drop(&wrong_color));
}

#[test]
fn dragon_accepts_single_card_when_empty() {
    let mut dst = Stack::new(StackRole::Dragon);
    let mut one = Stack::new(StackRole::Animation);
    one.push_card(num(7, Color::Red));
    assert!(dst.accept_drop(&one));
    dst.push_card(num(9, Color::White));
    assert!(!dst.accept_drop(&one));
}

#[test]
fn locked_dragon_accepts_nothing() {
    let dst = Stack::new(StackRole::DragonLocked);
    let mut one = Stack::new(StackRole::Animation);
    one.push_card(num(7, Color::Red));
    assert!(!dst.accept_drop(&one));
}

#[test]
fn flower_stack_accepts_only_the_flower() {
    let dst = Stack::new(StackRole::Flower);
    let mut flower = Stack::new(StackRole::Animation);
    let mut f = Card::new(Suite::Flower);
    f.set_faceup(true);
    flower.push_card(f);
    assert!(dst.accept_drop(&flower));
    let mut one = Stack::new(StackRole::Animation);
    one.push_card(num(1, Color::Red));
    assert!(!dst.accept_drop(&one));
}

#[test]
fn drag_splits_a_valid_run() {
    let mut s = Stack::new_at(StackRole::Generic, 1000, 2000);
    s.push_card(num(5, Color::Red));
    s.push_card(num(4, Color::Green));
    s.layout();
    // Aim below the second card's top edge: only the first card is hit.
    let run = s.start_drag(1100, 2100).expect("the run should detach");
    assert_eq!(run.cards.len(), 2);
    assert_eq!(run.cards[0].suite, Suite::Number(5, Color::Red));
    assert_eq!(run.cards[1].suite, Suite::Number(4, Color::Green));
    assert_eq!(s.len(), 0);
}

#[test]
fn drag_takes_the_topmost_hit_card() {
    let mut s = Stack::new_at(StackRole::Generic, 1000, 2000);
    s.push_card(num(5, Color::Red));
    s.push_card(num(4, Color::Green));
    s.layout();
    // Both cards overlap this point; the topmost wins.
    let run = s.start_drag(1100, 5300).expect("the run should detach");
    assert_eq!(run.cards.len(), 1);
    assert_eq!(run.cards[0].suite, Suite::Number(4, Color::Green));
    assert_eq!(s.len(), 1);
}

#[test]
fn drag_misses_outside_every_card() {
    let mut s = Stack::new_at(StackRole::Generic, 1000, 2000);
    s.push_card(num(5, Color::Red));
    s.layout();
    assert!(s.start_drag(1000 + CARD_W + 1, 2000).is_none());
    assert_eq!(s.len(), 1);
}

#[test]
fn drag_refuses_a_broken_run() {
    let mut s = Stack::new_at(StackRole::Generic, 1000, 2000);
    s.push_card(num(5, Color::Red));
    s.push_card(num(9, Color::Green));
    s.layout();
    // The pair 5,9 is no run, so dragging from the bottom card fails.
    assert!(s.start_drag(1100, 2100).is_none());
    assert_eq!(s.len(), 2);
}

#[test]
fn drag_refuses_a_facedown_card() {
    let mut s = Stack::new_at(StackRole::Generic, 1000, 2000);
    let mut c = Card::new(Suite::Number(5, Color::Red));
    c.set_faceup(false);
    s.push_card(c);
    s.layout();
    assert!(s.start_drag(1100, 2100).is_none());
}

#[test]
fn move_pos_shifts_anchor_and_cards() {
    let mut s = Stack::new_at(StackRole::Animation, 1000, 2000);
    s.push_card(num(5, Color::Red));
    s.layout();
    s.move_pos(30, -40);
    assert_eq!(s.anchor, Pos { x: 1030, y: 1960 });
    assert_eq!(s.cards[0].pos, Pos { x: 1030, y: 1960 });
}
