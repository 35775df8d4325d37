use solitaire::animation::{Animation, AnimationHandler, Sound};
use solitaire::cards::{Card, Color, Pos, Suite};

fn anim(rank: u8, delay: u64, flight: u64, target: usize) -> Animation {
    let card = Card::new(Suite::Number(rank, Color::Red));
    Animation::new(
        card,
        Pos { x: 500, y: 600 },
        delay,
        flight,
        target,
        Sound::Silent,
        Sound::Silent,
    )
}

fn staggered() -> AnimationHandler {
    let mut h = AnimationHandler::new();
    h.add(anim(1, 0, 50_000_000, 1));
    h.add(anim(2, 30_000_000, 50_000_000, 2));
    h.add(anim(3, 120_000_000, 50_000_000, 3));
    h
}

#[test]
fn busy_while_anything_is_queued() {
    let mut h = AnimationHandler::new();
    assert!(!h.busy());
    h.add(anim(1, 0, 10, 0));
    assert!(h.busy());
    let _ = h.update(100);
    assert!(!h.busy());
}

#[test]
fn completions_come_in_insertion_order() {
    let mut h = staggered();
    let (done, _) = h.update(1_000_000_000);
    let got: Vec<(Suite, usize)> = done.iter().map(|(c, t)| (c.suite, *t)).collect();
    assert_eq!(
        got,
        vec![
            (Suite::Number(1, Color::Red), 1),
            (Suite::Number(2, Color::Red), 2),
            (Suite::Number(3, Color::Red), 3),
        ]
    );
}

#[test]
fn delivered_card_lands_on_the_target_position() {
    let mut h = AnimationHandler::new();
    h.add(anim(4, 0, 10, 7));
    let (done, _) = h.update(10);
    assert_eq!(done.len(), 1);
    assert_eq!(done[0].0.pos, Pos { x: 500, y: 600 });
    assert_eq!(done[0].1, 7);
}

#[test]
fn chunked_advances_match_one_big_advance() {
    let mut whole = staggered();
    let mut chunked = staggered();

    let (done_whole, _) = whole.update(100_000_000);
    let mut done_chunked: Vec<(Card, usize)> = Vec::new();
    for _ in 0..10 {
        let (part, _) = chunked.update(10_000_000);
        done_chunked.extend(part);
    }

    let a: Vec<(Suite, usize)> = done_whole.iter().map(|(c, t)| (c.suite, *t)).collect();
    let b: Vec<(Suite, usize)> = done_chunked.iter().map(|(c, t)| (c.suite, *t)).collect();
    assert_eq!(a, b);
    assert_eq!(whole.queue.len(), chunked.queue.len());

    // The leftover animation finishes identically in both schedulers.
    let (rest_whole, _) = whole.update(70_000_000);
    let (rest_chunked, _) = chunked.update(70_000_000);
    assert_eq!(rest_whole.len(), 1);
    assert_eq!(rest_whole[0].0.suite, rest_chunked[0].0.suite);
    assert!(!whole.busy() && !chunked.busy());
}

#[test]
fn start_and_finish_sounds_fire_in_order() {
    let mut h = AnimationHandler::new();
    let card = Card::new(Suite::Flower);
    h.add(Animation::new(
        card,
        Pos { x: 0, y: 0 },
        5,
        10,
        0,
        Sound::Pickup,
        Sound::Place,
    ));
    let (done, sounds) = h.update(5);
    assert!(done.is_empty());
    assert_eq!(sounds, vec![Sound::Pickup]);
    let (done, sounds) = h.update(10);
    assert_eq!(done.len(), 1);
    assert_eq!(sounds, vec![Sound::Place]);
}

#[test]
fn pending_animation_stays_silent_and_unfinished() {
    let mut h = AnimationHandler::new();
    h.add(anim(1, 1_000, 10, 0));
    let (done, sounds) = h.update(500);
    assert!(done.is_empty());
    assert!(sounds.is_empty());
    assert!(h.busy());
}
