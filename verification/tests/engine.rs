use solitaire::cards::{ButtonState, Card, Color, Suite};
use solitaire::rules::{NoRules, StandardRules};
use solitaire::table::Table;

const SECOND: u64 = 1_000_000_000;

fn faceup(suite: Suite) -> Card {
    let mut c = Card::new(suite);
    c.set_faceup(true);
    c
}

fn count_suite(t: &Table, wanted: Suite) -> usize {
    let mut n = 0;
    for s in &t.stacks {
        n += s.cards.iter().filter(|c| c.suite == wanted).count();
    }
    n += t
        .offscreen_stack
        .cards
        .iter()
        .filter(|c| c.suite == wanted)
        .count();
    n += t
        .animations
        .queue
        .iter()
        .filter(|a| a.card.suite == wanted)
        .count();
    n
}

fn total_cards(t: &Table) -> usize {
    let mut n = 0;
    for s in &t.stacks {
        n += s.len();
    }
    n + t.offscreen_stack.len() + t.animations.queue.len()
}

#[test]
fn new_table_is_empty_and_idle() {
    let t = Table::new();
    assert_eq!(t.n_stacks(), 15);
    assert_eq!(t.n_buttons(), 3);
    assert_eq!(total_cards(&t), 0);
    assert!(t.game_enabled());
}

#[test]
fn new_game_builds_the_canonical_deck() {
    let mut t = Table::new();
    t.new_game();
    assert_eq!(t.offscreen_stack.len(), 40);
    for r in 1..=9u8 {
        for c in [Color::Red, Color::Green, Color::White] {
            assert_eq!(count_suite(&t, Suite::Number(r, c)), 1);
        }
    }
    for c in [Color::Red, Color::Green, Color::White] {
        assert_eq!(count_suite(&t, Suite::Dragon(c)), 4);
    }
    assert_eq!(count_suite(&t, Suite::Flower), 1);
}

#[test]
fn deal_fills_each_solitaire_stack_with_five() {
    let mut t = Table::new();
    let rules = NoRules {};
    t.new_game();
    // First tick materializes the bulk drop and runs it to completion.
    t.update(SECOND, &rules);
    assert!(t.game_enabled());
    assert_eq!(t.stacks[14].len(), 40);
    // The deal request empties the deal stack cyclically onto the table.
    t.animate_deal();
    t.update(10 * SECOND, &rules);
    assert!(t.game_enabled());
    for i in 6..14 {
        assert_eq!(t.stacks[i].len(), 5, "solitaire stack {} size", i);
    }
    assert_eq!(t.stacks[14].len(), 0);
    assert_eq!(total_cards(&t), 40);
    for r in 1..=9u8 {
        for c in [Color::Red, Color::Green, Color::White] {
            assert_eq!(count_suite(&t, Suite::Number(r, c)), 1);
        }
    }
}

#[test]
fn conservation_holds_while_animations_fly() {
    let mut t = Table::new();
    let rules = NoRules {};
    t.new_game();
    assert_eq!(total_cards(&t), 40);
    // Advance in small steps so cards are genuinely in flight in between.
    for _ in 0..20 {
        t.update(50_000_000, &rules);
        assert_eq!(total_cards(&t), 40);
    }
}

#[test]
fn idle_gating_follows_the_scheduler() {
    let mut t = Table::new();
    let rules = NoRules {};
    t.new_game();
    // One nanosecond: the drop is scheduled but far from finished.
    t.update(1, &rules);
    assert!(!t.game_enabled());
    assert!(t.animations.queue.len() > 0);
    t.update(SECOND, &rules);
    assert!(t.game_enabled());
    assert_eq!(t.animations.queue.len(), 0);
}

#[test]
fn button_press_collects_three_dragons() {
    let mut t = Table::new();
    let rules = NoRules {};
    for i in [6usize, 7, 8] {
        t.stacks[i].push_card(faceup(Suite::Dragon(Color::Red)));
    }
    t.handle_click(53300, 5400);
    assert_eq!(t.animove.len(), 3);
    assert_eq!(t.get_button(0).state, ButtonState::Down);
    t.update(SECOND, &rules);
    // All three dragons fly to the first free dragon stack; the others
    // stay empty.
    assert_eq!(t.stacks[0].len(), 3);
    assert_eq!(t.stacks[1].len(), 0);
    assert_eq!(t.stacks[2].len(), 0);
    for i in [6usize, 7, 8] {
        assert_eq!(t.stacks[i].len(), 0);
    }
    assert_eq!(total_cards(&t), 3);
}

#[test]
fn button_press_prefers_a_matching_dragon_stack() {
    let mut t = Table::new();
    let rules = NoRules {};
    t.stacks[1].push_card(faceup(Suite::Dragon(Color::Green)));
    t.stacks[6].push_card(faceup(Suite::Dragon(Color::Green)));
    // Green button.
    t.handle_click(53300, 13700);
    t.update(SECOND, &rules);
    assert_eq!(t.stacks[1].len(), 2);
    assert_eq!(t.stacks[6].len(), 0);
}

#[test]
fn click_outside_all_buttons_changes_nothing() {
    let mut t = Table::new();
    t.stacks[6].push_card(faceup(Suite::Dragon(Color::Red)));
    t.handle_click(0, 0);
    assert_eq!(t.animove.len(), 0);
    assert_eq!(t.get_button(0).state, ButtonState::Up);
    assert_eq!(t.stacks[6].len(), 1);
}

#[test]
fn rejected_drop_returns_to_its_source_unchanged() {
    let mut t = Table::new();
    t.stacks[6].push_card(faceup(Suite::Number(5, Color::Red)));
    t.stacks[6].push_card(faceup(Suite::Number(4, Color::Green)));
    t.stacks[6].layout();
    let (src, run) = t.start_drag(4600, 28400).expect("the run should detach");
    assert_eq!(src, 6);
    assert_eq!(run.cards.len(), 2);
    assert_eq!(t.stacks[6].len(), 0);
    // An empty target stack takes only an ace: the drop is rejected.
    let back = t.complete_drop(run, 3).expect("the drop must be rejected");
    assert_eq!(t.stacks[3].len(), 0);
    t.push_stack(6, back);
    assert_eq!(t.stacks[6].len(), 2);
    assert_eq!(t.stacks[6].cards[0].suite, Suite::Number(5, Color::Red));
    assert_eq!(t.stacks[6].cards[1].suite, Suite::Number(4, Color::Green));
    assert_eq!(total_cards(&t), 2);
}

#[test]
fn accepted_drop_lands_on_the_target() {
    let mut t = Table::new();
    t.stacks[6].push_card(faceup(Suite::Number(5, Color::Red)));
    t.stacks[6].push_card(faceup(Suite::Number(4, Color::Green)));
    t.stacks[7].push_card(faceup(Suite::Number(5, Color::White)));
    t.stacks[6].layout();
    // Grab only the topmost card of stack 6.
    let (src, run) = t.start_drag(4600, 31600).expect("the run should detach");
    assert_eq!(src, 6);
    assert_eq!(run.cards.len(), 1);
    assert!(t.complete_drop(run, 7).is_none());
    assert_eq!(t.stacks[7].len(), 2);
    assert_eq!(t.stacks[7].cards[1].suite, Suite::Number(4, Color::Green));
}

#[test]
fn click_is_ignored_while_cards_fly() {
    let mut t = Table::new();
    let rules = NoRules {};
    t.new_game();
    t.update(1, &rules);
    assert!(!t.game_enabled());
    t.stacks[6].push_card(faceup(Suite::Dragon(Color::Red)));
    // Red button: the press is swallowed while a transition is unresolved.
    t.handle_click(53300, 5400);
    assert_eq!(t.animove.len(), 0);
    assert_eq!(t.get_button(0).state, ButtonState::Up);
}

#[test]
fn click_with_no_free_dragon_stack_changes_nothing() {
    let mut t = Table::new();
    t.stacks[0].push_card(faceup(Suite::Number(9, Color::Red)));
    t.stacks[1].push_card(faceup(Suite::Number(8, Color::Red)));
    t.stacks[2].push_card(faceup(Suite::Number(7, Color::Red)));
    t.stacks[6].push_card(faceup(Suite::Dragon(Color::Green)));
    // Green button: every dragon stack is occupied and none matches.
    t.handle_click(53300, 13700);
    assert_eq!(t.animove.len(), 0);
    assert_eq!(t.get_button(1).state, ButtonState::Up);
    assert_eq!(t.stacks[6].len(), 1);
    assert!(t.stacks[6].cards[0].faceup);
}

#[test]
fn drag_is_ignored_while_cards_fly() {
    let mut t = Table::new();
    let rules = NoRules {};
    t.new_game();
    t.update(1, &rules);
    assert!(!t.game_enabled());
    assert!(t.start_drag(4600, 28400).is_none());
}

#[test]
fn standard_rules_promote_the_ace_and_the_flower() {
    let mut t = Table::new();
    let rules = StandardRules {};
    t.stacks[6].push_card(faceup(Suite::Number(1, Color::Red)));
    t.stacks[7].push_card(faceup(Suite::Flower));
    t.set_dirty();
    t.update(0, &rules);
    assert_eq!(t.stacks[6].len(), 0);
    assert_eq!(t.stacks[7].len(), 0);
    assert_eq!(t.stacks[3].len(), 1);
    assert_eq!(t.stacks[3].cards[0].suite, Suite::Number(1, Color::Red));
    assert_eq!(t.stacks[14].len(), 1);
    assert_eq!(t.stacks[14].cards[0].suite, Suite::Flower);
}

#[test]
fn standard_rules_chain_until_quiescent() {
    let mut t = Table::new();
    let rules = StandardRules {};
    t.stacks[6].push_card(faceup(Suite::Number(2, Color::Red)));
    t.stacks[6].push_card(faceup(Suite::Number(1, Color::Red)));
    t.set_dirty();
    t.update(0, &rules);
    // The ace goes first; the two follows onto the same target.
    assert_eq!(t.stacks[6].len(), 0);
    assert_eq!(t.stacks[3].len(), 2);
    assert_eq!(t.stacks[3].cards[1].suite, Suite::Number(2, Color::Red));
}

#[test]
fn find_dragon_target_prefers_match_then_free() {
    let mut t = Table::new();
    assert_eq!(t.find_dragon_target(Color::Red), Some(0));
    t.stacks[0].push_card(faceup(Suite::Dragon(Color::Red)));
    assert_eq!(t.find_dragon_target(Color::Red), Some(0));
    t.stacks[1].push_card(faceup(Suite::Number(9, Color::White)));
    t.stacks[2].push_card(faceup(Suite::Number(8, Color::White)));
    assert_eq!(t.find_dragon_target(Color::Green), None);
}

#[test]
fn win_condition_recognizes_a_finished_table() {
    let mut t = Table::new();
    let colors = [Color::Red, Color::Green, Color::White];
    for (k, c) in colors.iter().enumerate() {
        for r in 1..=9u8 {
            t.stacks[3 + k].push_card(faceup(Suite::Number(r, *c)));
        }
        for _ in 0..4 {
            t.stacks[k].push_card(faceup(Suite::Dragon(*c)));
        }
    }
    t.stacks[14].push_card(faceup(Suite::Flower));
    assert!(t.check_win_condition());
    // Remove one card: the game is no longer won.
    t.stacks[3].pop_card();
    assert!(!t.check_win_condition());
}

#[test]
fn win_condition_rejects_a_fresh_table() {
    let t = Table::new();
    assert!(!t.check_win_condition());
}

#[test]
fn sweep_sound_plays_once_per_batch() {
    let mut t = Table::new();
    let rules = NoRules {};
    for i in [6usize, 7, 8] {
        t.stacks[i].push_card(faceup(Suite::Dragon(Color::White)));
    }
    // White button.
    t.handle_click(53300, 22000);
    let sounds = t.update(SECOND, &rules);
    let sweeps = sounds
        .iter()
        .filter(|s| matches!(s, solitaire::animation::Sound::Sweep))
        .count();
    assert_eq!(sweeps, 1);
}
