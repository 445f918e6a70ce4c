//! Tests for the typing-session state machine.

use tccst::gamestate::{Game, GameState};

fn words(list: &[&str]) -> Vec<String> {
    let mut v = Vec::new();
    for w in list {
        v.push(w.to_string());
    }
    v
}

#[test]
fn test_wpm() {
    let words = vec!["fives".to_string(), "fives".into(), "fives".into()];
    let gs = Game::new(&words, false, false, 0);
    let wpm = gs.wpm(60_000);
    assert_eq!(wpm, 3);
}

#[test]
fn test_word_count() {
    let words = vec!["one".to_string(), "two".into(), "three".into()];
    let gs = Game::new(&words, false, false, 0);
    assert_eq!(gs.word_count, 3);
}

#[test]
fn test_mistakes() {
    let mut gs = Game::new(&vec!["one".into()], false, false, 0);
    gs.push('o', 0);
    assert_eq!(gs.mistakes, 0);
    gs.push('o', 0);
    assert_eq!(gs.mistakes, 1);
    gs.pop();
    gs.push('n', 0);
    assert_eq!(gs.mistakes, 1);
}

#[test]
fn exact_typing_finishes() {
    let mut g = Game::new(&words(&["one", "two", "three"]), false, false, 0);
    for c in "one two three".chars() {
        g.push(c, 0);
    }
    assert_eq!(
        g.state,
        GameState::Finished {
            elapsed_ms: 0,
            wpm: 0,
            cpm: 0,
            word_count: 3,
            mistakes: 0,
            accuracy: 100,
        }
    );
}

#[test]
fn mistype_pop_retype() {
    let mut g = Game::new(&words(&["one", "two", "three"]), false, false, 0);
    g.push('o', 0);
    g.push('o', 0);
    assert_eq!(g.input(), vec![('o', true), ('o', false)]);
    g.pop();
    g.push('n', 0);
    assert_eq!(g.mistakes, 1);
    assert_eq!(g.input(), vec![('o', true), ('n', true)]);
    assert!(matches!(g.state, GameState::Running(_)));
}

#[test]
fn diff_never_longer_than_target() {
    let mut g = Game::new(&words(&["ab"]), true, false, 0);
    for _ in 0..10 {
        g.push('x', 0);
        assert!(g.input().len() <= 2);
    }
}

#[test]
fn word_skip_fill_counts_mistakes() {
    // Target "one two": a space typed mid-word fills spaces through the
    // end of the word plus the separator, all counted as mistakes.
    let mut g = Game::new(&words(&["one", "two"]), false, true, 0);
    g.push('o', 0);
    g.push(' ', 0);
    assert_eq!(g.mistakes, 3);
    assert_eq!(g.input().len(), 4);
    assert!(matches!(g.state, GameState::Running(_)));
}

#[test]
fn pop_undoes_word_skip_fill() {
    let mut g = Game::new(&words(&["one", "two"]), false, true, 0);
    g.push('o', 0);
    let before = g.input().len();
    g.push(' ', 0);
    assert!(g.input().len() > before);
    g.pop();
    assert_eq!(g.input().len(), before);
    assert_eq!(g.input(), vec![('o', true)]);
}

#[test]
fn word_skip_ignored_at_text_start() {
    let mut g = Game::new(&words(&["one", "two"]), false, true, 0);
    g.push(' ', 0);
    assert_eq!(g.input().len(), 0);
    assert_eq!(g.mistakes, 0);
}

#[test]
fn word_skip_ignored_at_word_start() {
    let mut g = Game::new(&words(&["one", "two"]), false, true, 0);
    for c in "one ".chars() {
        g.push(c, 0);
    }
    g.push(' ', 0);
    assert_eq!(g.input().len(), 4);
    assert_eq!(g.mistakes, 0);
}

#[test]
fn word_skip_on_last_word_finishes_nonstrict() {
    let mut g = Game::new(&words(&["ab"]), false, true, 0);
    g.push('a', 0);
    g.push(' ', 0);
    // The fill covers "b" plus one trailing space and ends the session.
    assert_eq!(g.mistakes, 2);
    assert!(matches!(g.state, GameState::Finished { .. }));
}

#[test]
fn strict_trailing_space_does_not_quit() {
    let mut g = Game::new(&words(&["ab"]), true, false, 0);
    g.push('a', 0);
    g.push('x', 0);
    g.push(' ', 0);
    assert!(matches!(g.state, GameState::Running(_)));
    assert_eq!(g.input().len(), 2);
}

#[test]
fn nonstrict_trailing_space_quits() {
    let mut g = Game::new(&words(&["ab"]), false, false, 0);
    g.push('a', 0);
    g.push('x', 0);
    assert!(matches!(g.state, GameState::Running(_)));
    g.push(' ', 0);
    match g.state {
        GameState::Finished { mistakes, word_count, accuracy, .. } => {
            assert_eq!(mistakes, 1);
            assert_eq!(word_count, 1);
            assert_eq!(accuracy, 50);
        }
        _ => panic!("session should have finished"),
    }
}

#[test]
fn accuracy_clamps_at_zero() {
    let mut g = Game::new(&words(&["a"]), false, false, 0);
    g.push('x', 0);
    g.push('y', 0);
    g.push(' ', 0);
    match g.state {
        GameState::Finished { mistakes, accuracy, .. } => {
            assert_eq!(mistakes, 2);
            assert_eq!(accuracy, 0);
        }
        _ => panic!("session should have finished"),
    }
}

#[test]
fn finish_is_idempotent() {
    let mut g = Game::new(&words(&["abc"]), false, false, 0);
    g.start(5);
    g.finish(10);
    let first = g.state;
    g.finish(99);
    assert_eq!(g.state, first);
    match first {
        GameState::Finished { elapsed_ms, .. } => assert_eq!(elapsed_ms, 5),
        _ => panic!("finish from running must store statistics"),
    }
}

#[test]
fn finish_statistics_exact() {
    // 17 characters in 60 seconds: cpm 17, wpm 3, one mistake out of 17.
    let mut g = Game::new(&words(&["fives", "fives", "fives"]), false, false, 0);
    g.push('x', 0);
    g.start(0);
    g.finish(60_000);
    match g.state {
        GameState::Finished { elapsed_ms, wpm, cpm, word_count, mistakes, accuracy } => {
            assert_eq!(elapsed_ms, 60_000);
            assert_eq!(cpm, 17);
            assert_eq!(wpm, 3);
            assert_eq!(word_count, 3);
            assert_eq!(mistakes, 1);
            assert_eq!(accuracy, (17 - 1) * 100 / 17);
        }
        _ => panic!("session should have finished"),
    }
}

#[test]
fn pop_word_removes_word_and_spaces() {
    let mut g = Game::new(&words(&["one", "two"]), false, false, 0);
    for c in "one tw".chars() {
        g.push(c, 0);
    }
    g.pop_word();
    assert_eq!(g.input().len(), 4);
    g.pop_word();
    assert_eq!(g.input().len(), 0);
}

#[test]
fn pop_on_empty_is_noop() {
    let mut g = Game::new(&words(&["one"]), false, false, 0);
    g.pop();
    g.pop_word();
    assert_eq!(g.input().len(), 0);
    assert!(matches!(g.state, GameState::Running(_)));
}

#[test]
fn first_keystroke_restamps_timer() {
    let mut g = Game::new(&words(&["ab"]), false, false, 0);
    g.push('a', 42);
    assert_eq!(g.state, GameState::Running(42));
    g.push('b', 99);
    match g.state {
        GameState::Finished { elapsed_ms, .. } => assert_eq!(elapsed_ms, 99 - 42),
        _ => panic!("session should have finished"),
    }
}

#[test]
fn push_after_finish_is_noop() {
    let mut g = Game::new(&words(&["a"]), false, false, 0);
    g.push('a', 0);
    let done = g.state;
    g.push('z', 7);
    assert_eq!(g.state, done);
    assert_eq!(g.mistakes, 0);
    assert_eq!(g.input().len(), 1);
}

#[test]
fn multibyte_characters_count_as_single_positions() {
    let mut g = Game::new(&vec!["héllo".to_string(), "wörld".into()], false, false, 0);
    assert_eq!(g.text_chars.len(), 11);
    g.push('h', 0);
    g.push('é', 0);
    assert_eq!(g.mistakes, 0);
    g.push('e', 0);
    assert_eq!(g.mistakes, 1);
    assert_eq!(g.input(), vec![('h', true), ('é', true), ('e', false)]);
}

#[test]
fn target_text_joined_with_spaces() {
    let g = Game::new(&words(&["one", "two", "three"]), false, false, 0);
    assert_eq!(g.text, "one two three");
    let collected: String = g.text_chars.iter().collect();
    assert_eq!(collected, "one two three");
}
