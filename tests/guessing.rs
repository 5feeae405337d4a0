use rust_basics::guessing::{
    compare_guess, parse_guess, play, Feedback, Phase, Session, SECRET_MAX, SECRET_MIN,
};

#[test]
fn win_after_small_and_big_guesses() {
    let out = play(50, &["10", "90", "50"]);
    assert_eq!(out, vec![Feedback::TooSmall, Feedback::TooBig, Feedback::Win]);
}

#[test]
fn step_by_step_session_ends_on_third_guess() {
    let mut s = Session::new(50);
    assert_eq!(s.step(Some("10")), Feedback::TooSmall);
    assert_eq!(s.phase(), Phase::AwaitingInput);
    assert_eq!(s.step(Some("90")), Feedback::TooBig);
    assert_eq!(s.phase(), Phase::AwaitingInput);
    assert_eq!(s.step(Some("50")), Feedback::Win);
    assert_eq!(s.phase(), Phase::Won);
    assert!(!s.is_awaiting_input());
}

#[test]
fn immediate_win_on_first_guess() {
    assert_eq!(play(1, &["1"]), vec![Feedback::Win]);
}

#[test]
fn parse_error_then_win() {
    assert_eq!(play(100, &["abc", "100"]), vec![Feedback::Invalid, Feedback::Win]);
}

#[test]
fn unreadable_lines_name_no_guess() {
    assert_eq!(parse_guess("abc"), None);
    assert_eq!(parse_guess(""), None);
    assert_eq!(parse_guess("-5"), None);
    assert_eq!(parse_guess("   "), None);
    assert_eq!(parse_guess("+"), None);
    assert_eq!(parse_guess("1 2"), None);
    assert_eq!(parse_guess("12a"), None);
    assert_eq!(parse_guess("4294967296"), None);
    assert_eq!(parse_guess("99999999999999999999"), None);
}

#[test]
fn unreadable_line_keeps_secret_and_phase() {
    let mut s = Session::new(42);
    for line in ["abc", "", "-5", "4294967296"] {
        assert_eq!(s.step(Some(line)), Feedback::Invalid);
        assert_eq!(s.secret(), 42);
        assert_eq!(s.phase(), Phase::AwaitingInput);
    }
    assert_eq!(s.step(Some("42")), Feedback::Win);
}

#[test]
fn readable_lines_name_their_number() {
    assert_eq!(parse_guess("42"), Some(42));
    assert_eq!(parse_guess(" 42\n"), Some(42));
    assert_eq!(parse_guess("\t7\r\n"), Some(7));
    assert_eq!(parse_guess("+7"), Some(7));
    assert_eq!(parse_guess("007"), Some(7));
    assert_eq!(parse_guess("0"), Some(0));
    assert_eq!(parse_guess("4294967295"), Some(4294967295));
    assert_eq!(parse_guess("\u{3000}12\u{a0}"), Some(12));
}

#[test]
fn parse_agrees_with_std() {
    for line in ["42", " 42 ", "+1", "-1", "", "x", "4294967295", "4294967296", " 0\n", "1_0"] {
        assert_eq!(parse_guess(line), line.trim().parse::<u32>().ok());
    }
}

#[test]
fn feedback_follows_order_before_the_win() {
    let out = play(37, &["5", "x", "80", "36", "38", "37", "1"]);
    assert_eq!(
        out,
        vec![
            Feedback::TooSmall,
            Feedback::Invalid,
            Feedback::TooBig,
            Feedback::TooSmall,
            Feedback::TooBig,
            Feedback::Win,
        ]
    );
}

#[test]
fn small_guesses_never_end_the_session() {
    let out = play(60, &["1", "2", "59"]);
    assert_eq!(
        out,
        vec![Feedback::TooSmall, Feedback::TooSmall, Feedback::TooSmall, Feedback::InputFailed]
    );
}

#[test]
fn empty_input_aborts_the_session() {
    assert_eq!(play(5, &[]), vec![Feedback::InputFailed]);
    let mut s = Session::new(5);
    assert_eq!(s.step(None), Feedback::InputFailed);
    assert_eq!(s.phase(), Phase::Aborted);
    assert_eq!(s.secret(), 5);
}

#[test]
fn extremes_of_the_range_are_ordinary() {
    assert_eq!(play(SECRET_MIN, &["2", "0", "1"]), vec![Feedback::TooBig, Feedback::TooSmall, Feedback::Win]);
    assert_eq!(play(SECRET_MAX, &["99", "101", "100"]), vec![Feedback::TooSmall, Feedback::TooBig, Feedback::Win]);
    assert_eq!(play(50, &["1", "100"]), vec![Feedback::TooSmall, Feedback::TooBig, Feedback::InputFailed]);
    assert_eq!(compare_guess(1, 1), Feedback::Win);
    assert_eq!(compare_guess(100, 100), Feedback::Win);
    assert_eq!(compare_guess(0, 1), Feedback::TooSmall);
    assert_eq!(compare_guess(101, 100), Feedback::TooBig);
}

#[test]
fn drawn_secrets_lie_in_the_range_and_vary() {
    let mut seen = Vec::new();
    for _ in 0..200 {
        let s = Session::start();
        assert!(SECRET_MIN <= s.secret() && s.secret() <= SECRET_MAX);
        assert_eq!(s.phase(), Phase::AwaitingInput);
        seen.push(s.secret());
    }
    assert!(seen.iter().any(|&v| v != seen[0]));
}
