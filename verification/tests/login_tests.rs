use merlion_kernel::keyboard::KeyEvent;
use merlion_kernel::login::{
    auth_result, handle_input, is_logging_in, show, LoginAction, LoginOutcome, LoginPhase, LoginState,
};

fn typed(st: &mut LoginState, s: &str) -> Vec<LoginAction> {
    s.chars().map(|c| handle_input(st, KeyEvent::Char(c))).collect()
}

#[test]
fn hidden_screen_ignores_keys() {
    let mut st = LoginState::new();
    assert!(!is_logging_in(&st));
    assert_eq!(handle_input(&mut st, KeyEvent::Char('a')), LoginAction::Nothing);
    assert!(st.name.is_empty());
}

#[test]
fn username_then_password() {
    let mut st = LoginState::new();
    show(&mut st);
    assert!(is_logging_in(&st));
    assert_eq!(typed(&mut st, "ab!"), vec![LoginAction::Echo('a'), LoginAction::Echo('b'), LoginAction::Nothing]);
    assert_eq!(handle_input(&mut st, KeyEvent::Char('\x08')), LoginAction::Erase);
    assert_eq!(st.name, b"a".to_vec());
    assert_eq!(handle_input(&mut st, KeyEvent::ArrowUp), LoginAction::Nothing);
    assert_eq!(handle_input(&mut st, KeyEvent::Char('\n')), LoginAction::PromptPassword);
    assert_eq!(st.phase, LoginPhase::Password);
    assert_eq!(typed(&mut st, "p w"), vec![LoginAction::Echo('*'); 3]);
    assert_eq!(st.pass, b"p w".to_vec());
    assert_eq!(handle_input(&mut st, KeyEvent::Char('\n')), LoginAction::Authenticate);
    assert_eq!(auth_result(&mut st, true), LoginOutcome::Welcome);
    assert!(!is_logging_in(&st));
    assert!(st.name.is_empty() && st.pass.is_empty());
}

#[test]
fn empty_name_defaults_to_root() {
    let mut st = LoginState::new();
    show(&mut st);
    assert_eq!(handle_input(&mut st, KeyEvent::Char('\n')), LoginAction::PromptPassword);
    assert_eq!(st.name, b"root".to_vec());
    assert_eq!(handle_input(&mut st, KeyEvent::Char('\x08')), LoginAction::Nothing);
}

#[test]
fn name_and_password_limits() {
    let mut st = LoginState::new();
    show(&mut st);
    let long: String = std::iter::repeat('x').take(40).collect();
    typed(&mut st, &long);
    assert_eq!(st.name.len(), 32);
    handle_input(&mut st, KeyEvent::Char('\n'));
    let pw: String = std::iter::repeat('y').take(70).collect();
    typed(&mut st, &pw);
    assert_eq!(st.pass.len(), 64);
    assert_eq!(handle_input(&mut st, KeyEvent::Char('\x01')), LoginAction::Nothing);
}

#[test]
fn three_failures_start_over() {
    let mut st = LoginState::new();
    show(&mut st);
    typed(&mut st, "bob\nx");
    assert_eq!(auth_result(&mut st, false), LoginOutcome::Incorrect);
    assert_eq!(st.phase, LoginPhase::Password);
    assert!(st.pass.is_empty());
    assert_eq!(st.name, b"bob".to_vec());
    assert_eq!(auth_result(&mut st, false), LoginOutcome::Incorrect);
    assert_eq!(auth_result(&mut st, false), LoginOutcome::TooManyAttempts);
    assert_eq!(st.phase, LoginPhase::Username);
    assert_eq!(st.attempts, 0);
    assert!(st.name.is_empty());
    assert!(is_logging_in(&st));
}
