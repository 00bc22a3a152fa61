//! The login screen's input handling: a user name (letters, digits, `_`
//! and `-`, at most 32), then a password (printable ASCII, at most 64,
//! echoed as `*`). Checking the password is the caller's work: on Enter in
//! the password phase the screen asks for it, and `auth_result` takes the
//! answer. Three failed attempts send the screen back to the user name.
use vstd::prelude::*;
use crate::keyboard::KeyEvent;

verus! {

/// Longest user name.
pub const MAX_NAME: usize = 32;
/// Longest password.
pub const MAX_PASS: usize = 64;
/// Failed attempts before the screen starts over.
pub const MAX_ATTEMPTS: u8 = 3;

/// Which field the screen is reading.
#[derive(PartialEq, Eq, Structural, Clone, Copy, Debug)]
pub enum LoginPhase {
    Username,
    Password,
}

/// The login screen.
pub struct LoginState {
    pub logging_in: bool,
    pub phase: LoginPhase,
    pub attempts: u8,
    pub name: Vec<u8>,
    pub pass: Vec<u8>,
}

/// What the screen asks its caller to do after a key.
#[derive(PartialEq, Eq, Structural, Clone, Copy, Debug)]
pub enum LoginAction {
    /// Nothing to show.
    Nothing,
    /// Print this character.
    Echo(char),
    /// Erase the last character on screen (`"\x08 \x08"`).
    Erase,
    /// End the line and print the password prompt.
    PromptPassword,
    /// End the line and check the user name and password held in the state.
    Authenticate,
}

/// What follows an authentication answer.
#[derive(PartialEq, Eq, Structural, Clone, Copy, Debug)]
pub enum LoginOutcome {
    /// Logged in: greet the user; the screen is done.
    Welcome,
    /// Wrong password: say so and prompt for the password again.
    Incorrect,
    /// The last allowed attempt failed: say so and prompt for a user name.
    TooManyAttempts,
}

/// The screen as plain values.
pub struct LoginModel {
    pub logging_in: bool,
    pub phase: LoginPhase,
    pub attempts: u8,
    pub name: Seq<u8>,
    pub pass: Seq<u8>,
}

impl LoginState {
    pub open spec fn model(&self) -> LoginModel {
        LoginModel {
            logging_in: self.logging_in,
            phase: self.phase,
            attempts: self.attempts,
            name: self.name@,
            pass: self.pass@,
        }
    }

    /// The fields stay within their limits and the attempts below the
    /// maximum.
    pub open spec fn wf(&self) -> bool {
        &&& self.name@.len() <= MAX_NAME
        &&& self.pass@.len() <= MAX_PASS
        &&& self.attempts < MAX_ATTEMPTS
    }

    /// A screen that is not shown.
    pub fn new() -> (s: Self)
        ensures
            s.wf(),
            s.model() == (LoginModel { logging_in: false, phase: LoginPhase::Username, attempts: 0, name: Seq::empty(), pass: Seq::empty() }),
    {
        LoginState { logging_in: false, phase: LoginPhase::Username, attempts: 0, name: Vec::new(), pass: Vec::new() }
    }
}

/// Whether the screen is shown and reading input.
pub fn is_logging_in(st: &LoginState) -> (r: bool)
    ensures
        r == st.logging_in,
{
    st.logging_in
}

/// The screen just shown: reading a user name, no attempts, empty fields.
pub open spec fn shown() -> LoginModel {
    LoginModel { logging_in: true, phase: LoginPhase::Username, attempts: 0, name: Seq::empty(), pass: Seq::empty() }
}

/// Show the screen (the caller prints the banner and the `login:` prompt).
pub fn show(st: &mut LoginState)
    ensures
        final(st).wf(),
        final(st).model() == shown(),
{
    st.logging_in = true;
    st.phase = LoginPhase::Username;
    st.attempts = 0;
    st.name = Vec::new();
    st.pass = Vec::new();
}

/// Characters a user name may hold.
pub open spec fn name_char(c: char) -> bool {
    ('a' <= c <= 'z') || ('A' <= c <= 'Z') || ('0' <= c <= '9') || c == '_' || c == '-'
}

/// Characters a password may hold: printable ASCII.
pub open spec fn pass_char(c: char) -> bool {
    ' ' <= c <= '~'
}

/// The bytes of `root`.
pub open spec fn root_name() -> Seq<u8> {
    seq![0x72u8, 0x6Fu8, 0x6Fu8, 0x74u8]
}

/// The screen and the action after a key.
pub open spec fn input_step(m: LoginModel, ev: KeyEvent) -> (LoginModel, LoginAction) {
    if !m.logging_in {
        (m, LoginAction::Nothing)
    } else {
        match ev {
            KeyEvent::Char(c) => match m.phase {
                LoginPhase::Username => {
                    if c == '\n' {
                        let name = if m.name.len() == 0 { root_name() } else { m.name };
                        (LoginModel { phase: LoginPhase::Password, name, pass: Seq::empty(), ..m }, LoginAction::PromptPassword)
                    } else if c == '\x08' {
                        if m.name.len() > 0 {
                            (LoginModel { name: m.name.drop_last(), ..m }, LoginAction::Erase)
                        } else {
                            (m, LoginAction::Nothing)
                        }
                    } else if name_char(c) && m.name.len() < MAX_NAME {
                        (LoginModel { name: m.name.push(c as u8), ..m }, LoginAction::Echo(c))
                    } else {
                        (m, LoginAction::Nothing)
                    }
                },
                LoginPhase::Password => {
                    if c == '\n' {
                        (m, LoginAction::Authenticate)
                    } else if c == '\x08' {
                        if m.pass.len() > 0 {
                            (LoginModel { pass: m.pass.drop_last(), ..m }, LoginAction::Erase)
                        } else {
                            (m, LoginAction::Nothing)
                        }
                    } else if pass_char(c) && m.pass.len() < MAX_PASS {
                        (LoginModel { pass: m.pass.push(c as u8), ..m }, LoginAction::Echo('*'))
                    } else {
                        (m, LoginAction::Nothing)
                    }
                },
            },
            _ => (m, LoginAction::Nothing),
        }
    }
}

fn is_name_char(c: char) -> (r: bool)
    ensures
        r == name_char(c),
{
    ('a' <= c && c <= 'z') || ('A' <= c && c <= 'Z') || ('0' <= c && c <= '9') || c == '_' || c == '-'
}

/// Handle one key while the screen is shown.
pub fn handle_input(st: &mut LoginState, event: KeyEvent) -> (r: LoginAction)
    requires
        old(st).wf(),
    ensures
        final(st).wf(),
        (final(st).model(), r) == input_step(old(st).model(), event),
{
    if !st.logging_in {
        return LoginAction::Nothing;
    }
    let c = match event {
        KeyEvent::Char(c) => c,
        _ => {
            return LoginAction::Nothing;
        },
    };
    match st.phase {
        LoginPhase::Username => {
            if c == '\n' {
                if st.name.len() == 0 {
                    let mut root: Vec<u8> = Vec::new();
                    root.push(0x72);
                    root.push(0x6F);
                    root.push(0x6F);
                    root.push(0x74);
                    assert(root@ =~= root_name());
                    st.name = root;
                }
                st.pass = Vec::new();
                st.phase = LoginPhase::Password;
                assert(st.pass@ =~= Seq::<u8>::empty());
                LoginAction::PromptPassword
            } else if c == '\x08' {
                if st.name.len() > 0 {
                    st.name.pop();
                    LoginAction::Erase
                } else {
                    LoginAction::Nothing
                }
            } else if is_name_char(c) && st.name.len() < MAX_NAME {
                st.name.push(c as u8);
                LoginAction::Echo(c)
            } else {
                LoginAction::Nothing
            }
        },
        LoginPhase::Password => {
            if c == '\n' {
                LoginAction::Authenticate
            } else if c == '\x08' {
                if st.pass.len() > 0 {
                    st.pass.pop();
                    LoginAction::Erase
                } else {
                    LoginAction::Nothing
                }
            } else if ' ' <= c && c <= '~' && st.pass.len() < MAX_PASS {
                st.pass.push(c as u8);
                LoginAction::Echo('*')
            } else {
                LoginAction::Nothing
            }
        },
    }
}

/// The screen and the outcome once the password check answered `ok`.
pub open spec fn auth_step(m: LoginModel, ok: bool) -> (LoginModel, LoginOutcome) {
    if ok {
        (LoginModel { logging_in: false, name: Seq::empty(), pass: Seq::empty(), ..m }, LoginOutcome::Welcome)
    } else if m.attempts + 1 >= MAX_ATTEMPTS {
        (LoginModel { phase: LoginPhase::Username, attempts: 0, name: Seq::empty(), pass: Seq::empty(), ..m },
            LoginOutcome::TooManyAttempts)
    } else {
        (LoginModel { phase: LoginPhase::Password, attempts: (m.attempts + 1) as u8, pass: Seq::empty(), ..m },
            LoginOutcome::Incorrect)
    }
}

/// Take the answer of the password check asked for by `Authenticate`.
pub fn auth_result(st: &mut LoginState, ok: bool) -> (r: LoginOutcome)
    requires
        old(st).wf(),
    ensures
        final(st).wf(),
        (final(st).model(), r) == auth_step(old(st).model(), ok),
{
    if ok {
        st.name = Vec::new();
        st.pass = Vec::new();
        st.logging_in = false;
        return LoginOutcome::Welcome;
    }
    let attempts = st.attempts + 1;
    if attempts >= MAX_ATTEMPTS {
        st.attempts = 0;
        st.name = Vec::new();
        st.pass = Vec::new();
        st.phase = LoginPhase::Username;
        LoginOutcome::TooManyAttempts
    } else {
        st.attempts = attempts;
        st.pass = Vec::new();
        st.phase = LoginPhase::Password;
        LoginOutcome::Incorrect
    }
}

/// Starting from no failed attempt, the first two failed password checks
/// ask for the password again and the third sends the screen back to an
/// empty user name with the count reset.
pub proof fn law_three_failures_restart(m: LoginModel)
    requires
        m.attempts == 0,
    ensures
        ({
            let (m1, o1) = auth_step(m, false);
            let (m2, o2) = auth_step(m1, false);
            let (m3, o3) = auth_step(m2, false);
            &&& o1 == LoginOutcome::Incorrect && o2 == LoginOutcome::Incorrect
            &&& o3 == LoginOutcome::TooManyAttempts
            &&& m3.phase == LoginPhase::Username && m3.attempts == 0
            &&& m3.name.len() == 0 && m3.pass.len() == 0
        }),
{
}

} // verus!
