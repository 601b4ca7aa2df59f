//! The decisions of the `login` command.
use vstd::prelude::*;

verus! {

/// What a command reports when it is done.
#[derive(Clone, Debug, PartialEq, Eq)]
pub struct CommandReport {
    pub ok: bool,
    pub message: String,
}

/// The report of a successful login. It holds no token and no cookie: the
/// session stays in the process.
pub fn login_success() -> (r: CommandReport)
    ensures
        r.ok,
        r.message@ == "login ok"@,
{
    CommandReport { ok: true, message: "login ok".to_owned() }
}

/// The report after the stored legacy token was cleared.
pub fn token_cleared() -> (r: CommandReport)
    ensures
        r.ok,
        r.message@ == "legacy auth token cleared"@,
{
    CommandReport { ok: true, message: "legacy auth token cleared".to_owned() }
}

/// What the `login` command does with its arguments.
#[derive(Debug, PartialEq, Eq)]
pub enum LoginPlan {
    /// Clear the stored legacy token, and nothing else.
    ClearToken,
    /// Fail: neither a username nor `--clear` was given.
    MissingUsername,
    /// Sign in as `username`; without a password, ask for one.
    SignIn { username: String, password: Option<String> },
}

/// `--clear` wins; else a username is needed.
pub fn plan_login(clear: bool, username: Option<String>, password: Option<String>) -> (r: LoginPlan)
    ensures
        clear ==> r == LoginPlan::ClearToken,
        !clear && username is None ==> r == LoginPlan::MissingUsername,
        !clear && username is Some ==> r == (LoginPlan::SignIn { username: username->0, password }),
{
    if clear {
        return LoginPlan::ClearToken;
    }
    match username {
        None => LoginPlan::MissingUsername,
        Some(u) => LoginPlan::SignIn { username: u, password },
    }
}

} // verus!
