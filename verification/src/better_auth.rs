//! Signing in to a Better Auth server: the credentials, the default
//! headers, and the decisions of one sign-in sequence.
use vstd::prelude::*;
use vstd::string::*;
use vstd::utf8::encode_utf8;
use crate::json::{Json, member, member_is_object, get_member, has_object_member};
use crate::text::chars_of;

verus! {

/// Runtime-only credentials for a Better Auth session.
///
/// It has no `Debug`, so that credential values cannot be printed by
/// ordinary diagnostic formatting.
pub struct BetterAuthCredentials {
    username: String,
    password: String,
    totp: Option<String>,
}

pub ghost struct CredentialsView {
    pub username: Seq<char>,
    pub password: Seq<char>,
    pub totp: Option<Seq<char>>,
}

impl View for BetterAuthCredentials {
    type V = CredentialsView;

    closed spec fn view(&self) -> CredentialsView {
        CredentialsView {
            username: self.username@,
            password: self.password@,
            totp: match self.totp {
                Some(t) => Some(t@),
                None => None,
            },
        }
    }
}

impl BetterAuthCredentials {
    pub fn new(username: String, password: String, totp: Option<String>) -> (r: Self)
        ensures
            r@ == (CredentialsView {
                username: username@,
                password: password@,
                totp: match totp {
                    Some(t) => Some(t@),
                    None => None,
                },
            }),
    {
        BetterAuthCredentials { username, password, totp }
    }
}

// ---------------------------------------------------------------------------
// Numbers as text
// ---------------------------------------------------------------------------

pub open spec fn digit_char(d: nat) -> char {
    seq!['0', '1', '2', '3', '4', '5', '6', '7', '8', '9'][d as int]
}

/// The decimal digits of `n`.
pub open spec fn decimal(n: nat) -> Seq<char>
    decreases n,
{
    if n < 10 {
        seq![digit_char(n)]
    } else {
        decimal(n / 10).push(digit_char(n % 10))
    }
}

fn digit_str(d: u16) -> (r: &'static str)
    requires
        d < 10,
    ensures
        r@ == seq![digit_char(d as nat)],
{
    match d {
        0 => {
            proof { reveal_strlit("0"); }
            "0"
        },
        1 => {
            proof { reveal_strlit("1"); }
            "1"
        },
        2 => {
            proof { reveal_strlit("2"); }
            "2"
        },
        3 => {
            proof { reveal_strlit("3"); }
            "3"
        },
        4 => {
            proof { reveal_strlit("4"); }
            "4"
        },
        5 => {
            proof { reveal_strlit("5"); }
            "5"
        },
        6 => {
            proof { reveal_strlit("6"); }
            "6"
        },
        7 => {
            proof { reveal_strlit("7"); }
            "7"
        },
        8 => {
            proof { reveal_strlit("8"); }
            "8"
        },
        _ => {
            proof { reveal_strlit("9"); }
            "9"
        },
    }
}

/// The decimal digits of `n`.
pub fn decimal_text(n: u16) -> (r: String)
    ensures
        r@ == decimal(n as nat),
    decreases n,
{
    if n < 10 {
        digit_str(n).to_owned()
    } else {
        let mut s = decimal_text(n / 10);
        s.append(digit_str(n % 10));
        s
    }
}

// ---------------------------------------------------------------------------
// Default headers
// ---------------------------------------------------------------------------

/// The index of the first `=` in `s`, or -1.
pub open spec fn eq_index(s: Seq<char>) -> int
    decreases s.len(),
{
    if s.len() == 0 {
        -1
    } else if s[0] == '=' {
        0
    } else if eq_index(s.drop_first()) < 0 {
        -1
    } else {
        eq_index(s.drop_first()) + 1
    }
}

/// A setting `name=value` split at its first `=`.
pub open spec fn split_once_eq(s: Seq<char>) -> Option<(Seq<char>, Seq<char>)> {
    let i = eq_index(s);
    if i < 0 {
        None
    } else {
        Some((s.take(i), s.skip(i + 1)))
    }
}

/// The bytes that may stand in a header name: the token characters of
/// HTTP, upper-case letters included (they are lower-cased).
pub open spec fn header_name_byte(b: u8) -> bool {
    ||| b == 33
    ||| 35 <= b <= 39
    ||| b == 42 || b == 43 || b == 45 || b == 46
    ||| 48 <= b <= 57
    ||| 65 <= b <= 90
    ||| 94 <= b <= 122
    ||| b == 124 || b == 126
}

/// The byte strings that are header names: 1 to 65535 name bytes.
pub open spec fn header_name_ok(b: Seq<u8>) -> bool {
    0 < b.len() <= 65535 && forall|i: int| 0 <= i < b.len() ==> header_name_byte(#[trigger] b[i])
}

/// The byte strings that are header values: visible characters, spaces,
/// tabs and bytes from 128 up; no other control character.
pub open spec fn header_value_ok(b: Seq<u8>) -> bool {
    forall|i: int| 0 <= i < b.len() ==> ((#[trigger] b[i] >= 32 && b[i] != 127) || b[i] == 9)
}

/// Calls `HeaderName::from_bytes` of the `http` crate (as reqwest re-exports
/// it) and reports whether it accepted the bytes. Its source (`parse_hdr`
/// with the table `HEADER_CHARS`) accepts exactly the byte strings of length
/// 1 to 65535 whose every byte has a non-zero entry in that table; those
/// bytes are the ones `header_name_byte` lists.
#[verifier::external_body]
fn header_name_accepts(bytes: &[u8]) -> (r: bool)
    ensures
        r == header_name_ok(bytes@),
{
    reqwest::header::HeaderName::from_bytes(bytes).is_ok()
}

/// Calls `HeaderValue::from_bytes` of the `http` crate (as reqwest re-exports
/// it) and reports whether it accepted the bytes. Its source rejects a byte
/// string exactly when some byte fails `is_valid`: `b >= 32 && b != 127 ||
/// b == b'\t'`.
#[verifier::external_body]
fn header_value_accepts(bytes: &[u8]) -> (r: bool)
    ensures
        r == header_value_ok(bytes@),
{
    reqwest::header::HeaderValue::from_bytes(bytes).is_ok()
}

/// The header that a setting `name=value` gives, if its name and value are
/// acceptable.
pub open spec fn header_of(s: Seq<char>) -> Option<(Seq<char>, Seq<char>)> {
    match split_once_eq(s) {
        Some((k, v)) => if header_name_ok(encode_utf8(k)) && header_value_ok(encode_utf8(v)) {
            Some((k, v))
        } else {
            None
        },
        None => None,
    }
}

/// The headers of a list of settings, in order; the settings without `=`
/// and those whose name or value is not acceptable are left out.
pub open spec fn header_pairs(settings: Seq<Seq<char>>) -> Seq<(Seq<char>, Seq<char>)>
    decreases settings.len(),
{
    if settings.len() == 0 {
        Seq::empty()
    } else {
        let rest = header_pairs(settings.drop_last());
        match header_of(settings.last()) {
            Some(p) => rest.push(p),
            None => rest,
        }
    }
}

/// Splits a setting at its first `=`.
pub fn split_setting(s: &str) -> (r: Option<(String, String)>)
    ensures
        match (r, split_once_eq(s@)) {
            (Some((k, v)), Some((a, b))) => k@ == a && v@ == b,
            (None, None) => true,
            _ => false,
        },
{
    let cs = chars_of(s);
    let n = cs.len();
    let mut i: usize = 0;
    assert(s@.skip(0) =~= s@);
    while i < n
        invariant
            cs@ == s@,
            n == s@.len(),
            i <= n,
            forall|j: int| 0 <= j < i ==> s@[j] != '=',
            eq_index(s@) == if eq_index(s@.skip(i as int)) < 0 { -1 } else { eq_index(s@.skip(i as int)) + i },
        decreases n - i,
    {
        assert(s@.skip(i as int).drop_first() =~= s@.skip(i + 1));
        assert(s@.skip(i as int)[0] == s@[i as int]);
        if cs[i] == '=' {
            let k = s.substring_char(0, i).to_owned();
            let v = s.substring_char(i + 1, n).to_owned();
            return Some((k, v));
        }
        i = i + 1;
    }
    None
}

pub open spec fn setting_views(v: Seq<String>) -> Seq<Seq<char>> {
    v.map_values(|s: String| s@)
}

pub open spec fn pair_views(v: Seq<(String, String)>) -> Seq<(Seq<char>, Seq<char>)> {
    v.map_values(|p: (String, String)| (p.0@, p.1@))
}

/// The default headers of the client: each setting `name=value` split at
/// its first `=`, keeping those whose name and value HTTP accepts.
pub fn parse_headers(headers: &[String]) -> (r: Vec<(String, String)>)
    ensures
        pair_views(r@) == header_pairs(setting_views(headers@)),
{
    let ghost hs = setting_views(headers@);
    let mut r: Vec<(String, String)> = Vec::new();
    let mut i: usize = 0;
    assert(hs.take(0) =~= Seq::<Seq<char>>::empty());
    assert(pair_views(r@) =~= Seq::<(Seq<char>, Seq<char>)>::empty());
    while i < headers.len()
        invariant
            hs == setting_views(headers@),
            i <= headers@.len(),
            pair_views(r@) == header_pairs(hs.take(i as int)),
        decreases headers@.len() - i,
    {
        assert(hs.take(i + 1).drop_last() =~= hs.take(i as int));
        assert(hs.take(i + 1).last() == headers@[i as int]@);
        match split_setting(headers[i].as_str()) {
            Some((k, v)) => {
                if header_name_accepts(k.as_str().as_bytes()) && header_value_accepts(v.as_str().as_bytes()) {
                    let ghost before = r@;
                    let ghost pk = k@;
                    let ghost pv = v@;
                    r.push((k, v));
                    assert(pair_views(r@) =~= pair_views(before).push((pk, pv)));
                }
            },
            None => {},
        }
        i = i + 1;
    }
    assert(hs.take(headers@.len() as int) =~= hs);
    r
}

// ---------------------------------------------------------------------------
// The sign-in sequence
// ---------------------------------------------------------------------------

/// Why authentication failed. None of them holds a credential.
#[derive(Debug)]
pub enum AuthError {
    /// A request URL could not be formed from the base URL.
    InvalidUrl(String),
    /// The server refused a step.
    LoginError(String),
    /// The server asks for a TOTP code and none was given.
    TokenRequired,
    /// A request could not be sent, or its answer could not be read.
    Http(String),
}

pub ghost enum AuthErrorView {
    InvalidUrl(Seq<char>),
    LoginError(Seq<char>),
    TokenRequired,
    Http(Seq<char>),
}

impl View for AuthError {
    type V = AuthErrorView;

    open spec fn view(&self) -> AuthErrorView {
        match self {
            AuthError::InvalidUrl(m) => AuthErrorView::InvalidUrl(m@),
            AuthError::LoginError(m) => AuthErrorView::LoginError(m@),
            AuthError::TokenRequired => AuthErrorView::TokenRequired,
            AuthError::Http(m) => AuthErrorView::Http(m@),
        }
    }
}

/// The text of an authentication error.
pub open spec fn auth_error_message(e: AuthErrorView) -> Seq<char> {
    match e {
        AuthErrorView::InvalidUrl(m) => "invalid URL: "@ + m,
        AuthErrorView::LoginError(m) => m,
        AuthErrorView::TokenRequired => "a TOTP code is required to sign in"@,
        AuthErrorView::Http(m) => m,
    }
}

impl AuthError {
    /// The text of the error.
    pub fn message(&self) -> (r: String)
        ensures
            r@ == auth_error_message(self@),
    {
        match self {
            AuthError::InvalidUrl(m) => {
                let mut t = "invalid URL: ".to_owned();
                t.append(m.as_str());
                t
            },
            AuthError::LoginError(m) => m.clone(),
            AuthError::TokenRequired => "a TOTP code is required to sign in".to_owned(),
            AuthError::Http(m) => m.clone(),
        }
    }
}

/// Where a sign-in sequence stands: the request that was last sent.
#[derive(Clone, Copy, Debug, PartialEq, Eq)]
pub enum AuthStage {
    /// Asking whether the process already has a valid session.
    CheckingSession,
    /// Sending the username and password.
    SigningIn,
    /// Sending the TOTP code.
    VerifyingTotp,
    /// Asking whether the new session is valid.
    ConfirmingSession,
}

/// A request to the server.
#[derive(Debug)]
pub enum AuthRequest {
    GetSession,
    SignIn { username: String, password: String, remember_me: bool },
    VerifyTotp { code: String },
}

pub ghost enum RequestView {
    GetSession,
    SignIn { username: Seq<char>, password: Seq<char>, remember_me: bool },
    VerifyTotp { code: Seq<char> },
}

impl View for AuthRequest {
    type V = RequestView;

    open spec fn view(&self) -> RequestView {
        match self {
            AuthRequest::GetSession => RequestView::GetSession,
            AuthRequest::SignIn { username, password, remember_me } => RequestView::SignIn {
                username: username@,
                password: password@,
                remember_me: *remember_me,
            },
            AuthRequest::VerifyTotp { code } => RequestView::VerifyTotp { code: code@ },
        }
    }
}

/// The path of a request, relative to the base URL.
pub open spec fn request_path(r: RequestView) -> Seq<char> {
    match r {
        RequestView::GetSession => "api/auth/get-session"@,
        RequestView::SignIn { .. } => "api/auth/sign-in/username"@,
        RequestView::VerifyTotp { .. } => "api/auth/two-factor/verify-totp"@,
    }
}

/// A member `key` whose value is the string `value`.
pub open spec fn string_member(m: (String, Json), key: Seq<char>, value: Seq<char>) -> bool {
    m.0@ == key && match m.1 {
        Json::Str(s) => s@ == value,
        _ => false,
    }
}

impl AuthRequest {
    /// The path of the request, relative to the base URL.
    pub fn path(&self) -> (r: &'static str)
        ensures
            r@ == request_path(self@),
    {
        match self {
            AuthRequest::GetSession => "api/auth/get-session",
            AuthRequest::SignIn { .. } => "api/auth/sign-in/username",
            AuthRequest::VerifyTotp { .. } => "api/auth/two-factor/verify-totp",
        }
    }

    /// Whether the request is a POST (else it is a GET).
    pub fn is_post(&self) -> (r: bool)
        ensures
            r == !(self@ is GetSession),
    {
        match self {
            AuthRequest::GetSession => false,
            _ => true,
        }
    }

    /// Whether the answer's body is read, when the answer is a success.
    pub fn reads_body(&self) -> (r: bool)
        ensures
            r == !(self@ is VerifyTotp),
    {
        match self {
            AuthRequest::VerifyTotp { .. } => false,
            _ => true,
        }
    }

    /// The JSON body that the request sends, if any: the username, the
    /// password and `rememberMe: false` to sign in; the code to verify a
    /// TOTP code.
    pub fn body(&self) -> (r: Option<Json>)
        ensures
            match (self@, r) {
                (RequestView::GetSession, None) => true,
                (RequestView::SignIn { username, password, remember_me }, Some(Json::Object(ms))) =>
                    ms@.len() == 3
                    && string_member(ms@[0], "username"@, username)
                    && string_member(ms@[1], "password"@, password)
                    && ms@[2].0@ == "rememberMe"@ && ms@[2].1 == Json::Bool(remember_me),
                (RequestView::VerifyTotp { code }, Some(Json::Object(ms))) =>
                    ms@.len() == 1 && string_member(ms@[0], "code"@, code),
                _ => false,
            },
    {
        match self {
            AuthRequest::GetSession => None,
            AuthRequest::SignIn { username, password, remember_me } => {
                let mut ms: Vec<(String, Json)> = Vec::new();
                ms.push(("username".to_owned(), Json::Str(username.clone())));
                ms.push(("password".to_owned(), Json::Str(password.clone())));
                ms.push(("rememberMe".to_owned(), Json::Bool(*remember_me)));
                Some(Json::Object(ms))
            },
            AuthRequest::VerifyTotp { code } => {
                let mut ms: Vec<(String, Json)> = Vec::new();
                ms.push(("code".to_owned(), Json::Str(code.clone())));
                Some(Json::Object(ms))
            },
        }
    }
}

/// What came of the last request. `body` is the answer's JSON body where it
/// was read (see `AuthRequest::reads_body`), and `Json::Null` otherwise.
pub enum AuthEvent {
    Response { status: u16, body: Json },
    InvalidUrl(String),
    Transport(String),
}

pub ghost enum EventView {
    Response { status: u16, body: Json },
    InvalidUrl(Seq<char>),
    Transport(Seq<char>),
}

impl View for AuthEvent {
    type V = EventView;

    open spec fn view(&self) -> EventView {
        match self {
            AuthEvent::Response { status, body } => EventView::Response { status: *status, body: *body },
            AuthEvent::InvalidUrl(m) => EventView::InvalidUrl(m@),
            AuthEvent::Transport(m) => EventView::Transport(m@),
        }
    }
}

/// What to do next: send a request (and stand at the given stage), or
/// finish.
pub enum AuthAction {
    Send(AuthStage, AuthRequest),
    Finish(Result<(), AuthError>),
}

pub ghost enum ActionView {
    Send(AuthStage, RequestView),
    Finish(Result<(), AuthErrorView>),
}

impl View for AuthAction {
    type V = ActionView;

    open spec fn view(&self) -> ActionView {
        match self {
            AuthAction::Send(s, r) => ActionView::Send(*s, r@),
            AuthAction::Finish(Ok(())) => ActionView::Finish(Ok(())),
            AuthAction::Finish(Err(e)) => ActionView::Finish(Err(e@)),
        }
    }
}

/// A status code in 200 to 299.
pub open spec fn is_success(status: u16) -> bool {
    200 <= status <= 299
}

/// A session answer that names a session and a user, both objects.
pub open spec fn session_valid(body: Json) -> bool {
    !(body is Null) && member_is_object(body, "session"@) && member_is_object(body, "user"@)
}

/// A sign-in answer that asks for the second factor.
pub open spec fn two_factor_redirect(body: Json) -> bool {
    member(body, "twoFactorRedirect"@) == Some(Json::Bool(true))
}

pub open spec fn failed_with(text: Seq<char>, status: u16) -> ActionView {
    ActionView::Finish(Err(AuthErrorView::LoginError(text + decimal(status as nat))))
}

/// The decision after the answer to the request sent at `stage`.
pub open spec fn next_action(stage: AuthStage, c: CredentialsView, ev: EventView) -> ActionView {
    match ev {
        EventView::InvalidUrl(m) => ActionView::Finish(Err(AuthErrorView::InvalidUrl(m))),
        EventView::Transport(m) => ActionView::Finish(Err(AuthErrorView::Http(m))),
        EventView::Response { status, body } => match stage {
            AuthStage::CheckingSession => if !is_success(status) {
                failed_with("Better Auth session validation failed with HTTP "@, status)
            } else if session_valid(body) {
                ActionView::Finish(Ok(()))
            } else {
                ActionView::Send(
                    AuthStage::SigningIn,
                    RequestView::SignIn { username: c.username, password: c.password, remember_me: false },
                )
            },
            AuthStage::SigningIn => if !is_success(status) {
                failed_with("Better Auth sign-in failed with HTTP "@, status)
            } else if two_factor_redirect(body) {
                match c.totp {
                    None => ActionView::Finish(Err(AuthErrorView::TokenRequired)),
                    Some(code) => ActionView::Send(AuthStage::VerifyingTotp, RequestView::VerifyTotp { code }),
                }
            } else {
                ActionView::Send(AuthStage::ConfirmingSession, RequestView::GetSession)
            },
            AuthStage::VerifyingTotp => if !is_success(status) {
                failed_with("Better Auth TOTP verification failed with HTTP "@, status)
            } else {
                ActionView::Send(AuthStage::ConfirmingSession, RequestView::GetSession)
            },
            AuthStage::ConfirmingSession => if !is_success(status) {
                failed_with("Better Auth session validation failed with HTTP "@, status)
            } else if session_valid(body) {
                ActionView::Finish(Ok(()))
            } else {
                ActionView::Finish(Err(AuthErrorView::LoginError("Better Auth session validation failed"@)))
            },
        },
    }
}

/// Whether a session answer names a valid session.
pub fn session_is_valid(body: &Json) -> (r: bool)
    ensures
        r == session_valid(*body),
{
    match body {
        Json::Null => false,
        _ => has_object_member(body, "session") && has_object_member(body, "user"),
    }
}

/// Whether a sign-in answer asks for the second factor.
pub fn asks_second_factor(body: &Json) -> (r: bool)
    ensures
        r == two_factor_redirect(*body),
{
    match get_member(body, "twoFactorRedirect") {
        Some(Json::Bool(b)) => *b,
        _ => false,
    }
}

fn login_failure(text: &str, status: u16) -> (r: AuthAction)
    ensures
        r@ == failed_with(text@, status),
{
    let mut m = text.to_owned();
    m.append(decimal_text(status).as_str());
    AuthAction::Finish(Err(AuthError::LoginError(m)))
}

/// The first step of a sign-in sequence: ask whether the process already
/// has a valid session.
pub fn start_authentication() -> (r: (AuthStage, AuthRequest))
    ensures
        r.0 == AuthStage::CheckingSession,
        r.1@ == RequestView::GetSession,
{
    (AuthStage::CheckingSession, AuthRequest::GetSession)
}

/// The decision after the answer to the request sent at `stage`.
pub fn next_step(stage: AuthStage, credentials: &BetterAuthCredentials, event: AuthEvent) -> (r: AuthAction)
    ensures
        r@ == next_action(stage, credentials@, event@),
{
    match event {
        AuthEvent::InvalidUrl(m) => AuthAction::Finish(Err(AuthError::InvalidUrl(m))),
        AuthEvent::Transport(m) => AuthAction::Finish(Err(AuthError::Http(m))),
        AuthEvent::Response { status, body } => {
            let success = 200 <= status && status <= 299;
            match stage {
                AuthStage::CheckingSession => {
                    if !success {
                        login_failure("Better Auth session validation failed with HTTP ", status)
                    } else if session_is_valid(&body) {
                        AuthAction::Finish(Ok(()))
                    } else {
                        AuthAction::Send(
                            AuthStage::SigningIn,
                            AuthRequest::SignIn {
                                username: credentials.username.clone(),
                                password: credentials.password.clone(),
                                remember_me: false,
                            },
                        )
                    }
                },
                AuthStage::SigningIn => {
                    if !success {
                        login_failure("Better Auth sign-in failed with HTTP ", status)
                    } else if asks_second_factor(&body) {
                        match &credentials.totp {
                            None => AuthAction::Finish(Err(AuthError::TokenRequired)),
                            Some(code) => AuthAction::Send(
                                AuthStage::VerifyingTotp,
                                AuthRequest::VerifyTotp { code: code.clone() },
                            ),
                        }
                    } else {
                        AuthAction::Send(AuthStage::ConfirmingSession, AuthRequest::GetSession)
                    }
                },
                AuthStage::VerifyingTotp => {
                    if !success {
                        login_failure("Better Auth TOTP verification failed with HTTP ", status)
                    } else {
                        AuthAction::Send(AuthStage::ConfirmingSession, AuthRequest::GetSession)
                    }
                },
                AuthStage::ConfirmingSession => {
                    if !success {
                        login_failure("Better Auth session validation failed with HTTP ", status)
                    } else if session_is_valid(&body) {
                        AuthAction::Finish(Ok(()))
                    } else {
                        AuthAction::Finish(
                            Err(AuthError::LoginError("Better Auth session validation failed".to_owned())),
                        )
                    }
                },
            }
        },
    }
}

// ---------------------------------------------------------------------------
// Laws of the sign-in sequence
// ---------------------------------------------------------------------------

/// The order of the stages.
pub open spec fn rank(s: AuthStage) -> int {
    match s {
        AuthStage::CheckingSession => 0,
        AuthStage::SigningIn => 1,
        AuthStage::VerifyingTotp => 2,
        AuthStage::ConfirmingSession => 3,
    }
}

/// The requests sent after the one of `stage`, when the answers come as
/// `events` (one per request; the run stops when it finishes).
pub open spec fn run_requests(stage: AuthStage, c: CredentialsView, events: Seq<EventView>) -> Seq<RequestView>
    decreases events.len(),
{
    if events.len() == 0 {
        Seq::empty()
    } else {
        match next_action(stage, c, events[0]) {
            ActionView::Send(s2, req) => seq![req] + run_requests(s2, c, events.drop_first()),
            ActionView::Finish(_) => Seq::empty(),
        }
    }
}

/// The requests of a whole sign-in sequence: the first session check, then
/// the requests that the answers lead to.
pub open spec fn sequence_requests(c: CredentialsView, events: Seq<EventView>) -> Seq<RequestView> {
    seq![RequestView::GetSession] + run_requests(AuthStage::CheckingSession, c, events)
}

pub open spec fn count_sign_ins(r: Seq<RequestView>) -> nat
    decreases r.len(),
{
    if r.len() == 0 {
        0
    } else {
        (if r[0] is SignIn { 1nat } else { 0nat }) + count_sign_ins(r.drop_first())
    }
}

pub open spec fn count_totps(r: Seq<RequestView>) -> nat
    decreases r.len(),
{
    if r.len() == 0 {
        0
    } else {
        (if r[0] is VerifyTotp { 1nat } else { 0nat }) + count_totps(r.drop_first())
    }
}

pub open spec fn count_session_checks(r: Seq<RequestView>) -> nat
    decreases r.len(),
{
    if r.len() == 0 {
        0
    } else {
        (if r[0] is GetSession { 1nat } else { 0nat }) + count_session_checks(r.drop_first())
    }
}

/// Each request moves the sequence to a later stage: it cannot loop.
pub proof fn lemma_stage_advances(stage: AuthStage, c: CredentialsView, ev: EventView)
    ensures
        next_action(stage, c, ev) matches ActionView::Send(s2, _) ==> rank(s2) > rank(stage),
        next_action(stage, c, ev) matches ActionView::Send(_, RequestView::SignIn { .. })
            ==> stage == AuthStage::CheckingSession,
        next_action(stage, c, ev) matches ActionView::Send(_, RequestView::VerifyTotp { .. })
            ==> stage == AuthStage::SigningIn,
        stage == AuthStage::ConfirmingSession ==> next_action(stage, c, ev) is Finish,
{
}

proof fn lemma_run_bounds(stage: AuthStage, c: CredentialsView, events: Seq<EventView>)
    ensures
        run_requests(stage, c, events).len() <= 3 - rank(stage),
        count_sign_ins(run_requests(stage, c, events)) <= (if rank(stage) == 0 { 1int } else { 0int }),
        count_totps(run_requests(stage, c, events)) <= (if rank(stage) <= 1 { 1int } else { 0int }),
        count_session_checks(run_requests(stage, c, events)) <= (if rank(stage) <= 2 { 1int } else { 0int }),
    decreases events.len(),
{
    if events.len() > 0 {
        lemma_stage_advances(stage, c, events[0]);
        match next_action(stage, c, events[0]) {
            ActionView::Send(s2, req) => {
                lemma_run_bounds(s2, c, events.drop_first());
                let rest = run_requests(s2, c, events.drop_first());
                let all = seq![req] + rest;
                assert(all[0] == req);
                assert(all.drop_first() =~= rest);
            },
            ActionView::Finish(_) => {},
        }
    }
}

/// A sign-in sequence sends at most one username/password request, at most
/// one TOTP request and at most two session checks, whatever the server
/// answers.
pub proof fn lemma_one_sign_in_per_sequence(c: CredentialsView, events: Seq<EventView>)
    ensures
        count_sign_ins(sequence_requests(c, events)) <= 1,
        count_totps(sequence_requests(c, events)) <= 1,
        count_session_checks(sequence_requests(c, events)) <= 2,
        sequence_requests(c, events).len() <= 4,
{
    lemma_run_bounds(AuthStage::CheckingSession, c, events);
    let rest = run_requests(AuthStage::CheckingSession, c, events);
    let all = sequence_requests(c, events);
    assert(all[0] == RequestView::GetSession);
    assert(all.drop_first() =~= rest);
}

/// The decisions depend on the credentials only through whether a TOTP code
/// was given: where the sequence finishes, with success or with an error,
/// it does so alike whatever the username, password and code are. So no
/// error can carry a credential.
pub proof fn lemma_outcome_ignores_secrets(
    stage: AuthStage,
    c1: CredentialsView,
    c2: CredentialsView,
    ev: EventView,
)
    requires
        c1.totp is Some <==> c2.totp is Some,
    ensures
        next_action(stage, c1, ev) is Finish ==> next_action(stage, c2, ev) == next_action(stage, c1, ev),
        next_action(stage, c1, ev) matches ActionView::Send(s1, _) ==> next_action(stage, c2, ev) matches ActionView::Send(s2, _) && s1 == s2,
{
}

/// A process that already holds a valid session signs in with no request
/// beyond the first session check.
pub proof fn lemma_valid_session_reused(c: CredentialsView, status: u16, body: Json)
    requires
        is_success(status),
        session_valid(body),
    ensures
        next_action(AuthStage::CheckingSession, c, EventView::Response { status, body }) == ActionView::Finish(Ok(())),
        run_requests(AuthStage::CheckingSession, c, seq![EventView::Response { status, body }]).len() == 0,
{
}

/// A session that is rejected after the sign-in requests ends the sequence
/// with an error; there is no second attempt.
pub proof fn lemma_rejected_session_is_terminal(c: CredentialsView, status: u16, body: Json)
    requires
        !session_valid(body),
    ensures
        next_action(AuthStage::ConfirmingSession, c, EventView::Response { status, body }) matches ActionView::Finish(Err(_)),
{
}

/// The sign-in sequence ends in success only on a successful answer (a
/// status in 200 to 299) whose body is a non-null document with objects
/// under `session` and `user`.
pub proof fn lemma_success_needs_valid_session(stage: AuthStage, c: CredentialsView, ev: EventView)
    ensures
        next_action(stage, c, ev) == ActionView::Finish(Ok(())) ==> (ev matches EventView::Response { status, body }
            && 200 <= status <= 299
            && !(body is Null)
            && member_is_object(body, "session"@)
            && member_is_object(body, "user"@)),
{
}

/// A request that could not be built or whose answer could not be had ends
/// the sequence with that error, at every stage.
pub proof fn lemma_failed_request_is_an_error(stage: AuthStage, c: CredentialsView, m: Seq<char>)
    ensures
        next_action(stage, c, EventView::Transport(m)) == ActionView::Finish(Err(AuthErrorView::Http(m))),
        next_action(stage, c, EventView::InvalidUrl(m)) == ActionView::Finish(Err(AuthErrorView::InvalidUrl(m))),
{
}

/// A setting whose name and value the `http` checks accept is kept, split
/// at its first `=`, after the headers of the settings before it.
pub proof fn lemma_accepted_header_kept(settings: Seq<Seq<char>>, x: Seq<char>, k: Seq<char>, v: Seq<char>)
    requires
        split_once_eq(x) == Some((k, v)),
        header_name_ok(encode_utf8(k)),
        header_value_ok(encode_utf8(v)),
    ensures
        header_pairs(settings.push(x)) == header_pairs(settings).push((k, v)),
{
    assert(settings.push(x).drop_last() =~= settings);
}

/// A setting without `=`, or whose name or value the `http` checks refuse,
/// adds no header.
pub proof fn lemma_refused_header_dropped(settings: Seq<Seq<char>>, x: Seq<char>)
    requires
        !(split_once_eq(x) matches Some((k, v)) && (header_name_ok(encode_utf8(k)) && header_value_ok(encode_utf8(v)))),
    ensures
        header_pairs(settings.push(x)) == header_pairs(settings),
{
    assert(settings.push(x).drop_last() =~= settings);
}

/// `name=value`, with no `=` in the name, splits into the name and the
/// value (which may hold `=`).
pub proof fn lemma_split_at_first_eq(k: Seq<char>, v: Seq<char>)
    requires
        !k.contains('='),
    ensures
        split_once_eq(k + seq!['='] + v) == Some((k, v)),
{
    let x = k + seq!['='] + v;
    lemma_eq_index_after(k, v);
    assert(x.take(k.len() as int) =~= k);
    assert(x.skip(k.len() as int + 1) =~= v);
}

proof fn lemma_eq_index_after(k: Seq<char>, v: Seq<char>)
    requires
        !k.contains('='),
    ensures
        eq_index(k + seq!['='] + v) == k.len(),
    decreases k.len(),
{
    let x = k + seq!['='] + v;
    if k.len() > 0 {
        let k2 = k.drop_first();
        assert(!k2.contains('=')) by {
            if k2.contains('=') {
                let i = choose|i: int| 0 <= i < k2.len() && k2[i] == '=';
                assert(k[i + 1] == '=');
            }
        }
        lemma_eq_index_after(k2, v);
        assert(x.drop_first() =~= k2 + seq!['='] + v);
        assert(x[0] == k[0]);
        assert(k[0] != '=') by {
            if k[0] == '=' {
                assert(k.contains('='));
            }
        }
    } else {
        assert(x[0] == '=');
    }
}

/// Text of printable ASCII characters and spaces, such as `Bearer abc123`,
/// is an acceptable header value.
pub proof fn lemma_printable_value_accepted(v: Seq<char>)
    requires
        forall|i: int| 0 <= i < v.len() ==> ' ' <= #[trigger] v[i] <= '~',
    ensures
        header_value_ok(encode_utf8(v)),
{
    assert(vstd::utf8::is_ascii_chars(v));
    vstd::utf8::is_ascii_chars_encode_utf8(v);
    let b = encode_utf8(v);
    assert forall|i: int| 0 <= i < b.len() implies ((#[trigger] b[i] >= 32 && b[i] != 127) || b[i] == 9) by {
        assert(v[i] as u8 == b[i]);
        assert(' ' <= v[i] <= '~');
    }
}

/// The requests sent carry the credentials as they are: a username/password
/// sign-in (without "remember me") only after a successful session check
/// that found no valid session, and a TOTP request with the given code only
/// after a successful sign-in that asked for the second factor.
pub proof fn lemma_requests_carry_credentials(stage: AuthStage, c: CredentialsView, ev: EventView)
    ensures
        next_action(stage, c, ev) matches ActionView::Send(_, RequestView::SignIn { username, password, remember_me })
            ==> (username == c.username && password == c.password && !remember_me
            && stage == AuthStage::CheckingSession
            && (ev matches EventView::Response { status, body } && 200 <= status <= 299 && !session_valid(body))),
        next_action(stage, c, ev) matches ActionView::Send(_, RequestView::VerifyTotp { code })
            ==> (c.totp == Some(code) && stage == AuthStage::SigningIn
            && (ev matches EventView::Response { status, body } && 200 <= status <= 299
                && member(body, "twoFactorRedirect"@) == Some(Json::Bool(true)))),
{
}

/// An answer with a status outside 200 to 299 ends the sequence with a
/// login error whose text ends with the status; where the second factor is
/// asked for and no code was given, the sequence ends asking for one.
pub proof fn lemma_unsuccessful_answers(stage: AuthStage, c: CredentialsView, status: u16, body: Json)
    ensures
        !(200 <= status <= 299) ==> (next_action(stage, c, EventView::Response { status, body }) matches ActionView::Finish(Err(AuthErrorView::LoginError(t)))
            && t.len() >= decimal(status as nat).len()
            && t.skip(t.len() - decimal(status as nat).len()) == decimal(status as nat)),
        (stage == AuthStage::SigningIn && 200 <= status <= 299 && member(body, "twoFactorRedirect"@) == Some(Json::Bool(true)) && c.totp is None)
            ==> next_action(stage, c, EventView::Response { status, body }) == ActionView::Finish(Err(AuthErrorView::TokenRequired)),
{
    if !(200 <= status <= 299) {
        let d = decimal(status as nat);
        let a = next_action(stage, c, EventView::Response { status, body });
        if let ActionView::Finish(Err(AuthErrorView::LoginError(t))) = a {
            assert(t.skip(t.len() - d.len()) =~= d);
        }
    }
}

/// Names of ASCII letters, digits and `-` (such as `X-Custom-Header`), of
/// at most 65535 characters, are acceptable header names.
pub proof fn lemma_token_name_accepted(k: Seq<char>)
    requires
        0 < k.len() <= 65535,
        forall|i: int| 0 <= i < k.len() ==> ('a' <= #[trigger] k[i] <= 'z' || 'A' <= k[i] <= 'Z' || '0' <= k[i] <= '9' || k[i] == '-'),
    ensures
        header_name_ok(encode_utf8(k)),
{
    assert(vstd::utf8::is_ascii_chars(k));
    vstd::utf8::is_ascii_chars_encode_utf8(k);
    let b = encode_utf8(k);
    assert forall|i: int| 0 <= i < b.len() implies header_name_byte(#[trigger] b[i]) by {
        assert(k[i] as u8 == b[i]);
        assert('a' <= k[i] <= 'z' || 'A' <= k[i] <= 'Z' || '0' <= k[i] <= '9' || k[i] == '-');
    }
}

/// An empty name, or an ASCII name holding a space or a `:`, is refused;
/// so is an ASCII value holding a control character other than a tab.
pub proof fn lemma_bad_header_refused(k: Seq<char>, v: Seq<char>, i: int, j: int)
    requires
        vstd::utf8::is_ascii_chars(k),
        vstd::utf8::is_ascii_chars(v),
    ensures
        !header_name_ok(encode_utf8(Seq::<char>::empty())),
        0 <= i < k.len() && (k[i] == ' ' || k[i] == ':') ==> !header_name_ok(encode_utf8(k)),
        0 <= j < v.len() && (v[j] < ' ' || v[j] == '\u{7f}') && v[j] != '\t' ==> !header_value_ok(encode_utf8(v)),
{
    vstd::utf8::is_ascii_chars_encode_utf8(k);
    vstd::utf8::is_ascii_chars_encode_utf8(v);
    vstd::utf8::is_ascii_chars_encode_utf8(Seq::<char>::empty());
    if 0 <= i < k.len() && (k[i] == ' ' || k[i] == ':') {
        assert(k[i] as u8 == encode_utf8(k)[i]);
        assert(!header_name_byte(encode_utf8(k)[i]));
    }
    if 0 <= j < v.len() && (v[j] < ' ' || v[j] == '\u{7f}') && v[j] != '\t' {
        assert(v[j] as u8 == encode_utf8(v)[j]);
    }
}

/// The number that a string of decimal digits denotes.
pub open spec fn digits_value(s: Seq<char>) -> int
    decreases s.len(),
{
    if s.len() == 0 {
        0
    } else {
        digits_value(s.drop_last()) * 10 + (s.last() as int - '0' as int)
    }
}

/// `decimal(n)` is made of digits, begins with `0` only for `n == 0`, and
/// reads back as `n`.
pub proof fn lemma_decimal_reads_back(n: nat)
    ensures
        decimal(n).len() > 0,
        forall|i: int| 0 <= i < decimal(n).len() ==> '0' <= #[trigger] decimal(n)[i] <= '9',
        decimal(n)[0] == '0' ==> n == 0,
        digits_value(decimal(n)) == n,
    decreases n,
{
    let d = (n % 10) as nat;
    assert(digit_char(d) as int - '0' as int == d && '0' <= digit_char(d) <= '9' && (digit_char(d) == '0' ==> d == 0)) by {
        assert(d < 10);
        if d == 0 {} else if d == 1 {} else if d == 2 {} else if d == 3 {} else if d == 4 {}
        else if d == 5 {} else if d == 6 {} else if d == 7 {} else if d == 8 {} else {}
    }
    if n >= 10 {
        let q = (n / 10) as nat;
        lemma_decimal_reads_back(q);
        let s = decimal(n);
        assert(s.drop_last() =~= decimal(q));
        assert(s.last() == digit_char(d));
        assert(digits_value(s) == digits_value(decimal(q)) * 10 + (digit_char(d) as int - '0' as int));
        assert(s[0] == decimal(q)[0]);
        assert(q >= 1) by (nonlinear_arith)
            requires n >= 10, q == n / 10;
        assert forall|i: int| 0 <= i < s.len() implies '0' <= #[trigger] s[i] <= '9' by {
            if i < s.len() - 1 {
                assert(s[i] == decimal(q)[i]);
            }
        }
        assert(n == q * 10 + d) by (nonlinear_arith)
            requires q == n / 10, d == n % 10;
    } else {
        let s = decimal(n);
        assert(s.drop_last() =~= Seq::<char>::empty());
        assert(n % 10 == n);
        assert(s[0] == digit_char(d));
        assert(s.last() == digit_char(d));
        assert(digits_value(s.drop_last()) == 0);
    }
}

} // verus!
