use kuma_client::better_auth::{
    asks_second_factor, decimal_text, next_step, parse_headers, session_is_valid,
    split_setting, start_authentication, AuthAction, AuthError, AuthEvent, AuthRequest,
    BetterAuthCredentials,
};
use kuma_client::json::Json;

const USERNAME: &str = "auth-user";
const PASSWORD: &str = "password-value-that-must-not-leak";
const TOTP: &str = "123456";
const SESSION: &str = "session-value-that-must-not-leak";

/// A server that follows the Better Auth protocol, with its counters.
struct Fixture {
    sign_ins: usize,
    totp_checks: usize,
    session_checks: usize,
    accept_session: bool,
    challenge: bool,
    session_cookie: bool,
    bodies: Vec<(String, Json)>,
}

fn obj(members: Vec<(&str, Json)>) -> Json {
    Json::Object(members.into_iter().map(|(k, v)| (k.to_string(), v)).collect())
}

fn s(v: &str) -> Json {
    Json::Str(v.to_string())
}

fn member<'a>(doc: &'a Json, key: &str) -> Option<&'a Json> {
    match doc {
        Json::Object(ms) => ms.iter().find(|(k, _)| k == key).map(|(_, v)| v),
        _ => None,
    }
}

impl Fixture {
    fn new(accept_session: bool) -> Fixture {
        Fixture {
            sign_ins: 0,
            totp_checks: 0,
            session_checks: 0,
            accept_session,
            challenge: false,
            session_cookie: false,
            bodies: Vec::new(),
        }
    }

    fn answer(&mut self, request: &AuthRequest) -> AuthEvent {
        let body = request.body().unwrap_or(Json::Null);
        match request {
            AuthRequest::GetSession => {
                assert!(!request.is_post());
                assert_eq!(request.path(), "api/auth/get-session");
                self.session_checks += 1;
                let doc = if self.accept_session && self.session_cookie {
                    obj(vec![
                        ("session", obj(vec![("id", s("session-id"))])),
                        ("user", obj(vec![("id", s("user-id")), ("username", s(USERNAME))])),
                    ])
                } else {
                    Json::Null
                };
                AuthEvent::Response { status: 200, body: doc }
            }
            AuthRequest::SignIn { .. } => {
                assert!(request.is_post());
                assert_eq!(request.path(), "api/auth/sign-in/username");
                self.sign_ins += 1;
                self.bodies.push(("/api/auth/sign-in/username".to_string(), body));
                let body = &self.bodies.last().unwrap().1;
                if member(body, "username") != Some(&s(USERNAME))
                    || member(body, "password") != Some(&s(PASSWORD))
                    || member(body, "rememberMe") != Some(&Json::Bool(false))
                {
                    return AuthEvent::Response {
                        status: 401,
                        body: obj(vec![("message", s("invalid credentials"))]),
                    };
                }
                self.challenge = true;
                AuthEvent::Response {
                    status: 200,
                    body: obj(vec![("twoFactorRedirect", Json::Bool(true))]),
                }
            }
            AuthRequest::VerifyTotp { .. } => {
                assert!(request.is_post());
                assert!(!request.reads_body());
                assert_eq!(request.path(), "api/auth/two-factor/verify-totp");
                self.totp_checks += 1;
                self.bodies.push(("/api/auth/two-factor/verify-totp".to_string(), body));
                let body = &self.bodies.last().unwrap().1;
                if member(body, "code") != Some(&s(TOTP)) || !self.challenge {
                    return AuthEvent::Response { status: 401, body: Json::Null };
                }
                self.session_cookie = true;
                AuthEvent::Response { status: 200, body: Json::Null }
            }
        }
    }
}

fn authenticate(fixture: &mut Fixture, credentials: &BetterAuthCredentials) -> Result<(), AuthError> {
    let (mut stage, mut request) = start_authentication();
    loop {
        let event = fixture.answer(&request);
        match next_step(stage, credentials, event) {
            AuthAction::Send(next, req) => {
                stage = next;
                request = req;
            }
            AuthAction::Finish(result) => return result,
        }
    }
}

fn credentials(totp: Option<&str>) -> BetterAuthCredentials {
    BetterAuthCredentials::new(
        USERNAME.to_owned(),
        PASSWORD.to_owned(),
        totp.map(str::to_owned),
    )
}

#[test]
fn authenticates_with_totp_and_exposes_only_the_in_memory_cookie_header() {
    let mut state = Fixture::new(true);

    authenticate(&mut state, &credentials(Some(TOTP))).unwrap();

    assert_eq!(state.sign_ins, 1);
    assert_eq!(state.totp_checks, 1);
    assert_eq!(state.session_checks, 2);

    let sign_in = state
        .bodies
        .iter()
        .find(|(path, _)| path == "/api/auth/sign-in/username")
        .unwrap();
    assert_eq!(member(&sign_in.1, "rememberMe"), Some(&Json::Bool(false)));
    let totp = state
        .bodies
        .iter()
        .find(|(path, _)| path == "/api/auth/two-factor/verify-totp")
        .unwrap();
    assert_eq!(totp.1, obj(vec![("code", s(TOTP))]));
}

#[test]
fn missing_totp_is_redacted_and_stops_without_retrying() {
    let mut state = Fixture::new(true);

    let error = authenticate(&mut state, &credentials(None)).unwrap_err();
    let message = error.message();

    assert!(message.contains("TOTP"));
    assert!(!message.contains(USERNAME));
    assert!(!message.contains(PASSWORD));
    assert!(!message.contains(SESSION));
    assert_eq!(state.sign_ins, 1);
    assert_eq!(state.totp_checks, 0);
}

#[test]
fn invalid_credentials_are_redacted_and_not_retried() {
    let mut state = Fixture::new(true);
    let rejected_password = "rejected-password-that-must-not-leak";

    let error = authenticate(
        &mut state,
        &BetterAuthCredentials::new(
            USERNAME.to_owned(),
            rejected_password.to_owned(),
            Some(TOTP.to_owned()),
        ),
    )
    .unwrap_err();
    let message = error.message();

    assert!(message.contains("401"));
    assert_eq!(message, "Better Auth sign-in failed with HTTP 401");
    assert!(!message.contains(USERNAME));
    assert!(!message.contains(rejected_password));
    assert!(!message.contains(TOTP));
    assert_eq!(state.sign_ins, 1);
    assert_eq!(state.totp_checks, 0);
    assert_eq!(state.session_checks, 1);
}

#[test]
fn rejected_new_session_performs_only_one_sign_in_attempt() {
    let mut state = Fixture::new(false);

    let error = authenticate(&mut state, &credentials(Some(TOTP))).unwrap_err();
    let message = error.message();

    assert!(message.contains("session"));
    assert!(!message.contains(USERNAME));
    assert!(!message.contains(PASSWORD));
    assert!(!message.contains(TOTP));
    assert!(!message.contains(SESSION));
    assert_eq!(state.sign_ins, 1);
    assert_eq!(state.totp_checks, 1);
    assert_eq!(state.session_checks, 2);
}

#[test]
fn a_valid_session_is_reused_without_signing_in() {
    let mut state = Fixture::new(true);
    state.session_cookie = true;
    authenticate(&mut state, &credentials(Some(TOTP))).unwrap();
    assert_eq!(state.sign_ins, 0);
    assert_eq!(state.session_checks, 1);
}

#[test]
fn failures_of_each_step_are_reported() {
    let c = credentials(Some(TOTP));
    let fail = |stage, status| match next_step(stage, &c, AuthEvent::Response { status, body: Json::Null }) {
        AuthAction::Finish(Err(e)) => e.message(),
        _ => panic!("expected a failure"),
    };
    let (first, _) = start_authentication();
    assert_eq!(fail(first, 500), "Better Auth session validation failed with HTTP 500");
    let after_check = match next_step(first, &c, AuthEvent::Response { status: 204, body: Json::Null }) {
        AuthAction::Send(stage, AuthRequest::SignIn { username, password, remember_me }) => {
            assert_eq!(username, USERNAME);
            assert_eq!(password, PASSWORD);
            assert!(!remember_me);
            stage
        }
        _ => panic!("expected a sign-in"),
    };
    assert_eq!(fail(after_check, 403), "Better Auth sign-in failed with HTTP 403");
    let after_sign_in = match next_step(
        after_check,
        &c,
        AuthEvent::Response { status: 200, body: obj(vec![("twoFactorRedirect", Json::Bool(true))]) },
    ) {
        AuthAction::Send(stage, AuthRequest::VerifyTotp { code }) => {
            assert_eq!(code, TOTP);
            stage
        }
        _ => panic!("expected a TOTP request"),
    };
    assert_eq!(fail(after_sign_in, 400), "Better Auth TOTP verification failed with HTTP 400");
    match next_step(after_check, &c, AuthEvent::Response { status: 200, body: obj(vec![]) }) {
        AuthAction::Send(_, AuthRequest::GetSession) => {}
        _ => panic!("without a second factor the session is checked"),
    }
    match next_step(first, &c, AuthEvent::InvalidUrl("relative URL without a base".to_string())) {
        AuthAction::Finish(Err(e)) => assert_eq!(e.message(), "invalid URL: relative URL without a base"),
        _ => panic!("expected a failure"),
    }
    match next_step(first, &c, AuthEvent::Transport("connection refused".to_string())) {
        AuthAction::Finish(Err(e)) => assert_eq!(e.message(), "connection refused"),
        _ => panic!("expected a failure"),
    }
}

#[test]
fn body_checks() {
    assert!(!session_is_valid(&Json::Null));
    assert!(!session_is_valid(&obj(vec![("session", obj(vec![]))])));
    assert!(!session_is_valid(&obj(vec![("session", obj(vec![])), ("user", s("x"))])));
    assert!(session_is_valid(&obj(vec![("session", obj(vec![])), ("user", obj(vec![]))])));
    assert!(asks_second_factor(&obj(vec![("twoFactorRedirect", Json::Bool(true))])));
    assert!(!asks_second_factor(&obj(vec![("twoFactorRedirect", s("true"))])));
    assert!(!asks_second_factor(&Json::Null));
}

#[test]
fn decimal_status_codes() {
    assert_eq!(decimal_text(0), "0");
    assert_eq!(decimal_text(7), "7");
    assert_eq!(decimal_text(401), "401");
    assert_eq!(decimal_text(65535), "65535");
}

#[test]
fn headers_are_split_at_the_first_equals_sign_and_checked() {
    let headers = vec![
        "X-Token=abc".to_string(),
        "no-equals".to_string(),
        "X-Eq=a=b".to_string(),
        "Bad Name=v".to_string(),
        "X-Ctl=a\nb".to_string(),
        "=empty-name".to_string(),
        "X-Empty=".to_string(),
    ];
    assert_eq!(
        parse_headers(&headers),
        vec![
            ("X-Token".to_string(), "abc".to_string()),
            ("X-Eq".to_string(), "a=b".to_string()),
            ("X-Empty".to_string(), "".to_string()),
        ]
    );
    assert_eq!(split_setting("a=b=c"), Some(("a".to_string(), "b=c".to_string())));
    assert_eq!(split_setting("abc"), None);
}
