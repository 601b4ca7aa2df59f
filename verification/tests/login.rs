use kuma_client::login::{login_success, plan_login, token_cleared, CommandReport, LoginPlan};
use kuma_client::settings::TlsConfig;

#[test]
fn login_success_never_contains_reusable_session_material() {
    let value = login_success();
    assert_eq!(
        value,
        CommandReport { ok: true, message: "login ok".to_string() }
    );
    assert!(!value.message.contains("token"));
    assert!(!value.message.contains("cookie"));
}

#[test]
fn clearing_the_token_is_reported() {
    assert_eq!(
        token_cleared(),
        CommandReport { ok: true, message: "legacy auth token cleared".to_string() }
    );
}

#[test]
fn login_plans() {
    assert_eq!(plan_login(true, Some("u".to_string()), None), LoginPlan::ClearToken);
    assert_eq!(plan_login(false, None, Some("p".to_string())), LoginPlan::MissingUsername);
    assert_eq!(
        plan_login(false, Some("u".to_string()), None),
        LoginPlan::SignIn { username: "u".to_string(), password: None }
    );
}

#[test]
fn tls_verification_is_on_by_default() {
    let tls = TlsConfig::default();
    assert!(tls.verify);
    assert!(tls.cert.is_none());
}
