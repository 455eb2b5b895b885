use connector_server::auth::{AuthConfig, AuthService};
use connector_server::claims::Claims;
use connector_server::error::AuthError;
use connector_server::hex;
use connector_server::mac::constant_time_eq;
use connector_server::token;
use hmac::Mac;

fn service(enabled: bool) -> AuthService {
    let mut config = AuthConfig::default();
    config.enabled = enabled;
    config.secret = "test-secret".to_string();
    config.required_scopes.push(("admin".to_string(), vec!["admin:write".to_string()]));
    AuthService::new(config)
}

fn now() -> i64 {
    chrono::Utc::now().timestamp()
}

#[test]
fn test_claims_creation() {
    let claims = Claims::new("user123".to_string(), vec!["read".to_string()]);
    assert_eq!(claims.sub, "user123");
    assert!(claims.has_scope("read"));
    assert!(!claims.has_scope("write"));
}

#[test]
fn test_claims_expiration() {
    let mut claims = Claims::new("user123".to_string(), vec![]);
    assert!(!claims.is_expired());

    claims.exp = chrono::Utc::now().timestamp() - 3600;
    assert!(claims.is_expired());
}

#[test]
fn test_auth_service_token_generation() {
    let config = AuthConfig::default();
    let service = AuthService::new(config);

    let token = service.generate_token("user123".to_string(), vec!["read".to_string()]).unwrap();
    assert!(token.starts_with("Bearer "));
}

#[test]
fn test_wildcard_scope() {
    let claims = Claims::new("user123".to_string(), vec!["*".to_string()]);
    assert!(claims.has_scope("*"));
    assert!(claims.has_scope("read"));
}

#[test]
fn has_scope_only_listed_scopes() {
    let claims = Claims::new("u".to_string(), vec!["read".to_string(), "write".to_string()]);
    assert!(claims.has_scope("read"));
    assert!(claims.has_scope("write"));
    assert!(!claims.has_scope("admin"));
    assert!(!claims.has_scope("*"));
}

#[test]
fn expiry_boundaries() {
    let t = 1_700_000_000;
    let mut claims = Claims::issued_at("u".to_string(), vec![], t - 100, 50);
    assert_eq!(claims.exp, t - 50);
    claims.exp = t - 1;
    assert!(claims.is_expired_at(t));
    claims.exp = t + 1;
    assert!(!claims.is_expired_at(t));
    claims.exp = t;
    assert!(claims.is_expired_at(t));
}

#[test]
fn extended_expiry_saturates() {
    let claims = Claims::issued_at("u".to_string(), vec![], 10, 20);
    assert_eq!(claims.exp, 30);
    let longer = claims.with_extended_expiry(100);
    assert_eq!(longer.exp, 130);
    let max = longer.with_extended_expiry(i64::MAX);
    assert_eq!(max.exp, i64::MAX);
}

#[test]
fn add_custom_replaces_existing_name() {
    let mut claims = Claims::issued_at("u".to_string(), vec![], 0, 10);
    claims.add_custom("a".to_string(), "1".to_string());
    claims.add_custom("b".to_string(), "2".to_string());
    claims.add_custom("a".to_string(), "3".to_string());
    assert_eq!(claims.custom, vec![("a".to_string(), "3".to_string()), ("b".to_string(), "2".to_string())]);
}

#[test]
fn round_trip_through_token() {
    let mut claims = Claims::issued_at("alice".to_string(), vec!["read".to_string(), "ünïcode".to_string()], 100, 3600);
    claims.add_custom("team".to_string(), "\"blue\"".to_string());
    let t = token::issue("s3cret", &claims);
    let back = token::decode("s3cret", &t).unwrap();
    assert_eq!(back.sub, claims.sub);
    assert_eq!(back.iat, 100);
    assert_eq!(back.exp, 3700);
    assert_eq!(back.iss, "universal-connector");
    assert_eq!(back.aud, "universal-connector-api");
    assert_eq!(back.scopes, claims.scopes);
    assert_eq!(back.custom, claims.custom);
}

#[test]
fn decode_without_bearer_prefix() {
    let claims = Claims::issued_at("bob".to_string(), vec![], -5, 10);
    let t = token::issue("k", &claims);
    let bare = t.strip_prefix("Bearer ").unwrap();
    let back = token::decode("k", bare).unwrap();
    assert_eq!(back.sub, "bob");
    assert_eq!(back.iat, -5);
}

#[test]
fn tampered_signature_is_rejected() {
    let claims = Claims::issued_at("carol".to_string(), vec!["read".to_string()], 0, 10);
    let t = token::issue("k", &claims);
    let parts: Vec<&str> = t.split('.').collect();
    assert_eq!(parts.len(), 3);
    let sig = parts[1].as_bytes();
    for i in 0..sig.len() {
        let mut changed = sig.to_vec();
        changed[i] = if changed[i] == b'0' { b'1' } else { b'0' };
        let forged = format!("{}.{}.{}", parts[0], String::from_utf8(changed).unwrap(), parts[2]);
        assert_eq!(token::decode("k", &forged).unwrap_err(), AuthError::InvalidSignature);
    }
    let upper = format!("{}.{}.{}", parts[0], parts[1].to_uppercase(), parts[2]);
    assert_eq!(token::decode("k", &upper).unwrap_err(), AuthError::InvalidSignature);
}

#[test]
fn wrong_secret_is_rejected() {
    let claims = Claims::issued_at("dave".to_string(), vec![], 0, 10);
    let t = token::issue("one", &claims);
    assert_eq!(token::decode("two", &t).unwrap_err(), AuthError::InvalidSignature);
}

#[test]
fn signature_is_a_mac_of_the_payload() {
    let claims = Claims::issued_at("erin".to_string(), vec![], 0, 10);
    let t = token::issue("k", &claims);
    let parts: Vec<&str> = t.trim_start_matches("Bearer ").split('.').collect();
    assert_eq!(parts[1].len(), 64);
    assert_ne!(parts[1], parts[0]);
    assert_eq!(parts[2], "4853323536");
}

#[test]
fn malformed_tokens() {
    assert_eq!(token::decode("k", "").unwrap_err(), AuthError::MalformedToken);
    assert_eq!(token::decode("k", "Bearer a.b").unwrap_err(), AuthError::MalformedToken);
    assert_eq!(token::decode("k", "a.b.c.d").unwrap_err(), AuthError::MalformedToken);
}

fn signed(key: &[u8], payload_part: &str) -> String {
    let mut m = hmac::Hmac::<sha2::Sha256>::new_from_slice(key).unwrap();
    m.update(payload_part.as_bytes());
    let tag = m.finalize().into_bytes();
    format!("Bearer {}.{}.{}", payload_part, hex::encode(&tag), hex::encode(b"HS256"))
}

#[test]
fn signed_payload_that_is_no_claims() {
    let not_claims = signed(b"k", &hex::encode(b"abc"));
    assert_eq!(token::decode("k", &not_claims).unwrap_err(), AuthError::Decoding);
    let not_hex = signed(b"k", "zz");
    assert_eq!(token::decode("k", &not_hex).unwrap_err(), AuthError::Decoding);
}

#[test]
fn signed_claims_payload_decodes() {
    let claims = Claims::issued_at("judy".to_string(), vec!["x".to_string()], 7, 8);
    let payload = hex::encode(&claims.to_payload());
    let t = signed(b"k", &payload);
    assert_eq!(t, token::issue("k", &claims));
    assert_eq!(token::decode("k", &t).unwrap().exp, 15);
}

#[test]
fn hex_encode_exact() {
    assert_eq!(hex::encode(&[0x00, 0x0f, 0xa5, 0xff]), "000fa5ff");
    assert_eq!(hex::encode(b"header"), "686561646572");
    assert_eq!(hex::decode("000fa5ff").unwrap(), vec![0x00, 0x0f, 0xa5, 0xff]);
    assert_eq!(hex::decode("0").unwrap_err(), AuthError::Decoding);
    assert_eq!(hex::decode("0G").unwrap_err(), AuthError::Decoding);
    assert_eq!(hex::decode("AB").unwrap_err(), AuthError::Decoding);
}

#[test]
fn constant_time_comparison() {
    assert!(constant_time_eq(b"abc", b"abc"));
    assert!(!constant_time_eq(b"abc", b"abd"));
    assert!(!constant_time_eq(b"abc", b"ab"));
    assert!(constant_time_eq(b"", b""));
}

#[test]
fn validate_round_trip_and_expiry() {
    let svc = service(true);
    let t = svc.generate_token_at("grace".to_string(), vec!["read".to_string()], 1000).unwrap();
    let c = svc.validate_token_at(&t, 1000 + 86399).unwrap();
    assert_eq!(c.sub, "grace");
    assert_eq!(c.exp, 1000 + 86400);
    assert_eq!(svc.validate_token_at(&t, 1000 + 86400).unwrap_err(), AuthError::TokenExpired);
    let fresh = svc.generate_token("grace".to_string(), vec![]).unwrap();
    assert!(svc.validate_token(&fresh).is_ok());
}

#[test]
fn disabled_auth_bypasses_token() {
    let svc = service(false);
    assert_eq!(svc.authorize("not a token", "admin"), Ok(true));
    assert_eq!(svc.authorize("", "anything"), Ok(true));
    let c = svc.validate_token("garbage").unwrap();
    assert_eq!(c.sub, "anonymous");
    assert_eq!(c.scopes, vec!["*".to_string()]);
}

#[test]
fn endpoint_scope_enforcement() {
    let svc = service(true);
    let n = now();
    let read = svc.generate_token_at("h".to_string(), vec!["read".to_string()], n).unwrap();
    let admin = svc.generate_token_at("h".to_string(), vec!["admin:write".to_string()], n).unwrap();
    let star = svc.generate_token_at("h".to_string(), vec!["*".to_string()], n).unwrap();
    assert_eq!(svc.authorize(&read, "admin"), Ok(false));
    assert_eq!(svc.authorize(&admin, "admin"), Ok(true));
    assert_eq!(svc.authorize(&star, "admin"), Ok(true));
    assert_eq!(svc.authorize(&read, "public"), Ok(true));
    assert_eq!(svc.authorize("a.b", "admin"), Err(AuthError::MalformedToken));
}

#[test]
fn api_key_lasts_a_year_and_records_name() {
    let svc = service(true);
    let t = svc.create_api_key_at("ivy".to_string(), vec!["read".to_string()], "ci key".to_string(), 500).unwrap();
    let c = svc.validate_token_at(&t, 600).unwrap();
    assert_eq!(c.exp, 500 + 365 * 86400);
    assert_eq!(c.custom, vec![("key_name".to_string(), "\"ci key\"".to_string())]);
    let now_key = svc.create_api_key("ivy".to_string(), vec![], "k".to_string()).unwrap();
    assert!(svc.validate_token(&now_key).is_ok());
}

#[test]
fn error_messages() {
    assert_eq!(AuthError::MalformedToken.message(), "Invalid token format");
    assert_eq!(AuthError::TokenExpired.message(), "Token expired");
}

#[test]
fn foreign_issuer_or_audience_is_rejected() {
    let svc = service(true);
    let mut claims = Claims::issued_at("kim".to_string(), vec![], 100, 1000);
    claims.iss = "another-system".to_string();
    let t = token::issue("test-secret", &claims);
    assert_eq!(svc.validate_token_at(&t, 200).unwrap_err(), AuthError::InvalidSignature);
    let mut claims = Claims::issued_at("kim".to_string(), vec![], 100, 1000);
    claims.aud = "another-api".to_string();
    let t = token::issue("test-secret", &claims);
    assert_eq!(svc.validate_token_at(&t, 200).unwrap_err(), AuthError::InvalidSignature);
    let ok = token::issue("test-secret", &Claims::issued_at("kim".to_string(), vec![], 100, 1000));
    assert_eq!(svc.validate_token_at(&ok, 200).unwrap().sub, "kim");
}

#[test]
fn all_error_messages() {
    assert_eq!(AuthError::InvalidSignature.message(), "Invalid token signature");
    assert_eq!(AuthError::Encoding.message(), "Claims could not be encoded");
    assert_eq!(AuthError::Decoding.message(), "Claims could not be decoded");
    assert_eq!(AuthError::InsufficientScope.message(), "Insufficient scope");
}

#[test]
fn api_key_name_is_json_escaped() {
    let svc = service(true);
    let t = svc.create_api_key_at("lee".to_string(), vec![], "a\"b\\c\nd\u{1}é".to_string(), 0).unwrap();
    let c = svc.validate_token_at(&t, 1).unwrap();
    assert_eq!(c.custom, vec![("key_name".to_string(), "\"a\\\"b\\\\c\\nd\\u0001é\"".to_string())]);
}
