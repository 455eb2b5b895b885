use vstd::prelude::*;
use crate::claims::{
    ser_claims,
    grants, saturating, wildcard, Claims, ClaimsView, API_KEY_LIFETIME_SECS, AUDIENCE, ISSUER, TOKEN_LIFETIME_SECS,
};
use crate::clock::now_seconds;
use crate::error::AuthError;
use crate::json::{json_string, json_string_of};
use crate::payload::strs_view;
use crate::text::utf8_of;
use crate::token::{decode, decode_spec, issue, lemma_round_trip, result_view, token_spec};

verus! {

/// Authentication configuration.
pub struct AuthConfig {
    /// Secret the token MAC is keyed with.
    pub secret: String,
    /// Lifetime of an issued token, in seconds.
    pub expiration_secs: i64,
    /// Scopes each endpoint requires, by endpoint name. An endpoint named by
    /// several entries requires the scopes of all of them.
    pub required_scopes: Vec<(String, Vec<String>)>,
    /// When false every token is accepted as an anonymous caller with every scope.
    pub enabled: bool,
}

impl Default for AuthConfig {
    fn default() -> (r: Self)
        ensures
            r.secret@ == "change-this-secret-in-production"@,
            r.expiration_secs == 86400,
            r.required_scopes@.len() == 0,
            !r.enabled,
    {
        AuthConfig {
            secret: String::from_str("change-this-secret-in-production"),
            expiration_secs: 86400,
            required_scopes: Vec::new(),
            enabled: false,
        }
    }
}

/// The endpoint rules of a configuration.
pub open spec fn rules_view(v: Seq<(String, Vec<String>)>) -> Seq<(Seq<char>, Seq<Seq<char>>)> {
    v.map_values(|r: (String, Vec<String>)| (r.0@, strs_view(r.1@)))
}

/// Every scope that a rule for `endpoint` requires is granted.
pub open spec fn scopes_satisfy(
    rules: Seq<(Seq<char>, Seq<Seq<char>>)>,
    endpoint: Seq<char>,
    scopes: Seq<Seq<char>>,
) -> bool {
    forall|i: int, j: int|
        0 <= i < rules.len() && rules[i].0 == endpoint && 0 <= j < rules[i].1.len() ==> grants(
            scopes,
            #[trigger] rules[i].1[j],
        )
}

/// Whether claims with `scopes` may use `endpoint`: the wildcard grants
/// everything, otherwise every required scope must be granted.
pub open spec fn endpoint_allowed(
    rules: Seq<(Seq<char>, Seq<Seq<char>>)>,
    endpoint: Seq<char>,
    scopes: Seq<Seq<char>>,
) -> bool {
    scopes.contains(wildcard()) || scopes_satisfy(rules, endpoint, scopes)
}

/// The claims handed out when authentication is disabled.
pub open spec fn anonymous_claims(now: i64) -> ClaimsView {
    ClaimsView {
        sub: "anonymous"@,
        iat: now,
        exp: saturating(now as int, TOKEN_LIFETIME_SECS as int),
        iss: ISSUER@,
        aud: AUDIENCE@,
        scopes: seq![wildcard()],
        custom: Seq::empty(),
    }
}

/// The claims issued to `user` at `now` with lifetime `lifetime`.
pub open spec fn issued_claims(user: Seq<char>, scopes: Seq<Seq<char>>, now: i64, lifetime: i64) -> ClaimsView {
    ClaimsView {
        sub: user,
        iat: now,
        exp: saturating(now as int, lifetime as int),
        iss: ISSUER@,
        aud: AUDIENCE@,
        scopes: scopes,
        custom: Seq::empty(),
    }
}

/// The claims of an API key named `name` issued to `user` at `now`.
pub open spec fn api_key_claims(user: Seq<char>, scopes: Seq<Seq<char>>, name: Seq<char>, now: i64) -> ClaimsView {
    ClaimsView {
        custom: seq![("key_name"@, json_string_of(name))],
        ..issued_claims(user, scopes, now, API_KEY_LIFETIME_SECS)
    }
}

/// Outcome of validating the token bytes: a token is accepted only when it is
/// well formed, correctly signed, names this system as issuer and audience,
/// and is not expired. `t` at `now`.
pub open spec fn validate_spec(enabled: bool, key: Seq<u8>, t: Seq<u8>, now: i64) -> Result<ClaimsView, AuthError> {
    if !enabled {
        Ok(anonymous_claims(now))
    } else {
        match decode_spec(key, t) {
            Ok(c) => if c.iss != ISSUER@ || c.aud != AUDIENCE@ {
                Err(AuthError::InvalidSignature)
            } else if now >= c.exp {
                Err(AuthError::TokenExpired)
            } else {
                Ok(c)
            },
            Err(e) => Err(e),
        }
    }
}

/// Outcome of authorizing the token bytes `t` for `endpoint` at `now`.
pub open spec fn authorize_spec(
    enabled: bool,
    key: Seq<u8>,
    rules: Seq<(Seq<char>, Seq<Seq<char>>)>,
    t: Seq<u8>,
    endpoint: Seq<char>,
    now: i64,
) -> Result<bool, AuthError> {
    match validate_spec(enabled, key, t, now) {
        Ok(c) => Ok(endpoint_allowed(rules, endpoint, c.scopes)),
        Err(e) => Err(e),
    }
}

/// A token issued with `key` validates, before its expiry, to exactly the
/// claims it was issued with.
pub proof fn lemma_issued_token_validates(
    key: Seq<u8>,
    user: Seq<char>,
    scopes: Seq<Seq<char>>,
    issued: i64,
    lifetime: i64,
    now: i64,
)
    requires
        ser_claims(issued_claims(user, scopes, issued, lifetime)).len() <= usize::MAX,
        now < saturating(issued as int, lifetime as int),
    ensures
        validate_spec(true, key, token_spec(key, issued_claims(user, scopes, issued, lifetime)), now) == Ok::<
            ClaimsView,
            AuthError,
        >(issued_claims(user, scopes, issued, lifetime)),
{
    lemma_round_trip(key, issued_claims(user, scopes, issued, lifetime));
}

/// A token issued with `key` and `scopes` is, before its expiry, authorized
/// for `endpoint` exactly when those scopes satisfy the endpoint's rules; the
/// wildcard scope is authorized for every endpoint.
pub proof fn lemma_issued_token_authorizes(
    key: Seq<u8>,
    rules: Seq<(Seq<char>, Seq<Seq<char>>)>,
    user: Seq<char>,
    scopes: Seq<Seq<char>>,
    issued: i64,
    lifetime: i64,
    endpoint: Seq<char>,
    now: i64,
)
    requires
        ser_claims(issued_claims(user, scopes, issued, lifetime)).len() <= usize::MAX,
        now < saturating(issued as int, lifetime as int),
    ensures
        authorize_spec(true, key, rules, token_spec(key, issued_claims(user, scopes, issued, lifetime)), endpoint, now)
            == Ok::<bool, AuthError>(endpoint_allowed(rules, endpoint, scopes)),
        scopes.contains(wildcard()) ==> authorize_spec(
            true,
            key,
            rules,
            token_spec(key, issued_claims(user, scopes, issued, lifetime)),
            endpoint,
            now,
        ) == Ok::<bool, AuthError>(true),
{
    lemma_issued_token_validates(key, user, scopes, issued, lifetime, now);
}

/// Authentication service: issues tokens, validates them, and decides scope-based access.
pub struct AuthService {
    config: AuthConfig,
}

impl AuthService {
    pub closed spec fn enabled(&self) -> bool {
        self.config.enabled
    }

    /// The MAC key: the secret's bytes.
    pub closed spec fn key(&self) -> Seq<u8> {
        utf8_of(self.config.secret@)
    }

    pub closed spec fn lifetime(&self) -> i64 {
        self.config.expiration_secs
    }

    pub closed spec fn rules(&self) -> Seq<(Seq<char>, Seq<Seq<char>>)> {
        rules_view(self.config.required_scopes@)
    }

    /// Create new authentication service.
    pub fn new(config: AuthConfig) -> (r: Self)
        ensures
            r.enabled() == config.enabled,
            r.key() == utf8_of(config.secret@),
            r.lifetime() == config.expiration_secs,
            r.rules() == rules_view(config.required_scopes@),
    {
        AuthService { config }
    }

    /// Token for `user_id` with `scopes`, issued at `now` for the configured lifetime.
    pub fn generate_token_at(&self, user_id: String, scopes: Vec<String>, now: i64) -> (r: Result<String, AuthError>)
        ensures
            r matches Ok(t) && utf8_of(t@) == token_spec(
                self.key(),
                issued_claims(user_id@, strs_view(scopes@), now, self.lifetime()),
            ),
    {
        let claims = Claims::issued_at(user_id, scopes, now, self.config.expiration_secs);
        proof {
            assert(claims@ == issued_claims(claims@.sub, claims@.scopes, now, self.lifetime()));
        }
        Ok(issue(self.config.secret.as_str(), &claims))
    }

    /// Token for `user_id` with `scopes`, issued now for the configured lifetime.
    pub fn generate_token(&self, user_id: String, scopes: Vec<String>) -> (r: Result<String, AuthError>)
        ensures
            r matches Ok(t) && exists|now: i64|
                utf8_of(t@) == #[trigger] token_spec(
                    self.key(),
                    issued_claims(user_id@, strs_view(scopes@), now, self.lifetime()),
                ),
    {
        let now = now_seconds();
        self.generate_token_at(user_id, scopes, now)
    }

    /// API key (long-lived token, one year) for `user_id`, recording `name` as
    /// the custom claim `key_name`, issued at `now`.
    pub fn create_api_key_at(&self, user_id: String, scopes: Vec<String>, name: String, now: i64) -> (r: Result<
        String,
        AuthError,
    >)
        ensures
            r matches Ok(t) && utf8_of(t@) == token_spec(
                self.key(),
                api_key_claims(user_id@, strs_view(scopes@), name@, now),
            ),
    {
        let mut claims = Claims::issued_at(user_id, scopes, now, API_KEY_LIFETIME_SECS);
        let value = json_string(name.as_str());
        claims.add_custom(String::from_str("key_name"), value);
        proof {
            assert(claims@.custom =~= seq![("key_name"@, json_string_of(name@))]);
        }
        Ok(issue(self.config.secret.as_str(), &claims))
    }

    /// API key for `user_id` issued now.
    pub fn create_api_key(&self, user_id: String, scopes: Vec<String>, name: String) -> (r: Result<String, AuthError>)
        ensures
            r matches Ok(t) && exists|now: i64|
                utf8_of(t@) == #[trigger] token_spec(
                    self.key(),
                    api_key_claims(user_id@, strs_view(scopes@), name@, now),
                ),
    {
        let now = now_seconds();
        self.create_api_key_at(user_id, scopes, name, now)
    }

    /// Validates `token` at time `now`.
    pub fn validate_token_at(&self, token: &str, now: i64) -> (r: Result<Claims, AuthError>)
        ensures
            result_view(r) == validate_spec(self.enabled(), self.key(), utf8_of(token@), now),
    {
        if !self.config.enabled {
            let star = String::from_str("*");
            proof {
                reveal_strlit("*");
                assert(star@ == wildcard());
            }
            let mut scopes: Vec<String> = Vec::new();
            scopes.push(star);
            proof {
                assert(strs_view(scopes@) =~= seq![wildcard()]);
            }
            let c = Claims::issued_at(String::from_str("anonymous"), scopes, now, TOKEN_LIFETIME_SECS);
            proof {
                assert(c@ == anonymous_claims(now));
            }
            return Ok(c);
        }
        let issuer = String::from_str(ISSUER);
        let audience = String::from_str(AUDIENCE);
        match decode(self.config.secret.as_str(), token) {
            Ok(c) => {
                if c.iss != issuer || c.aud != audience {
                    Err(AuthError::InvalidSignature)
                } else if c.is_expired_at(now) {
                    Err(AuthError::TokenExpired)
                } else {
                    Ok(c)
                }
            },
            Err(e) => Err(e),
        }
    }

    /// Validates `token` now.
    pub fn validate_token(&self, token: &str) -> (r: Result<Claims, AuthError>)
        ensures
            exists|now: i64| result_view(r) == #[trigger] validate_spec(self.enabled(), self.key(), utf8_of(token@), now),
    {
        let now = now_seconds();
        self.validate_token_at(token, now)
    }

    /// Whether `scopes` allow `endpoint` under the configured rules.
    pub fn scopes_allow(&self, claims: &Claims, endpoint: &str) -> (r: bool)
        ensures
            r == endpoint_allowed(self.rules(), endpoint@, claims@.scopes),
    {
        proof {
            reveal_strlit("*");
            assert("*"@ == wildcard());
        }
        if claims.has_scope("*") {
            return true;
        }
        let wanted = String::from_str(endpoint);
        let rules = &self.config.required_scopes;
        let ghost rv = rules_view(rules@);
        let mut i: usize = 0;
        while i < rules.len()
            invariant
                0 <= i <= rules@.len(),
                rv == rules_view(rules@),
                rv == self.rules(),
                wanted@ == endpoint@,
                !claims@.scopes.contains(wildcard()),
                forall|a: int, j: int|
                    0 <= a < i && rv[a].0 == endpoint@ && 0 <= j < rv[a].1.len() ==> grants(
                        claims@.scopes,
                        #[trigger] rv[a].1[j],
                    ),
            decreases rules@.len() - i,
        {
            if rules[i].0 == wanted {
                let needed = &rules[i].1;
                proof {
                    assert(rv[i as int].0 == endpoint@);
                }
                let mut j: usize = 0;
                while j < needed.len()
                    invariant
                        0 <= j <= needed@.len(),
                        0 <= i < rules@.len(),
                        rv == rules_view(rules@),
                        rv == self.rules(),
                        wanted@ == endpoint@,
                        !claims@.scopes.contains(wildcard()),
                        rv[i as int].1 == strs_view(needed@),
                        rv[i as int].0 == endpoint@,
                        forall|k: int| 0 <= k < j ==> grants(claims@.scopes, #[trigger] rv[i as int].1[k]),
                    decreases needed@.len() - j,
                {
                    if !claims.has_scope(needed[j].as_str()) {
                        proof {
                            assert(!grants(claims@.scopes, rv[i as int].1[j as int]));
                            assert(!scopes_satisfy(rv, endpoint@, claims@.scopes));
                        }
                        return false;
                    }
                    j += 1;
                }
            }
            i += 1;
        }
        true
    }

    /// Whether `token` grants access to `endpoint` at time `now`.
    pub fn authorize_at(&self, token: &str, endpoint: &str, now: i64) -> (r: Result<bool, AuthError>)
        ensures
            r == authorize_spec(self.enabled(), self.key(), self.rules(), utf8_of(token@), endpoint@, now),
    {
        let claims = match self.validate_token_at(token, now) {
            Ok(c) => c,
            Err(e) => {
                return Err(e);
            },
        };
        Ok(self.scopes_allow(&claims, endpoint))
    }

    /// Whether `token` grants access to `endpoint` now.
    pub fn authorize(&self, token: &str, endpoint: &str) -> (r: Result<bool, AuthError>)
        ensures
            !self.enabled() ==> r == Ok::<bool, AuthError>(true),
            exists|now: i64|
                r == #[trigger] authorize_spec(self.enabled(), self.key(), self.rules(), utf8_of(token@), endpoint@, now),
    {
        let now = now_seconds();
        let r = self.authorize_at(token, endpoint, now);
        proof {
            if !self.enabled() {
                assert(anonymous_claims(now).scopes[0] == wildcard());
                assert(anonymous_claims(now).scopes.contains(wildcard()));
            }
        }
        r
    }
}

} // verus!
