use vstd::prelude::*;
use crate::clock::now_seconds;
use crate::payload::{
    be64, lemma_list_unique, lemma_prefix_join, lemma_prefix_split, lemma_str_unique, prefix_at, read_list, read_str, read_u64, ser_list,
    ser_str, strs_view, write_list, write_str, write_u64,
};

verus! {

/// Issuer recorded in every token of this system.
pub const ISSUER: &'static str = "universal-connector";

/// Audience recorded in every token of this system.
pub const AUDIENCE: &'static str = "universal-connector-api";

/// Lifetime of an ordinary token: 24 hours.
pub const TOKEN_LIFETIME_SECS: i64 = 86400;

/// Lifetime of an API key: 365 days.
pub const API_KEY_LIFETIME_SECS: i64 = 31536000;

/// The contents of a claim set.
pub struct ClaimsView {
    pub sub: Seq<char>,
    pub iat: i64,
    pub exp: i64,
    pub iss: Seq<char>,
    pub aud: Seq<char>,
    pub scopes: Seq<Seq<char>>,
    pub custom: Seq<(Seq<char>, Seq<char>)>,
}

/// Identity and authorization claims carried by a token.
#[derive(Debug, Clone)]
pub struct Claims {
    /// Subject (user id).
    pub sub: String,
    /// Issued at, seconds since the epoch.
    pub iat: i64,
    /// Expiry, seconds since the epoch.
    pub exp: i64,
    /// Issuer.
    pub iss: String,
    /// Audience.
    pub aud: String,
    /// Granted scopes; `*` grants every scope.
    pub scopes: Vec<String>,
    /// Custom claims: names and values, a value held as its JSON text.
    /// `add_custom` keeps the names distinct by replacing an existing entry.
    pub custom: Vec<(String, String)>,
}

/// The contents of a list of name/value pairs.
pub open spec fn pairs_view(v: Seq<(String, String)>) -> Seq<(Seq<char>, Seq<char>)> {
    v.map_values(|p: (String, String)| (p.0@, p.1@))
}

/// The names of name/value pairs.
pub open spec fn keys_of(v: Seq<(Seq<char>, Seq<char>)>) -> Seq<Seq<char>> {
    v.map_values(|p: (Seq<char>, Seq<char>)| p.0)
}

/// The values of name/value pairs.
pub open spec fn values_of(v: Seq<(Seq<char>, Seq<char>)>) -> Seq<Seq<char>> {
    v.map_values(|p: (Seq<char>, Seq<char>)| p.1)
}

/// The wildcard scope.
pub open spec fn wildcard() -> Seq<char> {
    seq!['*']
}

/// True when the claims are expired at time `now`.
pub open spec fn expired(c: ClaimsView, now: i64) -> bool {
    now >= c.exp
}

/// Scope check: the scope is granted verbatim, or the wildcard is granted.
pub open spec fn grants(scopes: Seq<Seq<char>>, scope: Seq<char>) -> bool {
    scopes.contains(scope) || scopes.contains(wildcard())
}

/// `a + b`, held to the range of `i64`.
pub open spec fn saturating(a: int, b: int) -> i64 {
    if a + b > i64::MAX {
        i64::MAX
    } else if a + b < i64::MIN {
        i64::MIN
    } else {
        (a + b) as i64
    }
}

/// The payload encoding of a claim set.
pub open spec fn ser_claims(c: ClaimsView) -> Seq<u8> {
    ser_str(c.sub) + (be64(c.iat as u64) + (be64(c.exp as u64) + (ser_str(c.iss) + (ser_str(c.aud) + (ser_list(
        c.scopes,
    ) + (ser_list(keys_of(c.custom)) + ser_list(values_of(c.custom))))))))
}

impl View for Claims {
    type V = ClaimsView;

    open spec fn view(&self) -> ClaimsView {
        ClaimsView {
            sub: self.sub@,
            iat: self.iat,
            exp: self.exp,
            iss: self.iss@,
            aud: self.aud@,
            scopes: strs_view(self.scopes@),
            custom: pairs_view(self.custom@),
        }
    }
}

fn add_sat(a: i64, b: i64) -> (r: i64)
    ensures
        r == saturating(a as int, b as int),
{
    let s: i128 = a as i128 + b as i128;
    if s > i64::MAX as i128 {
        i64::MAX
    } else if s < i64::MIN as i128 {
        i64::MIN
    } else {
        s as i64
    }
}

impl Claims {
    /// Claims for `user_id` issued at `now`, valid for `lifetime` seconds.
    pub fn issued_at(user_id: String, scopes: Vec<String>, now: i64, lifetime: i64) -> (r: Claims)
        ensures
            r@.sub == user_id@,
            r@.iat == now,
            r@.exp == saturating(now as int, lifetime as int),
            r@.iss == ISSUER@,
            r@.aud == AUDIENCE@,
            r@.scopes == strs_view(scopes@),
            r@.custom == Seq::<(Seq<char>, Seq<char>)>::empty(),
    {
        let r = Claims {
            sub: user_id,
            iat: now,
            exp: add_sat(now, lifetime),
            iss: String::from_str(ISSUER),
            aud: String::from_str(AUDIENCE),
            scopes,
            custom: Vec::new(),
        };
        assert(r@.custom =~= Seq::<(Seq<char>, Seq<char>)>::empty());
        r
    }

    /// Claims for `user_id` issued now, valid for 24 hours.
    pub fn new(user_id: String, scopes: Vec<String>) -> (r: Claims)
        ensures
            r@.sub == user_id@,
            r@.exp == saturating(r@.iat as int, TOKEN_LIFETIME_SECS as int),
            r@.iss == ISSUER@,
            r@.aud == AUDIENCE@,
            r@.scopes == strs_view(scopes@),
            r@.custom == Seq::<(Seq<char>, Seq<char>)>::empty(),
    {
        let now = now_seconds();
        Claims::issued_at(user_id, scopes, now, TOKEN_LIFETIME_SECS)
    }

    /// True when the claims are expired at time `now`.
    pub fn is_expired_at(&self, now: i64) -> (r: bool)
        ensures
            r == expired(self@, now),
    {
        now >= self.exp
    }

    /// True when the claims are expired now: `is_expired_at` at the clock's time.
    pub fn is_expired(&self) -> (r: bool)
        ensures
            exists|now: i64| r == #[trigger] expired(self@, now),
    {
        let now = now_seconds();
        self.is_expired_at(now)
    }

    /// True when `scope` is granted, verbatim or through the wildcard.
    pub fn has_scope(&self, scope: &str) -> (r: bool)
        ensures
            r == grants(self@.scopes, scope@),
    {
        let wanted = String::from_str(scope);
        let star = String::from_str("*");
        proof {
            reveal_strlit("*");
            assert(star@ == wildcard());
        }
        let ghost v = strs_view(self.scopes@);
        let mut i: usize = 0;
        while i < self.scopes.len()
            invariant
                0 <= i <= self.scopes@.len(),
                v == strs_view(self.scopes@),
                wanted@ == scope@,
                star@ == wildcard(),
                forall|j: int| 0 <= j < i ==> #[trigger] v[j] != scope@ && v[j] != wildcard(),
            decreases self.scopes@.len() - i,
        {
            if self.scopes[i] == wanted || self.scopes[i] == star {
                proof {
                    assert(v[i as int] == scope@ || v[i as int] == wildcard());
                }
                return true;
            }
            i += 1;
        }
        proof {
            assert(!v.contains(scope@));
            assert(!v.contains(wildcard()));
        }
        false
    }

    /// Sets a custom claim, replacing the first one of that name if there is one.
    pub fn add_custom(&mut self, key: String, value: String)
        ensures
            final(self)@.sub == old(self)@.sub,
            final(self)@.iat == old(self)@.iat,
            final(self)@.exp == old(self)@.exp,
            final(self)@.iss == old(self)@.iss,
            final(self)@.aud == old(self)@.aud,
            final(self)@.scopes == old(self)@.scopes,
            !keys_of(old(self)@.custom).contains(key@) ==> final(self)@.custom == old(self)@.custom.push(
                (key@, value@),
            ),
            keys_of(old(self)@.custom).contains(key@) ==> exists|i: int|
                0 <= i < old(self)@.custom.len() && keys_of(old(self)@.custom)[i] == key@ && (forall|j: int|
                    0 <= j < i ==> keys_of(old(self)@.custom)[j] != key@) && #[trigger] final(self)@.custom == old(self)@.custom.update(i, (key@, value@)),
    {
        let ghost c = old(self)@.custom;
        let mut i: usize = 0;
        while i < self.custom.len()
            invariant
                0 <= i <= self.custom@.len(),
                self@ == old(self)@,
                c == old(self)@.custom,
                forall|j: int| 0 <= j < i ==> #[trigger] keys_of(c)[j] != key@,
            decreases self.custom@.len() - i,
        {
            if self.custom[i].0 == key {
                let ghost kv = key@;
                let ghost vv = value@;
                self.custom.set(i, (key, value));
                proof {
                    assert(keys_of(c)[i as int] == kv);
                    assert(keys_of(c).contains(kv));
                    assert(pairs_view(self.custom@) =~= c.update(i as int, (kv, vv)));
                }
                return;
            }
            i += 1;
        }
        let ghost kv = key@;
        let ghost vv = value@;
        self.custom.push((key, value));
        proof {
            assert(!keys_of(c).contains(kv));
            assert(pairs_view(self.custom@) =~= c.push((kv, vv)));
        }
    }

    /// The same claims with the expiry moved `secs` seconds later.
    pub fn with_extended_expiry(self, secs: i64) -> (r: Claims)
        ensures
            r@ == (ClaimsView { exp: saturating(self.exp as int, secs as int), ..self@ }),
    {
        let mut c = self;
        c.exp = add_sat(c.exp, secs);
        c
    }
}

fn split_pairs(pairs: &Vec<(String, String)>) -> (r: (Vec<String>, Vec<String>))
    ensures
        strs_view(r.0@) == keys_of(pairs_view(pairs@)),
        strs_view(r.1@) == values_of(pairs_view(pairs@)),
{
    let mut names: Vec<String> = Vec::new();
    let mut values: Vec<String> = Vec::new();
    let mut i: usize = 0;
    while i < pairs.len()
        invariant
            0 <= i <= pairs@.len(),
            strs_view(names@) == keys_of(pairs_view(pairs@)).take(i as int),
            strs_view(values@) == values_of(pairs_view(pairs@)).take(i as int),
        decreases pairs@.len() - i,
    {
        let k = pairs[i].0.clone();
        let v = pairs[i].1.clone();
        let ghost nb = names@;
        let ghost vb = values@;
        names.push(k);
        values.push(v);
        proof {
            assert(strs_view(names@) =~= strs_view(nb).push(pairs@[i as int].0@));
            assert(strs_view(values@) =~= strs_view(vb).push(pairs@[i as int].1@));
            assert(strs_view(names@) =~= keys_of(pairs_view(pairs@)).take(i + 1));
            assert(strs_view(values@) =~= values_of(pairs_view(pairs@)).take(i + 1));
        }
        i += 1;
    }
    assert(keys_of(pairs_view(pairs@)).take(i as int) =~= keys_of(pairs_view(pairs@)));
    assert(values_of(pairs_view(pairs@)).take(i as int) =~= values_of(pairs_view(pairs@)));
    (names, values)
}

fn zip_pairs(names: Vec<String>, values: Vec<String>) -> (r: Vec<(String, String)>)
    requires
        names@.len() == values@.len(),
    ensures
        keys_of(pairs_view(r@)) == strs_view(names@),
        values_of(pairs_view(r@)) == strs_view(values@),
{
    let mut names = names;
    let mut values = values;
    let ghost n0 = strs_view(names@);
    let ghost v0 = strs_view(values@);
    let mut out: Vec<(String, String)> = Vec::new();
    while names.len() > 0
        invariant
            names@.len() == values@.len(),
            n0 == keys_of(pairs_view(out@)) + strs_view(names@),
            v0 == values_of(pairs_view(out@)) + strs_view(values@),
        decreases names@.len(),
    {
        let ghost nb = names@;
        let ghost vb = values@;
        let k = names.remove(0);
        let v = values.remove(0);
        out.push((k, v));
        proof {
            assert(nb =~= seq![k].add(names@));
            assert(vb =~= seq![v].add(values@));
            assert(strs_view(nb) =~= seq![k@] + strs_view(names@));
            assert(strs_view(vb) =~= seq![v@] + strs_view(values@));
            assert(n0 =~= keys_of(pairs_view(out@)) + strs_view(names@));
            assert(v0 =~= values_of(pairs_view(out@)) + strs_view(values@));
        }
    }
    assert(n0 =~= keys_of(pairs_view(out@)));
    assert(v0 =~= values_of(pairs_view(out@)));
    out
}

proof fn lemma_signed_round_trip(x: i64)
    ensures
        (x as u64) as i64 == x,
{
    assert((x as u64) as i64 == x) by (bit_vector);
}

proof fn lemma_unsigned_round_trip(x: u64)
    ensures
        (x as i64) as u64 == x,
{
    assert((x as i64) as u64 == x) by (bit_vector);
}

/// Name/value pairs are determined by their names and their values.
proof fn lemma_pairs_ext(a: Seq<(Seq<char>, Seq<char>)>, b: Seq<(Seq<char>, Seq<char>)>)
    requires
        keys_of(a) == keys_of(b),
        values_of(a) == values_of(b),
    ensures
        a == b,
{
    assert(a.len() == keys_of(a).len());
    assert forall|i: int| 0 <= i < a.len() implies a[i] == b[i] by {
        assert(keys_of(a)[i] == keys_of(b)[i]);
        assert(values_of(a)[i] == values_of(b)[i]);
    }
    assert(a =~= b);
}

impl Claims {
    /// The payload encoding of these claims.
    pub fn to_payload(&self) -> (r: Vec<u8>)
        ensures
            r@ == ser_claims(self@),
    {
        let mut out: Vec<u8> = Vec::new();
        write_str(&mut out, self.sub.as_str());
        write_u64(&mut out, self.iat as u64);
        write_u64(&mut out, self.exp as u64);
        write_str(&mut out, self.iss.as_str());
        write_str(&mut out, self.aud.as_str());
        write_list(&mut out, &self.scopes);
        let (names, values) = split_pairs(&self.custom);
        write_list(&mut out, &names);
        write_list(&mut out, &values);
        assert(out@ =~= ser_claims(self@));
        out
    }

    /// Reads claims back from a payload; `None` when `b` encodes no claims.
    #[verifier::rlimit(100)]
    pub fn from_payload(b: &[u8]) -> (r: Option<Claims>)
        ensures
            r matches Some(c) ==> b@ == ser_claims(c@),
            forall|c: ClaimsView| #[trigger] ser_claims(c) == b@ ==> (r matches Some(x) && x@ == c),
    {
        let ghost bs = b@;
        assert(bs.len() == b.len());
        proof {
            Self::lemma_parts(bs);
        }
        let (sub, o1) = match read_str(b, 0) {
            Some(x) => x,
            None => {
                return None;
            },
        };
        let iat = match read_u64(b, o1) {
            Some(x) => x,
            None => {
                return None;
            },
        };
        let o2: usize = o1 + 8;
        let exp = match read_u64(b, o2) {
            Some(x) => x,
            None => {
                return None;
            },
        };
        let o3: usize = o2 + 8;
        let (iss, o4) = match read_str(b, o3) {
            Some(x) => x,
            None => {
                return None;
            },
        };
        let (aud, o5) = match read_str(b, o4) {
            Some(x) => x,
            None => {
                return None;
            },
        };
        let (scopes, o6) = match read_list(b, o5) {
            Some(x) => x,
            None => {
                return None;
            },
        };
        let (names, o7) = match read_list(b, o6) {
            Some(x) => x,
            None => {
                return None;
            },
        };
        let (values, o8) = match read_list(b, o7) {
            Some(x) => x,
            None => {
                return None;
            },
        };
        if o8 != b.len() || names.len() != values.len() {
            return None;
        }
        let ghost nv = strs_view(names@);
        let ghost vv = strs_view(values@);
        let custom = zip_pairs(names, values);
        let c = Claims { sub, iat: iat as i64, exp: exp as i64, iss, aud, scopes, custom };
        proof {
            lemma_unsigned_round_trip(iat);
            lemma_unsigned_round_trip(exp);
            Self::lemma_assemble(bs, c@, o1 as int, o2 as int, o3 as int, o4 as int, o5 as int, o6 as int, o7 as int);
        }
        Some(c)
    }

    proof fn lemma_assemble(bs: Seq<u8>, v: ClaimsView, o1: int, o2: int, o3: int, o4: int, o5: int, o6: int, o7: int)
        requires
            prefix_at(bs, 0, ser_str(v.sub)),
            o1 == ser_str(v.sub).len(),
            prefix_at(bs, o1, be64(v.iat as u64)),
            o2 == o1 + 8,
            prefix_at(bs, o2, be64(v.exp as u64)),
            o3 == o2 + 8,
            prefix_at(bs, o3, ser_str(v.iss)),
            o4 == o3 + ser_str(v.iss).len(),
            prefix_at(bs, o4, ser_str(v.aud)),
            o5 == o4 + ser_str(v.aud).len(),
            prefix_at(bs, o5, ser_list(v.scopes)),
            o6 == o5 + ser_list(v.scopes).len(),
            prefix_at(bs, o6, ser_list(keys_of(v.custom))),
            o7 == o6 + ser_list(keys_of(v.custom)).len(),
            prefix_at(bs, o7, ser_list(values_of(v.custom))),
            o7 + ser_list(values_of(v.custom)).len() == bs.len(),
            forall|c: ClaimsView| #[trigger] ser_claims(c) == bs ==> {
                let q1 = ser_str(c.sub).len() as int;
                let q3 = q1 + 16;
                let q4 = q3 + ser_str(c.iss).len();
                let q5 = q4 + ser_str(c.aud).len();
                let q6 = q5 + ser_list(c.scopes).len();
                let q7 = q6 + ser_list(keys_of(c.custom)).len();
                &&& c.sub == v.sub
                &&& c.iat as u64 == v.iat as u64
                &&& c.exp as u64 == v.exp as u64
                &&& c.iss == v.iss
                &&& c.aud == v.aud
                &&& c.scopes == v.scopes
                &&& keys_of(c.custom) == keys_of(v.custom)
                &&& values_of(c.custom) == values_of(v.custom)
            },
        ensures
            bs == ser_claims(v),
            forall|w: ClaimsView| #[trigger] ser_claims(w) == bs ==> v == w,
    {
        lemma_prefix_join(bs, o6, ser_list(keys_of(v.custom)), ser_list(values_of(v.custom)));
        let t7 = ser_list(keys_of(v.custom)) + ser_list(values_of(v.custom));
        lemma_prefix_join(bs, o5, ser_list(v.scopes), t7);
        let t6 = ser_list(v.scopes) + t7;
        lemma_prefix_join(bs, o4, ser_str(v.aud), t6);
        let t5 = ser_str(v.aud) + t6;
        lemma_prefix_join(bs, o3, ser_str(v.iss), t5);
        let t4 = ser_str(v.iss) + t5;
        lemma_prefix_join(bs, o2, be64(v.exp as u64), t4);
        let t3 = be64(v.exp as u64) + t4;
        lemma_prefix_join(bs, o1, be64(v.iat as u64), t3);
        let t2 = be64(v.iat as u64) + t3;
        lemma_prefix_join(bs, 0, ser_str(v.sub), t2);
        assert(ser_claims(v).len() == bs.len());
        assert(bs.subrange(0, bs.len() as int) =~= bs);
        assert forall|w: ClaimsView| #[trigger] ser_claims(w) == bs implies v == w by {
            lemma_signed_round_trip(w.iat);
            lemma_signed_round_trip(w.exp);
            lemma_signed_round_trip(v.iat);
            lemma_signed_round_trip(v.exp);
            lemma_pairs_ext(v.custom, w.custom);
        }
    }

    /// What each read of `from_payload` meets when `b` encodes some claims.
    pub(crate) proof fn lemma_parts(b: Seq<u8>)
        ensures
            forall|c: ClaimsView| #[trigger] ser_claims(c) == b ==> {
                let o1 = ser_str(c.sub).len() as int;
                let o3 = o1 + 16;
                let o4 = o3 + ser_str(c.iss).len();
                let o5 = o4 + ser_str(c.aud).len();
                let o6 = o5 + ser_list(c.scopes).len();
                let o7 = o6 + ser_list(keys_of(c.custom)).len();
                &&& prefix_at(b, 0, ser_str(c.sub))
                &&& prefix_at(b, o1, be64(c.iat as u64))
                &&& prefix_at(b, o1 + 8, be64(c.exp as u64))
                &&& prefix_at(b, o3, ser_str(c.iss))
                &&& prefix_at(b, o4, ser_str(c.aud))
                &&& prefix_at(b, o5, ser_list(c.scopes))
                &&& prefix_at(b, o6, ser_list(keys_of(c.custom)))
                &&& prefix_at(b, o7, ser_list(values_of(c.custom)))
                &&& o7 + ser_list(values_of(c.custom)).len() == b.len()
                &&& keys_of(c.custom).len() == values_of(c.custom).len()
            },
    {
        assert forall|c: ClaimsView| #[trigger] ser_claims(c) == b implies {
            let o1 = ser_str(c.sub).len() as int;
            let o3 = o1 + 16;
            let o4 = o3 + ser_str(c.iss).len();
            let o5 = o4 + ser_str(c.aud).len();
            let o6 = o5 + ser_list(c.scopes).len();
            let o7 = o6 + ser_list(keys_of(c.custom)).len();
            &&& prefix_at(b, 0, ser_str(c.sub))
            &&& prefix_at(b, o1, be64(c.iat as u64))
            &&& prefix_at(b, o1 + 8, be64(c.exp as u64))
            &&& prefix_at(b, o3, ser_str(c.iss))
            &&& prefix_at(b, o4, ser_str(c.aud))
            &&& prefix_at(b, o5, ser_list(c.scopes))
            &&& prefix_at(b, o6, ser_list(keys_of(c.custom)))
            &&& prefix_at(b, o7, ser_list(values_of(c.custom)))
            &&& o7 + ser_list(values_of(c.custom)).len() == b.len()
            &&& keys_of(c.custom).len() == values_of(c.custom).len()
        } by {
            assert(b.subrange(0, b.len() as int) =~= b);
            assert(prefix_at(b, 0, ser_claims(c)));
            let t8 = ser_list(values_of(c.custom));
            let t7 = ser_list(keys_of(c.custom)) + t8;
            let t6 = ser_list(c.scopes) + t7;
            let t5 = ser_str(c.aud) + t6;
            let t4 = ser_str(c.iss) + t5;
            let t3 = be64(c.exp as u64) + t4;
            let t2 = be64(c.iat as u64) + t3;
            let o1 = ser_str(c.sub).len() as int;
            lemma_prefix_split(b, 0, ser_str(c.sub), t2);
            lemma_prefix_split(b, o1, be64(c.iat as u64), t3);
            lemma_prefix_split(b, o1 + 8, be64(c.exp as u64), t4);
            lemma_prefix_split(b, o1 + 16, ser_str(c.iss), t5);
            let o4 = o1 + 16 + ser_str(c.iss).len();
            lemma_prefix_split(b, o4, ser_str(c.aud), t6);
            let o5 = o4 + ser_str(c.aud).len();
            lemma_prefix_split(b, o5, ser_list(c.scopes), t7);
            let o6 = o5 + ser_list(c.scopes).len();
            lemma_prefix_split(b, o6, ser_list(keys_of(c.custom)), t8);
        }
    }
}

/// Every listed scope is granted; when the wildcard is not listed, no other scope is.
pub proof fn lemma_listed_scopes_only(scopes: Seq<Seq<char>>, other: Seq<char>)
    requires
        !scopes.contains(wildcard()),
        !scopes.contains(other),
    ensures
        forall|i: int| 0 <= i < scopes.len() ==> grants(scopes, #[trigger] scopes[i]),
        !grants(scopes, other),
{
}

/// The wildcard grants itself and every other scope.
pub proof fn lemma_wildcard_grants_all(scopes: Seq<Seq<char>>, any: Seq<char>)
    requires
        scopes.contains(wildcard()),
    ensures
        grants(scopes, wildcard()),
        grants(scopes, any),
{
}

/// Claims that expired a second ago are expired; claims that expire in a
/// second are not.
pub proof fn lemma_expiry_boundary(c: ClaimsView, now: i64)
    ensures
        c.exp == now - 1 ==> expired(c, now),
        c.exp == now + 1 ==> !expired(c, now),
{
}

/// A payload encodes one claim set only.
#[verifier::rlimit(80)]
pub proof fn lemma_ser_claims_injective(c: ClaimsView, w: ClaimsView)
    requires
        ser_claims(c) == ser_claims(w),
        ser_claims(c).len() <= usize::MAX,
    ensures
        c == w,
{
    let b = ser_claims(c);
    Claims::lemma_parts(b);
    assert(ser_claims(c) == b);
    assert(ser_claims(w) == b);
    lemma_str_unique(b, 0, c.sub, w.sub);
    let o1 = ser_str(c.sub).len() as int;
    assert(b.subrange(o1, o1 + 8) == be64(c.iat as u64));
    assert(b.subrange(o1, o1 + 8) == be64(w.iat as u64));
    crate::payload::lemma_be64_injective(c.iat as u64, w.iat as u64);
    assert(b.subrange(o1 + 8, o1 + 16) == be64(c.exp as u64));
    assert(b.subrange(o1 + 8, o1 + 16) == be64(w.exp as u64));
    crate::payload::lemma_be64_injective(c.exp as u64, w.exp as u64);
    lemma_signed_round_trip(c.iat);
    lemma_signed_round_trip(w.iat);
    lemma_signed_round_trip(c.exp);
    lemma_signed_round_trip(w.exp);
    let o3 = o1 + 16;
    lemma_str_unique(b, o3, c.iss, w.iss);
    let o4 = o3 + ser_str(c.iss).len();
    lemma_str_unique(b, o4, c.aud, w.aud);
    let o5 = o4 + ser_str(c.aud).len();
    lemma_list_unique(b, o5, c.scopes, w.scopes);
    let o6 = o5 + ser_list(c.scopes).len();
    lemma_list_unique(b, o6, keys_of(c.custom), keys_of(w.custom));
    let o7 = o6 + ser_list(keys_of(c.custom)).len();
    lemma_list_unique(b, o7, values_of(c.custom), values_of(w.custom));
    lemma_pairs_ext(c.custom, w.custom);
}

} // verus!
