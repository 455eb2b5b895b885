use vstd::prelude::*;
use crate::claims::{lemma_ser_claims_injective, ser_claims, Claims, ClaimsView};
use crate::error::AuthError;
use crate::hex::{decode_bytes, encode_bytes, hex_spec, lemma_hex_injective, lemma_hex_is_text};
use crate::mac::{compute_mac, constant_time_eq, hmac_sha256};
use crate::text::{bytes_of, lemma_ascii_valid_utf8, string_from_valid, utf8_of, is_ascii_bytes};

verus! {

/// The scheme prefix `Bearer ` as bytes.
pub open spec fn bearer() -> Seq<u8> {
    seq![66u8, 101u8, 97u8, 114u8, 101u8, 114u8, 32u8]
}

/// The byte `.` that separates the parts of a token.
pub open spec fn dot() -> u8 {
    46u8
}

/// The algorithm header `HS256` as bytes.
pub open spec fn algorithm() -> Seq<u8> {
    seq![72u8, 83u8, 50u8, 53u8, 54u8]
}

/// The token without a leading `Bearer `, if it has one.
pub open spec fn strip_bearer(t: Seq<u8>) -> Seq<u8> {
    if t.len() >= 7 && t.subrange(0, 7) == bearer() {
        t.subrange(7, t.len() as int)
    } else {
        t
    }
}

/// True when `p` holds no `.`.
pub open spec fn no_dot(p: Seq<u8>) -> bool {
    forall|i: int| 0 <= i < p.len() ==> #[trigger] p[i] != dot()
}

/// `t` is the parts `p`, `s` and `h`, joined by `.`.
pub open spec fn three_parts(t: Seq<u8>, p: Seq<u8>, s: Seq<u8>, h: Seq<u8>) -> bool {
    &&& no_dot(p)
    &&& no_dot(s)
    &&& no_dot(h)
    &&& t == p + seq![dot()] + s + seq![dot()] + h
}

/// The token that `issue` makes for claims `c` under `key`.
pub open spec fn token_spec(key: Seq<u8>, c: ClaimsView) -> Seq<u8> {
    let p = hex_spec(ser_claims(c));
    bearer() + p + seq![dot()] + hex_spec(hmac_sha256(key, p)) + seq![dot()] + hex_spec(algorithm())
}

/// What `decode` gives for a token made of payload part `p` and signature part `s`.
pub open spec fn parts_verdict(key: Seq<u8>, p: Seq<u8>, s: Seq<u8>) -> Result<ClaimsView, AuthError> {
    if s != hex_spec(hmac_sha256(key, p)) {
        Err(AuthError::InvalidSignature)
    } else if exists|c: ClaimsView| #[trigger] hex_spec(ser_claims(c)) == p {
        Ok(choose|c: ClaimsView| #[trigger] hex_spec(ser_claims(c)) == p)
    } else {
        Err(AuthError::Decoding)
    }
}

/// What `decode` gives for the token bytes `t` under `key`.
#[verifier::opaque]
pub open spec fn decode_spec(key: Seq<u8>, t: Seq<u8>) -> Result<ClaimsView, AuthError> {
    let body = strip_bearer(t);
    if exists|p: Seq<u8>, s: Seq<u8>, h: Seq<u8>| #[trigger] three_parts(body, p, s, h) {
        let (p, s, h) = choose|p: Seq<u8>, s: Seq<u8>, h: Seq<u8>| #[trigger] three_parts(body, p, s, h);
        parts_verdict(key, p, s)
    } else {
        Err(AuthError::MalformedToken)
    }
}

/// The contents of a decoding result.
pub open spec fn result_view(r: Result<Claims, AuthError>) -> Result<ClaimsView, AuthError> {
    match r {
        Ok(c) => Ok(c@),
        Err(e) => Err(e),
    }
}

proof fn lemma_no_dot_hex(b: Seq<u8>)
    ensures
        no_dot(hex_spec(b)),
{
    lemma_hex_is_text(b);
    assert forall|i: int| 0 <= i < hex_spec(b).len() implies #[trigger] hex_spec(b)[i] != dot() by {
        assert(crate::hex::is_hex_digit(hex_spec(b)[i]));
    }
}

/// The two dots of a three-part token are the only ones, so the parts are unique.
proof fn lemma_parts_unique(t: Seq<u8>, p: Seq<u8>, s: Seq<u8>, h: Seq<u8>, pb: Seq<u8>, sb: Seq<u8>, hb: Seq<u8>)
    requires
        three_parts(t, p, s, h),
        three_parts(t, pb, sb, hb),
    ensures
        p == pb && s == sb && h == hb,
{
    lemma_dots(t, p, s, h);
    lemma_dots(t, pb, sb, hb);
    let a = p.len() as int;
    let a2 = pb.len() as int;
    assert(t[a2] == dot());
    assert(t[a] == dot());
    assert(a == a2);
    let b = a + 1 + s.len();
    let b2 = a2 + 1 + sb.len();
    assert(t[b] == dot());
    assert(t[b2] == dot());
    assert(b == b2);
    assert(p =~= t.subrange(0, a));
    assert(pb =~= t.subrange(0, a));
    assert(s =~= t.subrange(a + 1, b));
    assert(sb =~= t.subrange(a + 1, b));
    assert(h =~= t.subrange(b + 1, t.len() as int));
    assert(hb =~= t.subrange(b + 1, t.len() as int));
}

/// Where the dots of a three-part token stand.
proof fn lemma_dots(t: Seq<u8>, p: Seq<u8>, s: Seq<u8>, h: Seq<u8>)
    requires
        three_parts(t, p, s, h),
    ensures
        forall|j: int|
            0 <= j < t.len() ==> (#[trigger] t[j] == dot() <==> (j == p.len() || j == p.len() + 1 + s.len())),
        t.len() == p.len() + s.len() + h.len() + 2,
{
    assert forall|j: int| 0 <= j < t.len() implies (#[trigger] t[j] == dot() <==> (j == p.len() || j == p.len() + 1
        + s.len())) by {
        if j < p.len() {
            assert(t[j] == p[j]);
        } else if j == p.len() {
        } else if j < p.len() + 1 + s.len() {
            assert(t[j] == s[j - p.len() - 1]);
        } else if j == p.len() + 1 + s.len() {
        } else {
            assert(t[j] == h[j - p.len() - 2 - s.len()]);
        }
    }
}

fn has_bearer(t: &[u8]) -> (r: bool)
    ensures
        r == (t@.len() >= 7 && t@.subrange(0, 7) == bearer()),
{
    if t.len() < 7 {
        return false;
    }
    let ok = t[0] == 66 && t[1] == 101 && t[2] == 97 && t[3] == 114 && t[4] == 101 && t[5] == 114 && t[6] == 32;
    proof {
        if ok {
            assert(t@.subrange(0, 7) =~= bearer());
        } else {
            if t@.subrange(0, 7) == bearer() {
                assert(t@.subrange(0, 7)[0] == t@[0]);
                assert(t@.subrange(0, 7)[1] == t@[1]);
                assert(t@.subrange(0, 7)[2] == t@[2]);
                assert(t@.subrange(0, 7)[3] == t@[3]);
                assert(t@.subrange(0, 7)[4] == t@[4]);
                assert(t@.subrange(0, 7)[5] == t@[5]);
                assert(t@.subrange(0, 7)[6] == t@[6]);
            }
        }
    }
    ok
}

/// Makes the token for `claims`: `Bearer `, then the hexadecimal payload, the
/// hexadecimal HMAC-SHA256 of that payload text under `secret`, and the
/// hexadecimal algorithm name, joined by `.`.
pub fn issue(secret: &str, claims: &Claims) -> (r: String)
    ensures
        utf8_of(r@) == token_spec(utf8_of(secret@), claims@),
{
    let key = bytes_of(secret);
    let payload = claims.to_payload();
    let p = encode_bytes(payload.as_slice());
    let tag = compute_mac(key.as_slice(), p.as_slice());
    let s = encode_bytes(tag.as_slice());
    let mut alg: Vec<u8> = Vec::new();
    alg.push(72);
    alg.push(83);
    alg.push(50);
    alg.push(53);
    alg.push(54);
    assert(alg@ =~= algorithm());
    let h = encode_bytes(alg.as_slice());
    let mut out: Vec<u8> = Vec::new();
    out.push(66);
    out.push(101);
    out.push(97);
    out.push(114);
    out.push(101);
    out.push(114);
    out.push(32);
    assert(out@ =~= bearer());
    let mut pb = p;
    let mut sb = s;
    let mut hb = h;
    let ghost pv = pb@;
    let ghost sv = sb@;
    let ghost hv = hb@;
    out.append(&mut pb);
    out.push(46);
    out.append(&mut sb);
    out.push(46);
    out.append(&mut hb);
    proof {
        assert(out@ =~= token_spec(utf8_of(secret@), claims@));
        lemma_hex_is_text(ser_claims(claims@));
        lemma_hex_is_text(hmac_sha256(key@, pv));
        lemma_hex_is_text(algorithm());
        assert(is_ascii_bytes(bearer()));
        assert forall|i: int| 0 <= i < out@.len() implies #[trigger] out@[i] < 128 by {
            let a = 7 + pv.len();
            let b = a + 1 + sv.len();
            if i < 7 {
            } else if i < a {
                assert(out@[i] == pv[i - 7]);
            } else if i == a {
            } else if i < b {
                assert(out@[i] == sv[i - a - 1]);
            } else if i == b {
            } else {
                assert(out@[i] == hv[i - b - 1]);
            }
        }
        lemma_ascii_valid_utf8(out@);
    }
    string_from_valid(out)
}

/// Checks the signature part and reads the payload part of a token.
fn check_parts(key: &[u8], p: &[u8], s: &[u8]) -> (r: Result<Claims, AuthError>)
    ensures
        result_view(r) == parts_verdict(key@, p@, s@),
{
    let tag = compute_mac(key, p);
    let ghost expected = hex_spec(tag@);
    match decode_bytes(s) {
        None => {
            proof {
                lemma_hex_is_text(tag@);
            }
            return Err(AuthError::InvalidSignature);
        },
        Some(given) => {
            if !constant_time_eq(given.as_slice(), tag.as_slice()) {
                proof {
                    if s@ == expected {
                        lemma_hex_injective(given@, tag@);
                    }
                }
                return Err(AuthError::InvalidSignature);
            }
        },
    }
    match decode_bytes(p) {
        None => {
            proof {
                assert forall|c: ClaimsView| #[trigger] hex_spec(ser_claims(c)) != p@ by {
                    lemma_hex_is_text(ser_claims(c));
                }
            }
            Err(AuthError::Decoding)
        },
        Some(payload) => {
            let r = Claims::from_payload(payload.as_slice());
            proof {
                assert forall|c: ClaimsView| #[trigger] hex_spec(ser_claims(c)) == p@ implies ser_claims(c) == payload@ by {
                    lemma_hex_injective(ser_claims(c), payload@);
                }
            }
            match r {
                Some(c) => {
                    proof {
                        let w = choose|w: ClaimsView| #[trigger] hex_spec(ser_claims(w)) == p@;
                        assert(hex_spec(ser_claims(c@)) == p@);
                        assert(ser_claims(w) == payload@);
                    }
                    Ok(c)
                },
                None => Err(AuthError::Decoding),
            }
        },
    }
}

/// Reads and checks a token: strips a leading `Bearer `, splits the rest on
/// `.` into exactly three parts, checks the signature part against the MAC of
/// the payload part under `secret`, and reads the claims from the payload.
pub fn decode(secret: &str, token: &str) -> (r: Result<Claims, AuthError>)
    ensures
        result_view(r) == decode_spec(utf8_of(secret@), utf8_of(token@)),
{
    proof {
        reveal(decode_spec);
    }
    let key = bytes_of(secret);
    let t = bytes_of(token);
    let ghost tv = t@;
    let ghost body = strip_bearer(tv);
    let n = t.len();
    let start: usize = if has_bearer(t.as_slice()) { 7 } else { 0 };
    assert(body =~= tv.subrange(start as int, n as int));
    let mut count: usize = 0;
    let mut d1: usize = 0;
    let mut d2: usize = 0;
    let mut i: usize = start;
    while i < n
        invariant
            n == t@.len(),
            t@ == tv,
            tv == utf8_of(token@),
            body == strip_bearer(tv),
            body == tv.subrange(start as int, n as int),
            start <= i <= n,
            count <= 2,
            count >= 1 ==> start <= d1 < i && tv[d1 as int] == dot(),
            count >= 2 ==> d1 < d2 < i && tv[d2 as int] == dot(),
            forall|j: int|
                start <= j < i && #[trigger] tv[j] == dot() ==> (count >= 1 && j == d1) || (count >= 2 && j
                    == d2),
        decreases n - i,
    {
        if t[i] == 46 {
            if count == 2 {
                proof {
                    reveal(decode_spec);
                    assert forall|p: Seq<u8>, s: Seq<u8>, h: Seq<u8>| !#[trigger] three_parts(body, p, s, h) by {
                        if three_parts(body, p, s, h) {
                            lemma_dots(body, p, s, h);
                            assert(body[d1 - start] == dot());
                            assert(body[d2 - start] == dot());
                            assert(body[i - start] == dot());
                        }
                    }
                }
                return Err(AuthError::MalformedToken);
            }
            if count == 0 {
                d1 = i;
            } else {
                d2 = i;
            }
            count = count + 1;
        }
        i += 1;
    }
    if count != 2 {
        proof {
            assert forall|p: Seq<u8>, s: Seq<u8>, h: Seq<u8>| !#[trigger] three_parts(body, p, s, h) by {
                if three_parts(body, p, s, h) {
                    lemma_dots(body, p, s, h);
                    let a = p.len() as int;
                    let b = a + 1 + s.len();
                    assert(body[a] == dot());
                    assert(body[b] == dot());
                    assert(tv[a + start] == dot());
                    assert(tv[b + start] == dot());
                }
            }
        }
        return Err(AuthError::MalformedToken);
    }
    let p = vstd::slice::slice_subrange(t.as_slice(), start, d1);
    let s = vstd::slice::slice_subrange(t.as_slice(), d1 + 1, d2);
    let h = vstd::slice::slice_subrange(t.as_slice(), d2 + 1, n);
    proof {
        assert(no_dot(p@));
        assert(no_dot(s@));
        assert(no_dot(h@));
        assert(body =~= p@ + seq![dot()] + s@ + seq![dot()] + h@);
        assert(three_parts(body, p@, s@, h@));
        let (pc, sc, hc) = choose|pc: Seq<u8>, sc: Seq<u8>, hc: Seq<u8>| #[trigger] three_parts(body, pc, sc, hc);
        lemma_parts_unique(body, p@, s@, h@, pc, sc, hc);
    }
    check_parts(key.as_slice(), p, s)
}

/// A token made of `Bearer `, payload part `p`, signature part `s` and header part `h`.
pub open spec fn assemble(p: Seq<u8>, s: Seq<u8>, h: Seq<u8>) -> Seq<u8> {
    bearer() + p + seq![dot()] + s + seq![dot()] + h
}

/// Decoding an assembled token looks at its payload and signature parts.
proof fn lemma_decode_assembled(key: Seq<u8>, p: Seq<u8>, s: Seq<u8>, h: Seq<u8>)
    requires
        no_dot(p),
        no_dot(s),
        no_dot(h),
    ensures
        decode_spec(key, assemble(p, s, h)) == parts_verdict(key, p, s),
{
    reveal(decode_spec);
    let t = assemble(p, s, h);
    let body = p + seq![dot()] + s + seq![dot()] + h;
    assert(t.subrange(0, 7) =~= bearer());
    assert(t.subrange(7, t.len() as int) =~= body);
    assert(strip_bearer(t) == body);
    assert(three_parts(body, p, s, h));
    let (pc, sc, hc) = choose|pc: Seq<u8>, sc: Seq<u8>, hc: Seq<u8>| #[trigger] three_parts(body, pc, sc, hc);
    lemma_parts_unique(body, p, s, h, pc, sc, hc);
}

/// A token decodes, under the key it was issued with, to the claims it was
/// issued for.
pub proof fn lemma_round_trip(key: Seq<u8>, c: ClaimsView)
    requires
        ser_claims(c).len() <= usize::MAX,
    ensures
        decode_spec(key, token_spec(key, c)) == Ok::<ClaimsView, AuthError>(c),
{
    let p = hex_spec(ser_claims(c));
    let s = hex_spec(hmac_sha256(key, p));
    let h = hex_spec(algorithm());
    lemma_no_dot_hex(ser_claims(c));
    lemma_no_dot_hex(hmac_sha256(key, p));
    lemma_no_dot_hex(algorithm());
    assert(token_spec(key, c) == assemble(p, s, h));
    lemma_decode_assembled(key, p, s, h);
    assert(hex_spec(ser_claims(c)) == p);
    let w = choose|w: ClaimsView| #[trigger] hex_spec(ser_claims(w)) == p;
    lemma_hex_injective(ser_claims(w), ser_claims(c));
    lemma_ser_claims_injective(c, w);
}

/// Replacing the signature part of a token by any other text without a `.`
/// makes decoding fail with `InvalidSignature`.
pub proof fn lemma_tampered_signature(key: Seq<u8>, c: ClaimsView, forged: Seq<u8>)
    requires
        forged != hex_spec(hmac_sha256(key, hex_spec(ser_claims(c)))),
        no_dot(forged),
    ensures
        decode_spec(key, assemble(hex_spec(ser_claims(c)), forged, hex_spec(algorithm())))
            == Err::<ClaimsView, AuthError>(AuthError::InvalidSignature),
{
    lemma_no_dot_hex(ser_claims(c));
    lemma_no_dot_hex(algorithm());
    lemma_decode_assembled(key, hex_spec(ser_claims(c)), forged, hex_spec(algorithm()));
}

} // verus!
