use vstd::prelude::*;
use crate::error::AuthError;
use crate::text::{bytes_of, is_ascii_bytes, lemma_ascii_valid_utf8, string_from_valid, utf8_of};

verus! {

/// The lowercase hexadecimal digit for a nibble.
pub open spec fn hex_digit(n: u8) -> u8 {
    if n < 10 {
        (48 + n) as u8
    } else {
        (87 + n) as u8
    }
}

/// True for the bytes `0`..`9` and `a`..`f`.
pub open spec fn is_hex_digit(c: u8) -> bool {
    (48 <= c <= 57) || (97 <= c <= 102)
}

/// The nibble that a hexadecimal digit stands for.
pub open spec fn hex_value(c: u8) -> u8 {
    if c <= 57 {
        (c - 48) as u8
    } else {
        (c - 87) as u8
    }
}

/// Lowercase hexadecimal text of a byte sequence: two digits per byte, high nibble first.
pub open spec fn hex_spec(b: Seq<u8>) -> Seq<u8> {
    Seq::new(
        2 * b.len(),
        |i: int|
            if i % 2 == 0 {
                hex_digit(b[i / 2] / 16)
            } else {
                hex_digit(b[i / 2] % 16)
            },
    )
}

/// True when `t` is the hexadecimal text of some byte sequence.
pub open spec fn is_hex_text(t: Seq<u8>) -> bool {
    &&& t.len() % 2 == 0
    &&& forall|i: int| 0 <= i < t.len() ==> is_hex_digit(#[trigger] t[i])
}

proof fn lemma_digit(n: u8)
    requires
        n < 16,
    ensures
        is_hex_digit(hex_digit(n)),
        hex_value(hex_digit(n)) == n,
        hex_digit(n) < 128,
{
}

proof fn lemma_pair(c1: u8, c2: u8)
    requires
        is_hex_digit(c1),
        is_hex_digit(c2),
    ensures
        hex_value(c1) * 16 + hex_value(c2) < 256,
        hex_digit(((hex_value(c1) * 16 + hex_value(c2)) as u8) / 16) == c1,
        hex_digit(((hex_value(c1) * 16 + hex_value(c2)) as u8) % 16) == c2,
{
    let h1 = hex_value(c1);
    let h2 = hex_value(c2);
    assert(h1 < 16 && h2 < 16);
    let v = h1 * 16 + h2;
    assert(v < 256) by (nonlinear_arith)
        requires
            h1 < 16,
            h2 < 16,
            v == h1 * 16 + h2,
    ;
    assert(v / 16 == h1 && v % 16 == h2) by (nonlinear_arith)
        requires
            h1 < 16,
            h2 < 16,
            v == h1 * 16 + h2,
    ;
}

/// Hexadecimal text determines the bytes it was made from.
pub proof fn lemma_hex_injective(a: Seq<u8>, b: Seq<u8>)
    requires
        hex_spec(a) == hex_spec(b),
    ensures
        a == b,
{
    assert(hex_spec(a).len() == 2 * a.len());
    assert(a.len() == b.len());
    assert forall|i: int| 0 <= i < a.len() implies a[i] == b[i] by {
        assert((2 * i) / 2 == i && (2 * i) % 2 == 0);
        assert((2 * i + 1) / 2 == i && (2 * i + 1) % 2 == 1);
        assert(hex_spec(a)[2 * i] == hex_digit(a[i] / 16));
        assert(hex_spec(b)[2 * i] == hex_digit(b[i] / 16));
        assert(hex_spec(a)[2 * i + 1] == hex_digit(a[i] % 16));
        assert(hex_spec(b)[2 * i + 1] == hex_digit(b[i] % 16));
        lemma_digit(a[i] / 16);
        lemma_digit(b[i] / 16);
        lemma_digit(a[i] % 16);
        lemma_digit(b[i] % 16);
        assert(a[i] / 16 == b[i] / 16);
        assert(a[i] % 16 == b[i] % 16);
        let x = a[i] as int;
        let y = b[i] as int;
        assert(x == 16 * (x / 16) + x % 16);
        assert(y == 16 * (y / 16) + y % 16);
    }
    assert(a =~= b);
}

/// Hexadecimal text is made of hexadecimal digits only.
pub proof fn lemma_hex_is_text(b: Seq<u8>)
    ensures
        is_hex_text(hex_spec(b)),
        is_ascii_bytes(hex_spec(b)),
{
    assert forall|i: int| 0 <= i < hex_spec(b).len() implies is_hex_digit(#[trigger] hex_spec(b)[i])
        && hex_spec(b)[i] < 128 by {
        lemma_digit(b[i / 2] / 16);
        lemma_digit(b[i / 2] % 16);
    }
    assert((2 * b.len()) % 2 == 0);
}

fn digit_of(n: u8) -> (r: u8)
    requires
        n < 16,
    ensures
        r == hex_digit(n),
{
    if n < 10 {
        48 + n
    } else {
        87 + n
    }
}

fn value_of(c: u8) -> (r: u8)
    requires
        is_hex_digit(c),
    ensures
        r == hex_value(c),
{
    if c <= 57 {
        c - 48
    } else {
        c - 87
    }
}

fn is_digit(c: u8) -> (r: bool)
    ensures
        r == is_hex_digit(c),
{
    (48 <= c && c <= 57) || (97 <= c && c <= 102)
}

/// Hexadecimal text of `data`, as bytes.
pub fn encode_bytes(data: &[u8]) -> (r: Vec<u8>)
    ensures
        r@ == hex_spec(data@),
{
    let mut out: Vec<u8> = Vec::new();
    let mut i: usize = 0;
    while i < data.len()
        invariant
            0 <= i <= data@.len(),
            out@.len() == 2 * i,
            forall|j: int| 0 <= j < 2 * i ==> #[trigger] out@[j] == hex_spec(data@)[j],
        decreases data@.len() - i,
    {
        let b = data[i];
        out.push(digit_of(b / 16));
        out.push(digit_of(b % 16));
        proof {
            assert((2 * i as int) / 2 == i as int && (2 * i as int) % 2 == 0);
            assert((2 * i as int + 1) / 2 == i as int && (2 * i as int + 1) % 2 == 1);
        }
        i += 1;
    }
    assert(out@ =~= hex_spec(data@));
    out
}

/// Reads hexadecimal text back into bytes; `None` when `t` is not such text.
pub fn decode_bytes(t: &[u8]) -> (r: Option<Vec<u8>>)
    ensures
        r.is_some() == is_hex_text(t@),
        r matches Some(v) ==> hex_spec(v@) == t@,
{
    if t.len() % 2 != 0 {
        return None;
    }
    let n = t.len() / 2;
    let mut out: Vec<u8> = Vec::new();
    let mut i: usize = 0;
    while i < n
        invariant
            n * 2 == t@.len(),
            t@.len() <= usize::MAX,
            0 <= i <= n,
            out@.len() == i,
            forall|j: int| 0 <= j < 2 * i ==> is_hex_digit(#[trigger] t@[j]),
            forall|j: int| 0 <= j < 2 * i ==> #[trigger] hex_spec(out@)[j] == t@[j],
        decreases n - i,
    {
        let k: usize = i + i;
        assert(k + 1 < t@.len());
        let c1 = t[k];
        let c2 = t[k + 1];
        if !is_digit(c1) {
            return None;
        }
        if !is_digit(c2) {
            return None;
        }
        proof {
            lemma_pair(c1, c2);
        }
        let v: u8 = value_of(c1) * 16 + value_of(c2);
        let ghost old_out = out@;
        out.push(v);
        proof {
            assert forall|j: int| 0 <= j < 2 * i + 2 implies #[trigger] hex_spec(out@)[j] == t@[j] by {
                if j < 2 * i {
                    assert(hex_spec(old_out)[j] == t@[j]);
                    assert(out@[j / 2] == old_out[j / 2]);
                } else {
                    assert(j / 2 == i as int);
                }
            }
        }
        i += 1;
    }
    assert(hex_spec(out@) =~= t@);
    Some(out)
}

/// Lowercase hexadecimal text of `data`: two digits per byte.
pub fn encode(data: &[u8]) -> (r: String)
    ensures
        utf8_of(r@) == hex_spec(data@),
{
    let v = encode_bytes(data);
    proof {
        lemma_hex_is_text(data@);
        lemma_ascii_valid_utf8(v@);
    }
    string_from_valid(v)
}

/// Reads lowercase hexadecimal text back into the bytes it stands for.
pub fn decode(data: &str) -> (r: Result<Vec<u8>, AuthError>)
    ensures
        r.is_ok() == is_hex_text(utf8_of(data@)),
        r matches Ok(v) ==> hex_spec(v@) == utf8_of(data@),
        r matches Err(e) ==> e == AuthError::Decoding,
{
    let b = bytes_of(data);
    match decode_bytes(b.as_slice()) {
        Some(v) => Ok(v),
        None => Err(AuthError::Decoding),
    }
}

} // verus!
