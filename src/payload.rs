use vstd::prelude::*;
use vstd::utf8::*;
use crate::text::{bytes_of, string_from_utf8, utf8_of};

verus! {

/// Eight bytes, most significant first.
pub open spec fn be64(v: u64) -> Seq<u8> {
    seq![
        (v >> 56u64) as u8,
        (v >> 48u64) as u8,
        (v >> 40u64) as u8,
        (v >> 32u64) as u8,
        (v >> 24u64) as u8,
        (v >> 16u64) as u8,
        (v >> 8u64) as u8,
        v as u8,
    ]
}

/// A string: its UTF-8 length as eight bytes, then its UTF-8 bytes.
pub open spec fn ser_str(s: Seq<char>) -> Seq<u8> {
    be64(utf8_of(s).len() as u64) + utf8_of(s)
}

/// Strings one after another, without a count.
pub open spec fn ser_strs(l: Seq<Seq<char>>) -> Seq<u8>
    decreases l.len(),
{
    if l.len() == 0 {
        Seq::empty()
    } else {
        ser_strs(l.drop_last()) + ser_str(l.last())
    }
}

/// A list of strings: the count as eight bytes, then the strings.
pub open spec fn ser_list(l: Seq<Seq<char>>) -> Seq<u8> {
    be64(l.len() as u64) + ser_strs(l)
}

/// The contents of a list of strings.
pub open spec fn strs_view(v: Seq<String>) -> Seq<Seq<char>> {
    v.map_values(|s: String| s@)
}

/// True when `t` stands in `b` at `pos`.
pub open spec fn prefix_at(b: Seq<u8>, pos: int, t: Seq<u8>) -> bool {
    &&& 0 <= pos
    &&& pos + t.len() <= b.len()
    &&& b.subrange(pos, pos + t.len()) == t
}

/// A prefix made of two pieces is the first piece followed by the second.
pub proof fn lemma_prefix_split(b: Seq<u8>, pos: int, x: Seq<u8>, y: Seq<u8>)
    requires
        prefix_at(b, pos, x + y),
    ensures
        prefix_at(b, pos, x),
        prefix_at(b, pos + x.len(), y),
{
    let whole = b.subrange(pos, pos + (x + y).len());
    assert(whole == x + y);
    assert(b.subrange(pos, pos + x.len()) =~= whole.subrange(0, x.len() as int));
    assert(whole.subrange(0, x.len() as int) =~= x);
    assert(b.subrange(pos + x.len(), pos + x.len() + y.len()) =~= whole.subrange(
        x.len() as int,
        (x.len() + y.len()) as int,
    ));
    assert(whole.subrange(x.len() as int, (x.len() + y.len()) as int) =~= y);
}

/// Two pieces that stand one after the other make a prefix together.
pub proof fn lemma_prefix_join(b: Seq<u8>, pos: int, x: Seq<u8>, y: Seq<u8>)
    requires
        prefix_at(b, pos, x),
        prefix_at(b, pos + x.len(), y),
    ensures
        prefix_at(b, pos, x + y),
{
    assert(b.subrange(pos, pos + x.len() + y.len()) =~= x + y);
}

pub proof fn lemma_be64_injective(v: u64, w: u64)
    requires
        be64(v) == be64(w),
    ensures
        v == w,
{
    assert(be64(v)[0] == be64(w)[0]);
    assert(be64(v)[1] == be64(w)[1]);
    assert(be64(v)[2] == be64(w)[2]);
    assert(be64(v)[3] == be64(w)[3]);
    assert(be64(v)[4] == be64(w)[4]);
    assert(be64(v)[5] == be64(w)[5]);
    assert(be64(v)[6] == be64(w)[6]);
    assert(be64(v)[7] == be64(w)[7]);
    assert(v == w) by (bit_vector)
        requires
            (v >> 56u64) as u8 == (w >> 56u64) as u8,
            (v >> 48u64) as u8 == (w >> 48u64) as u8,
            (v >> 40u64) as u8 == (w >> 40u64) as u8,
            (v >> 32u64) as u8 == (w >> 32u64) as u8,
            (v >> 24u64) as u8 == (w >> 24u64) as u8,
            (v >> 16u64) as u8 == (w >> 16u64) as u8,
            (v >> 8u64) as u8 == (w >> 8u64) as u8,
            v as u8 == w as u8,
    ;
}

/// Reads eight bytes at `pos` as a number, most significant first.
pub fn read_u64(b: &[u8], pos: usize) -> (r: Option<u64>)
    ensures
        r.is_some() == (pos as int + 8 <= b@.len()),
        r matches Some(v) ==> prefix_at(b@, pos as int, be64(v)),
        forall|v: u64| #[trigger] prefix_at(b@, pos as int, be64(v)) ==> r == Some(v),
{
    if pos > b.len() || b.len() - pos < 8 {
        proof {
            assert forall|v: u64| #[trigger] prefix_at(b@, pos as int, be64(v)) implies false by {
                assert(be64(v).len() == 8);
            }
        }
        return None;
    }
    let x0 = b[pos];
    let x1 = b[pos + 1];
    let x2 = b[pos + 2];
    let x3 = b[pos + 3];
    let x4 = b[pos + 4];
    let x5 = b[pos + 5];
    let x6 = b[pos + 6];
    let x7 = b[pos + 7];
    let v: u64 = (x0 as u64) << 56u64 | (x1 as u64) << 48u64 | (x2 as u64) << 40u64 | (x3 as u64) << 32u64
        | (x4 as u64) << 24u64 | (x5 as u64) << 16u64 | (x6 as u64) << 8u64 | (x7 as u64);
    assert((v >> 56u64) as u8 == x0 && (v >> 48u64) as u8 == x1 && (v >> 40u64) as u8 == x2
        && (v >> 32u64) as u8 == x3 && (v >> 24u64) as u8 == x4 && (v >> 16u64) as u8 == x5
        && (v >> 8u64) as u8 == x6 && v as u8 == x7) by (bit_vector)
        requires
            v == (x0 as u64) << 56u64 | (x1 as u64) << 48u64 | (x2 as u64) << 40u64 | (x3 as u64) << 32u64
                | (x4 as u64) << 24u64 | (x5 as u64) << 16u64 | (x6 as u64) << 8u64 | (x7 as u64),
    ;
    proof {
        assert(b@.subrange(pos as int, pos as int + 8) =~= be64(v));
        assert forall|w: u64| #[trigger] prefix_at(b@, pos as int, be64(w)) implies Some(v) == Some(w) by {
            assert(be64(w).len() == 8);
            lemma_be64_injective(v, w);
        }
    }
    Some(v)
}

/// Eight bytes of `v`, most significant first, appended to `out`.
pub fn write_u64(out: &mut Vec<u8>, v: u64)
    ensures
        final(out)@ == old(out)@ + be64(v),
{
    out.push((v >> 56u64) as u8);
    out.push((v >> 48u64) as u8);
    out.push((v >> 40u64) as u8);
    out.push((v >> 32u64) as u8);
    out.push((v >> 24u64) as u8);
    out.push((v >> 16u64) as u8);
    out.push((v >> 8u64) as u8);
    out.push(v as u8);
    assert(out@ =~= old(out)@ + be64(v));
}

/// Reads a string at `pos`; also gives the position just after it.
pub fn read_str(b: &[u8], pos: usize) -> (r: Option<(String, usize)>)
    ensures
        r matches Some((s, p)) ==> pos <= p && prefix_at(b@, pos as int, ser_str(s@)) && p == pos + ser_str(
            s@,
        ).len(),
        forall|s: Seq<char>| #[trigger] prefix_at(b@, pos as int, ser_str(s)) ==> (r matches Some((x, p))
            && x@ == s),
{
    let n = match read_u64(b, pos) {
        Some(n) => n,
        None => {
            proof {
                assert forall|s: Seq<char>| #[trigger] prefix_at(b@, pos as int, ser_str(s)) implies false by {
                    assert(ser_str(s).len() >= 8);
                }
            }
            return None;
        },
    };
    assert(b@.len() == b.len());
    let start: usize = pos + 8;
    if n > (b.len() - start) as u64 {
        proof {
            assert forall|s: Seq<char>| #[trigger] prefix_at(b@, pos as int, ser_str(s)) implies false by {
                let e = utf8_of(s);
                assert(b@.subrange(pos as int, pos + 8) =~= be64(e.len() as u64));
                assert(prefix_at(b@, pos as int, be64(e.len() as u64)));
            }
        }
        return None;
    }
    let end: usize = start + n as usize;
    let slice = vstd::slice::slice_subrange(b, start, end);
    let bytes = vstd::slice::slice_to_vec(slice);
    let ghost e = bytes@;
    match string_from_utf8(bytes) {
        Some(s) => {
            proof {
                decode_utf8_encode_utf8(e);
                assert(utf8_of(s@) == e);
                assert(e.len() == n);
                assert(b@.subrange(pos as int, end as int) =~= b@.subrange(pos as int, pos + 8) + e);
                assert forall|t: Seq<char>| #[trigger] prefix_at(b@, pos as int, ser_str(t)) implies s@ == t by {
                    let f = utf8_of(t);
                    assert(b@.subrange(pos as int, pos + 8) =~= be64(f.len() as u64));
                    assert(prefix_at(b@, pos as int, be64(f.len() as u64)));
                    lemma_prefix_split(b@, pos as int, be64(f.len() as u64), f);
                    assert(f.len() as u64 == n);
                    assert(f.len() <= b@.len());
                    assert(b@.subrange(start as int, end as int) =~= f);
                    encode_utf8_decode_utf8(t);
                }
            }
            Some((s, end))
        },
        None => {
            proof {
                assert forall|t: Seq<char>| #[trigger] prefix_at(b@, pos as int, ser_str(t)) implies false by {
                    let f = utf8_of(t);
                    assert(b@.subrange(pos as int, pos + 8) =~= be64(f.len() as u64));
                    assert(prefix_at(b@, pos as int, be64(f.len() as u64)));
                    lemma_prefix_split(b@, pos as int, be64(f.len() as u64), f);
                    assert(f.len() as u64 == n);
                    assert(f.len() <= b@.len());
                    assert(b@.subrange(start as int, end as int) =~= f);
                    encode_utf8_valid_utf8(t);
                }
            }
            None
        },
    }
}

/// The encoding of the first `k` strings is a prefix of the encoding of all of them.
pub proof fn lemma_strs_prefix(b: Seq<u8>, pos: int, l: Seq<Seq<char>>, k: int)
    requires
        prefix_at(b, pos, ser_strs(l)),
        0 <= k <= l.len(),
    ensures
        prefix_at(b, pos, ser_strs(l.take(k))),
    decreases l.len() - k,
{
    if k == l.len() {
        assert(l.take(k) =~= l);
    } else {
        lemma_strs_prefix(b, pos, l, k + 1);
        assert(l.take(k + 1).drop_last() =~= l.take(k));
        lemma_prefix_split(b, pos, ser_strs(l.take(k)), ser_str(l[k]));
    }
}

/// Appends the encoding of a string.
pub fn write_str(out: &mut Vec<u8>, s: &str)
    ensures
        final(out)@ == old(out)@ + ser_str(s@),
{
    let mut bytes = bytes_of(s);
    write_u64(out, bytes.len() as u64);
    out.append(&mut bytes);
    assert(final(out)@ =~= old(out)@ + ser_str(s@));
}

/// Appends the encoding of a list of strings.
pub fn write_list(out: &mut Vec<u8>, l: &Vec<String>)
    ensures
        final(out)@ == old(out)@ + ser_list(strs_view(l@)),
{
    write_u64(out, l.len() as u64);
    let ghost start = out@;
    let mut i: usize = 0;
    while i < l.len()
        invariant
            0 <= i <= l@.len(),
            out@ == start + ser_strs(strs_view(l@).take(i as int)),
        decreases l@.len() - i,
    {
        write_str(out, l[i].as_str());
        proof {
            assert(strs_view(l@).take(i + 1).drop_last() =~= strs_view(l@).take(i as int));
            assert(out@ =~= start + ser_strs(strs_view(l@).take(i + 1)));
        }
        i += 1;
    }
    assert(strs_view(l@).take(i as int) =~= strs_view(l@));
    assert(final(out)@ =~= old(out)@ + ser_list(strs_view(l@)));
}

/// Reads a list of strings at `pos`; also gives the position just after it.
pub fn read_list(b: &[u8], pos: usize) -> (r: Option<(Vec<String>, usize)>)
    ensures
        r matches Some((v, p)) ==> pos <= p && prefix_at(b@, pos as int, ser_list(strs_view(v@))) && p == pos
            + ser_list(strs_view(v@)).len(),
        forall|l: Seq<Seq<char>>| #[trigger] prefix_at(b@, pos as int, ser_list(l)) ==> (r matches Some((v, p))
            && strs_view(v@) == l),
{
    let n = match read_u64(b, pos) {
        Some(n) => n,
        None => {
            proof {
                assert forall|l: Seq<Seq<char>>| #[trigger] prefix_at(b@, pos as int, ser_list(l)) implies false by {
                    lemma_prefix_split(b@, pos as int, be64(l.len() as u64), ser_strs(l));
                }
            }
            return None;
        },
    };
    assert(b@.len() == b.len());
    let mut cur: usize = pos + 8;
    let mut items: Vec<String> = Vec::new();
    let mut k: u64 = 0;
    proof {
        assert forall|l: Seq<Seq<char>>| #[trigger] prefix_at(b@, pos as int, ser_list(l)) implies l.len() == n
            && strs_view(items@) == l.take(0) by {
            lemma_prefix_split(b@, pos as int, be64(l.len() as u64), ser_strs(l));
            assert(l.len() <= b@.len()) by {
                lemma_strs_len(l);
            }
            assert(strs_view(items@) =~= l.take(0));
        }
        assert(be64(n) + ser_strs(strs_view(items@)) =~= be64(n));
    }
    while k < n
        invariant
            b@.len() == b.len(),
            pos + 8 <= cur <= b@.len(),
            k <= n,
            items@.len() == k,
            prefix_at(b@, pos as int, be64(n) + ser_strs(strs_view(items@))),
            cur == pos + 8 + ser_strs(strs_view(items@)).len(),
            forall|l: Seq<Seq<char>>| #[trigger] prefix_at(b@, pos as int, ser_list(l)) ==> l.len() == n
                && strs_view(items@) == l.take(k as int),
        decreases n - k,
    {
        let ghost before = strs_view(items@);
        match read_str(b, cur) {
            Some((s, p)) => {
                proof {
                    lemma_prefix_join(b@, pos as int, be64(n) + ser_strs(before), ser_str(s@));
                    assert(strs_view(items@.push(s)) =~= before.push(s@));
                    assert(before.push(s@).drop_last() =~= before);
                    assert(be64(n) + ser_strs(before) + ser_str(s@) =~= be64(n) + ser_strs(before.push(s@)));
                    assert forall|l: Seq<Seq<char>>| #[trigger] prefix_at(b@, pos as int, ser_list(l)) implies
                        strs_view(items@.push(s)) == l.take(k + 1) by {
                        lemma_prefix_split(b@, pos as int, be64(l.len() as u64), ser_strs(l));
                        lemma_strs_prefix(b@, pos + 8, l, k + 1);
                        assert(l.take(k + 1).drop_last() =~= l.take(k as int));
                        lemma_prefix_split(b@, pos + 8, ser_strs(l.take(k as int)), ser_str(l[k as int]));
                        assert(l.take(k + 1) =~= l.take(k as int).push(l[k as int]));
                    }
                }
                items.push(s);
                cur = p;
                k = k + 1;
            },
            None => {
                proof {
                    assert forall|l: Seq<Seq<char>>| #[trigger] prefix_at(b@, pos as int, ser_list(l)) implies false by {
                        lemma_prefix_split(b@, pos as int, be64(l.len() as u64), ser_strs(l));
                        lemma_strs_prefix(b@, pos + 8, l, k + 1);
                        assert(l.take(k + 1).drop_last() =~= l.take(k as int));
                        lemma_prefix_split(b@, pos + 8, ser_strs(l.take(k as int)), ser_str(l[k as int]));
                    }
                }
                return None;
            },
        }
    }
    proof {
        assert forall|l: Seq<Seq<char>>| #[trigger] prefix_at(b@, pos as int, ser_list(l)) implies strs_view(items@)
            == l by {
            assert(l.take(k as int) =~= l);
        }
        assert(strs_view(items@).len() == n);
    }
    Some((items, cur))
}

/// Each string of a list takes at least one byte of its encoding.
pub proof fn lemma_strs_len(l: Seq<Seq<char>>)
    ensures
        ser_strs(l).len() >= l.len(),
    decreases l.len(),
{
    if l.len() > 0 {
        lemma_strs_len(l.drop_last());
    }
}

/// Two strings whose encodings both stand at `pos` are the same string.
pub proof fn lemma_str_unique(b: Seq<u8>, pos: int, s1: Seq<char>, s2: Seq<char>)
    requires
        prefix_at(b, pos, ser_str(s1)),
        prefix_at(b, pos, ser_str(s2)),
        b.len() <= usize::MAX,
    ensures
        s1 == s2,
{
    let e1 = utf8_of(s1);
    let e2 = utf8_of(s2);
    lemma_prefix_split(b, pos, be64(e1.len() as u64), e1);
    lemma_prefix_split(b, pos, be64(e2.len() as u64), e2);
    lemma_be64_injective(e1.len() as u64, e2.len() as u64);
    assert(e1.len() == e2.len());
    assert(e1 == b.subrange(pos + 8, pos + 8 + e1.len()));
    assert(e1 == e2);
    encode_utf8_decode_utf8(s1);
    encode_utf8_decode_utf8(s2);
}

/// Two lists of the same length whose encodings both stand at `pos` are the same list.
pub proof fn lemma_strs_unique(b: Seq<u8>, pos: int, l1: Seq<Seq<char>>, l2: Seq<Seq<char>>)
    requires
        prefix_at(b, pos, ser_strs(l1)),
        prefix_at(b, pos, ser_strs(l2)),
        l1.len() == l2.len(),
        b.len() <= usize::MAX,
    ensures
        l1 == l2,
    decreases l1.len(),
{
    if l1.len() > 0 {
        lemma_prefix_split(b, pos, ser_strs(l1.drop_last()), ser_str(l1.last()));
        lemma_prefix_split(b, pos, ser_strs(l2.drop_last()), ser_str(l2.last()));
        lemma_strs_unique(b, pos, l1.drop_last(), l2.drop_last());
        lemma_str_unique(b, pos + ser_strs(l1.drop_last()).len(), l1.last(), l2.last());
        assert(l1 =~= l1.drop_last().push(l1.last()));
        assert(l2 =~= l2.drop_last().push(l2.last()));
    } else {
        assert(l1 =~= l2);
    }
}

/// Two lists whose encodings both stand at `pos` are the same list.
pub proof fn lemma_list_unique(b: Seq<u8>, pos: int, l1: Seq<Seq<char>>, l2: Seq<Seq<char>>)
    requires
        prefix_at(b, pos, ser_list(l1)),
        prefix_at(b, pos, ser_list(l2)),
        b.len() <= usize::MAX,
    ensures
        l1 == l2,
{
    lemma_prefix_split(b, pos, be64(l1.len() as u64), ser_strs(l1));
    lemma_prefix_split(b, pos, be64(l2.len() as u64), ser_strs(l2));
    lemma_strs_len(l1);
    lemma_strs_len(l2);
    lemma_be64_injective(l1.len() as u64, l2.len() as u64);
    lemma_strs_unique(b, pos + 8, l1, l2);
}

} // verus!
