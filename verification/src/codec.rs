//! The byte format of a cached statics record, with a proven round trip.
//!
//! A record is a sequence of entries; each entry is the path length as eight
//! little-endian bytes, the path bytes, and the penalty as eight little-endian
//! bytes. Decoding accepts exactly the encodings of well-formed records and
//! rejects everything else, so a corrupt cache entry reads as a miss and is
//! recomputed.

use vstd::prelude::*;
use crate::arith::SCALE;
use crate::statics::{CommitStatics, PathContribution, statics_view};

verus! {

/// A 64-bit value as eight little-endian bytes.
pub open spec fn enc_u64(x: u64) -> Seq<u8> {
    seq![
        (x & 0xff) as u8,
        ((x >> 8) & 0xff) as u8,
        ((x >> 16) & 0xff) as u8,
        ((x >> 24) & 0xff) as u8,
        ((x >> 32) & 0xff) as u8,
        ((x >> 40) & 0xff) as u8,
        ((x >> 48) & 0xff) as u8,
        ((x >> 56) & 0xff) as u8,
    ]
}

/// Eight little-endian bytes as a 64-bit value.
pub open spec fn dec_u64(b: Seq<u8>) -> u64
    recommends
        b.len() == 8,
{
    (b[0] as u64) | ((b[1] as u64) << 8) | ((b[2] as u64) << 16) | ((b[3] as u64) << 24) | ((
    b[4] as u64) << 32) | ((b[5] as u64) << 40) | ((b[6] as u64) << 48) | ((b[7] as u64) << 56)
}

pub proof fn lemma_u64_round_trip(x: u64)
    ensures
        dec_u64(enc_u64(x)) == x,
{
    assert((((x & 0xff) as u8) as u64) | (((((x >> 8) & 0xff) as u8) as u64) << 8) | (((((x >> 16)
        & 0xff) as u8) as u64) << 16) | (((((x >> 24) & 0xff) as u8) as u64) << 24) | (((((x >> 32)
        & 0xff) as u8) as u64) << 32) | (((((x >> 40) & 0xff) as u8) as u64) << 40) | (((((x >> 48)
        & 0xff) as u8) as u64) << 48) | (((((x >> 56) & 0xff) as u8) as u64) << 56) == x)
        by (bit_vector);
}

/// One entry: path length, path bytes, penalty.
pub open spec fn enc_entry(e: (Seq<u8>, u64)) -> Seq<u8> {
    enc_u64(e.0.len() as u64) + e.0.map_values(|b: u8| b) + enc_u64(e.1)
}

/// A whole record, entry after entry.
pub open spec fn enc_entries(v: Seq<(Seq<u8>, u64)>) -> Seq<u8>
    decreases v.len(),
{
    if v.len() == 0 {
        Seq::empty()
    } else {
        enc_entry(v.first()) + enc_entries(v.drop_first())
    }
}

pub proof fn lemma_enc_entries_push(v: Seq<(Seq<u8>, u64)>, e: (Seq<u8>, u64))
    ensures
        enc_entries(v.push(e)) == enc_entries(v) + enc_entry(e),
    decreases v.len(),
{
    if v.len() == 0 {
        assert(v.push(e).drop_first() =~= Seq::<(Seq<u8>, u64)>::empty());
        assert(v.push(e).first() == e);
        assert(enc_entries(v.push(e)) == enc_entry(e) + enc_entries(
            Seq::<(Seq<u8>, u64)>::empty(),
        ));
        assert(enc_entries(v.push(e)) =~= enc_entries(v) + enc_entry(e));
    } else {
        assert(v.push(e).drop_first() =~= v.drop_first().push(e));
        lemma_enc_entries_push(v.drop_first(), e);
        assert(enc_entries(v.push(e)) =~= enc_entries(v) + enc_entry(e));
    }
}

/// The decoder's meaning: `Some` exactly on encodings of well-formed records.
pub open spec fn parse_entries(b: Seq<u8>) -> Option<Seq<(Seq<u8>, u64)>>
    decreases b.len(),
{
    if b.len() == 0 {
        Some(Seq::empty())
    } else if b.len() < 16 {
        None
    } else {
        let l = dec_u64(b.subrange(0, 8)) as int;
        if b.len() < 16 + l {
            None
        } else {
            let path = b.subrange(8, 8 + l);
            let pen = dec_u64(b.subrange(8 + l, 16 + l));
            if 1 <= pen <= SCALE {
                match parse_entries(b.subrange(16 + l, b.len() as int)) {
                    Some(rest) => Some(seq![(path, pen)] + rest),
                    None => None,
                }
            } else {
                None
            }
        }
    }
}

/// Decoding an encoding returns the record it was made from: nothing a
/// well-formed record holds is lost in the cache.
pub proof fn lemma_round_trip(v: Seq<(Seq<u8>, u64)>)
    requires
        forall|i: int| 0 <= i < v.len() ==> 1 <= (#[trigger] v[i]).1 <= SCALE,
        forall|i: int| 0 <= i < v.len() ==> (#[trigger] v[i]).0.len() <= u64::MAX,
    ensures
        parse_entries(enc_entries(v)) == Some(v),
    decreases v.len(),
{
    if v.len() == 0 {
        assert(enc_entries(v).len() == 0);
    } else {
        let e = v.first();
        assert(v[0] == e);
        let l = e.0.len() as int;
        let b = enc_entries(v);
        let tail = enc_entries(v.drop_first());
        assert(b == enc_entry(e) + tail);
        assert(enc_entry(e).len() == 16 + l);
        assert(b.len() == 16 + l + tail.len());
        lemma_u64_round_trip(e.0.len() as u64);
        lemma_u64_round_trip(e.1);
        assert(b.subrange(0, 8) =~= enc_u64(e.0.len() as u64));
        assert(dec_u64(b.subrange(0, 8)) as int == l);
        assert(b.subrange(8, 8 + l) =~= e.0);
        assert(b.subrange(8 + l, 16 + l) =~= enc_u64(e.1));
        assert(dec_u64(b.subrange(8 + l, 16 + l)) == e.1);
        assert(b.subrange(16 + l, b.len() as int) =~= tail);
        lemma_round_trip(v.drop_first());
        assert(seq![(b.subrange(8, 8 + l), e.1)] + v.drop_first() =~= v);
    }
}

/// Append a 64-bit value, little-endian.
fn push_u64(out: &mut Vec<u8>, x: u64)
    ensures
        final(out)@ == old(out)@ + enc_u64(x),
{
    out.push((x & 0xff) as u8);
    out.push(((x >> 8) & 0xff) as u8);
    out.push(((x >> 16) & 0xff) as u8);
    out.push(((x >> 24) & 0xff) as u8);
    out.push(((x >> 32) & 0xff) as u8);
    out.push(((x >> 40) & 0xff) as u8);
    out.push(((x >> 48) & 0xff) as u8);
    out.push(((x >> 56) & 0xff) as u8);
    proof {
        assert(out@ =~= old(out)@ + enc_u64(x));
    }
}

/// Read the 64-bit value at `pos`, little-endian.
fn read_u64(b: &Vec<u8>, pos: usize) -> (r: u64)
    requires
        pos + 8 <= b@.len(),
    ensures
        r == dec_u64(b@.subrange(pos as int, pos as int + 8)),
{
    let n = b.len();
    let r = (b[pos] as u64) | ((b[pos + 1] as u64) << 8) | ((b[pos + 2] as u64) << 16) | ((b[pos
        + 3] as u64) << 24) | ((b[pos + 4] as u64) << 32) | ((b[pos + 5] as u64) << 40) | ((b[pos
        + 6] as u64) << 48) | ((b[pos + 7] as u64) << 56);
    proof {
        let s = b@.subrange(pos as int, pos as int + 8);
        assert(s[0] == b@[pos as int]);
        assert(s[1] == b@[pos as int + 1]);
        assert(s[2] == b@[pos as int + 2]);
        assert(s[3] == b@[pos as int + 3]);
        assert(s[4] == b@[pos as int + 4]);
        assert(s[5] == b@[pos as int + 5]);
        assert(s[6] == b@[pos as int + 6]);
        assert(s[7] == b@[pos as int + 7]);
    }
    r
}

/// Encode a statics record for the cache.
pub fn encode_statics(s: &CommitStatics) -> (r: Vec<u8>)
    ensures
        r@ == enc_entries(statics_view(*s)),
{
    let mut out: Vec<u8> = Vec::new();
    let n = s.contribs.len();
    let mut i: usize = 0;
    proof {
        assert(statics_view(*s).take(0) =~= Seq::<(Seq<u8>, u64)>::empty());
    }
    while i < n
        invariant
            n == s.contribs@.len(),
            i <= n,
            out@ == enc_entries(statics_view(*s).take(i as int)),
        decreases n - i,
    {
        let c = &s.contribs[i];
        let ghost entry = statics_view(*s)[i as int];
        proof {
            assert(entry == (c.path@, c.penalty));
            assert(statics_view(*s).take(i as int + 1) =~= statics_view(*s).take(i as int).push(
                entry,
            ));
            lemma_enc_entries_push(statics_view(*s).take(i as int), entry);
        }
        push_u64(&mut out, c.path.len() as u64);
        let ghost mid = out@;
        let m = c.path.len();
        let mut k: usize = 0;
        proof {
            assert(out@ =~= mid + c.path@.take(0));
        }
        while k < m
            invariant
                m == c.path@.len(),
                k <= m,
                out@ == mid + c.path@.take(k as int),
            decreases m - k,
        {
            out.push(c.path[k]);
            proof {
                assert(c.path@.take(k as int + 1) =~= c.path@.take(k as int).push(
                    c.path@[k as int],
                ));
                assert(out@ =~= mid + c.path@.take(k as int + 1));
            }
            k = k + 1;
        }
        push_u64(&mut out, c.penalty);
        proof {
            assert(c.path@.take(m as int) =~= c.path@);
            assert(c.path@.map_values(|b: u8| b) =~= c.path@);
            assert(out@ =~= enc_entries(statics_view(*s).take(i as int + 1)));
        }
        i = i + 1;
    }
    proof {
        assert(statics_view(*s).take(n as int) =~= statics_view(*s));
    }
    out
}

/// `Some(prefix + rest)` when `rest` parsed, else `None`.
pub open spec fn parse_after(
    prefix: Seq<(Seq<u8>, u64)>,
    rest: Option<Seq<(Seq<u8>, u64)>>,
) -> Option<Seq<(Seq<u8>, u64)>> {
    match rest {
        Some(t) => Some(prefix + t),
        None => None,
    }
}

/// The views of decoded contributions.
pub open spec fn contrib_views(s: Seq<PathContribution>) -> Seq<(Seq<u8>, u64)> {
    s.map_values(|c: PathContribution| (c.path@, c.penalty))
}

/// Decode a cached record; `None` on anything that is not the encoding of a
/// well-formed record, which callers treat as a cache miss.
pub fn decode_statics(b: &Vec<u8>) -> (r: Option<CommitStatics>)
    ensures
        match r {
            Some(s) => parse_entries(b@) == Some(statics_view(s)) && s.wf(),
            None => parse_entries(b@) is None,
        },
{
    let len = b.len();
    let mut pos: usize = 0;
    let mut out: Vec<PathContribution> = Vec::new();
    proof {
        assert(b@.subrange(0, len as int) =~= b@);
        assert(contrib_views(out@) =~= Seq::<(Seq<u8>, u64)>::empty());
        assert(parse_after(contrib_views(out@), parse_entries(b@)) == parse_entries(b@));
    }
    while pos < len
        invariant
            pos <= len,
            len == b@.len(),
            forall|i: int| 0 <= i < out@.len() ==> 1 <= (#[trigger] out@[i]).penalty <= SCALE,
            parse_entries(b@) == parse_after(
                contrib_views(out@),
                parse_entries(b@.subrange(pos as int, len as int)),
            ),
        decreases len - pos,
    {
        let ghost suffix = b@.subrange(pos as int, len as int);
        let remaining = len - pos;
        if remaining < 16 {
            proof {
                assert(parse_entries(suffix) is None);
            }
            return None;
        }
        let l64 = read_u64(b, pos);
        proof {
            assert(suffix.subrange(0, 8) =~= b@.subrange(pos as int, pos as int + 8));
        }
        if l64 > (remaining - 16) as u64 {
            proof {
                assert(parse_entries(suffix) is None);
            }
            return None;
        }
        let l = l64 as usize;
        let mut path: Vec<u8> = Vec::new();
        let mut k: usize = 0;
        while k < l
            invariant
                k <= l,
                pos + 16 + l <= len,
                len == b@.len(),
                path@ == b@.subrange(pos as int + 8, pos as int + 8 + k),
            decreases l - k,
        {
            path.push(b[pos + 8 + k]);
            proof {
                assert(path@ =~= b@.subrange(pos as int + 8, pos as int + 8 + k + 1));
            }
            k = k + 1;
        }
        let pen = read_u64(b, pos + 8 + l);
        proof {
            assert(suffix.subrange(8, 8 + l as int) =~= b@.subrange(
                pos as int + 8,
                pos as int + 8 + l as int,
            ));
            assert(suffix.subrange(8 + l as int, 16 + l as int) =~= b@.subrange(
                pos as int + 8 + l as int,
                pos as int + 16 + l as int,
            ));
        }
        if pen < 1 || pen > SCALE {
            proof {
                assert(parse_entries(suffix) is None);
            }
            return None;
        }
        let ghost out_before = contrib_views(out@);
        let ghost entry = (path@, pen);
        out.push(PathContribution { path, penalty: pen });
        pos = pos + 16 + l;
        proof {
            let tail = b@.subrange(pos as int, len as int);
            assert(suffix.subrange(16 + l as int, suffix.len() as int) =~= tail);
            assert(parse_entries(suffix) == parse_after(seq![entry], parse_entries(tail)));
            assert(contrib_views(out@) =~= out_before.push(entry));
            match parse_entries(tail) {
                Some(rest) => {
                    assert(out_before + (seq![entry] + rest) =~= out_before.push(entry) + rest);
                },
                None => {},
            }
        }
    }
    proof {
        assert(b@.subrange(len as int, len as int) =~= Seq::<u8>::empty());
        let s = CommitStatics { contribs: out };
        assert(statics_view(s) =~= contrib_views(out@));
        assert(contrib_views(out@) + Seq::<(Seq<u8>, u64)>::empty() =~= contrib_views(out@));
    }
    Some(CommitStatics { contribs: out })
}

} // verus!
