//! Binary encoding of deltas and signatures: little-endian 32-bit integers,
//! length-prefixed sequences, and a tag byte per delta record.
use vstd::prelude::*;
use vstd::std_specs::hash::spec_hash_map_iter;
use vstd::std_specs::iter::IteratorSpec;
use vstd::slice::{slice_subrange, slice_to_vec};
use std::collections::HashMap;
use crate::file_diff::{delta_view, DeltaOp, VerifyMatch};
use crate::signature::{bucket_view, BlockChunkHashes, FileChunkSignature};

verus! {

broadcast use vstd::std_specs::hash::group_hash_axioms;

/// The four little-endian bytes of `x`.
pub open spec fn le32(x: u32) -> Seq<u8> {
    seq![(x & 0xff) as u8, ((x >> 8) & 0xff) as u8, ((x >> 16) & 0xff) as u8, ((x >> 24) & 0xff) as u8]
}

/// The little-endian integer in the first four bytes of `s`.
pub open spec fn get32(s: Seq<u8>) -> u32 {
    (s[0] as u32) | ((s[1] as u32) << 8) | ((s[2] as u32) << 16) | ((s[3] as u32) << 24)
}

/// Four little-endian bytes read back give the integer they were made from.
pub proof fn lemma_le32(x: u32)
    ensures
        le32(x).len() == 4,
        get32(le32(x)) == x,
{
    assert((x & 0xff) < 256 && ((x >> 8) & 0xff) < 256 && ((x >> 16) & 0xff) < 256 && ((x >> 24)
        & 0xff) < 256) by (bit_vector);
    let e = le32(x);
    assert(e[0] as u32 == x & 0xff && e[1] as u32 == (x >> 8) & 0xff && e[2] as u32 == (x >> 16)
        & 0xff && e[3] as u32 == (x >> 24) & 0xff);
    assert(((x & 0xff) | (((x >> 8) & 0xff) << 8) | (((x >> 16) & 0xff) << 16) | (((x >> 24)
        & 0xff) << 24)) == x) by (bit_vector);
}

/// Appends the four little-endian bytes of `x`.
fn push32(out: &mut Vec<u8>, x: u32)
    ensures
        final(out)@ == old(out)@ + le32(x),
{
    out.push((x & 0xff) as u8);
    out.push(((x >> 8) & 0xff) as u8);
    out.push(((x >> 16) & 0xff) as u8);
    out.push(((x >> 24) & 0xff) as u8);
    assert(final(out)@ =~= old(out)@ + le32(x));
}

/// Reads the little-endian integer at `pos`.
fn read32(s: &[u8], pos: usize) -> (r: u32)
    requires
        pos + 4 <= s@.len(),
    ensures
        r == get32(s@.skip(pos as int)),
{
    (s[pos] as u32) | ((s[pos + 1] as u32) << 8) | ((s[pos + 2] as u32) << 16) | ((s[pos + 3]
        as u32) << 24)
}

/// The bytes of one delta record.
pub open spec fn op_enc(op: DeltaOp) -> Seq<u8> {
    match op {
        DeltaOp::Match(i) => seq![0u8] + le32(i),
        DeltaOp::Literal(l) => seq![1u8] + le32(l.len() as u32) + l,
    }
}

/// The bytes of a run of delta records, one after the other.
pub open spec fn ops_enc(d: Seq<DeltaOp>) -> Seq<u8>
    decreases d.len(),
{
    if d.len() == 0 {
        Seq::empty()
    } else {
        op_enc(d[0]) + ops_enc(d.drop_first())
    }
}

/// The encoding of a delta: the record count, then the records.
pub open spec fn delta_bytes(d: Seq<DeltaOp>) -> Seq<u8> {
    le32(d.len() as u32) + ops_enc(d)
}

/// A delta whose count and literal lengths fit in 32 bits.
pub open spec fn delta_encodable(d: Seq<DeltaOp>) -> bool {
    &&& d.len() < 0x1_0000_0000
    &&& forall|i: int|
        0 <= i < d.len() ==> (#[trigger] d[i] matches DeltaOp::Literal(l) ==> l.len()
            < 0x1_0000_0000)
}

/// Reads `n` delta records that fill `s` exactly.
pub open spec fn parse_ops(s: Seq<u8>, n: nat) -> Option<Seq<DeltaOp>>
    decreases n,
{
    if n == 0 {
        if s.len() == 0 {
            Some(Seq::empty())
        } else {
            None
        }
    } else if s.len() < 5 {
        None
    } else if s[0] == 0 {
        match parse_ops(s.skip(5), (n - 1) as nat) {
            Some(r) => Some(seq![DeltaOp::Match(get32(s.skip(1)))] + r),
            None => None,
        }
    } else if s[0] == 1 && 5 + get32(s.skip(1)) <= s.len() {
        let l = get32(s.skip(1)) as int;
        match parse_ops(s.skip(5 + l), (n - 1) as nat) {
            Some(r) => Some(seq![DeltaOp::Literal(s.subrange(5, 5 + l))] + r),
            None => None,
        }
    } else {
        None
    }
}

/// Reads a delta: a record count, then exactly that many records.
pub open spec fn parse_delta(s: Seq<u8>) -> Option<Seq<DeltaOp>> {
    if s.len() < 4 {
        None
    } else {
        parse_ops(s.skip(4), get32(s) as nat)
    }
}

proof fn lemma_ops_enc_push(d: Seq<DeltaOp>, op: DeltaOp)
    ensures
        ops_enc(d.push(op)) == ops_enc(d) + op_enc(op),
    decreases d.len(),
{
    if d.len() == 0 {
        assert(d.push(op).drop_first() =~= d);
        assert(ops_enc(d.push(op)) == op_enc(op) + ops_enc(d));
        assert(op_enc(op) + Seq::<u8>::empty() =~= op_enc(op));
        assert(Seq::<u8>::empty() + op_enc(op) =~= op_enc(op));
    } else {
        assert(d.push(op).drop_first() =~= d.drop_first().push(op));
        assert(d.push(op)[0] == d[0]);
        lemma_ops_enc_push(d.drop_first(), op);
        assert(op_enc(d[0]) + (ops_enc(d.drop_first()) + op_enc(op)) =~= (op_enc(d[0]) + ops_enc(
            d.drop_first(),
        )) + op_enc(op));
    }
}

/// Reading one encoded record in front of more bytes.
proof fn lemma_parse_one(op: DeltaOp, t: Seq<u8>, n: nat)
    requires
        op matches DeltaOp::Literal(l) ==> l.len() < 0x1_0000_0000,
    ensures
        parse_ops(op_enc(op) + t, n + 1) == match parse_ops(t, n) {
            Some(r) => Some(seq![op] + r),
            None => None,
        },
{
    let s = op_enc(op) + t;
    match op {
        DeltaOp::Match(i) => {
            lemma_le32(i);
            assert(s.skip(1).take(4) =~= le32(i));
            assert(get32(s.skip(1)) == get32(le32(i)));
            assert(s.skip(5) =~= t);
            assert(s[0] == 0);
        },
        DeltaOp::Literal(l) => {
            let ln = l.len() as u32;
            lemma_le32(ln);
            assert(s.skip(1).take(4) =~= le32(ln));
            assert(get32(s.skip(1)) == get32(le32(ln)));
            assert(s.skip(5 + l.len() as int) =~= t);
            assert(s.subrange(5, 5 + l.len() as int) =~= l);
            assert(s[0] == 1);
        },
    }
}

proof fn lemma_parse_ops_enc(d: Seq<DeltaOp>)
    requires
        delta_encodable(d),
    ensures
        parse_ops(ops_enc(d), d.len()) == Some(d),
    decreases d.len(),
{
    if d.len() == 0 {
        assert(ops_enc(d) == Seq::<u8>::empty());
    } else {
        let tail = d.drop_first();
        assert forall|i: int| 0 <= i < tail.len() implies (#[trigger] tail[i] matches DeltaOp::Literal(l)
            ==> l.len() < 0x1_0000_0000) by {
            assert(tail[i] == d[i + 1]);
        }
        lemma_parse_ops_enc(tail);
        assert(d[0] matches DeltaOp::Literal(l) ==> l.len() < 0x1_0000_0000);
        lemma_parse_one(d[0], ops_enc(tail), tail.len());
        assert(seq![d[0]] + tail =~= d);
    }
}

/// Reading back the encoding of a delta gives the same delta.
pub proof fn lemma_delta_round_trip(d: Seq<DeltaOp>)
    requires
        delta_encodable(d),
    ensures
        parse_delta(delta_bytes(d)) == Some(d),
{
    let s = delta_bytes(d);
    lemma_le32(d.len() as u32);
    assert(s.skip(4) =~= ops_enc(d));
    assert(get32(s) == get32(le32(d.len() as u32)));
    lemma_parse_ops_enc(d);
}

/// Appends the bytes of `src`.
fn push_bytes(out: &mut Vec<u8>, src: &[u8])
    ensures
        final(out)@ == old(out)@ + src@,
{
    let ghost start = out@;
    let mut i: usize = 0;
    while i < src.len()
        invariant
            0 <= i <= src@.len(),
            out@ == start + src@.take(i as int),
        decreases src@.len() - i,
    {
        out.push(src[i]);
        assert(src@.take(i + 1) =~= src@.take(i as int).push(src@[i as int]));
        i = i + 1;
    }
    assert(src@.take(src@.len() as int) =~= src@);
}

/// Encodes a delta: the record count, then for a block reference the tag 0
/// and the block's position, for literal bytes the tag 1, their count and
/// the bytes, all integers in four little-endian bytes.
pub fn encode_delta(diff: &Vec<VerifyMatch>) -> (r: Vec<u8>)
    requires
        delta_encodable(delta_view(diff@)),
    ensures
        r@ == delta_bytes(delta_view(diff@)),
{
    let ghost d = delta_view(diff@);
    let mut out: Vec<u8> = Vec::new();
    push32(&mut out, diff.len() as u32);
    assert(d.take(0) =~= Seq::<DeltaOp>::empty());
    assert(out@ =~= le32(d.len() as u32) + ops_enc(d.take(0)));
    let mut i: usize = 0;
    while i < diff.len()
        invariant
            d == delta_view(diff@),
            delta_encodable(d),
            0 <= i <= diff@.len(),
            out@ == le32(d.len() as u32) + ops_enc(d.take(i as int)),
        decreases diff@.len() - i,
    {
        let ghost before = out@;
        assert(d[i as int] == diff@[i as int]@);
        match &diff[i] {
            VerifyMatch::Match(index) => {
                out.push(0);
                push32(&mut out, *index);
            },
            VerifyMatch::NoMatch(bytes) => {
                assert(d[i as int] matches DeltaOp::Literal(l) ==> l.len() < 0x1_0000_0000);
                out.push(1);
                push32(&mut out, bytes.len() as u32);
                push_bytes(&mut out, bytes.as_slice());
            },
        }
        proof {
            assert(d.take(i + 1) =~= d.take(i as int).push(d[i as int]));
            lemma_ops_enc_push(d.take(i as int), d[i as int]);
            assert(out@ =~= before + op_enc(d[i as int]));
        }
        i = i + 1;
    }
    assert(d.take(d.len() as int) =~= d);
    out
}

/// Decodes a delta; `None` where the bytes are not exactly one encoded delta.
pub fn decode_delta(bytes: &[u8]) -> (r: Option<Vec<VerifyMatch>>)
    ensures
        match r {
            Some(d) => parse_delta(bytes@) == Some(delta_view(d@)),
            None => parse_delta(bytes@) is None,
        },
{
    let ghost s = bytes@;
    let len = bytes.len();
    if len < 4 {
        return None;
    }
    let n = read32(bytes, 0);
    let mut out: Vec<VerifyMatch> = Vec::new();
    let mut pos: usize = 4;
    let mut k: u32 = 0;
    assert(delta_view(out@) =~= Seq::<DeltaOp>::empty());
    while k < n
        invariant
            s == bytes@,
            len == s.len(),
            4 <= pos <= len,
            k <= n,
            n == get32(s),
            parse_delta(s) == match parse_ops(s.skip(pos as int), (n - k) as nat) {
                Some(r) => Some(delta_view(out@) + r),
                None => None,
            },
        decreases n - k,
    {
        let ghost done = delta_view(out@);
        let ghost m = (n - k - 1) as nat;
        let ghost rest = s.skip(pos as int);
        if len - pos < 5 {
            return None;
        }
        let tag = bytes[pos];
        let value = read32(bytes, pos + 1);
        assert(rest.skip(1) =~= s.skip(pos + 1));
        if tag == 0 {
            assert(rest.skip(5) =~= s.skip(pos + 5));
            out.push(VerifyMatch::Match(value));
            assert(delta_view(out@) =~= done.push(DeltaOp::Match(value)));
            proof {
                match parse_ops(s.skip(pos + 5), m) {
                    Some(r) => {
                        assert(done + (seq![DeltaOp::Match(value)] + r) =~= done.push(
                            DeltaOp::Match(value),
                        ) + r);
                    },
                    None => {},
                }
            }
            pos = pos + 5;
        } else if tag == 1 {
            if value as usize > len - pos - 5 {
                return None;
            }
            let end = pos + 5 + value as usize;
            let lit = slice_to_vec(slice_subrange(bytes, pos + 5, end));
            assert(rest.skip(5 + value as int) =~= s.skip(end as int));
            assert(rest.subrange(5, 5 + value as int) =~= lit@);
            let ghost op = DeltaOp::Literal(lit@);
            out.push(VerifyMatch::NoMatch(lit));
            assert(delta_view(out@) =~= done.push(op));
            proof {
                match parse_ops(s.skip(end as int), m) {
                    Some(r) => {
                        assert(done + (seq![op] + r) =~= done.push(op) + r);
                    },
                    None => {},
                }
            }
            pos = end;
        } else {
            return None;
        }
        k = k + 1;
    }
    if pos == len {
        assert(s.skip(pos as int) =~= Seq::<u8>::empty());
        assert(delta_view(out@) + Seq::<DeltaOp>::empty() =~= delta_view(out@));
        Some(out)
    } else {
        None
    }
}

/// The records of one bucket as plain values: position and digest.
pub type Bucket = Seq<(u32, Seq<u8>)>;

/// The record stored in the 36 bytes at `36 * j` of `s`.
pub open spec fn rec_at(s: Seq<u8>, j: int) -> (u32, Seq<u8>) {
    (get32(s.skip(36 * j)), s.subrange(36 * j + 4, 36 * j + 36))
}

/// The `c` records stored from the start of `s`.
pub open spec fn recs_of(s: Seq<u8>, c: nat) -> Bucket {
    Seq::new(c, |j: int| rec_at(s, j))
}

/// Reads `n` buckets from the start of `s`: each is a weak checksum, a record
/// count, and that many records of a position and a 32-byte digest. Gives the
/// table and the number of bytes read; no checksum may come twice.
pub open spec fn parse_prefix(s: Seq<u8>, n: nat) -> Option<(Map<u32, Bucket>, int)>
    decreases n,
{
    if n == 0 {
        Some((Map::empty(), 0))
    } else {
        match parse_prefix(s, (n - 1) as nat) {
            None => None,
            Some((m, off)) => {
                if off + 8 > s.len() {
                    None
                } else {
                    let key = get32(s.skip(off));
                    let c = get32(s.skip(off + 4));
                    let end = off + 8 + 36 * c;
                    if end > s.len() || m.contains_key(key) {
                        None
                    } else {
                        Some((m.insert(key, recs_of(s.skip(off + 8), c as nat)), end))
                    }
                }
            },
        }
    }
}

/// Reads a signature: the block size, the bucket count, and exactly that
/// many buckets.
pub open spec fn parse_signature(s: Seq<u8>) -> Option<(u32, Map<u32, Bucket>)> {
    if s.len() < 8 {
        None
    } else {
        match parse_prefix(s.skip(8), get32(s.skip(4)) as nat) {
            Some((m, off)) => if off == s.len() - 8 {
                Some((get32(s), m))
            } else {
                None
            },
            None => None,
        }
    }
}

/// The bytes of one record: its position, then its digest.
pub open spec fn rec_enc(r: (u32, Seq<u8>)) -> Seq<u8> {
    le32(r.0) + r.1
}

/// The bytes of the records of a bucket, one after the other.
pub open spec fn recs_enc(rs: Bucket) -> Seq<u8>
    decreases rs.len(),
{
    if rs.len() == 0 {
        Seq::empty()
    } else {
        recs_enc(rs.drop_last()) + rec_enc(rs.last())
    }
}

/// The bytes of one bucket: its weak checksum, its record count, its records.
pub open spec fn bucket_enc(e: (u32, Bucket)) -> Seq<u8> {
    le32(e.0) + le32(e.1.len() as u32) + recs_enc(e.1)
}

/// The bytes of a run of buckets, one after the other.
pub open spec fn buckets_enc(es: Seq<(u32, Bucket)>) -> Seq<u8>
    decreases es.len(),
{
    if es.len() == 0 {
        Seq::empty()
    } else {
        buckets_enc(es.drop_last()) + bucket_enc(es.last())
    }
}

/// The table that a run of buckets describes.
pub open spec fn map_of(es: Seq<(u32, Bucket)>) -> Map<u32, Bucket>
    decreases es.len(),
{
    if es.len() == 0 {
        Map::empty()
    } else {
        map_of(es.drop_last()).insert(es.last().0, es.last().1)
    }
}

/// Buckets that can be encoded: distinct checksums, 32-byte digests, and
/// record counts that fit in 32 bits.
pub open spec fn buckets_encodable(es: Seq<(u32, Bucket)>) -> bool {
    &&& forall|i: int, j: int| 0 <= i < j < es.len() ==> #[trigger] es[i].0 != #[trigger] es[j].0
    &&& forall|i: int| 0 <= i < es.len() ==> (#[trigger] es[i]).1.len() < 0x1_0000_0000
    &&& forall|i: int, j: int|
        0 <= i < es.len() && 0 <= j < es[i].1.len() ==> (#[trigger] es[i].1[j]).1.len() == 32
}

proof fn lemma_recs_enc(rs: Bucket)
    requires
        forall|j: int| 0 <= j < rs.len() ==> (#[trigger] rs[j]).1.len() == 32,
    ensures
        recs_enc(rs).len() == 36 * rs.len(),
        forall|j: int|
            0 <= j < rs.len() ==> recs_enc(rs).subrange(36 * j, 36 * j + 36) == rec_enc(
                #[trigger] rs[j],
            ),
    decreases rs.len(),
{
    if rs.len() > 0 {
        let init = rs.drop_last();
        lemma_recs_enc(init);
        lemma_le32(rs.last().0);
        let e = recs_enc(rs);
        assert forall|j: int| 0 <= j < rs.len() implies e.subrange(36 * j, 36 * j + 36)
            == rec_enc(#[trigger] rs[j]) by {
            if j < rs.len() - 1 {
                assert(init[j] == rs[j]);
                assert(e.subrange(36 * j, 36 * j + 36) =~= recs_enc(init).subrange(
                    36 * j,
                    36 * j + 36,
                ));
            } else {
                assert(e.subrange(36 * j, 36 * j + 36) =~= rec_enc(rs.last()));
            }
        }
    }
}

proof fn lemma_recs_of_enc(rs: Bucket, t: Seq<u8>)
    requires
        forall|j: int| 0 <= j < rs.len() ==> (#[trigger] rs[j]).1.len() == 32,
    ensures
        recs_of(recs_enc(rs) + t, rs.len()) == rs,
{
    lemma_recs_enc(rs);
    let x = recs_enc(rs) + t;
    assert forall|j: int| 0 <= j < rs.len() implies #[trigger] recs_of(x, rs.len())[j]
        == rs[j] by {
        let piece = recs_enc(rs).subrange(36 * j, 36 * j + 36);
        assert(piece == rec_enc(rs[j]));
        lemma_le32(rs[j].0);
        assert(x.skip(36 * j).take(4) =~= piece.take(4));
        assert(piece.take(4) =~= le32(rs[j].0));
        assert(get32(x.skip(36 * j)) == get32(le32(rs[j].0)));
        assert(x.subrange(36 * j, 36 * j + 36) =~= piece);
        assert(piece.subrange(4, 36) =~= rs[j].1);
        assert(x.subrange(36 * j + 4, 36 * j + 36) =~= piece.subrange(4, 36));
    }
    assert(recs_of(x, rs.len()) =~= rs);
}

proof fn lemma_map_of_keys(es: Seq<(u32, Bucket)>, k: u32)
    ensures
        map_of(es).contains_key(k) <==> exists|i: int| 0 <= i < es.len() && #[trigger] es[i].0 == k,
    decreases es.len(),
{
    if es.len() > 0 {
        let init = es.drop_last();
        lemma_map_of_keys(init, k);
        if map_of(es).contains_key(k) && k != es.last().0 {
            let i = choose|i: int| 0 <= i < init.len() && #[trigger] init[i].0 == k;
            assert(es[i].0 == k);
        }
        if exists|i: int| 0 <= i < es.len() && #[trigger] es[i].0 == k {
            let i = choose|i: int| 0 <= i < es.len() && #[trigger] es[i].0 == k;
            if i < es.len() - 1 {
                assert(init[i].0 == k);
            }
        }
    }
}

#[verifier::rlimit(40)]
proof fn lemma_parse_buckets_enc(es: Seq<(u32, Bucket)>, t: Seq<u8>)
    requires
        buckets_encodable(es),
    ensures
        parse_prefix(buckets_enc(es) + t, es.len()) == Some(
            (map_of(es), buckets_enc(es).len() as int),
        ),
    decreases es.len(),
{
    let s = buckets_enc(es) + t;
    if es.len() == 0 {
        assert(map_of(es) == Map::<u32, Bucket>::empty());
    } else {
        let init = es.drop_last();
        let x = es.last();
        lemma_encodable_init(es);
        let rest = bucket_enc(x) + t;
        assert(s =~= buckets_enc(init) + rest);
        lemma_parse_buckets_enc(init, rest);
        let off = buckets_enc(init).len() as int;
        assert(s.skip(off) =~= rest);
        lemma_parse_bucket_at(es, t, s, off);
        lemma_map_of_keys(init, x.0);
        if map_of(init).contains_key(x.0) {
            let i = choose|i: int| 0 <= i < init.len() && #[trigger] init[i].0 == x.0;
            assert(es[i].0 == es[es.len() - 1].0);
        }
        assert(buckets_enc(es) == buckets_enc(init) + bucket_enc(x));
        assert(map_of(es) == map_of(init).insert(x.0, x.1));
        let c = get32(s.skip(off + 4));
        assert(parse_prefix(s, (es.len() - 1) as nat) == Some((map_of(init), off)));
        assert(parse_prefix(s, es.len()) == Some(
            (map_of(init).insert(x.0, recs_of(s.skip(off + 8), c as nat)), off + 8 + 36 * c),
        ));
    }
}

proof fn lemma_encodable_init(es: Seq<(u32, Bucket)>)
    requires
        es.len() > 0,
        buckets_encodable(es),
    ensures
        buckets_encodable(es.drop_last()),
{
    let init = es.drop_last();
    assert forall|i: int, j: int| 0 <= i < init.len() && 0 <= j < init[i].1.len() implies (
    #[trigger] init[i].1[j]).1.len() == 32 by {
        assert(init[i] == es[i]);
    }
    assert forall|i: int| 0 <= i < init.len() implies (#[trigger] init[i]).1.len()
        < 0x1_0000_0000 by {
        assert(init[i] == es[i]);
    }
    assert forall|i: int, j: int| 0 <= i < j < init.len() implies #[trigger] init[i].0
        != #[trigger] init[j].0 by {
        assert(init[i] == es[i] && init[j] == es[j]);
    }
}

/// The last bucket of `es`, encoded at `off` of `s`, reads back as itself.
proof fn lemma_parse_bucket_at(es: Seq<(u32, Bucket)>, t: Seq<u8>, s: Seq<u8>, off: int)
    requires
        es.len() > 0,
        buckets_encodable(es),
        0 <= off <= s.len(),
        s.skip(off) == bucket_enc(es.last()) + t,
    ensures
        get32(s.skip(off)) == es.last().0,
        get32(s.skip(off + 4)) == es.last().1.len(),
        off + 8 + 36 * es.last().1.len() <= s.len(),
        recs_of(s.skip(off + 8), es.last().1.len()) == es.last().1,
        bucket_enc(es.last()).len() == 8 + 36 * es.last().1.len(),
{
    let x = es.last();
    assert(es[es.len() - 1] == x);
    assert(x.1.len() < 0x1_0000_0000);
    let c = x.1.len() as u32;
    let rest = bucket_enc(x) + t;
    lemma_le32(x.0);
    lemma_le32(c);
    assert(rest.take(4) =~= le32(x.0));
    assert(get32(s.skip(off)) == get32(le32(x.0)));
    assert(s.skip(off + 4) =~= rest.skip(4));
    assert(rest.skip(4).take(4) =~= le32(c));
    assert(get32(s.skip(off + 4)) == get32(le32(c)));
    assert forall|j: int| 0 <= j < x.1.len() implies (#[trigger] x.1[j]).1.len() == 32 by {
        assert(es[es.len() - 1].1[j] == x.1[j]);
    }
    lemma_recs_of_enc(x.1, t);
    lemma_recs_enc(x.1);
    assert(s.skip(off + 8) =~= rest.skip(8));
    assert(rest.skip(8) =~= recs_enc(x.1) + t);
}

/// Reading back the encoding of a run of buckets with distinct checksums
/// gives the block size and the table they describe.
pub proof fn lemma_signature_round_trip(bs: u32, es: Seq<(u32, Bucket)>)
    requires
        es.len() < 0x1_0000_0000,
        buckets_encodable(es),
    ensures
        parse_signature(le32(bs) + le32(es.len() as u32) + buckets_enc(es)) == Some(
            (bs, map_of(es)),
        ),
{
    let r = le32(bs) + le32(es.len() as u32) + buckets_enc(es);
    lemma_parse_buckets_enc(es, Seq::empty());
    assert(buckets_enc(es) + Seq::<u8>::empty() =~= buckets_enc(es));
    assert(r.skip(8) =~= buckets_enc(es));
    lemma_le32(bs);
    lemma_le32(es.len() as u32);
    assert(r.skip(4).take(4) =~= le32(es.len() as u32));
    assert(get32(r.skip(4)) == get32(le32(es.len() as u32)));
    assert(get32(r) == get32(le32(bs)));
}

proof fn lemma_map_of_value(es: Seq<(u32, Bucket)>, i: int)
    requires
        0 <= i < es.len(),
        forall|a: int, b: int| 0 <= a < b < es.len() ==> #[trigger] es[a].0 != #[trigger] es[b].0,
    ensures
        map_of(es).contains_key(es[i].0),
        map_of(es)[es[i].0] == es[i].1,
    decreases es.len(),
{
    let init = es.drop_last();
    if i < es.len() - 1 {
        assert(init[i] == es[i]);
        assert forall|a: int, b: int| 0 <= a < b < init.len() implies #[trigger] init[a].0
            != #[trigger] init[b].0 by {
            assert(init[a] == es[a] && init[b] == es[b]);
        }
        lemma_map_of_value(init, i);
        assert(es[i].0 != es[es.len() - 1].0);
    }
}

proof fn lemma_parse_prefix_none(s: Seq<u8>, k: nat, n: nat)
    requires
        k <= n,
        parse_prefix(s, k) is None,
    ensures
        parse_prefix(s, n) is None,
    decreases n - k,
{
    if k < n {
        lemma_parse_prefix_none(s, k + 1, n);
    }
}

/// The 32 bytes at `pos`.
fn digest_at(s: &[u8], pos: usize) -> (r: [u8; 32])
    requires
        pos + 32 <= s@.len(),
    ensures
        r@ == s@.subrange(pos as int, pos + 32),
{
    let mut h = [0u8; 32];
    let mut j: usize = 0;
    while j < 32
        invariant
            0 <= j <= 32,
            pos + 32 <= s.len(),
            h@.len() == 32,
            forall|i: int| 0 <= i < j ==> h@[i] == s@[pos + i],
        decreases 32 - j,
    {
        h[j] = s[pos + j];
        j = j + 1;
    }
    assert(h@ =~= s@.subrange(pos as int, pos + 32));
    h
}

/// Strictly ascending keys.
pub open spec fn ascending(s: Seq<u32>) -> bool {
    forall|i: int, j: int| 0 <= i < j < s.len() ==> s[i] < s[j]
}

/// The keys of `m` in ascending order.
pub open spec fn sorted_keys(m: Map<u32, Bucket>) -> Seq<u32> {
    choose|s: Seq<u32>| ascending(s) && forall|k: u32| #[trigger] s.contains(k) <==> m.contains_key(k)
}

/// The buckets of `m` in ascending order of their weak checksums.
pub open spec fn table_entries(m: Map<u32, Bucket>) -> Seq<(u32, Bucket)> {
    sorted_keys(m).map_values(|k: u32| (k, m[k]))
}

/// The encoding of a signature with block size `bs` and table `m`: the block
/// size, the bucket count, then the buckets in ascending order of checksum.
pub open spec fn signature_bytes(bs: u32, m: Map<u32, Bucket>) -> Seq<u8> {
    le32(bs) + le32(sorted_keys(m).len() as u32) + buckets_enc(table_entries(m))
}

/// Two ascending key sequences with the same members are equal.
proof fn lemma_ascending_unique(s: Seq<u32>, t: Seq<u32>)
    requires
        ascending(s),
        ascending(t),
        forall|k: u32| #[trigger] s.contains(k) <==> t.contains(k),
    ensures
        s == t,
    decreases s.len(),
{
    if s.len() == 0 {
        if t.len() > 0 {
            assert(t.contains(t[0]));
            assert(s.contains(t[0]));
        }
        assert(s =~= t);
    } else {
        assert(s.contains(s[0]));
        assert(t.len() > 0);
        assert(t.contains(t[0]));
        assert(t.contains(s[0]) && s.contains(t[0]));
        let j = choose|j: int| 0 <= j < t.len() && t[j] == s[0];
        let i = choose|i: int| 0 <= i < s.len() && s[i] == t[0];
        assert(t[0] <= t[j]) by {
            if j > 0 {
                assert(t[0] < t[j]);
            }
        }
        assert(s[0] <= s[i]) by {
            if i > 0 {
                assert(s[0] < s[i]);
            }
        }
        assert(s[0] == t[0]);
        let s2 = s.drop_first();
        let t2 = t.drop_first();
        assert forall|k: u32| #[trigger] s2.contains(k) <==> t2.contains(k) by {
            if s2.contains(k) {
                let a = choose|a: int| 0 <= a < s2.len() && s2[a] == k;
                assert(s[a + 1] == k && s[0] < s[a + 1]);
                assert(s.contains(k));
                assert(t.contains(k));
                let b = choose|b: int| 0 <= b < t.len() && t[b] == k;
                assert(k != t[0]);
                assert(t2[b - 1] == k);
            }
            if t2.contains(k) {
                let a = choose|a: int| 0 <= a < t2.len() && t2[a] == k;
                assert(t[a + 1] == k && t[0] < t[a + 1]);
                assert(t.contains(k));
                assert(s.contains(k));
                let b = choose|b: int| 0 <= b < s.len() && s[b] == k;
                assert(k != s[0]);
                assert(s2[b - 1] == k);
            }
        }
        lemma_ascending_unique(s2, t2);
        assert(s =~= seq![s[0]] + s2);
        assert(t =~= seq![t[0]] + t2);
    }
}

/// Encodes a signature: the block size, the bucket count, then each bucket,
/// in ascending order of weak checksum, as its checksum, its record count and
/// its records, a record being a position and a 32-byte digest, all integers
/// in four little-endian bytes. Reading the bytes back gives the same block
/// size and table.
pub fn encode_signature(signature: &FileChunkSignature) -> (r: Vec<u8>)
    requires
        signature.checksum_map@.dom().len() < 0x1_0000_0000,
        forall|k: u32| #[trigger]
            signature.checksum_map@.contains_key(k) ==> signature.checksum_map@[k]@.len()
                < 0x1_0000_0000,
    ensures
        r@ == signature_bytes(signature.block_chunk_size, signature.table()),
        parse_signature(r@) == Some((signature.block_chunk_size, signature.table())),
{
    let m = &signature.checksum_map;
    let ghost t = signature.table();
    let ghost all = spec_hash_map_iter(m).remaining();
    proof {
        vstd::std_specs::hash::axiom_spec_hash_map_iter(m);
    }
    let mut keys: Vec<u32> = Vec::new();
    let it0 = m.iter();
    assert(it0.remaining().no_duplicates());
    for kv in iter: it0
        invariant
            iter.seq() == all,
            all.no_duplicates(),
            all.len() == m@.dom().len(),
            forall|i: int|
                #![trigger all[i]]
                0 <= i < all.len() ==> m@.contains_key(*all[i].0) && m@[*all[i].0] == *all[i].1,
            keys@.len() == iter.index(),
            ascending(keys@),
            forall|k: u32|
                #[trigger] keys@.contains(k) <==> exists|i: int|
                    0 <= i < iter.index() && *all[i].0 == k,
    {
        let (key, _) = kv;
        let ghost n = keys@.len() as int;
        assert(*all[n].0 == *key);
        assert(!keys@.contains(*key)) by {
            if keys@.contains(*key) {
                let i = choose|i: int| 0 <= i < n && *all[i].0 == *key;
                assert(m@.contains_key(*all[i].0) && m@[*all[i].0] == *all[i].1);
                assert(m@.contains_key(*all[n].0) && m@[*all[n].0] == *all[n].1);
                assert(all[i] == all[n]);
            }
        }
        let mut pos: usize = 0;
        while pos < keys.len() && keys[pos] < *key
            invariant
                0 <= pos <= keys@.len(),
                forall|i: int| 0 <= i < pos ==> keys@[i] < *key,
            decreases keys@.len() - pos,
        {
            pos = pos + 1;
        }
        let ghost before = keys@;
        keys.insert(pos, *key);
        proof {
            assert(keys@ == before.insert(pos as int, *key));
            assert forall|i: int, j: int| 0 <= i < j < keys@.len() implies keys@[i] < keys@[j] by {
                if pos < before.len() {
                    assert(before[pos as int] != *key) by {
                        assert(before.contains(before[pos as int]));
                    }
                    assert(before[pos as int] > *key);
                }
                if j == pos {
                    assert(keys@[i] == before[i]);
                } else if i == pos {
                    assert(keys@[j] == before[j - 1]);
                    assert(before[pos as int] <= before[j - 1]);
                } else {
                    assert(keys@[i] == if i < pos { before[i] } else { before[i - 1] });
                    assert(keys@[j] == if j < pos { before[j] } else { before[j - 1] });
                }
            }
            assert forall|k: u32| #[trigger] keys@.contains(k) <==> exists|i: int|
                0 <= i < n + 1 && *all[i].0 == k by {
                if keys@.contains(k) {
                    let a = choose|a: int| 0 <= a < keys@.len() && keys@[a] == k;
                    if a < pos {
                        assert(before[a] == k && before.contains(k));
                    } else if a > pos {
                        assert(before[a - 1] == k && before.contains(k));
                    }
                }
                if exists|i: int| 0 <= i < n + 1 && *all[i].0 == k {
                    let i = choose|i: int| 0 <= i < n + 1 && *all[i].0 == k;
                    if i < n {
                        assert(before.contains(k));
                        let a = choose|a: int| 0 <= a < before.len() && before[a] == k;
                        if a < pos {
                            assert(keys@[a] == k);
                        } else {
                            assert(keys@[a + 1] == k);
                        }
                    } else {
                        assert(keys@[pos as int] == k);
                    }
                }
            }
        }
    }
    proof {
        assert forall|k: u32| #[trigger] keys@.contains(k) <==> t.contains_key(k) by {
            if t.contains_key(k) {
                assert(all.contains((&k, &m@[k])));
                let i = choose|i: int| 0 <= i < all.len() && all[i] == (&k, &m@[k]);
                assert(*all[i].0 == k);
            }
        }
        lemma_ascending_unique(keys@, sorted_keys(t));
    }
    let ghost es = table_entries(t);
    let mut out: Vec<u8> = Vec::new();
    push32(&mut out, signature.block_chunk_size);
    push32(&mut out, keys.len() as u32);
    let ghost header = out@;
    assert(es.take(0) =~= Seq::<(u32, Bucket)>::empty());
    assert(out@ =~= header + buckets_enc(es.take(0)));
    let mut i: usize = 0;
    while i < keys.len()
        invariant
            keys@ == sorted_keys(t),
            es == table_entries(t),
            t == m@.map_values(|v: Vec<BlockChunkHashes>| bucket_view(v)),
            ascending(keys@),
            forall|k: u32| #[trigger] keys@.contains(k) <==> t.contains_key(k),
            0 <= i <= keys@.len(),
            out@ == header + buckets_enc(es.take(i as int)),
        decreases keys@.len() - i,
    {
        let key = keys[i];
        assert(keys@.contains(key));
        let ghost before = out@;
        match m.get(&key) {
            Some(bucket) => {
                push32(&mut out, key);
                push32(&mut out, bucket.len() as u32);
                let ghost start = out@;
                let mut j: usize = 0;
                while j < bucket.len()
                    invariant
                        0 <= j <= bucket@.len(),
                        out@ == start + recs_enc(bucket_view(*bucket).take(j as int)),
                    decreases bucket@.len() - j,
                {
                    let ghost mid = out@;
                    push32(&mut out, bucket[j].index);
                    push_bytes(&mut out, bucket[j].hash.as_slice());
                    proof {
                        let bv = bucket_view(*bucket);
                        assert(bv.take(j + 1).drop_last() =~= bv.take(j as int));
                        assert(bv.take(j + 1).last() == bucket@[j as int]@);
                        assert(out@ =~= mid + rec_enc(bucket@[j as int]@));
                    }
                    j = j + 1;
                }
                proof {
                    let x = (key, bucket_view(*bucket));
                    assert(bucket_view(*bucket).take(bucket@.len() as int) =~= bucket_view(*bucket));
                    assert(es[i as int] == x);
                    assert(es.take(i + 1).drop_last() =~= es.take(i as int));
                    assert(out@ =~= before + bucket_enc(x));
                    assert(out@ =~= header + buckets_enc(es.take(i + 1)));
                }
            },
            None => {
                assert(false);
            },
        }
        i = i + 1;
    }
    proof {
        assert(es.len() == keys@.len());
        assert forall|a: int| 0 <= a < es.len() implies #[trigger] es[a] == (keys@[a], t[keys@[a]]) by {
        }
        assert(es.take(keys@.len() as int) =~= es);
        assert(out@ =~= signature_bytes(signature.block_chunk_size, t));
        assert forall|a: int, b: int| 0 <= a < b < es.len() implies #[trigger] es[a].0
            != #[trigger] es[b].0 by {
            assert(keys@[a] < keys@[b]);
        }
        assert forall|a: int| 0 <= a < es.len() implies (#[trigger] es[a]).1.len()
            < 0x1_0000_0000 by {
            assert(keys@.contains(keys@[a]));
            assert(m@.contains_key(keys@[a]));
        }
        assert forall|a: int, b: int| 0 <= a < es.len() && 0 <= b < es[a].1.len() implies (
        #[trigger] es[a].1[b]).1.len() == 32 by {
            assert(keys@.contains(keys@[a]));
            assert(es[a].1[b] == m@[keys@[a]]@[b]@);
        }
        lemma_signature_round_trip(signature.block_chunk_size, es);
        assert forall|k: u32| #[trigger] map_of(es).contains_key(k) == t.contains_key(k) by {
            lemma_map_of_keys(es, k);
            if map_of(es).contains_key(k) {
                let a = choose|a: int| 0 <= a < es.len() && #[trigger] es[a].0 == k;
                assert(keys@[a] == k);
                assert(keys@.contains(k));
            }
            if t.contains_key(k) {
                assert(keys@.contains(k));
                let a = choose|a: int| 0 <= a < keys@.len() && keys@[a] == k;
                assert(es[a].0 == k);
            }
        }
        assert forall|k: u32| #[trigger] map_of(es).contains_key(k) implies map_of(es)[k] == t[k] by {
            lemma_map_of_keys(es, k);
            let a = choose|a: int| 0 <= a < es.len() && #[trigger] es[a].0 == k;
            lemma_map_of_value(es, a);
        }
        assert(map_of(es) =~= t);
    }
    out
}

/// Reads one record at `pos`.
fn read_record(s: &[u8], pos: usize) -> (r: BlockChunkHashes)
    requires
        pos + 36 <= s.len(),
    ensures
        r@ == rec_at(s@.skip(pos as int), 0),
{
    let index = read32(s, pos);
    let hash = digest_at(s, pos + 4);
    assert(s@.skip(pos as int).skip(0) =~= s@.skip(pos as int));
    assert(s@.skip(pos as int).subrange(4, 36) =~= s@.subrange(pos + 4, pos + 36));
    BlockChunkHashes { index, hash }
}

/// Decodes a signature; `None` where the bytes are not exactly one encoded
/// signature.
pub fn decode_signature(bytes: &[u8]) -> (r: Option<FileChunkSignature>)
    ensures
        match r {
            Some(sig) => parse_signature(bytes@) == Some((sig.block_chunk_size, sig.table())),
            None => parse_signature(bytes@) is None,
        },
{
    let ghost s = bytes@;
    let ghost s8 = s.skip(8);
    let len = bytes.len();
    if len < 8 {
        return None;
    }
    let block_size = read32(bytes, 0);
    let n = read32(bytes, 4);
    let mut map: HashMap<u32, Vec<BlockChunkHashes>> = HashMap::new();
    let mut pos: usize = 8;
    let mut k: u32 = 0;
    assert(map@.map_values(|v: Vec<BlockChunkHashes>| bucket_view(v)) =~= Map::empty());
    while k < n
        invariant
            s == bytes@,
            s8 == s.skip(8),
            len == s.len(),
            8 <= pos <= len,
            k <= n,
            n == get32(s.skip(4)),
            parse_prefix(s8, k as nat) == Some(
                (map@.map_values(|v: Vec<BlockChunkHashes>| bucket_view(v)), pos - 8),
            ),
        decreases n - k,
    {
        let ghost m = map@.map_values(|v: Vec<BlockChunkHashes>| bucket_view(v));
        let ghost off = pos - 8;
        if len - pos < 8 {
            proof {
                lemma_parse_prefix_none(s8, (k + 1) as nat, n as nat);
            }
            return None;
        }
        let key = read32(bytes, pos);
        let c = read32(bytes, pos + 4);
        assert(s8.skip(off) =~= s.skip(pos as int));
        assert(s8.skip(off + 4) =~= s.skip(pos + 4));
        if (c as usize) > (len - pos - 8) / 36 || map.contains_key(&key) {
            proof {
                lemma_parse_prefix_none(s8, (k + 1) as nat, n as nat);
            }
            return None;
        }
        let mut bucket: Vec<BlockChunkHashes> = Vec::new();
        let mut j: usize = 0;
        let ghost body = s.skip(pos + 8);
        while j < c as usize
            invariant
                s == bytes@,
                body == s.skip(pos + 8),
                pos + 8 + 36 * c <= len,
                len == s.len(),
                0 <= j <= c,
                bucket@.len() == j,
                bucket_view(bucket) == recs_of(body, j as nat),
            decreases c - j,
        {
            let rec = read_record(bytes, pos + 8 + 36 * j);
            let ghost x = body.skip(36 * j);
            assert(s.skip(pos + 8 + 36 * j) =~= x);
            assert(x.skip(0) =~= x);
            assert(x.subrange(4, 36) =~= body.subrange(36 * j + 4, 36 * j + 36));
            assert(rec@ == rec_at(body, j as int));
            let ghost before = bucket@;
            bucket.push(rec);
            assert forall|i: int| 0 <= i < j + 1 implies #[trigger] bucket_view(bucket)[i]
                == recs_of(body, (j + 1) as nat)[i] by {
                if i < j {
                    assert(bucket@[i] == before[i]);
                    assert(bucket_view(bucket)[i] == recs_of(body, j as nat)[i]);
                }
            }
            assert(bucket_view(bucket) =~= recs_of(body, (j + 1) as nat));
            j = j + 1;
        }
        assert(s8.skip(off + 8) =~= body);
        map.insert(key, bucket);
        assert(map@.map_values(|v: Vec<BlockChunkHashes>| bucket_view(v)) =~= m.insert(
            key,
            recs_of(body, c as nat),
        ));
        pos = pos + 8 + 36 * (c as usize);
        k = k + 1;
    }
    if pos != len {
        return None;
    }
    Some(FileChunkSignature { block_chunk_size: block_size, checksum_map: map })
}

} // verus!
