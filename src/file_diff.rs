//! The delta of a new file against the signature of an old one.
use vstd::prelude::*;
use vstd::slice::slice_subrange;
use crate::signature::{
    block_at, block_count, bucket_of, bucket_view, chunk_sha256_hash, covers, lemma_signature_coverage,
    sha256_of, signature_table, BlockChunkHashes, FileChunkSignature,
};
use crate::window_checksum::{
    appended, digest_of, empty_window, rolled, weak_hash, RollingWindow,
};

verus! {

/// One record of a delta: a block of the old file, or literal bytes.
#[derive(Debug, PartialEq, Eq)]
pub enum VerifyMatch {
    Match(u32),
    NoMatch(Vec<u8>),
}

/// A delta record as a plain value.
pub enum DeltaOp {
    Match(u32),
    Literal(Seq<u8>),
}

impl View for VerifyMatch {
    type V = DeltaOp;

    open spec fn view(&self) -> DeltaOp {
        match self {
            VerifyMatch::Match(i) => DeltaOp::Match(*i),
            VerifyMatch::NoMatch(v) => DeltaOp::Literal(v@),
        }
    }
}

/// A delta as plain values.
pub open spec fn delta_view(d: Seq<VerifyMatch>) -> Seq<DeltaOp> {
    d.map_values(|r: VerifyMatch| r@)
}

/// A signature's table as plain values: weak checksum to records.
pub type Table = Map<u32, Seq<(u32, Seq<u8>)>>;

/// The position of the first record of `bucket` whose digest is `strong`.
pub open spec fn first_match(bucket: Seq<(u32, Seq<u8>)>, strong: Seq<u8>) -> Option<u32>
    decreases bucket.len(),
{
    if bucket.len() == 0 {
        None
    } else if bucket[0].1 == strong {
        Some(bucket[0].0)
    } else {
        first_match(bucket.drop_first(), strong)
    }
}

/// The block that the table offers for a window with weak checksum `key`:
/// the first record under `key` whose digest is that of `w`.
pub open spec fn probe(t: Table, key: u32, w: Seq<u8>) -> Option<u32> {
    first_match(bucket_of(t, key), sha256_of(w))
}

/// The window of at most `bs` bytes of `b` that starts at `p`.
pub open spec fn window(b: Seq<u8>, bs: int, p: int) -> Seq<u8> {
    if p + bs <= b.len() {
        b.subrange(p, p + bs)
    } else {
        b.subrange(p, b.len() as int)
    }
}

/// What the scan of `b` emits from offset `p` on. With `mode` absent the scan
/// probes the aligned window at `p`; with `mode` holding a checksum state and
/// the literal bytes gathered so far, it is rolling byte by byte.
#[verifier::opaque]
pub open spec fn scan(b: Seq<u8>, t: Table, bs: int, p: int, mode: Option<(RollingWindow, Seq<u8>)>) -> Seq<DeltaOp>
    decreases (b.len() - p) * 2 + (if mode is None { 1int } else { 0int }),
{
    if p < 0 || p > b.len() || bs <= 0 {
        Seq::empty()
    } else {
        match mode {
            None => {
                let w = window(b, bs, p);
                if w.len() == 0 {
                    Seq::empty()
                } else {
                    match probe(t, weak_hash(w), w) {
                        Some(i) => seq![DeltaOp::Match(i)] + (if w.len() < bs {
                            Seq::empty()
                        } else {
                            scan(b, t, bs, p + w.len(), None)
                        }),
                        None => scan(b, t, bs, p, Some((appended(empty_window(), w), Seq::empty()))),
                    }
                }
            },
            Some((st, lit)) => {
                if p == b.len() {
                    if lit.len() > 0 {
                        seq![DeltaOp::Literal(lit)]
                    } else {
                        Seq::empty()
                    }
                } else {
                    let prev = b[p];
                    let next = if p + bs < b.len() {
                        Some(b[p + bs])
                    } else {
                        None
                    };
                    let lit2 = lit.push(prev);
                    let st2 = rolled(st, prev, next);
                    let w2 = window(b, bs, p + 1);
                    match probe(t, digest_of(st2), w2) {
                        Some(i) => seq![DeltaOp::Literal(lit2), DeltaOp::Match(i)] + scan(
                            b,
                            t,
                            bs,
                            p + 1 + w2.len(),
                            None,
                        ),
                        None => scan(b, t, bs, p + 1, Some((st2, lit2))),
                    }
                }
            },
        }
    }
}

/// The aligned probe: an empty window ends the scan; a window that a block
/// matches gives that block, and the scan goes on after the window unless it
/// was short; otherwise rolling starts from the window's own checksum.
pub proof fn lemma_scan_aligned(b: Seq<u8>, t: Table, bs: int, p: int)
    requires
        0 <= p <= b.len(),
        bs > 0,
    ensures
        ({
            let w = window(b, bs, p);
            scan(b, t, bs, p, None) == if w.len() == 0 {
                Seq::empty()
            } else {
                match probe(t, weak_hash(w), w) {
                    Some(i) => seq![DeltaOp::Match(i)] + (if w.len() < bs {
                        Seq::empty()
                    } else {
                        scan(b, t, bs, p + w.len(), None)
                    }),
                    None => scan(b, t, bs, p, Some((appended(empty_window(), w), Seq::empty()))),
                }
            }
        }),
{
    reveal(scan);
}

/// The rolling search: at the end of the input the gathered literal bytes
/// are emitted; before it, one byte more is taken into the literal, the
/// checksum is rolled, and the shifted window is probed with its digest.
pub proof fn lemma_scan_rolling(b: Seq<u8>, t: Table, bs: int, p: int, st: RollingWindow, lit: Seq<u8>)
    requires
        0 <= p <= b.len(),
        bs > 0,
    ensures
        p == b.len() ==> scan(b, t, bs, p, Some((st, lit))) == if lit.len() > 0 {
            seq![DeltaOp::Literal(lit)]
        } else {
            Seq::empty()
        },
        p < b.len() ==> ({
            let prev = b[p];
            let next = if p + bs < b.len() {
                Some(b[p + bs])
            } else {
                None
            };
            let lit2 = lit.push(prev);
            let st2 = rolled(st, prev, next);
            let w2 = window(b, bs, p + 1);
            scan(b, t, bs, p, Some((st, lit))) == match probe(t, digest_of(st2), w2) {
                Some(i) => seq![DeltaOp::Literal(lit2), DeltaOp::Match(i)] + scan(
                    b,
                    t,
                    bs,
                    p + 1 + w2.len(),
                    None,
                ),
                None => scan(b, t, bs, p + 1, Some((st2, lit2))),
            }
        }),
{
    reveal(scan);
}

/// The delta of `b` against a signature with table `t` and block size `bs`.
pub open spec fn diff_of(b: Seq<u8>, t: Table, bs: int) -> Seq<DeltaOp> {
    scan(b, t, bs, 0, None)
}

/// The bytes a delta stands for: each block reference expanded to that block
/// of `a`, each literal to its bytes.
pub open spec fn expand(d: Seq<DeltaOp>, a: Seq<u8>, bs: int) -> Seq<u8>
    decreases d.len(),
{
    if d.len() == 0 {
        Seq::empty()
    } else {
        op_bytes(d[0], a, bs) + expand(d.drop_first(), a, bs)
    }
}

/// The bytes one record stands for.
pub open spec fn op_bytes(op: DeltaOp, a: Seq<u8>, bs: int) -> Seq<u8> {
    match op {
        DeltaOp::Match(i) => block_at(a, bs, i as int),
        DeltaOp::Literal(l) => l,
    }
}

proof fn lemma_expand_single(op: DeltaOp, a: Seq<u8>, bs: int)
    ensures
        expand(seq![op], a, bs) == op_bytes(op, a, bs),
{
    assert(seq![op].drop_first() =~= Seq::<DeltaOp>::empty());
    assert(seq![op][0] == op);
    assert(expand(Seq::<DeltaOp>::empty(), a, bs) == Seq::<u8>::empty());
    assert(expand(seq![op], a, bs) == op_bytes(op, a, bs) + expand(seq![op].drop_first(), a, bs));
    assert(op_bytes(op, a, bs) + Seq::<u8>::empty() =~= op_bytes(op, a, bs));
}

proof fn lemma_expand_concat(x: Seq<DeltaOp>, y: Seq<DeltaOp>, a: Seq<u8>, bs: int)
    ensures
        expand(x + y, a, bs) == expand(x, a, bs) + expand(y, a, bs),
    decreases x.len(),
{
    if x.len() == 0 {
        assert(x + y =~= y);
        assert(Seq::<u8>::empty() + expand(y, a, bs) =~= expand(y, a, bs));
    } else {
        assert((x + y).drop_first() =~= x.drop_first() + y);
        lemma_expand_concat(x.drop_first(), y, a, bs);
        assert((x + y)[0] == x[0]);
        let head = op_bytes(x[0], a, bs);
        assert(head + (expand(x.drop_first(), a, bs) + expand(y, a, bs)) =~= (head + expand(
            x.drop_first(),
            a,
            bs,
        )) + expand(y, a, bs));
    }
}

proof fn lemma_first_match_found(bucket: Seq<(u32, Seq<u8>)>, strong: Seq<u8>, i: u32) -> (j: int)
    requires
        first_match(bucket, strong) == Some(i),
    ensures
        0 <= j < bucket.len(),
        bucket[j] == (i, strong),
    decreases bucket.len(),
{
    if bucket[0].1 == strong {
        0
    } else {
        let j = lemma_first_match_found(bucket.drop_first(), strong, i);
        j + 1
    }
}

/// No window of `b` has the digest of a block of `a` unless it is that block.
pub open spec fn digests_distinguish(a: Seq<u8>, b: Seq<u8>, bs: int) -> bool {
    forall|i: int, s: int, e: int|
        #![trigger block_at(a, bs, i), b.subrange(s, e)]
        0 <= i < block_count(a.len() as int, bs) && 0 <= s <= e <= b.len() && sha256_of(
            b.subrange(s, e),
        ) == sha256_of(block_at(a, bs, i)) ==> b.subrange(s, e) == block_at(a, bs, i)
}

/// A block that the signature of `a` offers for a window of `b` is that window.
proof fn lemma_probe_sound(a: Seq<u8>, b: Seq<u8>, bs: int, key: u32, s: int, e: int, i: u32)
    requires
        bs > 0,
        block_count(a.len() as int, bs) <= 0x1_0000_0000,
        digests_distinguish(a, b, bs),
        0 <= s <= e <= b.len(),
        probe(signature_table(a, bs), key, b.subrange(s, e)) == Some(i),
    ensures
        block_at(a, bs, i as int) == b.subrange(s, e),
{
    let t = signature_table(a, bs);
    lemma_signature_coverage(a, bs);
    let j = lemma_first_match_found(bucket_of(t, key), sha256_of(b.subrange(s, e)), i);
    assert(t.contains_key(key));
    assert(t[key][j].0 == i);
    let _ = block_at(a, bs, i as int);
    assert(sha256_of(b.subrange(s, e)) == sha256_of(block_at(a, bs, i as int)));
}

proof fn lemma_scan_expands(
    a: Seq<u8>,
    b: Seq<u8>,
    bs: int,
    p: int,
    mode: Option<(RollingWindow, Seq<u8>)>,
)
    requires
        bs > 0,
        block_count(a.len() as int, bs) <= 0x1_0000_0000,
        digests_distinguish(a, b, bs),
        0 <= p <= b.len(),
    ensures
        expand(scan(b, signature_table(a, bs), bs, p, mode), a, bs) == match mode {
            None => b.subrange(p, b.len() as int),
            Some((st, lit)) => lit + b.subrange(p, b.len() as int),
        },
    decreases (b.len() - p) * 2 + (if mode is None {
        1int
    } else {
        0int
    }),
{
    let t = signature_table(a, bs);
    let rest = b.subrange(p, b.len() as int);
    match mode {
        None => {
            lemma_scan_aligned(b, t, bs, p);
            let w = window(b, bs, p);
            if w.len() == 0 {
                assert(rest =~= Seq::<u8>::empty());
            } else {
                match probe(t, weak_hash(w), w) {
                    Some(i) => {
                        lemma_probe_sound(a, b, bs, weak_hash(w), p, p + w.len(), i);
                        let tail = if w.len() < bs {
                            Seq::empty()
                        } else {
                            scan(b, t, bs, p + w.len(), None)
                        };
                        lemma_expand_concat(seq![DeltaOp::Match(i)], tail, a, bs);
                        lemma_expand_single(DeltaOp::Match(i), a, bs);
                        if w.len() < bs {
                            assert(rest =~= w);
                        } else {
                            lemma_scan_expands(a, b, bs, p + w.len(), None);
                            assert(rest =~= w + b.subrange(p + w.len(), b.len() as int));
                        }
                    },
                    None => {
                        lemma_scan_expands(
                            a,
                            b,
                            bs,
                            p,
                            Some((appended(empty_window(), w), Seq::empty())),
                        );
                        assert(Seq::<u8>::empty() + rest =~= rest);
                    },
                }
            }
        },
        Some((st, lit)) => {
            lemma_scan_rolling(b, t, bs, p, st, lit);
            if p == b.len() {
                assert(rest =~= Seq::<u8>::empty());
                assert(lit + rest =~= lit);
                if lit.len() > 0 {
                    lemma_expand_single(DeltaOp::Literal(lit), a, bs);
                }
            } else {
                let prev = b[p];
                let next = if p + bs < b.len() {
                    Some(b[p + bs])
                } else {
                    None
                };
                let lit2 = lit.push(prev);
                let st2 = rolled(st, prev, next);
                let w2 = window(b, bs, p + 1);
                assert(lit2 + b.subrange(p + 1, b.len() as int) =~= lit + rest);
                match probe(t, digest_of(st2), w2) {
                    Some(i) => {
                        lemma_probe_sound(a, b, bs, digest_of(st2), p + 1, p + 1 + w2.len(), i);
                        let head = seq![DeltaOp::Literal(lit2), DeltaOp::Match(i)];
                        let tail = scan(b, t, bs, p + 1 + w2.len(), None);
                        lemma_expand_concat(head, tail, a, bs);
                        assert(head.drop_first() =~= seq![DeltaOp::Match(i)]);
                        lemma_expand_single(DeltaOp::Match(i), a, bs);
                        assert(head[0] == DeltaOp::Literal(lit2));
                        assert(expand(head, a, bs) =~= lit2 + w2);
                        lemma_scan_expands(a, b, bs, p + 1 + w2.len(), None);
                        assert(lit2 + w2 + b.subrange(p + 1 + w2.len(), b.len() as int)
                            =~= lit + rest);
                    },
                    None => {
                        lemma_scan_expands(a, b, bs, p + 1, Some((st2, lit2)));
                    },
                }
            }
        },
    }
}

/// Expanding the delta of `b`, made against the signature of `a`, block
/// by block against `a` gives `b` back, as long as no window of `b` shares
/// its SHA-256 digest with a different block of `a`.
pub proof fn lemma_delta_soundness(a: Seq<u8>, b: Seq<u8>, bs: int)
    requires
        bs > 0,
        block_count(a.len() as int, bs) <= 0x1_0000_0000,
        digests_distinguish(a, b, bs),
    ensures
        expand(diff_of(b, signature_table(a, bs), bs), a, bs) == b,
{
    lemma_scan_expands(a, b, bs, 0, None);
    assert(b.subrange(0, b.len() as int) =~= b);
}

/// The block references `i`, `i + 1`, ..., `k - 1`, in that order.
pub open spec fn match_run(i: int, k: int) -> Seq<DeltaOp> {
    Seq::new((k - i) as nat, |j: int| DeltaOp::Match((i + j) as u32))
}

/// No two blocks of `a` share a SHA-256 digest.
pub open spec fn distinct_blocks(a: Seq<u8>, bs: int) -> bool {
    forall|i: int, j: int|
        0 <= i < j < block_count(a.len() as int, bs) ==> sha256_of(#[trigger] block_at(a, bs, i))
            != sha256_of(#[trigger] block_at(a, bs, j))
}

/// Searching blocks `i`, `i + 1`, ... below `j` of `a` for the first one
/// equal to block `j`; block `j` itself where none is.
pub open spec fn first_equal_from(a: Seq<u8>, bs: int, j: int, i: int) -> int
    decreases j - i,
{
    if i >= j {
        j
    } else if block_at(a, bs, i) == block_at(a, bs, j) {
        i
    } else {
        first_equal_from(a, bs, j, i + 1)
    }
}

/// The first block of `a` equal to block `j`.
pub open spec fn first_equal(a: Seq<u8>, bs: int, j: int) -> int {
    first_equal_from(a, bs, j, 0)
}

/// For blocks `i` to `k - 1` of `a`, a reference to the first equal block.
pub open spec fn equal_run(a: Seq<u8>, bs: int, i: int, k: int) -> Seq<DeltaOp> {
    Seq::new((k - i) as nat, |j: int| DeltaOp::Match(first_equal(a, bs, i + j) as u32))
}

/// Blocks of `a` with the same SHA-256 digest are equal.
pub open spec fn digests_separate(a: Seq<u8>, bs: int) -> bool {
    forall|i: int, j: int|
        0 <= i < block_count(a.len() as int, bs) && 0 <= j < block_count(a.len() as int, bs)
            && sha256_of(#[trigger] block_at(a, bs, i)) == sha256_of(#[trigger] block_at(a, bs, j))
            ==> block_at(a, bs, i) == block_at(a, bs, j)
}

proof fn lemma_first_equal_from(a: Seq<u8>, bs: int, j: int, i: int)
    requires
        0 <= i <= j,
    ensures
        i <= first_equal_from(a, bs, j, i) <= j,
        block_at(a, bs, first_equal_from(a, bs, j, i)) == block_at(a, bs, j),
        forall|q: int| i <= q < first_equal_from(a, bs, j, i) ==> block_at(a, bs, q) != block_at(a, bs, j),
    decreases j - i,
{
    if i < j && block_at(a, bs, i) != block_at(a, bs, j) {
        lemma_first_equal_from(a, bs, j, i + 1);
    }
}

proof fn lemma_first_match_at(bucket: Seq<(u32, Seq<u8>)>, strong: Seq<u8>, p: int)
    requires
        0 <= p < bucket.len(),
        bucket[p].1 == strong,
        forall|q: int| 0 <= q < p ==> (#[trigger] bucket[q]).1 != strong,
    ensures
        first_match(bucket, strong) == Some(bucket[p].0),
    decreases p,
{
    if p > 0 {
        let tail = bucket.drop_first();
        assert(bucket[0].1 != strong);
        assert forall|q: int| 0 <= q < p - 1 implies (#[trigger] tail[q]).1 != strong by {
            assert(tail[q] == bucket[q + 1]);
        }
        lemma_first_match_at(tail, strong, p - 1);
    }
}

/// The signature of `a` offers, for block `j`, the first block equal to it.
proof fn lemma_probe_first_equal(a: Seq<u8>, bs: int, j: int)
    requires
        bs > 0,
        block_count(a.len() as int, bs) <= 0x1_0000_0000,
        digests_separate(a, bs),
        0 <= j < block_count(a.len() as int, bs),
    ensures
        probe(signature_table(a, bs), weak_hash(block_at(a, bs, j)), block_at(a, bs, j)) == Some(
            first_equal(a, bs, j) as u32,
        ),
{
    let t = signature_table(a, bs);
    let blk = block_at(a, bs, j);
    let f = first_equal(a, bs, j);
    lemma_first_equal_from(a, bs, j, 0);
    let key = weak_hash(blk);
    lemma_signature_coverage(a, bs);
    let _ = block_at(a, bs, f);
    assert(t.contains_key(key));
    let bucket = t[key];
    assert(bucket_of(t, key) == bucket);
    assert(bucket.contains((f as u32, sha256_of(blk))));
    let p = choose|p: int| 0 <= p < bucket.len() && bucket[p] == (f as u32, sha256_of(blk));
    assert forall|q: int| 0 <= q < p implies (#[trigger] bucket[q]).1 != sha256_of(blk) by {
        assert(t[key][q] == bucket[q] && t[key][p] == bucket[p]);
        assert(bucket[q].0 < bucket[p].0);
        let x = bucket[q].0 as int;
        assert(bucket[q].1 == sha256_of(block_at(a, bs, x)));
        if bucket[q].1 == sha256_of(blk) {
            assert(block_at(a, bs, x) == blk);
        }
    }
    lemma_first_match_at(bucket, sha256_of(blk), p);
}

/// Where no two blocks share a digest, every block is its own first equal
/// block, and digests tell blocks apart.
proof fn lemma_distinct_run(a: Seq<u8>, bs: int, i: int, k: int)
    requires
        distinct_blocks(a, bs),
        k == block_count(a.len() as int, bs),
        0 <= i <= k,
    ensures
        digests_separate(a, bs),
        equal_run(a, bs, i, k) == match_run(i, k),
{
    assert forall|x: int, y: int|
        0 <= x < k && 0 <= y < k && sha256_of(#[trigger] block_at(a, bs, x)) == sha256_of(
            #[trigger] block_at(a, bs, y),
        ) implies block_at(a, bs, x) == block_at(a, bs, y) by {
        if x < y {
            assert(sha256_of(block_at(a, bs, x)) != sha256_of(block_at(a, bs, y)));
        } else if y < x {
            assert(sha256_of(block_at(a, bs, y)) != sha256_of(block_at(a, bs, x)));
        }
    }
    assert forall|q: int| 0 <= q < k - i implies #[trigger] equal_run(a, bs, i, k)[q]
        == match_run(i, k)[q] by {
        let j = i + q;
        lemma_first_equal_from(a, bs, j, 0);
        let f = first_equal(a, bs, j);
        if f < j {
            assert(sha256_of(block_at(a, bs, f)) != sha256_of(block_at(a, bs, j)));
        }
    }
    assert(equal_run(a, bs, i, k) =~= match_run(i, k));
}

proof fn lemma_block_bounds(len: int, bs: int, i: int)
    requires
        bs > 0,
        0 <= i < block_count(len, bs),
    ensures
        i * bs < len,
        i + 1 < block_count(len, bs) ==> (i + 1) * bs < len,
        len % bs == 0 ==> (i + 1) * bs <= len && block_count(len, bs) * bs == len,
        len % bs != 0 && i + 1 == block_count(len, bs) ==> len < (i + 1) * bs,
{
    let k = block_count(len, bs);
    assert(bs * k <= len + bs - 1 < bs * (k + 1)) by (nonlinear_arith)
        requires
            bs > 0,
            k == (len + bs - 1) / bs,
    ;
    assert(i * bs < len) by (nonlinear_arith)
        requires
            bs > 0,
            0 <= i < k,
            bs * k <= len + bs - 1,
    ;
    if i + 1 < k {
        assert((i + 1) * bs < len) by (nonlinear_arith)
            requires
                bs > 0,
                i + 2 <= k,
                bs * k <= len + bs - 1,
        ;
    }
    if len % bs == 0 {
        let q = len / bs;
        assert(len == bs * q) by (nonlinear_arith)
            requires
                bs > 0,
                len % bs == 0,
                q == len / bs,
        ;
        assert(k == q) by (nonlinear_arith)
            requires
                bs > 0,
                len == bs * q,
                bs * k <= len + bs - 1 < bs * (k + 1),
        ;
        assert((i + 1) * bs <= len) by (nonlinear_arith)
            requires
                bs > 0,
                i + 1 <= k,
                len == bs * k,
        ;
    } else if i + 1 == k {
        let q = len / bs;
        let r = len % bs;
        assert(len == bs * q + r) by (nonlinear_arith)
            requires
                bs > 0,
                q == len / bs,
                r == len % bs,
        ;
        assert(0 < r < bs);
        assert(len < (i + 1) * bs) by (nonlinear_arith)
            requires
                bs > 0,
                i + 1 == k,
                len == bs * q + r,
                0 < r < bs,
                bs * k <= len + bs - 1,
                len + bs - 1 < bs * (k + 1),
        ;
    }
}

/// Scanning a file that starts with `a`, from the start of block `i` of `a`,
/// references, for each remaining block of `a` in turn, the first block equal
/// to it; what follows depends only on
/// the bytes after `a`, and nothing does when `a` ends in a short block.
proof fn lemma_scan_own_blocks(a: Seq<u8>, b: Seq<u8>, bs: int, i: int)
    requires
        bs > 0,
        block_count(a.len() as int, bs) <= 0x1_0000_0000,
        digests_separate(a, bs),
        a.len() <= b.len(),
        b.take(a.len() as int) == a,
        (a.len() as int) % bs != 0 ==> b == a,
        0 <= i <= block_count(a.len() as int, bs),
        i < block_count(a.len() as int, bs) || (a.len() as int) % bs == 0,
    ensures
        scan(b, signature_table(a, bs), bs, i * bs, None) == equal_run(
            a,
            bs,
            i,
            block_count(a.len() as int, bs),
        ) + if (a.len() as int) % bs == 0 {
            scan(b, signature_table(a, bs), bs, a.len() as int, None)
        } else {
            Seq::empty()
        },
    decreases block_count(a.len() as int, bs) - i,
{
    let t = signature_table(a, bs);
    let k = block_count(a.len() as int, bs);
    let len = a.len() as int;
    if i == k {
        if k == 0 {
            assert(len == 0) by (nonlinear_arith)
                requires
                    bs > 0,
                    k == (len + bs - 1) / bs,
                    k == 0,
                    len >= 0,
            ;
        }
        assert(k * bs == len) by {
            if k > 0 {
                lemma_block_bounds(len, bs, k - 1);
            } else {
                assert(k * bs == 0) by (nonlinear_arith)
                    requires
                        k == 0,
                ;
            }
        }
        assert(equal_run(a, bs, i, k) =~= Seq::<DeltaOp>::empty());
        assert(equal_run(a, bs, i, k) + scan(b, t, bs, len, None) =~= scan(b, t, bs, len, None));
    } else {
        lemma_block_bounds(len, bs, i);
        let p = i * bs;
        assert((i + 1) * bs == p + bs) by (nonlinear_arith)
            requires
                p == i * bs,
        ;
        let w = window(b, bs, p);
        let blk = block_at(a, bs, i);
        assert(w =~= blk);
        lemma_probe_first_equal(a, bs, i);
        lemma_scan_aligned(b, t, bs, p);
        let rest = if len % bs == 0 {
            scan(b, t, bs, len, None)
        } else {
            Seq::empty()
        };
        if w.len() < bs {
            assert(len % bs != 0);
            assert(i + 1 == k);
            assert(equal_run(a, bs, i, k) =~= seq![DeltaOp::Match(first_equal(a, bs, i) as u32)]);
            assert(seq![DeltaOp::Match(first_equal(a, bs, i) as u32)] + Seq::<DeltaOp>::empty() =~= equal_run(a, bs, i, k) + rest);
        } else {
            lemma_scan_own_blocks(a, b, bs, i + 1);
            assert(seq![DeltaOp::Match(first_equal(a, bs, i) as u32)] + (equal_run(a, bs, i + 1, k) + rest) =~= equal_run(a, bs, i, k)
                + rest);
        }
    }
}

/// A file compared with its own signature gives only block references, one
/// per block and in order, each to the first block equal to it, as long as
/// blocks with the same SHA-256 digest are equal.
pub proof fn lemma_identity_first_equal(a: Seq<u8>, bs: int)
    requires
        bs > 0,
        block_count(a.len() as int, bs) <= 0x1_0000_0000,
        digests_separate(a, bs),
    ensures
        diff_of(a, signature_table(a, bs), bs) == equal_run(a, bs, 0, block_count(a.len() as int, bs)),
{
    let t = signature_table(a, bs);
    let k = block_count(a.len() as int, bs);
    assert(a.take(a.len() as int) =~= a);
    assert(k >= 0) by (nonlinear_arith)
        requires
            bs > 0,
            k == (a.len() + bs - 1) / bs,
    ;
    if k == 0 {
        assert(a.len() == 0) by (nonlinear_arith)
            requires
                bs > 0,
                k == (a.len() + bs - 1) / bs,
                k == 0,
        ;
        assert((a.len() as int) % bs == 0);
    }
    lemma_scan_own_blocks(a, a, bs, 0);
    assert(0 * bs == 0);
    if (a.len() as int) % bs == 0 {
        lemma_scan_aligned(a, t, bs, a.len() as int);
        assert(window(a, bs, a.len() as int).len() == 0);
    }
    assert(equal_run(a, bs, 0, k) + Seq::<DeltaOp>::empty() =~= equal_run(a, bs, 0, k));
}

/// A file compared with its own signature gives only block references, one
/// per block and in ascending order, as long as no two blocks are equal
/// (equal blocks share a record, and the first of them is referenced).
pub proof fn lemma_identity(a: Seq<u8>, bs: int)
    requires
        bs > 0,
        block_count(a.len() as int, bs) <= 0x1_0000_0000,
        distinct_blocks(a, bs),
    ensures
        diff_of(a, signature_table(a, bs), bs) == match_run(0, block_count(a.len() as int, bs)),
{
    let k = block_count(a.len() as int, bs);
    assert(k >= 0) by (nonlinear_arith)
        requires
            bs > 0,
            k == (a.len() + bs - 1) / bs,
    ;
    lemma_distinct_run(a, bs, 0, k);
    lemma_identity_first_equal(a, bs);
}

proof fn lemma_first_match_none(bucket: Seq<(u32, Seq<u8>)>, strong: Seq<u8>)
    requires
        forall|j: int| 0 <= j < bucket.len() ==> (#[trigger] bucket[j]).1 != strong,
    ensures
        first_match(bucket, strong) is None,
    decreases bucket.len(),
{
    if bucket.len() > 0 {
        assert forall|j: int| 0 <= j < bucket.drop_first().len() implies (
        #[trigger] bucket.drop_first()[j]).1 != strong by {
            assert(bucket.drop_first()[j] == bucket[j + 1]);
        }
        lemma_first_match_none(bucket.drop_first(), strong);
    }
}

/// No window of `b` from offset `from` on has the digest of a block of `a`.
pub open spec fn unmatched_from(a: Seq<u8>, b: Seq<u8>, bs: int, from: int) -> bool {
    forall|i: int, s: int, e: int|
        #![trigger block_at(a, bs, i), b.subrange(s, e)]
        0 <= i < block_count(a.len() as int, bs) && from <= s <= e <= b.len() ==> sha256_of(
            b.subrange(s, e),
        ) != sha256_of(block_at(a, bs, i))
}

proof fn lemma_probe_misses(a: Seq<u8>, b: Seq<u8>, bs: int, from: int, key: u32, s: int, e: int)
    requires
        bs > 0,
        block_count(a.len() as int, bs) <= 0x1_0000_0000,
        unmatched_from(a, b, bs, from),
        0 <= from <= s <= e <= b.len(),
    ensures
        probe(signature_table(a, bs), key, b.subrange(s, e)) is None,
{
    let t = signature_table(a, bs);
    lemma_signature_coverage(a, bs);
    let bucket = bucket_of(t, key);
    assert forall|j: int| 0 <= j < bucket.len() implies (#[trigger] bucket[j]).1 != sha256_of(
        b.subrange(s, e),
    ) by {
        assert(t[key][j] == bucket[j]);
        let x = bucket[j].0 as int;
        assert(bucket[j].1 == sha256_of(block_at(a, bs, x)));
    }
    lemma_first_match_none(bucket, sha256_of(b.subrange(s, e)));
}

proof fn lemma_rolling_misses(
    a: Seq<u8>,
    b: Seq<u8>,
    bs: int,
    from: int,
    p: int,
    st: RollingWindow,
    lit: Seq<u8>,
)
    requires
        bs > 0,
        block_count(a.len() as int, bs) <= 0x1_0000_0000,
        unmatched_from(a, b, bs, from),
        0 <= from <= p <= b.len(),
    ensures
        scan(b, signature_table(a, bs), bs, p, Some((st, lit))) == if lit.len() + b.len() - p > 0 {
            seq![DeltaOp::Literal(lit + b.subrange(p, b.len() as int))]
        } else {
            Seq::empty()
        },
    decreases b.len() - p,
{
    let t = signature_table(a, bs);
    lemma_scan_rolling(b, t, bs, p, st, lit);
    if p == b.len() {
        assert(lit + b.subrange(p, b.len() as int) =~= lit);
    } else {
        let prev = b[p];
        let next = if p + bs < b.len() {
            Some(b[p + bs])
        } else {
            None
        };
        let st2 = rolled(st, prev, next);
        let w2 = window(b, bs, p + 1);
        let e = if p + 1 + bs <= b.len() {
            p + 1 + bs
        } else {
            b.len() as int
        };
        assert(w2 == b.subrange(p + 1, e));
        lemma_probe_misses(a, b, bs, from, digest_of(st2), p + 1, e);
        lemma_rolling_misses(a, b, bs, from, p + 1, st2, lit.push(prev));
        assert(lit.push(prev) + b.subrange(p + 1, b.len() as int) =~= lit + b.subrange(
            p,
            b.len() as int,
        ));
    }
}

/// Appending bytes to a file whose length is a multiple of the block size
/// gives a delta of every block of the file in order, then the appended
/// bytes as one literal, as long as no two blocks are equal and no window
/// within the appended part has the digest of a block.
pub proof fn lemma_append(a: Seq<u8>, x: Seq<u8>, bs: int)
    requires
        bs > 0,
        block_count(a.len() as int, bs) <= 0x1_0000_0000,
        distinct_blocks(a, bs),
        (a.len() as int) % bs == 0,
        x.len() > 0,
        unmatched_from(a, a + x, bs, a.len() as int),
    ensures
        diff_of(a + x, signature_table(a, bs), bs) == match_run(
            0,
            block_count(a.len() as int, bs),
        ).push(DeltaOp::Literal(x)),
{
    let b = a + x;
    let t = signature_table(a, bs);
    let k = block_count(a.len() as int, bs);
    let len = a.len() as int;
    assert(b.take(len) =~= a);
    assert(k >= 0) by (nonlinear_arith)
        requires
            bs > 0,
            k == (len + bs - 1) / bs,
            len >= 0,
    ;
    lemma_distinct_run(a, bs, 0, k);
    lemma_scan_own_blocks(a, b, bs, 0);
    assert(0 * bs == 0);
    lemma_scan_aligned(b, t, bs, len);
    let w = window(b, bs, len);
    let e = if len + bs <= b.len() {
        len + bs
    } else {
        b.len() as int
    };
    assert(w == b.subrange(len, e));
    lemma_probe_misses(a, b, bs, len, weak_hash(w), len, e);
    lemma_rolling_misses(a, b, bs, len, len, appended(empty_window(), w), Seq::empty());
    assert(Seq::<u8>::empty() + b.subrange(len, b.len() as int) =~= x);
    assert(match_run(0, k) + seq![DeltaOp::Literal(x)] =~= match_run(0, k).push(DeltaOp::Literal(x)));
}

fn same_digest(x: &[u8; 32], y: &[u8; 32]) -> (r: bool)
    ensures
        r == (x@ == y@),
{
    let mut i: usize = 0;
    while i < 32
        invariant
            0 <= i <= 32,
            x@.len() == 32 && y@.len() == 32,
            forall|j: int| 0 <= j < i ==> x@[j] == y@[j],
        decreases 32 - i,
    {
        if x[i] != y[i] {
            return false;
        }
        i = i + 1;
    }
    assert(x@ =~= y@);
    true
}

/// The first record of `hashes` whose digest is `digest`, if there is one.
pub fn first_with_digest<'a>(hashes: &'a Vec<BlockChunkHashes>, digest: &[u8; 32]) -> (r: Option<
    &'a BlockChunkHashes,
>)
    ensures
        match r {
            Some(h) => first_match(bucket_view(*hashes), digest@) == Some(h.index) && h.hash@
                == digest@,
            None => first_match(bucket_view(*hashes), digest@) is None,
        },
{
    let ghost bucket = bucket_view(*hashes);
    let mut j: usize = 0;
    assert(bucket.skip(0) =~= bucket);
    while j < hashes.len()
        invariant
            bucket == bucket_view(*hashes),
            0 <= j <= hashes.len(),
            first_match(bucket, digest@) == first_match(bucket.skip(j as int), digest@),
        decreases hashes.len() - j,
    {
        assert(bucket.skip(j as int)[0] == hashes[j as int]@);
        assert(bucket.skip(j as int).drop_first() =~= bucket.skip(j + 1));
        if same_digest(&hashes[j].hash, digest) {
            assert(first_match(bucket.skip(j as int), digest@) == Some(hashes[j as int].index));
            return Some(&hashes[j]);
        }
        j = j + 1;
    }
    assert(bucket.skip(j as int) =~= Seq::empty());
    None
}

/// The first record under weak checksum `index_hash` whose digest is that of
/// `chunk`, if there is one.
fn match_index_and_checksum<'a>(
    signature: &'a FileChunkSignature,
    index_hash: u32,
    chunk: &[u8],
) -> (r: Option<&'a BlockChunkHashes>)
    ensures
        match r {
            Some(h) => probe(signature.table(), index_hash, chunk@) == Some(h.index) && h.hash@
                == sha256_of(chunk@),
            None => probe(signature.table(), index_hash, chunk@) is None,
        },
{
    let ghost t = signature.table();
    match signature.block_chunk_hashes(&index_hash) {
        None => {
            assert(bucket_of(t, index_hash) =~= Seq::empty());
            None
        },
        Some(hashes) => {
            let sha256_checksum_hash = chunk_sha256_hash(chunk);
            assert(bucket_of(t, index_hash) =~= bucket_view(*hashes));
            first_with_digest(hashes, &sha256_checksum_hash)
        },
    }
}

/// Produces the delta of `new_file_buffer` against `signature`, scanning
/// with windows of `chunk_size` bytes; the buffer is left as it was.
pub fn generate_diff(
    new_file_buffer: &mut Vec<u8>,
    signature: &FileChunkSignature,
    chunk_size: usize,
) -> (r: Vec<VerifyMatch>)
    requires
        chunk_size > 0,
    ensures
        final(new_file_buffer)@ == old(new_file_buffer)@,
        delta_view(r@) == diff_of(old(new_file_buffer)@, signature.table(), chunk_size as int),
{
    let ghost b = new_file_buffer@;
    let ghost t = signature.table();
    let ghost bs = chunk_size as int;
    let n = new_file_buffer.len();
    let mut match_verifier: Vec<VerifyMatch> = Vec::new();
    let mut p: usize = 0;
    let mut rolling_mode = false;
    let mut rolling_sum = RollingWindow::generate();
    let mut diff_bytes: Vec<u8> = Vec::new();
    assert(delta_view(match_verifier@) =~= Seq::empty());
    assert(delta_view(match_verifier@) + diff_of(b, t, bs) =~= diff_of(b, t, bs));
    loop
        invariant_except_break
            delta_view(match_verifier@) + scan(
                b,
                t,
                bs,
                p as int,
                if rolling_mode {
                    Some((rolling_sum, diff_bytes@))
                } else {
                    None
                },
            ) == diff_of(b, t, bs),
        invariant
            b == new_file_buffer@,
            n == b.len(),
            bs == chunk_size,
            bs > 0,
            t == signature.table(),
            p <= n,
        ensures
            b == new_file_buffer@,
            delta_view(match_verifier@) == diff_of(b, t, bs),
        decreases (n - p) * 2 + (if rolling_mode {
            0int
        } else {
            1int
        }),
    {
        let ghost done = delta_view(match_verifier@);
        if !rolling_mode {
            let end: usize = if n - p >= chunk_size {
                p + chunk_size
            } else {
                n
            };
            let chunk = slice_subrange(new_file_buffer.as_slice(), p, end);
            assert(chunk@ == window(b, bs, p as int));
            proof {
                lemma_scan_aligned(b, t, bs, p as int);
            }
            let actual_chunk_size = end - p;
            if actual_chunk_size == 0 {
                assert(done + Seq::<DeltaOp>::empty() =~= done);
                break ;
            }
            rolling_sum = RollingWindow::generate();
            rolling_sum.add_bytes_at_end(chunk);
            let index_hash = rolling_sum.sha256_digest();
            match match_index_and_checksum(signature, index_hash, chunk) {
                Some(hash) => {
                    match_verifier.push(VerifyMatch::Match(hash.index));
                    assert(delta_view(match_verifier@) =~= done.push(DeltaOp::Match(hash.index)));
                    if actual_chunk_size < chunk_size {
                        assert(done + scan(b, t, bs, p as int, None) =~= done.push(
                            DeltaOp::Match(hash.index),
                        ));
                        break ;
                    }
                    assert(done + scan(b, t, bs, p as int, None) =~= done.push(
                        DeltaOp::Match(hash.index),
                    ) + scan(b, t, bs, end as int, None));
                    p = end;
                },
                None => {
                    rolling_mode = true;
                    diff_bytes = Vec::new();
                    assert(diff_bytes@ =~= Seq::<u8>::empty());
                },
            }
        } else {
            let ghost st = rolling_sum;
            let ghost lit = diff_bytes@;
            proof {
                lemma_scan_rolling(b, t, bs, p as int, st, lit);
            }
            if p == n {
                if diff_bytes.len() > 0 {
                    match_verifier.push(VerifyMatch::NoMatch(diff_bytes));
                    assert(delta_view(match_verifier@) =~= done + seq![DeltaOp::Literal(lit)]);
                } else {
                    assert(done + Seq::<DeltaOp>::empty() =~= done);
                }
                break ;
            }
            let prev = new_file_buffer[p];
            let next: Option<u8> = if n - p > chunk_size {
                Some(new_file_buffer[p + chunk_size])
            } else {
                None
            };
            diff_bytes.push(prev);
            rolling_sum.roll_window(prev, next);
            let index_hash = rolling_sum.sha256_digest();
            p = p + 1;
            let end: usize = if n - p >= chunk_size {
                p + chunk_size
            } else {
                n
            };
            let chunk = slice_subrange(new_file_buffer.as_slice(), p, end);
            assert(chunk@ == window(b, bs, p as int));
            match match_index_and_checksum(signature, index_hash, chunk) {
                Some(hash) => {
                    let ghost lit2 = diff_bytes@;
                    match_verifier.push(VerifyMatch::NoMatch(diff_bytes));
                    diff_bytes = Vec::new();
                    match_verifier.push(VerifyMatch::Match(hash.index));
                    assert(delta_view(match_verifier@) =~= done + seq![
                        DeltaOp::Literal(lit2),
                        DeltaOp::Match(hash.index),
                    ]);
                    assert(done + scan(b, t, bs, p - 1, Some((st, lit))) =~= delta_view(
                        match_verifier@,
                    ) + scan(b, t, bs, end as int, None));
                    p = end;
                    rolling_mode = false;
                },
                None => {},
            }
        }
    }
    match_verifier
}

} // verus!
