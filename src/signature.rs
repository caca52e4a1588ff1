//! The signature of an old file: its blocks indexed by weak checksum, each
//! with its position and SHA-256 digest.
use std::collections::HashMap;
use vstd::prelude::*;
use vstd::slice::slice_subrange;
use crate::window_checksum::{rolling_window_checksum, weak_hash};

verus! {

broadcast use vstd::std_specs::hash::group_hash_axioms;

/// The SHA-256 digest of a byte sequence.
pub uninterp spec fn sha256_of(data: Seq<u8>) -> Seq<u8>;

/// Relies on `hmac_sha256::Hash::hash`: the SHA-256 digest of the input,
/// which depends on the input bytes alone.
#[verifier::external_body]
pub fn chunk_sha256_hash(chunk: &[u8]) -> (r: [u8; 32])
    ensures
        r@ == sha256_of(chunk@),
{
    hmac_sha256::Hash::hash(chunk)
}

/// One block of the old file: its position and its SHA-256 digest.
#[derive(Clone, Copy, Debug, PartialEq, Eq)]
pub struct BlockChunkHashes {
    pub index: u32,
    pub hash: [u8; 32],
}

impl View for BlockChunkHashes {
    type V = (u32, Seq<u8>);

    open spec fn view(&self) -> (u32, Seq<u8>) {
        (self.index, self.hash@)
    }
}

/// The signature: the block size, and for each weak checksum the blocks
/// that have it, in ascending position.
#[derive(Debug)]
pub struct FileChunkSignature {
    pub block_chunk_size: u32,
    pub checksum_map: HashMap<u32, Vec<BlockChunkHashes>>,
}

/// A bucket of records as plain values.
pub open spec fn bucket_view(v: Vec<BlockChunkHashes>) -> Seq<(u32, Seq<u8>)> {
    v@.map_values(|h: BlockChunkHashes| h@)
}

impl FileChunkSignature {
    /// The table as plain values.
    pub open spec fn table(&self) -> Map<u32, Seq<(u32, Seq<u8>)>> {
        self.checksum_map@.map_values(|v: Vec<BlockChunkHashes>| bucket_view(v))
    }

    /// The records whose weak checksum is `key`, if there are any.
    pub fn block_chunk_hashes(&self, key: &u32) -> (r: Option<&Vec<BlockChunkHashes>>)
        ensures
            match r {
                Some(v) => self.checksum_map@.contains_key(*key) && *v
                    == self.checksum_map@[*key],
                None => !self.checksum_map@.contains_key(*key),
            },
    {
        self.checksum_map.get(key)
    }
}

/// Number of blocks of size `bs` that cover `len` bytes, the last one
/// possibly short.
pub open spec fn block_count(len: int, bs: int) -> int {
    (len + bs - 1) / bs
}

/// Block `i` of `a` for block size `bs`.
pub open spec fn block_at(a: Seq<u8>, bs: int, i: int) -> Seq<u8> {
    let end = if (i + 1) * bs <= a.len() {
        (i + 1) * bs
    } else {
        a.len() as int
    };
    a.subrange(i * bs, end)
}

/// The records of `t` for `key`; none where `key` is absent.
pub open spec fn bucket_of(t: Map<u32, Seq<(u32, Seq<u8>)>>, key: u32) -> Seq<(u32, Seq<u8>)> {
    if t.contains_key(key) {
        t[key]
    } else {
        Seq::empty()
    }
}

/// The table after the first `n` blocks of `a` have been recorded, each at
/// the end of the bucket of its weak checksum.
pub open spec fn table_upto(a: Seq<u8>, bs: int, n: nat) -> Map<u32, Seq<(u32, Seq<u8>)>>
    decreases n,
{
    if n == 0 {
        Map::empty()
    } else {
        let t = table_upto(a, bs, (n - 1) as nat);
        let blk = block_at(a, bs, n - 1);
        let key = weak_hash(blk);
        t.insert(key, bucket_of(t, key).push(((n - 1) as u32, sha256_of(blk))))
    }
}

/// The table of the signature of `a` for block size `bs`.
pub open spec fn signature_table(a: Seq<u8>, bs: int) -> Map<u32, Seq<(u32, Seq<u8>)>> {
    table_upto(a, bs, block_count(a.len() as int, bs) as nat)
}

/// Every record of `t` stands for a block below `n` and is filed under that
/// block's weak checksum with its digest; every block below `n` has a record;
/// no block has two; within a bucket positions ascend.
pub open spec fn covers(t: Map<u32, Seq<(u32, Seq<u8>)>>, a: Seq<u8>, bs: int, n: int) -> bool {
    &&& forall|key: u32, j: int|
        #![trigger t[key][j]]
        t.contains_key(key) && 0 <= j < t[key].len() ==> {
            let i = t[key][j].0 as int;
            &&& i < n
            &&& weak_hash(block_at(a, bs, i)) == key
            &&& t[key][j].1 == sha256_of(block_at(a, bs, i))
        }
    &&& forall|i: int|
        #![trigger block_at(a, bs, i)]
        0 <= i < n ==> {
            let key = weak_hash(block_at(a, bs, i));
            &&& t.contains_key(key)
            &&& t[key].contains((i as u32, sha256_of(block_at(a, bs, i))))
        }
    &&& forall|k1: u32, j1: int, k2: u32, j2: int|
        #![trigger t[k1][j1], t[k2][j2]]
        t.contains_key(k1) && 0 <= j1 < t[k1].len() && t.contains_key(k2) && 0 <= j2 < t[k2].len()
            && t[k1][j1].0 == t[k2][j2].0 ==> k1 == k2 && j1 == j2
    &&& forall|key: u32, j1: int, j2: int|
        #![trigger t[key][j1], t[key][j2]]
        t.contains_key(key) && 0 <= j1 < j2 < t[key].len() ==> t[key][j1].0 < t[key][j2].0
}

proof fn lemma_table_upto_covers(a: Seq<u8>, bs: int, n: nat)
    requires
        n <= 0x1_0000_0000,
    ensures
        covers(table_upto(a, bs, n), a, bs, n as int),
    decreases n,
{
    if n > 0 {
        let m = (n - 1) as nat;
        lemma_table_upto_covers(a, bs, m);
        let t = table_upto(a, bs, m);
        let blk = block_at(a, bs, m as int);
        let kn = weak_hash(blk);
        let r = (m as u32, sha256_of(blk));
        let nb = bucket_of(t, kn).push(r);
        let t2 = table_upto(a, bs, n);
        assert(t2 == t.insert(kn, nb));
        assert forall|key: u32, j: int|
            #![trigger t2[key][j]]
            t2.contains_key(key) && 0 <= j < t2[key].len() implies {
                let i = t2[key][j].0 as int;
                &&& i < n
                &&& weak_hash(block_at(a, bs, i)) == key
                &&& t2[key][j].1 == sha256_of(block_at(a, bs, i))
            } by {
            if key == kn && j == nb.len() - 1 {
            } else {
                assert(t2[key][j] == t[key][j]);
            }
        }
        assert forall|i: int|
            #![trigger block_at(a, bs, i)]
            0 <= i < n implies {
                let key = weak_hash(block_at(a, bs, i));
                &&& t2.contains_key(key)
                &&& t2[key].contains((i as u32, sha256_of(block_at(a, bs, i))))
            } by {
            let key = weak_hash(block_at(a, bs, i));
            let rec = (i as u32, sha256_of(block_at(a, bs, i)));
            if i == m {
                assert(t2[key][nb.len() - 1] == rec);
            } else {
                let j = choose|j: int| 0 <= j < t[key].len() && t[key][j] == rec;
                assert(t2[key][j] == rec);
            }
        }
        assert forall|k1: u32, j1: int, k2: u32, j2: int|
            #![trigger t2[k1][j1], t2[k2][j2]]
            t2.contains_key(k1) && 0 <= j1 < t2[k1].len() && t2.contains_key(k2) && 0 <= j2
                < t2[k2].len() && t2[k1][j1].0 == t2[k2][j2].0 implies k1 == k2 && j1 == j2 by {
            let new1 = k1 == kn && j1 == nb.len() - 1;
            let new2 = k2 == kn && j2 == nb.len() - 1;
            if !new1 {
                assert(t2[k1][j1] == t[k1][j1]);
                assert(t[k1][j1].0 < m);
            }
            if !new2 {
                assert(t2[k2][j2] == t[k2][j2]);
                assert(t[k2][j2].0 < m);
            }
        }
        assert forall|key: u32, j1: int, j2: int|
            #![trigger t2[key][j1], t2[key][j2]]
            t2.contains_key(key) && 0 <= j1 < j2 < t2[key].len() implies t2[key][j1].0
                < t2[key][j2].0 by {
            assert(t2[key][j1] == t[key][j1]);
            assert(t[key][j1].0 < m);
            if !(key == kn && j2 == nb.len() - 1) {
                assert(t2[key][j2] == t[key][j2]);
            }
        }
    }
}

/// The signature of `a` records every block exactly once: each record stands
/// for a block below the block count, under that block's weak checksum and
/// with its digest; each block has a record; no block has two; and within
/// a bucket positions ascend. Hence the buckets hold exactly as many records
/// as there are blocks, and their positions are exactly `0 .. block_count`.
pub proof fn lemma_signature_coverage(a: Seq<u8>, bs: int)
    requires
        bs > 0,
        block_count(a.len() as int, bs) <= 0x1_0000_0000,
    ensures
        covers(signature_table(a, bs), a, bs, block_count(a.len() as int, bs)),
{
    assert(block_count(a.len() as int, bs) >= 0) by (nonlinear_arith)
        requires
            bs > 0,
    ;
    lemma_table_upto_covers(a, bs, block_count(a.len() as int, bs) as nat);
}

/// True when a chunk of `chunk_len` bytes is all that is left of a buffer
/// of `buf_len` bytes.
pub fn pointer_at_last_chunk(chunk_len: usize, buf_len: usize) -> (r: bool)
    ensures
        r == (chunk_len == buf_len),
{
    chunk_len == buf_len
}

proof fn lemma_block_step(len: int, bs: int, i: int)
    requires
        bs > 0,
        0 <= i,
        i * bs < len,
    ensures
        i < block_count(len, bs),
        (i + 1) * bs >= len ==> i + 1 == block_count(len, bs),
        (i + 1) * bs < len ==> i + 1 < block_count(len, bs),
{
    let k = block_count(len, bs);
    assert(bs * k <= len + bs - 1 < bs * (k + 1)) by (nonlinear_arith)
        requires
            bs > 0,
            k == (len + bs - 1) / bs,
    ;
    assert(i < k) by (nonlinear_arith)
        requires
            bs > 0,
            i * bs < len,
            len + bs - 1 < bs * (k + 1),
    ;
    if (i + 1) * bs >= len {
        assert(i + 1 >= k) by (nonlinear_arith)
            requires
                bs > 0,
                (i + 1) * bs >= len,
                bs * k <= len + bs - 1,
        ;
    } else {
        assert(i + 1 < k) by (nonlinear_arith)
            requires
                bs > 0,
                (i + 1) * bs < len,
                len + bs - 1 < bs * (k + 1),
        ;
    }
}

/// Builds the signature of `buffer` for block size `block_size`: the buffer
/// is cut into disjoint blocks from offset 0, the last one possibly short,
/// and each block is recorded under its weak checksum. The buffer is left
/// as it was.
pub fn get_signature(buffer: &mut Vec<u8>, block_size: u32) -> (r: FileChunkSignature)
    requires
        block_size > 0,
        block_count(old(buffer)@.len() as int, block_size as int) <= 0x1_0000_0000,
    ensures
        final(buffer)@ == old(buffer)@,
        r.block_chunk_size == block_size,
        r.table() == signature_table(old(buffer)@, block_size as int),
{
    let ghost a = buffer@;
    let ghost bs = block_size as int;
    let mut signature = FileChunkSignature {
        block_chunk_size: block_size,
        checksum_map: HashMap::new(),
    };
    let chunk_size = block_size as usize;
    let len = buffer.len();
    let mut pos: usize = 0;
    let mut chunk_index: u32 = 0;
    let mut count: u64 = 0;
    assert(signature.table() =~= table_upto(a, bs, 0));
    if len > 0 {
        proof {
            lemma_block_step(len as int, bs, 0);
        }
    } else {
        assert(block_count(0, bs) == 0) by (nonlinear_arith)
            requires
                bs > 0,
        ;
    }
    while pos < len
        invariant
            a == buffer@,
            len == a.len(),
            chunk_size == bs,
            bs > 0,
            block_count(len as int, bs) <= 0x1_0000_0000,
            pos < len ==> count == chunk_index,
            pos <= len,
            pos < len ==> pos == count * bs && count < block_count(len as int, bs),
            pos == len ==> count == block_count(len as int, bs),
            signature.block_chunk_size == block_size,
            signature.table() == table_upto(a, bs, count as nat),
        decreases len - pos,
    {
        proof {
            lemma_block_step(len as int, bs, count as int);
        }
        let end: usize = if len - pos > chunk_size {
            pos + chunk_size
        } else {
            len
        };
        let chunk = slice_subrange(buffer.as_slice(), pos, end);
        assert((count + 1) * bs == count * bs + bs) by (nonlinear_arith);
        assert(chunk@ == block_at(a, bs, count as int));
        let index_hash = rolling_window_checksum(chunk);
        let sha256_hash = chunk_sha256_hash(chunk);
        let ghost t = signature.table();
        let mut bucket = match signature.checksum_map.remove(&index_hash) {
            Some(v) => v,
            None => Vec::new(),
        };
        assert(bucket_view(bucket) =~= bucket_of(t, index_hash));
        let ghost m0 = signature.checksum_map@;
        bucket.push(BlockChunkHashes { index: chunk_index, hash: sha256_hash });
        let ghost rec = (count as u32, sha256_of(chunk@));
        assert(bucket_view(bucket) =~= bucket_of(t, index_hash).push(rec));
        signature.checksum_map.insert(index_hash, bucket);
        assert(signature.checksum_map@ == m0.insert(index_hash, bucket));
        assert(signature.table() =~= t.insert(index_hash, bucket_of(t, index_hash).push(rec)));
        assert(signature.table() =~= table_upto(a, bs, (count + 1) as nat));
        pos = end;
        count = count + 1;
        if pos < len {
            chunk_index = chunk_index + 1;
        }
    }
    signature
}

/// Block size for a file of `file_length` bytes: 64 up to 4096 bytes, and
/// beyond that the square root of the length rounded to the nearest multiple
/// of 16, that is the multiple `r` of 16 with `(r - 8)² <= file_length < (r + 8)²`.
pub fn find_blocksize(file_length: u64) -> (r: u32)
    requires
        file_length < 0xffff_fff8 * 0xffff_fff8,
    ensures
        file_length <= 4096 ==> r == 64,
        file_length > 4096 ==> r % 16 == 0 && (r - 8) * (r - 8) <= file_length < (r + 8) * (r
            + 8),
{
    if file_length <= 4096 {
        return 64;
    }
    let mut lo: u64 = 4;
    let mut hi: u64 = 0x1000_0000;
    assert((16 * lo - 8) * (16 * lo - 8) == 3136) by (nonlinear_arith)
        requires
            lo == 4,
    ;
    while hi - lo > 1
        invariant
            4 <= lo < hi <= 0x1000_0000,
            (16 * lo - 8) * (16 * lo - 8) <= file_length,
            (16 * hi - 8) * (16 * hi - 8) > file_length,
        decreases hi - lo,
    {
        let mid: u64 = lo + (hi - lo) / 2;
        let root: u64 = 16 * mid - 8;
        assert(root * root <= 0xffff_fff8 * 0xffff_fff8) by (nonlinear_arith)
            requires
                root <= 0xffff_fff8,
        ;
        if root * root <= file_length {
            lo = mid;
        } else {
            hi = mid;
        }
    }
    assert(16 * lo + 8 == 16 * hi - 8);
    (16 * lo) as u32
}

} // verus!
