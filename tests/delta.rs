use file_delta::codec::{decode_delta, decode_signature, encode_delta, encode_signature};
use file_delta::file_diff::{first_with_digest, generate_diff, VerifyMatch};
use file_delta::signature::{
    chunk_sha256_hash, BlockChunkHashes, find_blocksize, get_signature, pointer_at_last_chunk, FileChunkSignature,
};
use file_delta::window_checksum::rolling_window_checksum;

fn signature_of(old: &[u8]) -> FileChunkSignature {
    let mut buf = old.to_vec();
    get_signature(&mut buf, find_blocksize(old.len() as u64))
}

fn diff(new: &[u8], sig: &FileChunkSignature) -> Vec<VerifyMatch> {
    let mut buf = new.to_vec();
    let d = generate_diff(&mut buf, sig, sig.block_chunk_size as usize);
    assert_eq!(buf, new.to_vec());
    d
}

fn expand(delta: &[VerifyMatch], old: &[u8], bs: usize) -> Vec<u8> {
    let mut out = Vec::new();
    for rec in delta {
        match rec {
            VerifyMatch::Match(i) => {
                let start = *i as usize * bs;
                let end = std::cmp::min(start + bs, old.len());
                out.extend_from_slice(&old[start..end]);
            }
            VerifyMatch::NoMatch(bytes) => out.extend_from_slice(bytes),
        }
    }
    out
}

fn all_indices(sig: &FileChunkSignature) -> Vec<u32> {
    let mut v: Vec<u32> = sig
        .checksum_map
        .values()
        .flat_map(|b| b.iter().map(|h| h.index))
        .collect();
    v.sort();
    v
}

#[test]
fn block_size_rule() {
    assert_eq!(find_blocksize(0), 64);
    assert_eq!(find_blocksize(4096), 64);
    assert_eq!(find_blocksize(8192), 96);
    assert_eq!(find_blocksize(1_000_000), 1008);
    // sqrt is exactly 16 * 4.5: rounds up
    assert_eq!(find_blocksize(72 * 72), 80);
    assert_eq!(find_blocksize(72 * 72 - 1), 64);
}

#[test]
fn last_chunk_test() {
    assert!(pointer_at_last_chunk(5, 5));
    assert!(!pointer_at_last_chunk(4, 5));
}

#[test]
fn three_full_blocks_give_three_records() {
    let mut old: Vec<u8> = Vec::new();
    for i in 0..192u32 {
        old.push((i % 64) as u8 + (i / 64) as u8 * 64);
    }
    let mut buf = old.clone();
    let sig = get_signature(&mut buf, 64);
    assert_eq!(buf, old);
    assert_eq!(sig.block_chunk_size, 64);
    assert_eq!(all_indices(&sig), vec![0, 1, 2]);
    for b in 0..3usize {
        let block = &old[b * 64..(b + 1) * 64];
        let bucket = sig.block_chunk_hashes(&rolling_window_checksum(block)).unwrap();
        let rec = bucket.iter().find(|h| h.index == b as u32).unwrap();
        assert_eq!(rec.hash, chunk_sha256_hash(block));
    }
}

#[test]
fn short_tail_block_is_recorded() {
    let old = vec![9u8; 130];
    let mut buf = old.clone();
    let sig = get_signature(&mut buf, 64);
    assert_eq!(all_indices(&sig), vec![0, 1, 2]);
    let tail = sig.block_chunk_hashes(&rolling_window_checksum(&old[128..])).unwrap();
    assert_eq!(tail.len(), 1);
    assert_eq!(tail[0].index, 2);
    let full = sig.block_chunk_hashes(&rolling_window_checksum(&old[..64])).unwrap();
    assert_eq!(full.iter().map(|h| h.index).collect::<Vec<_>>(), vec![0, 1]);
}

#[test]
fn sha256_of_known_input() {
    let h = chunk_sha256_hash(b"abc");
    assert_eq!(h[0], 0xba);
    assert_eq!(h[1], 0x78);
    assert_eq!(h[31], 0xad);
    assert_ne!(h.to_vec(), b"abc".to_vec());
}

#[test]
fn empty_new_file() {
    let sig = signature_of(b"hello world");
    assert_eq!(diff(b"", &sig), vec![]);
}

#[test]
fn empty_old_file() {
    let sig = signature_of(b"");
    assert!(sig.checksum_map.is_empty());
    assert_eq!(diff(b"abc", &sig), vec![VerifyMatch::NoMatch(b"abc".to_vec())]);
}

#[test]
fn identical_files_match_first_equal_block() {
    let a = vec![0x41u8; 4096];
    let sig = signature_of(&a);
    assert_eq!(sig.block_chunk_size, 64);
    assert_eq!(all_indices(&sig), (0..64).collect::<Vec<u32>>());
    let d = diff(&a, &sig);
    // all 64 blocks are equal, and the first record of a bucket wins
    assert_eq!(d, (0..64).map(|_| VerifyMatch::Match(0)).collect::<Vec<_>>());
    assert_eq!(expand(&d, &a, 64), a);
}

#[test]
fn identical_distinct_blocks_match_in_order() {
    let a: Vec<u8> = (0..4096u32).map(|i| ((i * 7 + i / 64) % 256) as u8).collect();
    let sig = signature_of(&a);
    let d = diff(&a, &sig);
    assert_eq!(d, (0..64).map(VerifyMatch::Match).collect::<Vec<_>>());
}

#[test]
fn prefix_insertion() {
    let mut a = b"the quick brown fox".to_vec();
    a.resize(4096, 0);
    let sig = signature_of(&a);
    let mut b = b"XYZ".to_vec();
    b.extend_from_slice(&a);
    let d = diff(&b, &sig);
    let mut expected = vec![VerifyMatch::NoMatch(b"XYZ".to_vec()), VerifyMatch::Match(0)];
    expected.extend((1..64).map(|_| VerifyMatch::Match(1)));
    assert_eq!(d, expected);
    assert_eq!(expand(&d, &a, 64), b);
}

#[test]
fn mid_file_replacement() {
    let mut a = vec![b'A'; 4096];
    a.extend(vec![b'B'; 4096]);
    let mut buf = a.clone();
    let sig = get_signature(&mut buf, 64);
    let mut b = vec![b'A'; 4096];
    b.extend(vec![b'Z'; 100]);
    b.extend(vec![b'B'; 4096]);
    let d = diff(&b, &sig);
    let mut expected: Vec<VerifyMatch> = (0..64).map(|_| VerifyMatch::Match(0)).collect();
    expected.push(VerifyMatch::NoMatch(vec![b'Z'; 100]));
    expected.extend((0..64).map(|_| VerifyMatch::Match(64)));
    assert_eq!(d, expected);
    assert_eq!(expand(&d, &a, 64), b);
}

#[test]
fn appended_bytes_become_one_literal() {
    let a: Vec<u8> = (0..4096u32).map(|i| ((i * 13 + i / 64) % 256) as u8).collect();
    let sig = signature_of(&a);
    let mut b = a.clone();
    b.extend_from_slice(b"tail bytes");
    let d = diff(&b, &sig);
    let mut expected: Vec<VerifyMatch> = (0..64).map(VerifyMatch::Match).collect();
    expected.push(VerifyMatch::NoMatch(b"tail bytes".to_vec()));
    assert_eq!(d, expected);
}

#[test]
fn unrelated_files_are_one_literal() {
    let a = vec![1u8; 300];
    let b = vec![2u8; 300];
    let sig = signature_of(&a);
    assert_eq!(diff(&b, &sig), vec![VerifyMatch::NoMatch(b.clone())]);
}

#[test]
fn delta_round_trip() {
    let d = vec![
        VerifyMatch::Match(3),
        VerifyMatch::NoMatch(b"xy".to_vec()),
        VerifyMatch::Match(0x01020304),
    ];
    let bytes = encode_delta(&d);
    assert_eq!(
        bytes,
        vec![3, 0, 0, 0, 0, 3, 0, 0, 0, 1, 2, 0, 0, 0, b'x', b'y', 0, 4, 3, 2, 1]
    );
    assert_eq!(decode_delta(&bytes), Some(d));
    assert_eq!(decode_delta(&encode_delta(&vec![])), Some(vec![]));
}

#[test]
fn delta_decode_errors() {
    assert_eq!(decode_delta(&[1, 0, 0]), None);
    // wrong tag
    assert_eq!(decode_delta(&[1, 0, 0, 0, 2, 0, 0, 0, 0]), None);
    // literal longer than the input
    assert_eq!(decode_delta(&[1, 0, 0, 0, 1, 5, 0, 0, 0, 1]), None);
    // trailing bytes
    assert_eq!(decode_delta(&[0, 0, 0, 0, 7]), None);
    // too few records
    assert_eq!(decode_delta(&[2, 0, 0, 0, 0, 1, 0, 0, 0]), None);
}

#[test]
fn signature_round_trip() {
    let a: Vec<u8> = (0..1000u32).map(|i| (i % 97) as u8).collect();
    let sig = signature_of(&a);
    let bytes = encode_signature(&sig);
    let back = decode_signature(&bytes).unwrap();
    assert_eq!(back.block_chunk_size, sig.block_chunk_size);
    assert_eq!(back.checksum_map, sig.checksum_map);
    let empty = signature_of(b"");
    let bytes = encode_signature(&empty);
    assert_eq!(bytes, vec![64, 0, 0, 0, 0, 0, 0, 0]);
    let back = decode_signature(&bytes).unwrap();
    assert!(back.checksum_map.is_empty());
}

#[test]
fn signature_decode_errors() {
    assert!(decode_signature(&[64, 0, 0]).is_none());
    // one bucket announced, none present
    assert!(decode_signature(&[64, 0, 0, 0, 1, 0, 0, 0]).is_none());
    // a bucket with one record but too few bytes for it
    assert!(decode_signature(&[64, 0, 0, 0, 1, 0, 0, 0, 9, 0, 0, 0, 1, 0, 0, 0, 0]).is_none());
    // the same checksum twice
    let dup = [64, 0, 0, 0, 2, 0, 0, 0, 9, 0, 0, 0, 0, 0, 0, 0, 9, 0, 0, 0, 0, 0, 0, 0];
    assert!(decode_signature(&dup).is_none());
}

#[test]
fn first_record_with_digest_wins() {
    let d1 = [1u8; 32];
    let d2 = [2u8; 32];
    let bucket = vec![
        BlockChunkHashes { index: 4, hash: d1 },
        BlockChunkHashes { index: 7, hash: d2 },
        BlockChunkHashes { index: 9, hash: d2 },
    ];
    assert_eq!(first_with_digest(&bucket, &d2).map(|h| h.index), Some(7));
    assert_eq!(first_with_digest(&bucket, &d1).map(|h| h.index), Some(4));
    assert_eq!(first_with_digest(&bucket, &[3u8; 32]), None);
}

#[test]
fn signature_encoding_is_ascending_and_reproducible() {
    let a: Vec<u8> = (0..700u32).map(|i| (i * 31 % 256) as u8).collect();
    let sig = signature_of(&a);
    let bytes = encode_signature(&sig);
    assert_eq!(bytes, encode_signature(&signature_of(&a)));
    let n = u32::from_le_bytes([bytes[4], bytes[5], bytes[6], bytes[7]]) as usize;
    assert_eq!(n, sig.checksum_map.len());
    let mut pos = 8;
    let mut keys = Vec::new();
    for _ in 0..n {
        let key = u32::from_le_bytes([bytes[pos], bytes[pos + 1], bytes[pos + 2], bytes[pos + 3]]);
        let count =
            u32::from_le_bytes([bytes[pos + 4], bytes[pos + 5], bytes[pos + 6], bytes[pos + 7]]);
        keys.push(key);
        pos += 8 + 36 * count as usize;
    }
    assert_eq!(pos, bytes.len());
    let mut sorted = keys.clone();
    sorted.sort();
    sorted.dedup();
    assert_eq!(keys, sorted);
}

#[test]
fn signature_encoding_layout() {
    let sig = signature_of(b"ab");
    let bytes = encode_signature(&sig);
    let key = rolling_window_checksum(b"ab");
    let mut expected = vec![64, 0, 0, 0, 1, 0, 0, 0];
    expected.extend_from_slice(&key.to_le_bytes());
    expected.extend_from_slice(&[1, 0, 0, 0, 0, 0, 0, 0]);
    expected.extend_from_slice(&chunk_sha256_hash(b"ab"));
    assert_eq!(bytes, expected);
}

#[test]
fn repeated_block_refers_to_its_first_copy() {
    let x: Vec<u8> = (0..64u32).map(|i| i as u8).collect();
    let y: Vec<u8> = (0..64u32).map(|i| (200 - i) as u8).collect();
    let mut a = x.clone();
    a.extend_from_slice(&y);
    a.extend_from_slice(&x);
    let sig = signature_of(&a);
    assert_eq!(
        diff(&a, &sig),
        vec![VerifyMatch::Match(0), VerifyMatch::Match(1), VerifyMatch::Match(0)]
    );
}
