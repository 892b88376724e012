use crc::crc32;
use ddup::algorithm::{
    group_by_key, group_by_size, reduce_by_content, FileEntry, SignedFile,
};
use ddup::signature::{calculate_fuzzy_hash, calculate_hash, CHUNK_SIZE};
use ddup::{Comparison, ContentDigest, FuzzySampler};

fn noise(len: usize, seed: u64) -> Vec<u8> {
    let mut state = seed.wrapping_mul(0x9e37_79b9_7f4a_7c15) | 1;
    (0..len)
        .map(|_| {
            state ^= state << 13;
            state ^= state >> 7;
            state ^= state << 17;
            (state >> 24) as u8
        })
        .collect()
}

fn entries(sizes: &[u64]) -> Vec<FileEntry> {
    sizes
        .iter()
        .enumerate()
        .map(|(i, size)| FileEntry { path: format!("f{}", i), size: *size })
        .collect()
}

fn signed(signatures: &[u32]) -> Vec<SignedFile> {
    signatures
        .iter()
        .enumerate()
        .map(|(i, signature)| SignedFile { path: format!("p{}", i), signature: *signature })
        .collect()
}

fn sample_offsets(size: u64) -> Vec<u64> {
    let mut sampler = FuzzySampler::new(size);
    let mut offsets = Vec::new();
    while let Some(at) = sampler.next_offset() {
        offsets.push(at);
        sampler.feed(&[0u8; CHUNK_SIZE]);
    }
    offsets
}

#[test]
fn strict_hash_is_the_checksum_of_all_bytes() {
    assert_eq!(calculate_hash(b"123456789"), 0xcbf43926);
    assert_eq!(calculate_hash(b""), 0);
    for len in [1, 4095, 4096, 4097, 8192, 12289, 40000] {
        let content = noise(len, len as u64);
        assert_eq!(calculate_hash(&content), crc32::checksum_ieee(&content));
    }
}

#[test]
fn equal_bytes_hash_equal_under_strict_mode() {
    for len in [0, 1, 100, 4096, 5000, 70000] {
        let one = noise(len, 42);
        let other = one.clone();
        assert_eq!(calculate_hash(&one), calculate_hash(&other));
        assert_eq!(
            Comparison::Strict.signature(&one),
            Comparison::Strict.signature(&other)
        );
    }
}

#[test]
fn one_changed_byte_changes_the_strict_hash() {
    let content = noise(20000, 7);
    let signature = calculate_hash(&content);
    for at in [0, 1, 4095, 4096, 5000, 8191, 12288, 19999] {
        let mut changed = content.clone();
        changed[at] ^= 0x40;
        assert_ne!(calculate_hash(&changed), signature);
    }
}

#[test]
fn digest_does_not_depend_on_how_writes_are_cut() {
    let content = noise(10000, 3);
    let whole = crc32::checksum_ieee(&content);
    for cut in [0, 1, 17, 4096, 9999, 10000] {
        let mut digest = ContentDigest::new();
        digest.write(&content[..cut]);
        digest.write(&[]);
        digest.write(&content[cut..]);
        assert_eq!(digest.sum32(), whole);
    }
    assert_eq!(ContentDigest::new().sum32(), 0);
}

#[test]
fn small_file_is_hashed_whole_under_fuzzy_mode() {
    assert_eq!(calculate_fuzzy_hash(b"123456789"), 0xcbf43926);
    assert_eq!(calculate_fuzzy_hash(b""), 0);
    for len in [1, 100, 4095, 4096] {
        let content = noise(len, 11);
        assert_eq!(calculate_fuzzy_hash(&content), crc32::checksum_ieee(&content));
        assert_eq!(calculate_fuzzy_hash(&content), calculate_hash(&content));
    }
}

#[test]
fn fuzzy_hash_folds_sparse_chunks_and_the_tail() {
    let c = CHUNK_SIZE;
    let content = noise(8 * c, 5);
    let mut sampled = Vec::new();
    sampled.extend_from_slice(&content[0..c]);
    sampled.extend_from_slice(&content[2 * c..3 * c]);
    sampled.extend_from_slice(&content[6 * c..7 * c]);
    sampled.extend_from_slice(&content[7 * c..8 * c]);
    assert_eq!(calculate_fuzzy_hash(&content), crc32::checksum_ieee(&sampled));

    let content = noise(c + 1, 6);
    let mut sampled = content[0..c].to_vec();
    sampled.extend_from_slice(&content[1..c + 1]);
    assert_eq!(calculate_fuzzy_hash(&content), crc32::checksum_ieee(&sampled));

    let content = noise(3 * c, 8);
    let mut sampled = content[0..c].to_vec();
    sampled.extend_from_slice(&content[2 * c..3 * c]);
    assert_eq!(calculate_fuzzy_hash(&content), crc32::checksum_ieee(&sampled));
    assert_eq!(
        Comparison::Fuzzy.signature(&content),
        crc32::checksum_ieee(&sampled)
    );
}

#[test]
fn sampling_offsets_double() {
    let c = CHUNK_SIZE as u64;
    assert_eq!(sample_offsets(0), Vec::<u64>::new());
    assert_eq!(sample_offsets(c), Vec::<u64>::new());
    assert_eq!(sample_offsets(c + 1), vec![0]);
    assert_eq!(sample_offsets(3 * c), vec![0]);
    assert_eq!(sample_offsets(3 * c + 1), vec![0, 2 * c]);
    assert_eq!(sample_offsets(7 * c), vec![0, 2 * c]);
    assert_eq!(sample_offsets(7 * c + 1), vec![0, 2 * c, 6 * c]);
    assert_eq!(sample_offsets(1 << 40).len(), 28);
    assert_eq!(sample_offsets(u64::MAX).len(), 52);
}

#[test]
fn sample_count_is_bounded_by_the_logarithm() {
    let c = CHUNK_SIZE as u64;
    for size in [c + 1, 2 * c, 3 * c, 3 * c + 1, 100 * c, 1 << 30, (1 << 30) + 1, u64::MAX] {
        let n = sample_offsets(size).len() as u32;
        assert!(n >= 1);
        assert!((c as u128) << (n - 1) < size as u128);
        assert!((c as u128) * ((1u128 << n) - 1) < size as u128);
        assert!((c as u128) * ((1u128 << (n + 1)) - 1) >= size as u128);
    }
}

#[test]
fn tail_is_anchored_a_chunk_before_the_end() {
    let c = CHUNK_SIZE as u64;
    assert_eq!(FuzzySampler::new(0).tail_offset(), 0);
    assert_eq!(FuzzySampler::new(1).tail_offset(), 0);
    assert_eq!(FuzzySampler::new(c).tail_offset(), 0);
    assert_eq!(FuzzySampler::new(c + 1).tail_offset(), 1);
    assert_eq!(FuzzySampler::new(10 * c + 5).tail_offset(), 9 * c + 5);
    assert_eq!(FuzzySampler::new(u64::MAX).tail_offset(), u64::MAX - c);
}

#[test]
fn sampler_driven_over_a_file_gives_the_fuzzy_hash() {
    for len in [0, 10, 4096, 4097, 12288, 12289, 100000] {
        let content = noise(len, 99);
        let mut sampler = FuzzySampler::new(len as u64);
        while let Some(at) = sampler.next_offset() {
            let at = at as usize;
            sampler.feed(&content[at..at + CHUNK_SIZE]);
        }
        let tail = sampler.tail_offset() as usize;
        assert_eq!(sampler.finish(&content[tail..]), calculate_fuzzy_hash(&content));
    }
}

#[test]
fn sampler_moves_on_by_what_was_read() {
    let mut sampler = FuzzySampler::new(1 << 20);
    assert_eq!(sampler.next_offset(), Some(0));
    sampler.feed(&[1, 2, 3]);
    assert_eq!(sampler.next_offset(), Some(6));
    sampler.feed(&[4; 10]);
    assert_eq!(sampler.next_offset(), Some(32));
    let folded = [1, 2, 3, 4, 4, 4, 4, 4, 4, 4, 4, 4, 4, 5, 6];
    assert_eq!(sampler.finish(&[5, 6]), crc32::checksum_ieee(&folded));
}

#[test]
fn files_that_differ_between_samples_collide_under_fuzzy_mode() {
    let c = CHUNK_SIZE;
    let one = noise(3 * c, 21);
    let mut other = one.clone();
    other[c + 904] ^= 0xff;
    other[2 * c - 1] = other[2 * c - 1].wrapping_add(1);
    assert_ne!(one, other);
    assert_eq!(one.len(), other.len());
    let first = calculate_fuzzy_hash(&one);
    let second = calculate_fuzzy_hash(&other);
    assert_eq!(first, second);
    assert_ne!(calculate_hash(&one), calculate_hash(&other));

    let files = vec![
        SignedFile { path: String::from("one"), signature: first },
        SignedFile { path: String::from("other"), signature: second },
    ];
    let groups = reduce_by_content(one.len() as u64, &files);
    assert_eq!(groups.len(), 1);
    assert_eq!(groups[0].size, 3 * c as u64);
    assert_eq!(groups[0].paths, vec!["one", "other"]);
}

#[test]
fn files_with_a_forged_checksum_collide_under_strict_mode() {
    let one = b"an invoice over 100 pieces, payable at once ....".to_vec();
    let mut other = b"an invoice over 900 pieces, payable at once ....".to_vec();
    assert_eq!(one.len(), other.len());
    let want = crc32::checksum_ieee(&one);
    let body = other.len() - 4;
    let mut register = !want;
    for _ in 0..4 {
        let top = (register >> 24) as u8;
        let index = (0..256u32)
            .find(|i| (crc32::IEEE_TABLE[*i as usize] >> 24) as u8 == top)
            .unwrap();
        register = ((register ^ crc32::IEEE_TABLE[index as usize]) << 8) | index;
    }
    let before = !crc32::checksum_ieee(&other[..body]);
    other[body..].copy_from_slice(&(register ^ before).to_le_bytes());
    assert_ne!(one, other);
    assert_eq!(calculate_hash(&other), calculate_hash(&one));

    let files = vec![
        SignedFile { path: String::from("one"), signature: calculate_hash(&one) },
        SignedFile { path: String::from("other"), signature: calculate_hash(&other) },
    ];
    let groups = reduce_by_content(one.len() as u64, &files);
    assert_eq!(groups.len(), 1);
    assert_eq!(groups[0].paths, vec!["one", "other"]);
}

fn run_in_memory(files: &[(&str, Vec<u8>)], comparison: Comparison) -> Vec<(u64, Vec<String>)> {
    let entries: Vec<FileEntry> = files
        .iter()
        .map(|(path, content)| FileEntry { path: String::from(*path), size: content.len() as u64 })
        .collect();
    let mut reports = Vec::new();
    for bucket in group_by_size(&entries) {
        let signed: Vec<SignedFile> = bucket
            .paths
            .iter()
            .map(|path| {
                let content = &files.iter().find(|(p, _)| p == path).unwrap().1;
                SignedFile { path: path.clone(), signature: comparison.signature(content) }
            })
            .collect();
        for group in reduce_by_content(bucket.size, &signed) {
            reports.push((group.size, group.paths));
        }
    }
    reports
}

#[test]
fn run_reports_files_with_one_size_and_one_signature() {
    let c = CHUNK_SIZE;
    let big = noise(3 * c, 1);
    let mut big_changed_between_samples = big.clone();
    big_changed_between_samples[c + 1] ^= 1;
    let mut big_changed_in_tail = big.clone();
    big_changed_in_tail[3 * c - 1] ^= 1;
    let files = vec![
        ("a", b"same".to_vec()),
        ("b", big.clone()),
        ("c", b"diff".to_vec()),
        ("d", b"same".to_vec()),
        ("e", big_changed_between_samples),
        ("f", b"alone!".to_vec()),
        ("g", big_changed_in_tail),
        ("h", big),
        ("i", b"same".to_vec()),
        ("j", Vec::new()),
        ("k", Vec::new()),
    ];
    let strict = run_in_memory(&files, Comparison::Strict);
    assert_eq!(
        strict,
        vec![
            (4, vec![String::from("a"), String::from("d"), String::from("i")]),
            (3 * c as u64, vec![String::from("b"), String::from("h")]),
            (0, vec![String::from("j"), String::from("k")]),
        ]
    );
    let fuzzy = run_in_memory(&files, Comparison::Fuzzy);
    assert_eq!(
        fuzzy,
        vec![
            (4, vec![String::from("a"), String::from("d"), String::from("i")]),
            (3 * c as u64, vec![String::from("b"), String::from("e"), String::from("h")]),
            (0, vec![String::from("j"), String::from("k")]),
        ]
    );
}

#[test]
fn sizes_shared_by_two_or_more_files_survive() {
    let buckets = group_by_size(&entries(&[10, 10, 20, 30, 30, 30]));
    assert_eq!(buckets.len(), 2);
    assert_eq!(buckets[0].size, 10);
    assert_eq!(buckets[0].paths, vec!["f0", "f1"]);
    assert_eq!(buckets[1].size, 30);
    assert_eq!(buckets[1].paths, vec!["f3", "f4", "f5"]);
}

#[test]
fn buckets_come_by_first_occurrence_with_files_in_order() {
    let buckets = group_by_size(&entries(&[7, 0, 5, 0, 7, u64::MAX, 5, 7, u64::MAX, 1]));
    let got: Vec<(u64, Vec<String>)> =
        buckets.into_iter().map(|b| (b.size, b.paths)).collect();
    assert_eq!(
        got,
        vec![
            (7, vec![String::from("f0"), String::from("f4"), String::from("f7")]),
            (0, vec![String::from("f1"), String::from("f3")]),
            (5, vec![String::from("f2"), String::from("f6")]),
            (u64::MAX, vec![String::from("f5"), String::from("f8")]),
        ]
    );
}

#[test]
fn nothing_survives_without_a_shared_size() {
    assert!(group_by_size(&entries(&[])).is_empty());
    assert!(group_by_size(&entries(&[1])).is_empty());
    assert!(group_by_size(&entries(&[1, 2, 3, 4])).is_empty());
}

#[test]
fn files_are_grouped_by_signature() {
    let groups = reduce_by_content(512, &signed(&[9, 8, 9, 7, 8, 9, u32::MAX, 0, u32::MAX]));
    let got: Vec<(u64, Vec<String>)> = groups.into_iter().map(|g| (g.size, g.paths)).collect();
    assert_eq!(
        got,
        vec![
            (512, vec![String::from("p0"), String::from("p2"), String::from("p5")]),
            (512, vec![String::from("p1"), String::from("p4")]),
            (512, vec![String::from("p6"), String::from("p8")]),
        ]
    );
    assert!(reduce_by_content(512, &signed(&[1, 2, 3])).is_empty());
    assert!(reduce_by_content(512, &signed(&[])).is_empty());
}

#[test]
fn every_pair_with_one_key_stands_in_exactly_one_group() {
    let keys: Vec<u64> = noise(300, 77).into_iter().map(|b| (b % 23) as u64).collect();
    let groups = group_by_key(&keys);
    for group in &groups {
        assert!(group.len() >= 2);
        assert!(group.windows(2).all(|w| w[0] < w[1]));
    }
    for i in 0..keys.len() {
        let shared = (0..keys.len()).any(|j| j != i && keys[j] == keys[i]);
        let holding: Vec<usize> =
            (0..groups.len()).filter(|g| groups[*g].contains(&i)).collect();
        assert_eq!(holding.len(), if shared { 1 } else { 0 });
        for j in 0..keys.len() {
            if i != j && keys[i] == keys[j] {
                assert!(groups[holding[0]].contains(&j));
            }
            if keys[i] != keys[j] && shared {
                assert!(!groups[holding[0]].contains(&j));
            }
        }
    }
}

#[test]
fn groups_of_positions_for_given_keys() {
    assert_eq!(group_by_key(&vec![4, 4]), vec![vec![0, 1]]);
    assert_eq!(group_by_key(&vec![1, 2, 1, 3, 2, 1]), vec![vec![0, 2, 5], vec![1, 4]]);
    assert!(group_by_key(&vec![]).is_empty());
    assert!(group_by_key(&vec![5]).is_empty());
}
