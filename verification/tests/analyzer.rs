use similar_images::analyzer::{compute_hash, create_groups, progress_percent, CacheUnavailable};
use similar_images::hash::{PerceptualHash, MAX_HASH_BYTES};
use similar_images::request::{AnalyzeRequest, CacheKey, FileInfo, HashAlgorithm, HashType};

fn hash(bytes: &[u8]) -> PerceptualHash {
    PerceptualHash::from_bytes(bytes.to_vec()).unwrap()
}

fn file(path: &str) -> FileInfo {
    FileInfo::new(String::from(path), 10, 20)
}

fn paths(groups: &Vec<Vec<FileInfo>>) -> Vec<Vec<String>> {
    groups
        .iter()
        .map(|group| group.iter().map(|info| info.get_path().clone()).collect())
        .collect()
}

#[test]
fn distance_counts_differing_bits() {
    assert_eq!(hash(&[0xFF]).dist(&hash(&[0x00])), 8);
    assert_eq!(hash(&[0b1010_0000, 0x0F]).dist(&hash(&[0b0010_0001, 0x00])), 6);
    assert_eq!(hash(&[1, 2, 4, 8]).dist(&hash(&[0, 0, 0, 0])), 4);
}

#[test]
fn distance_of_equal_hashes_is_zero() {
    let h = hash(&[0x12, 0x34, 0x56, 0x78]);
    assert_eq!(h.dist(&h.clone()), 0);
    assert_eq!(hash(&[]).dist(&hash(&[])), 0);
}

#[test]
fn distance_is_symmetric() {
    let a = hash(&[0xF0, 0x0F, 0xAA]);
    let b = hash(&[0x0F, 0x0F, 0x55]);
    assert_eq!(a.dist(&b), 16);
    assert_eq!(b.dist(&a), 16);
}

#[test]
fn distance_covers_the_bytes_that_both_hashes_have() {
    assert_eq!(hash(&[0xFF, 0xFF]).dist(&hash(&[0x00])), 8);
    assert_eq!(hash(&[0xFF]).dist(&hash(&[])), 0);
}

#[test]
fn hash_keeps_its_bytes() {
    let h = hash(&[9, 8, 7]);
    assert_eq!(h.as_bytes(), &vec![9u8, 8, 7]);
    assert_eq!(h.clone().as_bytes(), &vec![9u8, 8, 7]);
}

#[test]
fn hash_refuses_more_bytes_than_its_bit_count_can_hold() {
    assert!(PerceptualHash::from_bytes(vec![0u8; MAX_HASH_BYTES + 1]).is_none());
    assert!(PerceptualHash::from_bytes(vec![0u8; 32]).is_some());
}

#[test]
fn chain_of_similar_files_is_one_group() {
    // d(a, b) = 3, d(b, c) = 4, d(a, c) = 7, threshold 5
    let a = hash(&[0b0000_0000, 0b0000_0000]);
    let b = hash(&[0b0000_0111, 0b0000_0000]);
    let c = hash(&[0b0000_0111, 0b0000_1111]);
    assert_eq!(a.dist(&b), 3);
    assert_eq!(b.dist(&c), 4);
    assert_eq!(a.dist(&c), 7);
    let hashes = vec![(file("a.png"), a), (file("b.png"), b), (file("c.png"), c)];
    let groups = create_groups(&hashes, 5);
    assert_eq!(paths(&groups), vec![vec!["a.png", "b.png", "c.png"]]);
}

#[test]
fn chain_groups_files_that_are_far_apart_themselves() {
    // d(a, b) = 3, d(b, c) = 4, d(a, c) = 9, threshold 5: the middle hash is
    // the shorter one, so the outer two differ in bits that it does not have
    let a = hash(&[0b0000_0000, 0b0000_0000]);
    let b = hash(&[0b0000_0111]);
    let c = hash(&[0b0111_1111, 0b0000_0011]);
    assert_eq!(a.dist(&b), 3);
    assert_eq!(b.dist(&c), 4);
    assert_eq!(a.dist(&c), 9);
    let hashes = vec![(file("a.png"), a), (file("b.png"), b), (file("c.png"), c)];
    let groups = create_groups(&hashes, 5);
    assert_eq!(paths(&groups), vec![vec!["a.png", "b.png", "c.png"]]);
    let outer = vec![
        (file("a.png"), hash(&[0b0000_0000, 0b0000_0000])),
        (file("c.png"), hash(&[0b0111_1111, 0b0000_0011])),
    ];
    assert!(create_groups(&outer, 5).is_empty());
}

#[test]
fn identical_images_group_and_unrelated_one_is_left_out() {
    let hashes = vec![
        (file("first.jpg"), hash(&[0xAB, 0xCD])),
        (file("other.jpg"), hash(&[0x54, 0x32])),
        (file("second.jpg"), hash(&[0xAB, 0xCD])),
    ];
    let groups = create_groups(&hashes, 3);
    assert_eq!(paths(&groups), vec![vec!["first.jpg", "second.jpg"]]);
    assert_eq!(groups[0][0].get_size(), 10);
    assert_eq!(groups[0][0].get_date(), 20);
}

#[test]
fn threshold_is_inclusive() {
    let hashes = vec![(file("x"), hash(&[0b0000_0011])), (file("y"), hash(&[0b0000_0000]))];
    assert_eq!(paths(&create_groups(&hashes, 2)), vec![vec!["x", "y"]]);
    assert!(create_groups(&hashes, 1).is_empty());
}

#[test]
fn no_files_no_groups() {
    assert!(create_groups(&Vec::new(), 10).is_empty());
    let one = vec![(file("only"), hash(&[1]))];
    assert!(create_groups(&one, 10).is_empty());
}

#[test]
fn groups_come_in_the_order_of_their_first_file() {
    let hashes = vec![
        (file("a1"), hash(&[0x00])),
        (file("b1"), hash(&[0xFF])),
        (file("lonely"), hash(&[0x0F])),
        (file("b2"), hash(&[0xFE])),
        (file("a2"), hash(&[0x01])),
    ];
    let groups = create_groups(&hashes, 1);
    assert_eq!(paths(&groups), vec![vec!["a1", "a2"], vec!["b1", "b2"]]);
}

#[test]
fn grouping_twice_gives_the_same_groups() {
    let hashes = vec![
        (file("a"), hash(&[0x00, 0x00])),
        (file("b"), hash(&[0x00, 0x01])),
        (file("c"), hash(&[0xFF, 0xFF])),
        (file("d"), hash(&[0xFF, 0xFE])),
        (file("e"), hash(&[0x0F, 0xF0])),
    ];
    let first = create_groups(&hashes, 2);
    let second = create_groups(&hashes, 2);
    assert_eq!(paths(&first), paths(&second));
    assert_eq!(paths(&first), vec![vec!["a", "b"], vec!["c", "d"]]);
}

#[test]
fn progress_of_ten_files_rises_in_steps_of_ten() {
    let mut reported = Vec::new();
    for completed in 0..=10 {
        reported.push(progress_percent(completed, 10));
    }
    assert_eq!(reported, vec![0, 10, 20, 30, 40, 50, 60, 70, 80, 90, 100]);
    assert!(reported.windows(2).all(|pair| pair[0] <= pair[1]));
}

#[test]
fn progress_reaches_the_end_though_files_fail_to_decode() {
    let total = 10;
    let mut reported = Vec::new();
    let mut hashes = Vec::new();
    for completed in 0..total {
        reported.push(progress_percent(completed, total));
        let readable = completed != 3 && completed != 7;
        let hashed = compute_hash(file("image"), Ok(None), || {
            if readable {
                Some(hash(&[completed as u8]))
            } else {
                None
            }
        });
        if let Some(entry) = hashed {
            hashes.push(entry);
        }
    }
    reported.push(progress_percent(total, total));
    assert_eq!(hashes.len(), 8);
    assert_eq!(reported, vec![0, 10, 20, 30, 40, 50, 60, 70, 80, 90, 100]);
}

#[test]
fn progress_rounds_down() {
    assert_eq!(progress_percent(1, 3), 33);
    assert_eq!(progress_percent(2, 3), 66);
    assert_eq!(progress_percent(3, 3), 100);
    assert_eq!(progress_percent(0, 1), 0);
    assert_eq!(progress_percent(199, 200), 99);
}

#[test]
fn progress_of_huge_counts_does_not_overflow() {
    assert_eq!(progress_percent(usize::MAX, usize::MAX), 100);
    assert_eq!(progress_percent(usize::MAX / 2, usize::MAX), 49);
}

#[test]
fn cached_hash_is_reused_without_decoding() {
    let mut calls = 0;
    let hashed = compute_hash(file("a"), Ok(Some(hash(&[1, 2]))), || {
        calls += 1;
        Some(hash(&[9, 9]))
    });
    let (info, found) = hashed.unwrap();
    assert_eq!(info.get_path(), "a");
    assert_eq!(found.as_bytes(), &vec![1u8, 2]);
    assert_eq!(calls, 0);
}

#[test]
fn cache_miss_decodes() {
    let mut calls = 0;
    let hashed = compute_hash(file("a"), Ok(None), || {
        calls += 1;
        Some(hash(&[9, 9]))
    });
    assert_eq!(hashed.unwrap().1.as_bytes(), &vec![9u8, 9]);
    assert_eq!(calls, 1);
}

#[test]
fn unavailable_cache_counts_as_a_miss() {
    let hashed = compute_hash(file("a"), Err(CacheUnavailable {}), || Some(hash(&[7])));
    assert_eq!(hashed.unwrap().1.as_bytes(), &vec![7u8]);
}

#[test]
fn file_that_cannot_be_decoded_is_skipped() {
    assert!(compute_hash(file("broken"), Ok(None), || None).is_none());
}

#[test]
fn hash_types_map_to_algorithms() {
    assert_eq!(HashType::AHash.algorithm(), HashAlgorithm::Mean);
    assert_eq!(HashType::PHash.algorithm(), HashAlgorithm::Mean);
    assert_eq!(HashType::DHash.algorithm(), HashAlgorithm::Gradient);
    assert!(!HashType::AHash.uses_dct());
    assert!(HashType::PHash.uses_dct());
    assert!(!HashType::DHash.uses_dct());
}

#[test]
fn cache_key_joins_request_and_path() {
    let request = AnalyzeRequest {
        dist: 4,
        path: String::from("/photos"),
        hash_type: HashType::DHash,
        hash_size: 16,
    };
    let key = request.cache_key(String::from("/photos/a.png"));
    assert_eq!(key.hash_type, HashType::DHash);
    assert_eq!(key.hash_size, 16);
    assert_eq!(key.path, "/photos/a.png");
    assert!(key == request.cache_key(String::from("/photos/a.png")));
    assert!(key != request.cache_key(String::from("/photos/b.png")));
    let other = CacheKey {
        hash_type: HashType::AHash,
        hash_size: 16,
        path: String::from("/photos/a.png"),
    };
    assert!(key != other);
    let smaller = CacheKey {
        hash_type: HashType::DHash,
        hash_size: 8,
        path: String::from("/photos/a.png"),
    };
    assert!(key != smaller);
}

#[test]
fn files_are_equal_if_their_paths_are() {
    let a = FileInfo::new(String::from("x.png"), 1, 2);
    let b = FileInfo::new(String::from("x.png"), 3, 4);
    let c = FileInfo::new(String::from("y.png"), 1, 2);
    assert!(a == b);
    assert!(a != c);
    let copy = a.clone();
    assert_eq!(copy.get_path(), "x.png");
    assert_eq!(copy.get_size(), 1);
    assert_eq!(copy.get_date(), 2);
}
