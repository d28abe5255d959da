use schist::fingerprint::{RollingHash, find_all, contains, fingerprint, content_defined_chunks};

#[test]
fn rolling_matches_fresh_hash() {
    let data = b"abcdefghij";
    let width = 4;
    let mut rh = RollingHash::new(width);
    for &b in &data[..width] {
        rh.push(b);
    }
    assert_eq!(rh.hash(), rh.hash_window(&data[..width]));
    for i in width..data.len() {
        rh.roll(data[i - width], data[i]);
        let start = i - width + 1;
        assert_eq!(rh.hash(), rh.hash_window(&data[start..=i]));
    }
}

#[test]
fn rabin_karp_search() {
    let hay = b"the quick brown fox the quick";
    assert_eq!(find_all(hay, b"quick"), vec![4, 24]);
    assert_eq!(find_all(hay, b"the"), vec![0, 20]);
    assert!(find_all(hay, b"zebra").is_empty());
    assert!(contains(hay, b"brown"));
}

#[test]
fn search_edge_cases() {
    assert!(find_all(b"", b"x").is_empty());
    assert!(find_all(b"ab", b"abc").is_empty());
    assert_eq!(find_all(b"aaaa", b"aa"), vec![0, 1, 2]);
}

#[test]
fn fingerprint_distinguishes() {
    assert_eq!(fingerprint(b"hello"), fingerprint(b"hello"));
    assert_ne!(fingerprint(b"hello"), fingerprint(b"hellp"));
    assert_ne!(fingerprint(b""), fingerprint(b"a"));
}

#[test]
fn chunking_covers_data() {
    let data: Vec<u8> = (0..2000).map(|i| (i * 7 % 251) as u8).collect();
    let bounds = content_defined_chunks(&data, 16, 6, 32, 512);
    // Boundaries strictly increasing and ending at data.len().
    assert!(bounds.windows(2).all(|w| w[0] < w[1]));
    assert_eq!(*bounds.last().unwrap(), data.len());
    // Every chunk within max_size.
    let mut prev = 0;
    for &b in &bounds {
        assert!(b - prev <= 512);
        prev = b;
    }
}

#[test]
fn chunking_is_stable_to_prefix_insert() {
    // Inserting bytes near the front should not change most later boundaries.
    let base: Vec<u8> = (0..3000).map(|i| (i * 13 % 251) as u8).collect();
    let b1 = content_defined_chunks(&base, 16, 5, 16, 256);
    let mut modified = vec![9u8, 9, 9];
    modified.extend_from_slice(&base);
    let b2 = content_defined_chunks(&modified, 16, 5, 16, 256);
    // The two boundary sets should share many cut points (shifted by 3).
    let shifted: std::collections::HashSet<usize> = b1.iter().map(|&x| x + 3).collect();
    let common = b2.iter().filter(|b| shifted.contains(b)).count();
    assert!(common > b1.len() / 2, "chunking not stable enough");
}
