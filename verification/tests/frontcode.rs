use schist::frontcode::{FrontCodedBlock};

fn sample() -> Vec<&'static str> {
    vec![
        "apple", "application", "apply", "banana", "band", "bandana", "cat", "catalog",
    ]
}

#[test]
fn decode_all_roundtrips() {
    let strings = sample();
    let block = FrontCodedBlock::build(&strings, 4);
    assert_eq!(block.decode_all(), strings);
    assert_eq!(block.len(), 8);
}

#[test]
fn random_access() {
    let strings = sample();
    let block = FrontCodedBlock::build(&strings, 4);
    for (i, s) in strings.iter().enumerate() {
        assert_eq!(block.get(i).as_deref(), Some(*s));
    }
    assert_eq!(block.get(100), None);
}

#[test]
fn find_present_and_absent() {
    let strings = sample();
    let block = FrontCodedBlock::build(&strings, 3);
    assert_eq!(block.find("bandana"), Some(5));
    assert_eq!(block.find("apple"), Some(0));
    assert_eq!(block.find("catalog"), Some(7));
    assert_eq!(block.find("dog"), None);
    assert_eq!(block.find("aardvark"), None);
}

#[test]
fn compresses_shared_prefixes() {
    let strings = vec![
        "internationalization",
        "internationalize",
        "internationalized",
        "internationally",
    ];
    let block = FrontCodedBlock::build(&strings, 8);
    let raw: usize = strings.iter().map(|s| s.len()).sum();
    assert!(block.byte_size() < raw, "front coding should shrink");
    assert_eq!(block.decode_all(), strings);
}

#[test]
fn utf8_safe_prefixes() {
    let strings = vec!["café", "cafés", "cafétéria"];
    let block = FrontCodedBlock::build(&strings, 4);
    assert_eq!(block.decode_all(), strings);
    assert_eq!(block.get(2).as_deref(), Some("cafétéria"));
}

#[test]
fn a_shared_character_is_kept_whole() {
    let strings = vec!["é", "éa", "éb", "ê"];
    let block = FrontCodedBlock::build(&strings, 4);
    assert_eq!(block.decode_all(), strings);
    assert_eq!(block.byte_size(), 4 * 2 + (2 + 1 + 1 + 2) + 4);
}
