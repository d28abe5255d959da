use schist::editdist::{levenshtein, levenshtein_bounded, damerau_levenshtein, common_prefix, closest};
use schist::numeric::{ArithOp, RealNeed, Reals};

fn told(f: &dyn Fn(&Reals) -> Result<u64, RealNeed>) -> f64 {
    let mut reals = Reals::new();
    loop {
        match f(&reals) {
            Ok(b) => return f64::from_bits(b),
            Err(RealNeed::Arith(op, a, b)) => {
                let (x, y) = (f64::from_bits(a), f64::from_bits(b));
                let z = match op {
                    ArithOp::Div => x / y,
                    ArithOp::Sub => x - y,
                    _ => panic!("unexpected need"),
                };
                reals.note_result(op, a, b, z.to_bits());
            }
            Err(_) => panic!("unexpected need"),
        }
    }
}

fn similarity(a: &str, b: &str) -> f64 {
    told(&|r| schist::editdist::similarity(a, b, r))
}

#[test]
fn levenshtein_basic() {
    assert_eq!(levenshtein("kitten", "sitting"), 3);
    assert_eq!(levenshtein("", "abc"), 3);
    assert_eq!(levenshtein("same", "same"), 0);
    assert_eq!(levenshtein("flaw", "lawn"), 2);
}

#[test]
fn bounded_early_out() {
    assert_eq!(levenshtein_bounded("kitten", "sitting", 3), Some(3));
    assert_eq!(levenshtein_bounded("kitten", "sitting", 2), None);
    assert_eq!(levenshtein_bounded("abc", "abcdefghij", 2), None);
}

#[test]
fn damerau_handles_transposition() {
    assert_eq!(damerau_levenshtein("ca", "ac"), 1);
    assert_eq!(levenshtein("ca", "ac"), 2);
    assert_eq!(damerau_levenshtein("teh", "the"), 1);
}

#[test]
fn similarity_ratio() {
    assert_eq!(similarity("abc", "abc"), 1.0);
    assert_eq!(similarity("", ""), 1.0);
    assert!(similarity("kitten", "sitting") > 0.5);
    assert!(similarity("abc", "xyz") < 0.1);
}

#[test]
fn prefix_and_closest() {
    assert_eq!(common_prefix("prefix_a", "prefix_b"), 7);
    let cands = ["name", "age", "email", "phone"];
    assert_eq!(closest("naem", &cands, 2), Some("name"));
    assert_eq!(closest("zzzzz", &cands, 2), None);
}

#[test]
fn unicode_aware() {
    assert_eq!(levenshtein("café", "cafe"), 1);
    assert_eq!(common_prefix("café", "cafétér"), 4);
}
