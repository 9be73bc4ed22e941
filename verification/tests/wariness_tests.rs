use rollout_policy::GraphQuery;
use rollout_policy::wariness::compute_wariness;
use rollout_policy::wariness::derive_wariness_from_identifier;
use rollout_policy::wariness::hash_identifier;
use rollout_policy::wariness::parse_override_str;
use rollout_policy::wariness::wariness_bucket;

fn query(rollout_wariness: Option<&str>, node_uuid: Option<&str>) -> GraphQuery {
    GraphQuery {
        basearch: None,
        stream: None,
        rollout_wariness: rollout_wariness.map(String::from),
        node_uuid: node_uuid.map(String::from),
    }
}

#[test]
fn hash_of_empty_identifier_is_the_offset_basis() {
    assert_eq!(hash_identifier(""), 0xcbf29ce484222325);
}

#[test]
fn empty_identifier_derives_a_fixed_value_every_time() {
    let q = query(None, None);
    let w1 = compute_wariness(&q);
    let w2 = compute_wariness(&q);
    assert_eq!(w1, w2);
    assert_eq!(w1, 796_670);
    let explicit_empty = query(None, Some(""));
    assert_eq!(compute_wariness(&explicit_empty), 796_670);
}

#[test]
fn identifier_derivation_is_deterministic() {
    let uuid = "0644e786-6a08-4c6a-9c0b-7d8d8e0ad0b0";
    let w1 = compute_wariness(&query(None, Some(uuid)));
    let w2 = compute_wariness(&query(None, Some(uuid)));
    assert_eq!(w1, w2);
    assert_eq!(w1, 325_962);
    assert_eq!(derive_wariness_from_identifier(uuid), 325_962);
}

#[test]
fn derived_wariness_stays_in_range() {
    for id in ["", "a", "some-node", "0644e786-6a08-4c6a-9c0b-7d8d8e0ad0b0", "zzzz"] {
        let w = compute_wariness(&query(None, Some(id)));
        assert!(1 <= w && w <= 1_000_000);
    }
}

#[test]
fn override_above_one_clamps_to_one() {
    assert_eq!(compute_wariness(&query(Some("1.5"), Some("node"))), 1_000_000);
}

#[test]
fn negative_override_clamps_to_zero() {
    assert_eq!(compute_wariness(&query(Some("-0.2"), Some("node"))), 0);
}

#[test]
fn override_takes_priority_over_any_identifier() {
    let w1 = compute_wariness(&query(Some("0.25"), Some("client-a")));
    let w2 = compute_wariness(&query(Some("0.25"), Some("some-node")));
    let w3 = compute_wariness(&query(Some("0.25"), None));
    assert_eq!(w1, 250_000);
    assert_eq!(w2, 250_000);
    assert_eq!(w3, 250_000);
}

#[test]
fn override_parses_plain_decimal_forms() {
    assert_eq!(parse_override_str("0"), Some(0));
    assert_eq!(parse_override_str("1"), Some(1_000_000));
    assert_eq!(parse_override_str("2"), Some(1_000_000));
    assert_eq!(parse_override_str("0.5"), Some(500_000));
    assert_eq!(parse_override_str("00.5"), Some(500_000));
    assert_eq!(parse_override_str(".75"), Some(750_000));
    assert_eq!(parse_override_str("0."), Some(0));
    assert_eq!(parse_override_str("+0.314159"), Some(314_159));
    assert_eq!(parse_override_str("0.123456789"), Some(123_456));
    assert_eq!(parse_override_str("-0"), Some(0));
}

#[test]
fn override_parses_exponent_forms() {
    assert_eq!(parse_override_str("1e-3"), Some(1_000));
    assert_eq!(parse_override_str("1.5e-1"), Some(150_000));
    assert_eq!(parse_override_str("5E-2"), Some(50_000));
    assert_eq!(parse_override_str("25e-2"), Some(250_000));
    assert_eq!(parse_override_str(".25e1"), Some(1_000_000));
    assert_eq!(parse_override_str("1e3"), Some(1_000_000));
    assert_eq!(parse_override_str("1E0"), Some(1_000_000));
    assert_eq!(parse_override_str("7e-6"), Some(7));
    assert_eq!(parse_override_str("2e-7"), Some(0));
    assert_eq!(parse_override_str("0e5"), Some(0));
    assert_eq!(parse_override_str("-1e-5"), Some(0));
    assert_eq!(parse_override_str("1e999999999999999999999"), Some(1_000_000));
    assert_eq!(parse_override_str("1e-999999999999999999999"), Some(0));
    assert_eq!(compute_wariness(&query(Some("1e-3"), Some("some-node"))), 1_000);
}

#[test]
fn unusable_override_falls_back_to_the_identifier() {
    let derived = compute_wariness(&query(None, Some("some-node")));
    assert_eq!(derived, 291_735);
    for bad in ["", ".", "+", "-", "abc", "inf", "NaN", "1.2.3", "0x10", " 0.5", "1e", "1e+", "e5",
        "1e1.5", "1e5x"]
    {
        assert_eq!(parse_override_str(bad), None);
        assert_eq!(compute_wariness(&query(Some(bad), Some("some-node"))), derived);
    }
}

#[test]
fn wariness_buckets_are_the_eleven_linear_boundaries() {
    assert_eq!(wariness_bucket(0), 0);
    assert_eq!(wariness_bucket(1), 1);
    assert_eq!(wariness_bucket(99_999), 1);
    assert_eq!(wariness_bucket(100_000), 1);
    assert_eq!(wariness_bucket(100_001), 2);
    assert_eq!(wariness_bucket(500_000), 5);
    assert_eq!(wariness_bucket(999_999), 10);
    assert_eq!(wariness_bucket(1_000_000), 10);
}
