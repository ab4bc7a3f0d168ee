use portprobe::cli::{flatten_port_args, parse_spec, parse_specs, CliPort, ParseError};
use portprobe::scan::{normalize, normalize_specs, Port, Status};

fn nums(ports: &[Port]) -> Vec<u16> {
    ports.iter().map(|p| p.num).collect()
}

#[test]
fn single_port() {
    let v = parse_spec("80").unwrap();
    assert_eq!(nums(&v), vec![80]);
    assert!(matches!(v[0].stat, Status::Closed));
    assert!(v[0].meta.is_none());
}

#[test]
fn comma_separated_ports() {
    let v = parse_spec("80,443").unwrap();
    assert_eq!(nums(&v), vec![80, 443]);
}

#[test]
fn dotdot_range() {
    let cp = CliPort::from_str("1..3").unwrap();
    assert_eq!(nums(&cp.0), vec![1, 2, 3]);
}

#[test]
fn dash_range() {
    let cp = CliPort::from_str("5-8").unwrap();
    assert_eq!(nums(&cp.0), vec![5, 6, 7, 8]);
}

#[test]
fn lone_dash_is_all_ports() {
    let cp = CliPort::from_str("-").unwrap();
    assert_eq!(cp.0.len(), 65535);
    assert_eq!(cp.0[0].num, 1);
    assert_eq!(cp.0[65534].num, 65535);
}

#[test]
fn lone_dotdot_is_all_ports() {
    let cp = CliPort::from_str("..").unwrap();
    assert_eq!(cp.0.len(), 65535);
    assert_eq!(cp.0[0].num, 1);
    assert_eq!(cp.0[65534].num, 65535);
}

#[test]
fn open_upper_bound() {
    let cp = CliPort::from_str("1000-").unwrap();
    assert_eq!(cp.0.len(), 64536);
    assert_eq!(cp.0[0].num, 1000);
    assert_eq!(cp.0[64535].num, 65535);
}

#[test]
fn open_lower_bound() {
    let cp = CliPort::from_str("-2").unwrap();
    assert_eq!(nums(&cp.0), vec![1, 2]);
}

#[test]
fn inverted_range_is_empty() {
    let cp = CliPort::from_str("10-5").unwrap();
    assert!(cp.0.is_empty());
}

#[test]
fn leading_zeros_accepted() {
    let cp = CliPort::from_str("080").unwrap();
    assert_eq!(nums(&cp.0), vec![80]);
}

#[test]
fn zero_rejected() {
    assert_eq!(CliPort::from_str("0").unwrap_err(), ParseError::InvalidPortSyntax);
}

#[test]
fn too_large_rejected() {
    assert_eq!(CliPort::from_str("70000").unwrap_err(), ParseError::InvalidPortSyntax);
}

#[test]
fn non_numeric_rejected() {
    assert_eq!(CliPort::from_str("abc").unwrap_err(), ParseError::InvalidPortSyntax);
}

#[test]
fn empty_token_rejected() {
    assert_eq!(CliPort::from_str("").unwrap_err(), ParseError::InvalidPortSyntax);
}

#[test]
fn malformed_range_bound_rejected() {
    assert_eq!(CliPort::from_str("a-b").unwrap_err(), ParseError::InvalidPortSyntax);
    assert_eq!(CliPort::from_str("0-5").unwrap_err(), ParseError::InvalidPortSyntax);
    assert_eq!(CliPort::from_str("--").unwrap_err(), ParseError::InvalidPortSyntax);
}

#[test]
fn bad_token_fails_whole_spec() {
    assert!(parse_spec("80,abc,443").is_err());
}

#[test]
fn dedup_keeps_first_occurrence_order() {
    let v = parse_spec("80,443,80,1..3,2").unwrap();
    let n = normalize(v);
    assert_eq!(nums(&n), vec![80, 443, 1, 2, 3]);
}

#[test]
fn overlapping_ranges_dedup() {
    let v = parse_spec("1..4,3..6").unwrap();
    let n = normalize(v);
    assert_eq!(nums(&n), vec![1, 2, 3, 4, 5, 6]);
}

#[test]
fn normalize_specs_end_to_end() {
    let specs = vec!["80,443".to_string(), "80".to_string(), "442-444".to_string()];
    let n = normalize_specs(&specs).unwrap();
    assert_eq!(nums(&n), vec![80, 443, 442, 444]);
    for p in &n {
        assert!(p.num >= 1);
        assert!(matches!(p.stat, Status::Closed));
    }
}

#[test]
fn normalize_specs_no_duplicates_and_in_range() {
    let specs = vec!["1..100".to_string(), "50..150".to_string(), "65535".to_string()];
    let n = normalize_specs(&specs).unwrap();
    let mut seen = std::collections::HashSet::new();
    for p in &n {
        assert!(p.num >= 1);
        assert!(seen.insert(p.num), "duplicate port {}", p.num);
    }
    assert_eq!(n.len(), 151);
}

#[test]
fn normalize_specs_rejects_bad_spec() {
    let specs = vec!["80".to_string(), "0".to_string()];
    assert!(normalize_specs(&specs).is_err());
}

#[test]
fn parse_specs_concatenates_in_order() {
    let specs = vec!["443".to_string(), "80,81".to_string()];
    let v = parse_specs(&specs).unwrap();
    assert_eq!(nums(&v), vec![443, 80, 81]);
}

#[test]
fn flatten_concatenates_parsed_tokens() {
    let a = CliPort::from_str("443").unwrap();
    let b = CliPort::from_str("80-82").unwrap();
    let flat = flatten_port_args(vec![a, b]);
    assert_eq!(nums(&flat), vec![443, 80, 81, 82]);
}

#[test]
fn empty_spec_list_yields_no_ports() {
    let specs: Vec<String> = Vec::new();
    let n = normalize_specs(&specs).unwrap();
    assert!(n.is_empty());
}
