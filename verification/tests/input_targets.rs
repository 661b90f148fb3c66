use fuckport::input::{parse_target, parse_targets, Target};

#[test]
fn parses_mixed_targets() {
    let parsed = parse_targets(&["1234".to_string(), ":3000".to_string(), "node".to_string()]);

    assert!(matches!(parsed[0], Target::Pid(pid) if pid == 1234));
    assert!(matches!(parsed[1], Target::Port(3000)));
    assert!(matches!(parsed[2], Target::Name(ref name) if name == "node"));
}

#[test]
fn keeps_invalid_port_like_input_as_name() {
    let parsed = parse_targets(&[":abc".to_string()]);
    assert!(matches!(parsed[0], Target::Name(ref name) if name == ":abc"));
}

#[test]
fn port_out_of_range_is_a_name() {
    assert!(matches!(parse_target(":65536"), Target::Name(ref n) if n == ":65536"));
    assert!(matches!(parse_target(":65535"), Target::Port(65535)));
    assert!(matches!(parse_target(":0"), Target::Port(0)));
}

#[test]
fn pid_bounds_follow_u32() {
    assert!(matches!(parse_target("4294967295"), Target::Pid(4294967295)));
    assert!(matches!(parse_target("4294967296"), Target::Name(ref n) if n == "4294967296"));
    assert!(matches!(parse_target("99999999999999999999999"), Target::Name(_)));
}

#[test]
fn sign_and_empty_inputs() {
    assert!(matches!(parse_target("+42"), Target::Pid(42)));
    assert!(matches!(parse_target(":+80"), Target::Port(80)));
    assert!(matches!(parse_target("-5"), Target::Name(ref n) if n == "-5"));
    assert!(matches!(parse_target("+"), Target::Name(ref n) if n == "+"));
    assert!(matches!(parse_target(""), Target::Name(ref n) if n.is_empty()));
    assert!(matches!(parse_target(":"), Target::Name(ref n) if n == ":"));
    assert!(matches!(parse_target("::1"), Target::Name(ref n) if n == "::1"));
    assert!(matches!(parse_target("007"), Target::Pid(7)));
    assert!(matches!(parse_target(" 12"), Target::Name(_)));
}

#[test]
fn non_ascii_names_are_kept() {
    assert!(matches!(parse_target("café"), Target::Name(ref n) if n == "café"));
    assert!(matches!(parse_target("١٢"), Target::Name(ref n) if n == "١٢"));
}

#[test]
fn order_and_count_are_kept() {
    let parsed = parse_targets(&[]);
    assert!(parsed.is_empty());
    let parsed = parse_targets(&["a".to_string(), "1".to_string(), ":2".to_string(), "b".to_string()]);
    assert_eq!(parsed.len(), 4);
    assert!(matches!(parsed[0], Target::Name(ref n) if n == "a"));
    assert!(matches!(parsed[1], Target::Pid(1)));
    assert!(matches!(parsed[2], Target::Port(2)));
    assert!(matches!(parsed[3], Target::Name(ref n) if n == "b"));
}
