use weaver::outcome::OutcomeKind;

#[test]
fn outcome_kind_serializes_as_required_names() {
    assert_eq!(OutcomeKind::Success.to_wire(), "SUCCESS");
    assert_eq!(OutcomeKind::Failure.to_wire(), "FAILURE");
    assert_eq!(OutcomeKind::Blocked.to_wire(), "BLOCKED");
}

#[test]
fn outcome_kind_wire_round_trip() {
    for kind in [OutcomeKind::Success, OutcomeKind::Failure, OutcomeKind::Blocked] {
        let wire = kind.to_wire();
        assert_eq!(OutcomeKind::from_wire(&wire), Some(kind));
    }
    assert_eq!(OutcomeKind::from_wire("success"), None);
    assert_eq!(OutcomeKind::from_wire(""), None);
}
