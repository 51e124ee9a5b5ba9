use stask::status::StatusKind;

// Tests the round trip between StatusKind and its stored text form.
// Given: each StatusKind variant
// When: it is rendered to text and parsed back
// Then: the original variant comes back
#[test]
fn kind_round_trips_through_text() {
    for kind in [StatusKind::Open, StatusKind::Done, StatusKind::Cancelled] {
        assert_eq!(StatusKind::parse(kind.as_str()), Some(kind));
    }
}

// Tests parsing an unknown kind text.
// Given: strings that are no valid kind ("in_progress", "", "Open")
// When: they are parsed
// Then: parsing yields None instead of guessing a variant
#[test]
fn parse_rejects_unknown_kind_text() {
    assert_eq!(StatusKind::parse("in_progress"), None);
    assert_eq!(StatusKind::parse(""), None);
    assert_eq!(StatusKind::parse("Open"), None);
}
