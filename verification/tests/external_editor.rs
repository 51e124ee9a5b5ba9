use stask::external_editor::{outcome, parse_editor, EditOutcome};

// Tests splitting an $EDITOR value with arguments.
// Given: EDITOR set to "code --wait"
// When: parse_editor runs
// Then: the command is "code" and the arguments are ["--wait"]
#[test]
fn parse_editor_splits_command_and_arguments() {
    let (command, args) = parse_editor(Some("code --wait"));

    assert_eq!(command, "code");
    assert_eq!(args, ["--wait"]);
}

// Tests the fallback when $EDITOR is unset or blank.
// Given: no EDITOR value, and a whitespace-only one
// When: parse_editor runs on each
// Then: both fall back to plain "hx" with no arguments
#[test]
fn parse_editor_falls_back_to_hx() {
    for value in [None, Some("   ")] {
        let (command, args) = parse_editor(value);

        assert_eq!(command, "hx");
        assert!(args.is_empty());
    }
}

// Tests a single-word $EDITOR value.
// Given: EDITOR set to "vim"
// When: parse_editor runs
// Then: the command is "vim" with no arguments
#[test]
fn parse_editor_handles_single_word() {
    let (command, args) = parse_editor(Some("vim"));

    assert_eq!(command, "vim");
    assert!(args.is_empty());
}

// Tests the unchanged-content decision.
// Given: edited text byte-identical to the original
// When: outcome runs
// Then: the result is Unchanged, so the caller writes nothing
#[test]
fn identical_text_is_unchanged() {
    let result = outcome("# note\n", "# note\n".to_string());

    assert_eq!(result, EditOutcome::Unchanged);
}

// Tests the changed-content decision.
// Given: edited text differing from the original
// When: outcome runs
// Then: the result carries the edited text
#[test]
fn modified_text_is_changed() {
    let result = outcome("# note\n", "# note\nmore\n".to_string());

    assert_eq!(result, EditOutcome::Changed("# note\nmore\n".to_string()));
}
