use stask::key::{Key, KeySeq};
use stask::keyspec::{format_key, format_seq, parse_seq, ParseError};

// Tests formatting of plain character sequences.
// Given: the sequences "gg" and "?" built from plain characters
// When: they are formatted
// Then: the characters concatenate with no separators or brackets
#[test]
fn plain_characters_concatenate() {
    assert_eq!(format_seq(&KeySeq::chars("gg")), "gg");
    assert_eq!(format_seq(&KeySeq::chars("?")), "?");
}

// Tests the notation of every special key.
// Given: each non-character key and an Alt chord
// When: each is formatted
// Then: it renders as its bracketed lowercase name
#[test]
fn special_keys_use_bracketed_names() {
    assert_eq!(format_key(&Key::Enter), "<enter>");
    assert_eq!(format_key(&Key::Esc), "<esc>");
    assert_eq!(format_key(&Key::Backspace), "<backspace>");
    assert_eq!(format_key(&Key::Tab), "<tab>");
    assert_eq!(format_key(&Key::Left), "<left>");
    assert_eq!(format_key(&Key::Right), "<right>");
    assert_eq!(format_key(&Key::Alt('j')), "<alt-j>");
    assert_eq!(format_key(&Key::Ctrl('d')), "<ctrl-d>");
}

// Tests the notation of the `<` character itself.
// Given: the key `<` (bound to outdent by default) and the plain `>`
// When: they are formatted
// Then: `<` becomes its name form `<lt>` while `>` stays literal,
//       because only `<` can start a bracketed name
#[test]
fn literal_angle_brackets() {
    assert_eq!(format_key(&Key::Char('<')), "<lt>");
    assert_eq!(format_key(&Key::Char('>')), ">");
}

// Tests that parsing inverts formatting for representative sequences.
// Given: sequences covering plain chars, every special key, an Alt
//        chord and the `<lt>` name form
// When: each is formatted and parsed back
// Then: the original sequence is recovered exactly
#[test]
fn parse_inverts_format() {
    let seqs = [
        KeySeq::chars("gg"),
        KeySeq::chars("<"),
        KeySeq::chars(">"),
        KeySeq::from(Key::Enter),
        KeySeq::from(Key::Esc),
        KeySeq::from(Key::Backspace),
        KeySeq::from(Key::Tab),
        KeySeq::from(Key::Left),
        KeySeq::from(Key::Right),
        KeySeq::from(Key::Alt('x')),
        KeySeq::from(Key::Ctrl('u')),
        KeySeq::from_keys(vec![Key::Char('g'), Key::Tab, Key::Alt('j')]),
    ];

    for seq in seqs {
        assert_eq!(parse_seq(&format_seq(&seq)), Ok(seq.clone()), "{seq:?}");
    }
}

// Tests parsing of a mixed multi-key spec written by hand.
// Given: the spec "g<tab><alt-j>"
// When: it is parsed
// Then: it yields the plain char, the special key and the Alt chord
#[test]
fn parse_reads_mixed_notation() {
    assert_eq!(
        parse_seq("g<tab><alt-j>"),
        Ok(KeySeq::from_keys(vec![
            Key::Char('g'),
            Key::Tab,
            Key::Alt('j')
        ]))
    );
}

// Tests rejection of malformed specs.
// Given: an empty spec, an unclosed `<`, an unknown name, and Alt
//        names with zero or several characters
// When: each is parsed
// Then: each yields its specific error instead of guessing
#[test]
fn parse_rejects_malformed_specs() {
    assert_eq!(parse_seq(""), Err(ParseError::Empty));
    assert_eq!(
        parse_seq("a<enter"),
        Err(ParseError::UnclosedAngle("a<enter".to_string()))
    );
    assert_eq!(
        parse_seq("<return>"),
        Err(ParseError::UnknownName("return".to_string()))
    );
    assert_eq!(
        parse_seq("<alt->"),
        Err(ParseError::UnknownName("alt-".to_string()))
    );
    assert_eq!(
        parse_seq("<alt-jk>"),
        Err(ParseError::UnknownName("alt-jk".to_string()))
    );
    assert_eq!(
        parse_seq("<ctrl->"),
        Err(ParseError::UnknownName("ctrl-".to_string()))
    );
    assert_eq!(
        parse_seq("<ctrl-jk>"),
        Err(ParseError::UnknownName("ctrl-jk".to_string()))
    );
}
