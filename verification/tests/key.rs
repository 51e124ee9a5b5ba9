use ratatui::crossterm::event;
use stask::key::{key_from_event, Key, KeyCode, KeyEvent};

/// The terminal's key event as the library takes it.
fn converted(event: &event::KeyEvent) -> Option<Key> {
    let code = match event.code {
        event::KeyCode::Char(c) => KeyCode::Char(c),
        event::KeyCode::Enter => KeyCode::Enter,
        event::KeyCode::Esc => KeyCode::Esc,
        event::KeyCode::Backspace => KeyCode::Backspace,
        event::KeyCode::Tab => KeyCode::Tab,
        event::KeyCode::Left => KeyCode::Left,
        event::KeyCode::Right => KeyCode::Right,
        event::KeyCode::Up => KeyCode::Up,
        event::KeyCode::Down => KeyCode::Down,
        _ => KeyCode::Other,
    };
    key_from_event(&KeyEvent {
        code,
        control: event.modifiers.contains(event::KeyModifiers::CONTROL),
        alt: event.modifiers.contains(event::KeyModifiers::ALT),
    })
}

// Tests that shifted character keys survive the event conversion.
// Given: a crossterm key event for Shift+j, which the backend delivers
//        as the uppercase char 'J' with the SHIFT modifier set
// When: converting it through key_from_event
// Then: it becomes Key::Char('J') so uppercase bindings can fire
#[test]
fn shifted_char_passes_through_as_uppercase() {
    let event = event::KeyEvent::new(event::KeyCode::Char('J'), event::KeyModifiers::SHIFT);

    assert_eq!(converted(&event), Some(Key::Char('J')));
}

// Tests that Ctrl + character chords become their own key kind.
// Given: a key event for Ctrl+d
// When: converting it through key_from_event
// Then: it becomes Key::Ctrl('d'), distinct from the plain character,
//       so Ctrl bindings can fire without leaking 'd' into text inputs
#[test]
fn ctrl_char_chord_becomes_ctrl_key() {
    let ctrl = event::KeyEvent::new(event::KeyCode::Char('d'), event::KeyModifiers::CONTROL);

    assert_eq!(converted(&ctrl), Some(Key::Ctrl('d')));
}

// Tests that Ctrl chords normalise their character to lowercase.
// Given: a key event for Ctrl+Shift+u, which some terminals deliver as
//        the uppercase char 'U' with CONTROL set
// When: converting it through key_from_event
// Then: it becomes Key::Ctrl('u') so a <ctrl-u> binding fires either way
#[test]
fn ctrl_chord_char_is_lowercased() {
    let ctrl = event::KeyEvent::new(
        event::KeyCode::Char('U'),
        event::KeyModifiers::CONTROL | event::KeyModifiers::SHIFT,
    );

    assert_eq!(converted(&ctrl), Some(Key::Ctrl('u')));
}

// Tests that Ctrl combined with a non-character key stays rejected.
// Given: a key event for Ctrl+Enter
// When: converting it through key_from_event
// Then: it yields None (only Ctrl+character chords are meaningful here)
#[test]
fn ctrl_non_char_chord_is_dropped() {
    let ctrl = event::KeyEvent::new(event::KeyCode::Enter, event::KeyModifiers::CONTROL);

    assert_eq!(converted(&ctrl), None);
}

// Tests that Alt + character chords become their own key kind.
// Given: a key event for Alt+j
// When: converting it through key_from_event
// Then: it becomes Key::Alt('j'), distinct from the plain character, so
//       Alt bindings can fire without leaking 'j' into text inputs
#[test]
fn alt_char_chord_becomes_alt_key() {
    let alt = event::KeyEvent::new(event::KeyCode::Char('j'), event::KeyModifiers::ALT);

    assert_eq!(converted(&alt), Some(Key::Alt('j')));
}

// Tests that Alt combined with a non-character key stays rejected.
// Given: a key event for Alt+Enter
// When: converting it through key_from_event
// Then: it yields None (only Alt+character chords are meaningful here)
#[test]
fn alt_non_char_chord_is_dropped() {
    let alt = event::KeyEvent::new(event::KeyCode::Enter, event::KeyModifiers::ALT);

    assert_eq!(converted(&alt), None);
}

// Tests that Ctrl+Alt chords are rejected even though Alt alone passes.
// Given: a key event for Ctrl+Alt+j
// When: converting it through key_from_event
// Then: it yields None (Ctrl still disqualifies the chord)
#[test]
fn ctrl_alt_chord_is_dropped() {
    let both = event::KeyEvent::new(
        event::KeyCode::Char('j'),
        event::KeyModifiers::CONTROL | event::KeyModifiers::ALT,
    );

    assert_eq!(converted(&both), None);
}
