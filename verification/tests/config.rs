use std::collections::BTreeMap;
use std::fmt;

use serde::de::{Deserialize, Deserializer, MapAccess, Visitor};
use stask::command::{id, Context};
use stask::config::{
    config_path_from, default_footer, parse, Config, ConfigFile, Error, KeySpecs, DEFAULT_CONFIG,
};
use stask::key::{Key, KeySeq};
use stask::keymap::{Keymap, Lookup};
use stask::keyspec::ParseError;

const FIELDS: &[&str] = &["footer", "db_path", "keymap"];

/// A single key sequence or several, as TOML holds them.
struct Specs(KeySpecs);

impl<'de> Deserialize<'de> for Specs {
    fn deserialize<D: Deserializer<'de>>(d: D) -> Result<Self, D::Error> {
        match toml::Value::deserialize(d)? {
            toml::Value::String(spec) => Ok(Specs(KeySpecs::One(spec))),
            toml::Value::Array(items) => {
                let mut specs = Vec::new();
                for item in items {
                    match item {
                        toml::Value::String(spec) => specs.push(spec),
                        _ => return Err(serde::de::Error::custom("a string is expected")),
                    }
                }
                Ok(Specs(KeySpecs::Many(specs)))
            }
            _ => Err(serde::de::Error::custom("a string or a list is expected")),
        }
    }
}

/// The configuration file, as TOML holds it.
struct File(ConfigFile);

struct FileVisitor;

impl<'de> Visitor<'de> for FileVisitor {
    type Value = File;

    fn expecting(&self, f: &mut fmt::Formatter) -> fmt::Result {
        f.write_str("a configuration")
    }

    fn visit_map<A: MapAccess<'de>>(self, mut map: A) -> Result<File, A::Error> {
        let mut file = ConfigFile {
            footer: default_footer(),
            db_path: None,
            keymap: Vec::new(),
        };
        while let Some(name) = map.next_key::<String>()? {
            match name.as_str() {
                "footer" => file.footer = map.next_value()?,
                "db_path" => file.db_path = Some(map.next_value()?),
                "keymap" => {
                    let contexts: BTreeMap<String, BTreeMap<String, Specs>> = map.next_value()?;
                    for (context, overrides) in contexts {
                        let overrides = overrides.into_iter().map(|(id, s)| (id, s.0)).collect();
                        file.keymap.push((context, overrides));
                    }
                }
                _ => return Err(serde::de::Error::unknown_field(&name, FIELDS)),
            }
        }
        Ok(File(file))
    }
}

impl<'de> Deserialize<'de> for File {
    fn deserialize<D: Deserializer<'de>>(d: D) -> Result<Self, D::Error> {
        d.deserialize_struct("ConfigFile", FIELDS, FileVisitor)
    }
}

/// Reads config text the way the program does.
fn parse_text(text: &str) -> Result<Config, Error> {
    let read = toml::from_str::<File>(text);
    parse(read.map(|file| file.0).map_err(|e| e.to_string()))
}

// Tests that the shipped default config is valid and changes nothing.
// Given: the commented default config text
// When: it is parsed
// Then: the footer is on and the keymap matches the built-in default
//       (spot-checked on a binding)
#[test]
fn default_config_parses_to_defaults() {
    let config = parse_text(DEFAULT_CONFIG).expect("default config must parse");

    assert!(config.footer);
    assert_eq!(
        config
            .keymap
            .lookup(Context::Tree, KeySeq::chars("D").as_slice()),
        Lookup::Match(id::TASK_DELETE)
    );
}

// Tests the footer flag.
// Given: a config with footer = false
// When: it is parsed
// Then: the flag comes through
#[test]
fn footer_flag_is_read() {
    let config = parse_text("footer = false\n").unwrap();

    assert!(!config.footer);
}

// Tests a single-string keymap override.
// Given: a config rebinding task.delete to "D" in the tree context
// When: it is parsed
// Then: "D" fires delete and the default "d" no longer resolves
//       (an override replaces the default bindings)
#[test]
fn override_replaces_default_binding() {
    let config = parse_text("[keymap.tree]\n\"task.delete\" = \"D\"\n").unwrap();

    assert_eq!(
        config
            .keymap
            .lookup(Context::Tree, KeySeq::chars("D").as_slice()),
        Lookup::Match(id::TASK_DELETE)
    );
    assert_eq!(
        config
            .keymap
            .lookup(Context::Tree, KeySeq::chars("d").as_slice()),
        Lookup::Miss
    );
}

// Tests an array override with special-key notation.
// Given: a config giving task.toggle_expand both <tab> and "z"
// When: it is parsed
// Then: both sequences fire the command
#[test]
fn override_accepts_multiple_sequences_and_notation() {
    let config = parse_text("[keymap.tree]\n\"task.toggle_expand\" = [\"<tab>\", \"z\"]\n").unwrap();

    assert_eq!(
        config.keymap.lookup(Context::Tree, &[Key::Tab]),
        Lookup::Match(id::TOGGLE_EXPAND)
    );
    assert_eq!(
        config.keymap.lookup(Context::Tree, &[Key::Char('z')]),
        Lookup::Match(id::TOGGLE_EXPAND)
    );
}

// Tests rejection of an unknown context table.
// Given: a config with [keymap.treee] (typo)
// When: it is parsed
// Then: it fails with UnknownContext naming the typo
#[test]
fn unknown_context_is_rejected() {
    let err = parse_text("[keymap.treee]\n\"task.delete\" = \"D\"\n").unwrap_err();

    assert!(matches!(err, Error::UnknownContext(name) if name == "treee"));
}

// Tests rejection of an unknown command id, including an id that
// exists but in a different context.
// Given: configs binding a nonexistent id and a query-context id
//        under [keymap.tree]
// When: they are parsed
// Then: both fail with UnknownCommand naming context and id
#[test]
fn unknown_command_is_rejected() {
    let err = parse_text("[keymap.tree]\n\"task.explode\" = \"D\"\n").unwrap_err();
    assert!(
        matches!(&err, Error::UnknownCommand { context, id } if context == "tree" && id == "task.explode")
    );

    let err = parse_text("[keymap.tree]\n\"query.jump\" = \"D\"\n").unwrap_err();
    assert!(matches!(&err, Error::UnknownCommand { id, .. } if id == "query.jump"));
}

// Tests rejection of a malformed key sequence.
// Given: a config binding task.delete to the unclosed spec "<del"
// When: it is parsed
// Then: it fails with InvalidKeySpec carrying the parse error as its
//       source, so the cause chain explains the notation problem
#[test]
fn invalid_key_sequence_is_rejected() {
    let err = parse_text("[keymap.tree]\n\"task.delete\" = \"<del\"\n").unwrap_err();

    let Error::InvalidKeySpec { id, spec, source } = err else {
        panic!("expected InvalidKeySpec, got {err:?}");
    };
    assert_eq!(id, "task.delete");
    assert_eq!(spec, "<del");
    assert_eq!(
        source,
        ParseError::UnclosedAngle("<del".to_string())
    );
}

// Tests rejection of two commands sharing one sequence in a context.
// Given: a config rebinding task.delete to "u", which app.undo
//        already uses in the tree context
// When: it is parsed
// Then: it fails with DuplicateBinding naming the sequence and both
//       command ids
#[test]
fn duplicate_sequence_in_context_is_rejected() {
    let err = parse_text("[keymap.tree]\n\"task.delete\" = \"u\"\n").unwrap_err();

    let Error::DuplicateBinding {
        context,
        keys,
        first,
        second,
    } = err
    else {
        panic!("expected DuplicateBinding, got {err:?}");
    };
    assert_eq!(context, "tree");
    assert_eq!(keys, "u");
    let mut pair = [first, second];
    pair.sort_unstable();
    assert_eq!(pair, [id::UNDO, id::TASK_DELETE]);
}

// Tests rejection of mode-consumed command ids.
// Given: configs rebinding input.confirm and status.cancel, whose
//        keys the modes consume directly (the binding only feeds the
//        hint displays)
// When: they are parsed
// Then: both fail with NotOverridable instead of silently showing
//       keys that would not work
#[test]
fn mode_consumed_commands_cannot_be_rebound() {
    let err = parse_text("[keymap.input]\n\"input.confirm\" = \"<tab>\"\n").unwrap_err();
    assert!(matches!(&err, Error::NotOverridable(id) if id == "input.confirm"));

    let err = parse_text("[keymap.status_select]\n\"status.cancel\" = \"q\"\n").unwrap_err();
    assert!(matches!(&err, Error::NotOverridable(id) if id == "status.cancel"));
}

// Tests that config syntax errors surface as Parse errors.
// Given: a config with broken TOML and one with an unknown top-level
//        field (a likely typo)
// When: they are parsed
// Then: both fail with Parse
#[test]
fn broken_toml_is_rejected() {
    assert!(matches!(parse_text("footer = \n").unwrap_err(), Error::Parse(_)));
    assert!(matches!(
        parse_text("foter = true\n").unwrap_err(),
        Error::Parse(_)
    ));
}

// Tests the XDG config path resolution.
// Given: both, only $HOME, and neither of the path variables
// When: the config path is resolved
// Then: $XDG_CONFIG_HOME wins, $HOME falls back to ~/.config, and
//       nothing set is an error
#[test]
fn config_path_prefers_xdg_then_home() {
    assert_eq!(
        config_path_from(Some("/xdg"), Some("/home/u")).unwrap(),
        "/xdg/stask/config.toml"
    );
    assert_eq!(
        config_path_from(None, Some("/home/u")).unwrap(),
        "/home/u/.config/stask/config.toml"
    );
    assert!(matches!(
        config_path_from(None, None).unwrap_err(),
        Error::HomeNotSet
    ));
}

// What the reader says of a file it refuses becomes the cause of the error.
#[test]
fn the_cause_of_a_refusal_is_what_the_reader_said() {
    let err = parse(Err("line 3: no".to_string())).unwrap_err();
    assert_eq!(err.message(), "invalid config syntax");
    assert_eq!(err.cause().as_deref(), Some("line 3: no"));

    let err = parse_text("foter = true\n").unwrap_err();
    let cause = err.cause().unwrap();
    assert!(cause.contains("unknown field `foter`"), "{cause}");

    for text in ["footer = 1\n", "db_path = true\n", "keymap = 1\n", "[keymap.tree]\n\"a\" = 1\n"] {
        assert!(matches!(parse_text(text), Err(Error::Parse(_))), "{text}");
    }
}

// A file without overrides leaves everything as it is by default.
#[test]
fn an_empty_file_stands_for_the_defaults() {
    let config = parse_text("").unwrap();
    assert!(config.footer);
    assert_eq!(config.db_path, None);
    assert_eq!(config.keymap.bindings().len(), Keymap::default().bindings().len());

    let config = parse_text("db_path = \"~/t.db\"\nfooter = false\n").unwrap();
    assert!(!config.footer);
    assert_eq!(config.db_path.as_deref(), Some("~/t.db"));
}

// Errors come in the order of the names.
#[test]
fn the_first_refused_override_is_reported() {
    let text = "[keymap.tree]\n\"task.zzz\" = \"a\"\n\"task.aaa\" = \"b\"\n[keymap.nowhere]\n";
    assert!(matches!(parse_text(text), Err(Error::UnknownContext(name)) if name == "nowhere"));

    let text = "[keymap.tree]\n\"task.zzz\" = \"a\"\n\"task.aaa\" = \"b\"\n";
    assert!(matches!(parse_text(text), Err(Error::UnknownCommand { id, .. }) if id == "task.aaa"));
}
