//! The user configuration: footer visibility, database location and keymap
//! overrides. An override replaces the command's default bindings, so the
//! footer and the help list follow it (they render from the keymap).
use vstd::prelude::*;

use crate::command;
use crate::command::{Command, CommandId, CommandV, Context};
use crate::defaults;
use crate::key::{Key, KeySeq};
use crate::keymap;
use crate::keymap::{BindingV, Keymap};
use crate::keyspec;
use crate::keyspec::{ParseError, ParseErrorV};
use crate::text;
use crate::text::same;

verus! {

/// Written on first start so the file documents itself.
pub const DEFAULT_CONFIG: &'static str = "# stask configuration.

# Show the one-line key hints at the bottom (toggled at runtime with \\).
footer = true

# Where the task database file lives. A leading ~ is expanded.
# db_path = \"~/Dropbox/stask/tasks.db\"

# Key overrides. One table per context (tree, query, help, input,
# status_select, status_manage, filter_select, sort_select); keys are
# command ids as shown in the ? help, values are a key sequence or a
# list of key sequences, replacing that command's default keys.
# Plain characters concatenate (\"gg\"); special keys are written <tab>
# <enter> <esc> <backspace> <left> <right> <up> <down> <alt-x> <ctrl-x>;
# a literal < is <lt>.
#
# [keymap.tree]
# \"task.delete\" = \"x\"
# \"tree.select_first\" = [\"gg\", \"<alt-g>\"]
";

/// A single key sequence or several alternatives for one command.
#[derive(Debug)]
pub enum KeySpecs {
    One(String),
    Many(Vec<String>),
}

/// The overrides of one context: key sequences by command id.
pub type Overrides = Vec<(String, KeySpecs)>;

/// The configuration file as it was read: the flag, the database path if it
/// gives one, and the overrides by context name. Contexts, and the ids in
/// each, stand in the order of their names.
#[derive(Debug)]
pub struct ConfigFile {
    pub footer: bool,
    pub db_path: Option<String>,
    pub keymap: Vec<(String, Overrides)>,
}

/// The footer is shown unless the file says otherwise.
pub fn default_footer() -> (r: bool)
    ensures
        r,
{
    true
}

#[derive(Debug)]
pub enum Error {
    /// The file is not TOML, or not of the expected shape; with what the
    /// reader said of it.
    Parse(String),
    UnknownContext(String),
    UnknownCommand { context: String, id: String },
    NotOverridable(String),
    InvalidKeySpec { id: String, spec: String, source: ParseError },
    DuplicateBinding { context: String, keys: String, first: CommandId, second: CommandId },
    HomeNotSet,
}

/// An error as plain values.
#[verifier::ext_equal]
pub enum ErrorV {
    Parse(Seq<char>),
    UnknownContext(Seq<char>),
    UnknownCommand { context: Seq<char>, id: Seq<char> },
    NotOverridable(Seq<char>),
    InvalidKeySpec { id: Seq<char>, spec: Seq<char>, source: ParseErrorV },
    DuplicateBinding { context: Seq<char>, keys: Seq<char>, first: CommandId, second: CommandId },
    HomeNotSet,
}

impl View for Error {
    type V = ErrorV;

    open spec fn view(&self) -> ErrorV {
        match *self {
            Error::Parse(detail) => ErrorV::Parse(detail@),
            Error::UnknownContext(name) => ErrorV::UnknownContext(name@),
            Error::UnknownCommand { context, id } => ErrorV::UnknownCommand {
                context: context@,
                id: id@,
            },
            Error::NotOverridable(id) => ErrorV::NotOverridable(id@),
            Error::InvalidKeySpec { id, spec, source } => ErrorV::InvalidKeySpec {
                id: id@,
                spec: spec@,
                source: source@,
            },
            Error::DuplicateBinding { context, keys, first, second } => ErrorV::DuplicateBinding {
                context: context@,
                keys: keys@,
                first,
                second,
            },
            Error::HomeNotSet => ErrorV::HomeNotSet,
        }
    }
}

impl ErrorV {
    /// The message shown for an error.
    pub open spec fn message(self) -> Seq<char> {
        match self {
            ErrorV::Parse(_) => "invalid config syntax"@,
            ErrorV::UnknownContext(name) => "unknown keymap context `"@ + name
                + "` (valid: tree, query, help, input, status_select, status_manage, filter_select, sort_select)"@,
            ErrorV::UnknownCommand { context, id } => "no command `"@ + id + "` in context `"@
                + context + "` (see the ? help for ids)"@,
            ErrorV::NotOverridable(id) => "`"@ + id
                + "` cannot be rebound: its keys are handled by the mode itself, not the keymap"@,
            ErrorV::InvalidKeySpec { id, spec, source } => "invalid key sequence `"@ + spec
                + "` for `"@ + id + "`"@,
            ErrorV::DuplicateBinding { context, keys, first, second } =>
            "duplicate binding in context `"@ + context + "`: `"@ + keys + "` is bound to both `"@
                + first.text() + "` and `"@ + second.text() + "`"@,
            ErrorV::HomeNotSet =>
            "cannot locate the config directory: neither $XDG_CONFIG_HOME nor $HOME is set"@,
        }
    }
}

impl Error {
    pub fn message(&self) -> (r: String)
        ensures
            r@ == self@.message(),
    {
        match self {
            Error::Parse(_) => "invalid config syntax".to_owned(),
            Error::UnknownContext(name) => text::concat3(
                "unknown keymap context `",
                name.as_str(),
                "` (valid: tree, query, help, input, status_select, status_manage, filter_select, sort_select)",
            ),
            Error::UnknownCommand { context, id } => text::concat5(
                "no command `",
                id.as_str(),
                "` in context `",
                context.as_str(),
                "` (see the ? help for ids)",
            ),
            Error::NotOverridable(id) => text::concat3(
                "`",
                id.as_str(),
                "` cannot be rebound: its keys are handled by the mode itself, not the keymap",
            ),
            Error::InvalidKeySpec { id, spec, source } => text::concat5(
                "invalid key sequence `",
                spec.as_str(),
                "` for `",
                id.as_str(),
                "`",
            ),
            Error::DuplicateBinding { context, keys, first, second } => {
                let mut s = text::concat5(
                    "duplicate binding in context `",
                    context.as_str(),
                    "`: `",
                    keys.as_str(),
                    "` is bound to both `",
                );
                s.append(first.as_str());
                s.append("` and `");
                s.append(second.as_str());
                s.append("`");
                s
            },
            Error::HomeNotSet =>
            "cannot locate the config directory: neither $XDG_CONFIG_HOME nor $HOME is set".to_owned(),
        }
    }

    /// What lies behind the error, where there is more to say.
    pub fn cause(&self) -> (r: Option<String>)
        ensures
            match *self {
                Error::Parse(detail) => r matches Some(s) && s@ == detail@,
                Error::InvalidKeySpec { id, spec, source } => r matches Some(s) && s@ == (
                match source@ {
                    ParseErrorV::Empty => "empty key sequence"@,
                    ParseErrorV::UnclosedAngle(t) => "unclosed `<` in `"@ + t
                        + "` (write a literal `<` as `<lt>`)"@,
                    ParseErrorV::UnknownName(t) => "unknown key name `<"@ + t + ">`"@,
                }),
                _ => r is None,
            },
    {
        match self {
            Error::Parse(detail) => Some(detail.clone()),
            Error::InvalidKeySpec { id, spec, source } => Some(source.message()),
            _ => None,
        }
    }
}

/// The validated configuration: the flag, where the database lives if the
/// user says so, and the fully merged keymap.
#[derive(Debug)]
pub struct Config {
    pub footer: bool,
    pub db_path: Option<String>,
    pub keymap: Keymap,
}

/// A configuration as plain values.
#[verifier::ext_equal]
pub struct ConfigV {
    pub footer: bool,
    pub db_path: Option<Seq<char>>,
    pub bindings: Seq<BindingV>,
}

impl View for Config {
    type V = ConfigV;

    open spec fn view(&self) -> ConfigV {
        ConfigV {
            footer: self.footer,
            db_path: crate::task::text_option(self.db_path),
            bindings: self.keymap@,
        }
    }
}

pub open spec fn config_result(r: Result<Config, Error>) -> Result<ConfigV, ErrorV> {
    match r {
        Ok(config) => Ok(config@),
        Err(e) => Err(e@),
    }
}

/// The key sequences of an override, as written.
pub open spec fn specs_of(specs: KeySpecs) -> Seq<Seq<char>> {
    match specs {
        KeySpecs::One(spec) => seq![spec@],
        KeySpecs::Many(specs) => text::texts(specs@),
    }
}

/// Commands whose keys the active mode consumes directly (text input,
/// one-key menus). Rebinding them would change the displays but not the
/// behaviour, so the config refuses them instead of lying.
pub open spec fn is_fixed(id: CommandId) -> bool {
    match id {
        CommandId::InputConfirm => true,
        CommandId::InputCancel => true,
        CommandId::StatusCancel => true,
        CommandId::FilterCancel => true,
        CommandId::SortCancel => true,
        _ => false,
    }
}

/// The command of a context with this text form.
pub open spec fn command_named(commands: Seq<CommandV>, context: Context, id: Seq<char>) -> Option<
    CommandId,
>
    decreases commands.len(),
{
    if commands.len() == 0 {
        None
    } else if commands[0].context == context && commands[0].id.text() == id {
        Some(commands[0].id)
    } else {
        command_named(commands.drop_first(), context, id)
    }
}

/// The sequences an override asks for, or the first that cannot be read.
pub open spec fn sequences(id: Seq<char>, specs: Seq<Seq<char>>) -> Result<Seq<Seq<Key>>, ErrorV>
    decreases specs.len(),
{
    if specs.len() == 0 {
        Ok(seq![])
    } else {
        match sequences(id, specs.drop_last()) {
            Err(e) => Err(e),
            Ok(front) => match keyspec::parsed(specs.last()) {
                Ok(keys) => Ok(front.push(keys)),
                Err(source) => Err(ErrorV::InvalidKeySpec { id, spec: specs.last(), source }),
            },
        }
    }
}

/// The bindings after one override.
pub open spec fn with_override(
    bs: Seq<BindingV>,
    name: Seq<char>,
    context: Context,
    id: Seq<char>,
    specs: Seq<Seq<char>>,
) -> Result<Seq<BindingV>, ErrorV> {
    match command_named(command::command_table(), context, id) {
        None => Err(ErrorV::UnknownCommand { context: name, id }),
        Some(command) => if is_fixed(command) {
            Err(ErrorV::NotOverridable(id))
        } else {
            match sequences(id, specs) {
                Err(e) => Err(e),
                Ok(seqs) => Ok(keymap::rebound(bs, context, command, seqs)),
            }
        },
    }
}

/// The bindings after a context's overrides, in their order.
pub open spec fn with_overrides(
    bs: Seq<BindingV>,
    name: Seq<char>,
    context: Context,
    overrides: Seq<(String, KeySpecs)>,
) -> Result<Seq<BindingV>, ErrorV>
    decreases overrides.len(),
{
    if overrides.len() == 0 {
        Ok(bs)
    } else {
        match with_overrides(bs, name, context, overrides.drop_last()) {
            Err(e) => Err(e),
            Ok(front) => with_override(
                front,
                name,
                context,
                overrides.last().0@,
                specs_of(overrides.last().1),
            ),
        }
    }
}

/// The bindings after the overrides of each context, in their order.
pub open spec fn with_contexts(
    bs: Seq<BindingV>,
    contexts: Seq<(String, Overrides)>,
) -> Result<Seq<BindingV>, ErrorV>
    decreases contexts.len(),
{
    if contexts.len() == 0 {
        Ok(bs)
    } else {
        match with_contexts(bs, contexts.drop_last()) {
            Err(e) => Err(e),
            Ok(front) => match command::context_named(contexts.last().0@) {
                None => Err(ErrorV::UnknownContext(contexts.last().0@)),
                Some(context) => with_overrides(
                    front,
                    contexts.last().0@,
                    context,
                    contexts.last().1@,
                ),
            },
        }
    }
}

/// The error for two bindings that share a sequence.
pub open spec fn duplicate_error(a: BindingV, b: BindingV) -> ErrorV {
    ErrorV::DuplicateBinding {
        context: match command::context_name(a.context) {
            Some(name) => name,
            None => ""@,
        },
        keys: keyspec::seq_text(a.seq),
        first: a.command,
        second: b.command,
    }
}

/// The configuration a file stands for. Clashes are looked for in the merged
/// bindings, so an override clashing with an untouched default is caught too.
pub open spec fn configured(file: ConfigFile) -> Result<ConfigV, ErrorV> {
    match with_contexts(keymap::default_bindings(), file.keymap@) {
        Err(e) => Err(e),
        Ok(bindings) => match keymap::first_clash(bindings, 0) {
            Some((i, j)) => Err(duplicate_error(bindings[i], bindings[j])),
            None => Ok(
                ConfigV {
                    footer: file.footer,
                    db_path: crate::task::text_option(file.db_path),
                    bindings,
                },
            ),
        },
    }
}

/// The configuration that comes of reading a file: what the file stands for,
/// or what the reader said of it.
pub open spec fn read_as(read: Result<ConfigFile, String>) -> Result<ConfigV, ErrorV> {
    match read {
        Ok(file) => configured(file),
        Err(detail) => Err(ErrorV::Parse(detail@)),
    }
}

fn fixed(id: CommandId) -> (r: bool)
    ensures
        r == is_fixed(id),
{
    match id {
        CommandId::InputConfirm => true,
        CommandId::InputCancel => true,
        CommandId::StatusCancel => true,
        CommandId::FilterCancel => true,
        CommandId::SortCancel => true,
        _ => false,
    }
}

fn find_command(commands: &Vec<Command>, context: Context, id: &str) -> (r: Option<CommandId>)
    ensures
        r == command_named(command::commands_view(commands@), context, id@),
{
    let ghost all = command::commands_view(commands@);
    let mut i: usize = 0;
    assert(all.skip(0) =~= all);
    while i < commands.len()
        invariant
            i <= commands.len(),
            all == command::commands_view(commands@),
            command_named(all, context, id@) == command_named(all.skip(i as int), context, id@),
        decreases commands.len() - i,
    {
        assert(all.skip(i as int)[0] == commands@[i as int]@);
        assert(all.skip(i as int).drop_first() =~= all.skip(i + 1));
        if commands[i].context == context && same(commands[i].id.as_str(), id) {
            return Some(commands[i].id);
        }
        i = i + 1;
    }
    None
}

impl KeySpecs {
    fn specs(&self) -> (r: Vec<String>)
        ensures
            text::texts(r@) == specs_of(*self),
    {
        let mut r: Vec<String> = Vec::new();
        match self {
            KeySpecs::One(spec) => {
                r.push(spec.clone());
                assert(text::texts(r@) =~= seq![spec@]);
            },
            KeySpecs::Many(specs) => {
                let ghost all = text::texts(specs@);
                let mut i: usize = 0;
                assert(text::texts(r@) =~= all.take(0));
                while i < specs.len()
                    invariant
                        i <= specs.len(),
                        all == text::texts(specs@),
                        text::texts(r@) == all.take(i as int),
                    decreases specs.len() - i,
                {
                    let ghost before = text::texts(r@);
                    let spec = specs[i].clone();
                    assert(spec@ == all[i as int]);
                    r.push(spec);
                    assert(text::texts(r@) =~= before.push(spec@));
                    i = i + 1;
                    assert(text::texts(r@) =~= all.take(i as int));
                }
                assert(all.take(i as int) =~= all);
            },
        }
        r
    }
}

pub open spec fn seqs_result(r: Result<Vec<KeySeq>, Error>) -> Result<Seq<Seq<Key>>, ErrorV> {
    match r {
        Ok(seqs) => Ok(seqs@.map_values(|s: KeySeq| s@)),
        Err(e) => Err(e@),
    }
}

/// Reads the key sequences of an override.
fn read_sequences(id: &str, written: &Vec<String>) -> (r: Result<Vec<KeySeq>, Error>)
    ensures
        seqs_result(r) == sequences(id@, text::texts(written@)),
{
    let ghost all = text::texts(written@);
    let mut r: Vec<KeySeq> = Vec::new();
    let mut i: usize = 0;
    assert(all.take(0) =~= seq![]);
    assert(r@.map_values(|s: KeySeq| s@) =~= seq![]);
    while i < written.len()
        invariant
            i <= written.len(),
            all == text::texts(written@),
            sequences(id@, all.take(i as int)) == Ok::<Seq<Seq<Key>>, ErrorV>(
                r@.map_values(|s: KeySeq| s@),
            ),
        decreases written.len() - i,
    {
        assert(all.take(i + 1).drop_last() =~= all.take(i as int));
        assert(all.take(i + 1).last() == written@[i as int]@);
        match keyspec::parse_seq(written[i].as_str()) {
            Ok(keys) => {
                let ghost before = r@.map_values(|s: KeySeq| s@);
                r.push(keys);
                assert(r@.map_values(|s: KeySeq| s@) =~= before.push(keys@));
            },
            Err(source) => {
                let e = Error::InvalidKeySpec {
                    id: id.to_owned(),
                    spec: written[i].clone(),
                    source,
                };
                proof {
                    lemma_sequences_stop(id@, all, i + 1);
                }
                return Err(e);
            },
        }
        i = i + 1;
    }
    assert(all.take(i as int) =~= all);
    Ok(r)
}

proof fn lemma_sequences_stop(id: Seq<char>, specs: Seq<Seq<char>>, n: int)
    requires
        0 <= n <= specs.len(),
        sequences(id, specs.take(n)) is Err,
    ensures
        sequences(id, specs) == sequences(id, specs.take(n)),
    decreases specs.len() - n,
{
    if n < specs.len() {
        assert(specs.take(n + 1).drop_last() =~= specs.take(n));
        lemma_sequences_stop(id, specs, n + 1);
    } else {
        assert(specs.take(n) =~= specs);
    }
}

/// Applies one override to the keymap.
fn apply_override(
    keymap: &mut Keymap,
    commands: &Vec<Command>,
    name: &str,
    context: Context,
    id: &str,
    specs: &KeySpecs,
) -> (r: Result<(), Error>)
    requires
        command::commands_view(commands@) == command::command_table(),
    ensures
        match with_override(old(keymap)@, name@, context, id@, specs_of(*specs)) {
            Ok(bs) => r is Ok && final(keymap)@ == bs,
            Err(e) => r matches Err(f) && f@ == e,
        },
{
    match find_command(commands, context, id) {
        None => Err(Error::UnknownCommand { context: name.to_owned(), id: id.to_owned() }),
        Some(command) => {
            if fixed(command) {
                return Err(Error::NotOverridable(id.to_owned()));
            }
            match read_sequences(id, &specs.specs()) {
                Err(e) => Err(e),
                Ok(seqs) => {
                    keymap.rebind(context, command, seqs);
                    Ok(())
                },
            }
        },
    }
}

proof fn lemma_overrides_stop(
    bs: Seq<BindingV>,
    name: Seq<char>,
    context: Context,
    overrides: Seq<(String, KeySpecs)>,
    n: int,
)
    requires
        0 <= n <= overrides.len(),
        with_overrides(bs, name, context, overrides.take(n)) is Err,
    ensures
        with_overrides(bs, name, context, overrides) == with_overrides(
            bs,
            name,
            context,
            overrides.take(n),
        ),
    decreases overrides.len() - n,
{
    if n < overrides.len() {
        assert(overrides.take(n + 1).drop_last() =~= overrides.take(n));
        lemma_overrides_stop(bs, name, context, overrides, n + 1);
    } else {
        assert(overrides.take(n) =~= overrides);
    }
}

/// Applies the overrides of one context to the keymap.
fn apply_overrides(
    keymap: &mut Keymap,
    commands: &Vec<Command>,
    name: &str,
    context: Context,
    overrides: &Overrides,
) -> (r: Result<(), Error>)
    requires
        command::commands_view(commands@) == command::command_table(),
    ensures
        match with_overrides(old(keymap)@, name@, context, overrides@) {
            Ok(bs) => r is Ok && final(keymap)@ == bs,
            Err(e) => r matches Err(f) && f@ == e,
        },
{
    let ghost bs = keymap@;
    let mut i: usize = 0;
    assert(overrides@.take(0) =~= seq![]);
    while i < overrides.len()
        invariant
            i <= overrides.len(),
            bs == old(keymap)@,
            command::commands_view(commands@) == command::command_table(),
            with_overrides(bs, name@, context, overrides@.take(i as int)) == Ok::<
                Seq<BindingV>,
                ErrorV,
            >(keymap@),
        decreases overrides.len() - i,
    {
        assert(overrides@.take(i + 1).drop_last() =~= overrides@.take(i as int));
        match apply_override(
            keymap,
            commands,
            name,
            context,
            overrides[i].0.as_str(),
            &overrides[i].1,
        ) {
            Ok(()) => {},
            Err(e) => {
                proof {
                    lemma_overrides_stop(bs, name@, context, overrides@, i + 1);
                }
                return Err(e);
            },
        }
        i = i + 1;
    }
    assert(overrides@.take(i as int) =~= overrides@);
    Ok(())
}

proof fn lemma_contexts_stop(bs: Seq<BindingV>, contexts: Seq<(String, Overrides)>, n: int)
    requires
        0 <= n <= contexts.len(),
        with_contexts(bs, contexts.take(n)) is Err,
    ensures
        with_contexts(bs, contexts) == with_contexts(bs, contexts.take(n)),
    decreases contexts.len() - n,
{
    if n < contexts.len() {
        assert(contexts.take(n + 1).drop_last() =~= contexts.take(n));
        lemma_contexts_stop(bs, contexts, n + 1);
    } else {
        assert(contexts.take(n) =~= contexts);
    }
}

/// Applies every override to the keymap.
fn apply_contexts(keymap: &mut Keymap, contexts: &Vec<(String, Overrides)>) -> (r: Result<
    (),
    Error,
>)
    ensures
        match with_contexts(old(keymap)@, contexts@) {
            Ok(bs) => r is Ok && final(keymap)@ == bs,
            Err(e) => r matches Err(f) && f@ == e,
        },
{
    let commands = command::commands();
    let ghost bs = keymap@;
    let mut i: usize = 0;
    assert(contexts@.take(0) =~= seq![]);
    while i < contexts.len()
        invariant
            i <= contexts.len(),
            bs == old(keymap)@,
            command::commands_view(commands@) == command::command_table(),
            with_contexts(bs, contexts@.take(i as int)) == Ok::<Seq<BindingV>, ErrorV>(keymap@),
        decreases contexts.len() - i,
    {
        assert(contexts@.take(i + 1).drop_last() =~= contexts@.take(i as int));
        let name = contexts[i].0.as_str();
        let outcome = match command::context_from_name(name) {
            None => Err(Error::UnknownContext(name.to_owned())),
            Some(context) => apply_overrides(keymap, &commands, name, context, &contexts[i].1),
        };
        match outcome {
            Ok(()) => {},
            Err(e) => {
                proof {
                    lemma_contexts_stop(bs, contexts@, i + 1);
                }
                return Err(e);
            },
        }
        i = i + 1;
    }
    assert(contexts@.take(i as int) =~= contexts@);
    Ok(())
}

/// Validates a configuration file, as it was read, into a merged keymap.
pub fn parse(read: Result<ConfigFile, String>) -> (r: Result<Config, Error>)
    ensures
        config_result(r) == read_as(read),
{
    let file = match read {
        Ok(file) => file,
        Err(detail) => {
            return Err(Error::Parse(detail));
        },
    };
    let mut keymap = Keymap::default();
    match apply_contexts(&mut keymap, &file.keymap) {
        Ok(()) => {},
        Err(e) => {
            return Err(e);
        },
    }
    if let Some((context, seq, first, second)) = keymap.duplicate() {
        return Err(
            Error::DuplicateBinding {
                context: command::name_of_context(context).to_owned(),
                keys: keyspec::format_seq(seq),
                first,
                second,
            },
        );
    }
    Ok(Config { footer: file.footer, db_path: file.db_path, keymap })
}

/// A path below a directory.
pub open spec fn below(base: Seq<char>, name: Seq<char>) -> Seq<char> {
    if base.len() == 0 || base.last() == '/' {
        base + name
    } else {
        base + "/"@ + name
    }
}

fn join(base: &str, name: &str) -> (r: String)
    ensures
        r@ == below(base@, name@),
{
    let v = text::chars_of(base);
    let mut r = base.to_owned();
    if v.len() > 0 && v[v.len() - 1] != '/' {
        r.append("/");
    }
    r.append(name);
    r
}

pub open spec fn path_result(r: Result<String, Error>) -> Result<Seq<char>, ErrorV> {
    match r {
        Ok(path) => Ok(path@),
        Err(e) => Err(e@),
    }
}

/// Where the configuration file lives: `$XDG_CONFIG_HOME` wins, then
/// `~/.config`.
pub open spec fn config_place(
    xdg_config_home: Option<Seq<char>>,
    home: Option<Seq<char>>,
) -> Result<Seq<char>, ErrorV> {
    match (xdg_config_home, home) {
        (Some(xdg), _) => Ok(below(below(xdg, "stask"@), "config.toml"@)),
        (None, Some(home)) => Ok(below(below(below(home, ".config"@), "stask"@), "config.toml"@)),
        (None, None) => Err(ErrorV::HomeNotSet),
    }
}

/// XDG-style path resolution; macOS follows the same rule deliberately.
pub fn config_path_from(xdg_config_home: Option<&str>, home: Option<&str>) -> (r: Result<
    String,
    Error,
>)
    ensures
        path_result(r) == config_place(
            crate::db::str_option(xdg_config_home),
            crate::db::str_option(home),
        ),
{
    let base = match (xdg_config_home, home) {
        (Some(xdg), _) => xdg.to_owned(),
        (None, Some(home)) => join(home, ".config"),
        (None, None) => {
            return Err(Error::HomeNotSet);
        },
    };
    Ok(join(join(base.as_str(), "stask").as_str(), "config.toml"))
}

/// A path with a leading `~` expanded to the home directory.
pub open spec fn expanded(path: Seq<char>, home: Option<Seq<char>>) -> Result<Seq<char>, ErrorV> {
    if path.len() > 0 && path[0] == '~' && (path.len() == 1 || path[1] == '/') {
        match home {
            Some(home) => Ok(
                if path.len() <= 2 {
                    home
                } else {
                    below(home, path.skip(2))
                },
            ),
            None => Err(ErrorV::HomeNotSet),
        }
    } else {
        Ok(path)
    }
}

fn expand(path: &str, home: Option<&str>) -> (r: Result<String, Error>)
    ensures
        path_result(r) == expanded(path@, crate::db::str_option(home)),
{
    let v = text::chars_of(path);
    if v.len() > 0 && v[0] == '~' && (v.len() == 1 || v[1] == '/') {
        match home {
            Some(home) => {
                if v.len() <= 2 {
                    Ok(home.to_owned())
                } else {
                    let rest = text::string_from(&v, 2, v.len());
                    assert(rest@ =~= path@.skip(2));
                    Ok(join(home, rest.as_str()))
                }
            },
            None => Err(Error::HomeNotSet),
        }
    } else {
        Ok(path.to_owned())
    }
}

/// Where the database lives: the command line wins, then the configuration,
/// then `$XDG_DATA_HOME`, then `~/.local/share`.
pub open spec fn db_place(
    flag: Option<Seq<char>>,
    configured: Option<Seq<char>>,
    xdg_data_home: Option<Seq<char>>,
    home: Option<Seq<char>>,
) -> Result<Seq<char>, ErrorV> {
    match (flag, configured) {
        (Some(path), _) => Ok(path),
        (None, Some(path)) => expanded(path, home),
        (None, None) => match (xdg_data_home, home) {
            (Some(xdg), _) => Ok(below(below(xdg, "stask"@), "tasks.db"@)),
            (None, Some(home)) => Ok(
                below(below(below(home, ".local/share"@), "stask"@), "tasks.db"@),
            ),
            (None, None) => Err(ErrorV::HomeNotSet),
        },
    }
}

/// Resolves the database path. A path on the command line is taken as it
/// stands: the shell has expanded it.
pub fn db_path_from(
    flag: Option<&str>,
    configured: Option<&str>,
    xdg_data_home: Option<&str>,
    home: Option<&str>,
) -> (r: Result<String, Error>)
    ensures
        path_result(r) == db_place(
            crate::db::str_option(flag),
            crate::db::str_option(configured),
            crate::db::str_option(xdg_data_home),
            crate::db::str_option(home),
        ),
{
    match (flag, configured) {
        (Some(path), _) => Ok(path.to_owned()),
        (None, Some(path)) => expand(path, home),
        (None, None) => {
            let base = match (xdg_data_home, home) {
                (Some(xdg), _) => xdg.to_owned(),
                (None, Some(home)) => join(home, ".local/share"),
                (None, None) => {
                    return Err(Error::HomeNotSet);
                },
            };
            Ok(join(join(base.as_str(), "stask").as_str(), "tasks.db"))
        },
    }
}

/// The value behind the first occurrence of a flag among the arguments.
pub open spec fn flag_value(args: Seq<Seq<char>>, name: Seq<char>) -> Option<Seq<char>>
    decreases args.len(),
{
    if args.len() == 0 {
        None
    } else if args[0] == name {
        if args.len() > 1 {
            Some(args[1])
        } else {
            None
        }
    } else {
        flag_value(args.drop_first(), name)
    }
}

/// Reads the path given with a command-line flag.
pub fn parse_path_flag(args: &Vec<String>, name: &str) -> (r: Option<String>)
    ensures
        crate::task::text_option(r) == flag_value(text::texts(args@), name@),
{
    let ghost all = text::texts(args@);
    let mut i: usize = 0;
    assert(all.skip(0) =~= all);
    while i < args.len()
        invariant
            i <= args.len(),
            all == text::texts(args@),
            flag_value(all, name@) == flag_value(all.skip(i as int), name@),
        decreases args.len() - i,
    {
        assert(all.skip(i as int)[0] == args@[i as int]@);
        assert(all.skip(i as int).drop_first() =~= all.skip(i + 1));
        if same(args[i].as_str(), name) {
            if i + 1 < args.len() {
                assert(all.skip(i as int)[1] == args@[i + 1]@);
                return Some(args[i + 1].clone());
            }
            return None;
        }
        i = i + 1;
    }
    None
}

/// An accepted configuration binds every sequence of a context at most
/// once.
pub proof fn accepted_bindings_do_not_clash(file: ConfigFile, a: int, b: int)
    requires
        configured(file) is Ok,
        0 <= a < b < configured(file)->Ok_0.bindings.len(),
    ensures
        !keymap::clash(
            configured(file)->Ok_0.bindings[a],
            configured(file)->Ok_0.bindings[b],
        ),
{
    keymap::without_clash_sequences_are_unique(configured(file)->Ok_0.bindings, a, b);
}

/// A file without overrides is accepted and leaves the default bindings.
pub proof fn without_overrides_the_defaults_stand(file: ConfigFile)
    requires
        file.keymap@.len() == 0,
    ensures
        configured(file) == Ok::<ConfigV, ErrorV>(
            ConfigV {
                footer: file.footer,
                db_path: crate::task::text_option(file.db_path),
                bindings: keymap::default_bindings(),
            },
        ),
{
    defaults::the_default_bindings_are_clear();
}

} // verus!
