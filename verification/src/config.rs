//! Settings: `config.toml` read into overridable settings,
//! every missing or invalid key falling back to its default with a warning.
use vstd::prelude::*;

use crate::fallback;
use crate::rank::Engine;
use crate::remove::{self, Target};
use crate::stage2;
use crate::text;

verus! {

/// Largest accepted `fallback.depth`; above it the parse warns and keeps the default.
pub const FALLBACK_MAX_DEPTH: usize = 5;

/// Largest accepted `fallback.up`; above it the parse warns and keeps the default.
pub const FALLBACK_MAX_UP: usize = 5;

/// Days of `visits` and `queries` history `furet add` keeps by default.
pub const RETENTION_DAYS: u32 = 365;

/// Overridable settings loaded from `<data dir>/config.toml`.
#[derive(Debug, Clone, PartialEq, Eq)]
pub struct Settings {
    /// Shortest query stage 2 accepts, replacing `stage2::TYPO_MIN_QUERY_LEN`.
    pub typo_min_length: usize,
    /// Overrides for the disk fallback walk.
    pub fallback: FallbackSettings,
    /// Absolute path `f` with no argument jumps to; `None` keeps the shell default.
    pub home: Option<String>,
    /// Days of `visits` and `queries` history kept; 0 keeps everything.
    pub retention_days: u32,
    /// Patterns of directories never recorded, read as `remove::Target`s.
    pub exclude_dirs: Vec<Target>,
    /// Stage-1 scorer; `--engine` overrides it.
    pub engine: Engine,
}

/// The `[fallback]` table of `config.toml`.
#[derive(Debug, Clone, PartialEq, Eq)]
pub struct FallbackSettings {
    /// Replaces `fallback::CHILD_DEPTH`.
    pub depth: usize,
    /// Replaces `fallback::ANCESTOR_LEVELS`.
    pub up: usize,
    /// ORed with the `--no-ignore` flag.
    pub no_ignore: bool,
    /// Replaces the built-in excluded directory names entirely.
    pub exclude: Vec<String>,
}

/// A TOML value as the settings read it.
pub enum TomlValue {
    Text(String),
    Integer(i64),
    Boolean(bool),
    Array(Vec<TomlValue>),
    Table(Vec<(String, TomlValue)>),
    /// A float or a date-time, which no setting accepts.
    Other,
}

/// The `[fallback]` settings as plain values.
pub struct FallbackModel {
    pub depth: int,
    pub up: int,
    pub no_ignore: bool,
    pub exclude: Seq<Seq<char>>,
}

/// The settings as plain values; `exclude_dirs` holds the accepted entries
/// as written, each read through `remove::exclusion_target`.
pub struct SettingsModel {
    pub typo_min_length: int,
    pub fallback: FallbackModel,
    pub home: Option<Seq<char>>,
    pub retention_days: int,
    pub exclude_dirs: Seq<Seq<char>>,
    pub engine: Engine,
}

pub open spec fn fallback_model(f: FallbackSettings) -> FallbackModel {
    FallbackModel {
        depth: f.depth as int,
        up: f.up as int,
        no_ignore: f.no_ignore,
        exclude: f.exclude@.map_values(|s: String| s@),
    }
}

/// `s` holds what model `m` says.
pub open spec fn models(s: Settings, m: SettingsModel) -> bool {
    &&& s.typo_min_length as int == m.typo_min_length
    &&& fallback_model(s.fallback) == m.fallback
    &&& match s.home {
        Some(h) => m.home == Some(h@),
        None => m.home is None,
    }
    &&& s.retention_days as int == m.retention_days
    &&& s.exclude_dirs@.len() == m.exclude_dirs.len()
    &&& forall|i: int| 0 <= i < m.exclude_dirs.len() ==> remove::excludes_as(m.exclude_dirs[i], Some(#[trigger] s.exclude_dirs@[i]))
    &&& s.engine == m.engine
}

pub open spec fn default_fallback() -> FallbackModel {
    FallbackModel {
        depth: fallback::CHILD_DEPTH as int,
        up: fallback::ANCESTOR_LEVELS as int,
        no_ignore: false,
        exclude: fallback::excluded_names_of(),
    }
}

pub open spec fn default_model() -> SettingsModel {
    SettingsModel {
        typo_min_length: stage2::TYPO_MIN_QUERY_LEN as int,
        fallback: default_fallback(),
        home: None,
        retention_days: RETENTION_DAYS as int,
        exclude_dirs: seq![],
        engine: Engine::Reference,
    }
}

impl Default for FallbackSettings {
    fn default() -> (r: Self)
        ensures
            fallback_model(r) == default_fallback(),
    {
        FallbackSettings {
            depth: fallback::CHILD_DEPTH,
            up: fallback::ANCESTOR_LEVELS,
            no_ignore: false,
            exclude: fallback::excluded_names(),
        }
    }
}

impl Default for Settings {
    fn default() -> (r: Self)
        ensures
            models(r, default_model()),
    {
        Settings {
            typo_min_length: stage2::TYPO_MIN_QUERY_LEN,
            fallback: FallbackSettings::default(),
            home: None,
            retention_days: RETENTION_DAYS,
            exclude_dirs: Vec::new(),
            engine: Engine::Reference,
        }
    }
}

/// What `parse_exclude` accepts: an array of non-empty strings.
pub open spec fn exclude_list(v: TomlValue) -> Option<Seq<Seq<char>>> {
    match v {
        TomlValue::Array(items) => if forall|i: int| 0 <= i < items@.len() ==> (#[trigger] items@[i] matches TomlValue::Text(s) && s@.len() > 0) {
            Some(items@.map_values(|item: TomlValue| match item {
                TomlValue::Text(s) => s@,
                _ => seq![],
            }))
        } else {
            None
        },
        _ => None,
    }
}

/// The `exclude_dirs` entries `exclusion_target` accepts, in order.
pub open spec fn accepted(entries: Seq<Seq<char>>) -> Seq<Seq<char>>
    decreases entries.len(),
{
    if entries.len() == 0 {
        seq![]
    } else if remove::excludes_as(entries.last(), None) {
        accepted(entries.drop_last())
    } else {
        accepted(entries.drop_last()).push(entries.last())
    }
}

pub open spec fn relative_warning(entry: Seq<char>) -> Seq<char> {
    "exclude_dirs entry '"@ + entry + "' is a relative path; ignored"@
}

/// One warning per entry `exclusion_target` refuses, in order.
pub open spec fn relative_warnings(entries: Seq<Seq<char>>) -> Seq<Seq<char>>
    decreases entries.len(),
{
    if entries.len() == 0 {
        seq![]
    } else if remove::excludes_as(entries.last(), None) {
        relative_warnings(entries.drop_last()).push(relative_warning(entries.last()))
    } else {
        relative_warnings(entries.drop_last())
    }
}

/// One `[fallback]` key applied to the fallback settings and the warnings.
pub open spec fn fallback_step(f: FallbackModel, w: Seq<Seq<char>>, key: Seq<char>, v: TomlValue) -> (FallbackModel, Seq<Seq<char>>) {
    if key == "depth"@ {
        match v {
            TomlValue::Integer(n) if 1 <= n && n <= FALLBACK_MAX_DEPTH => (FallbackModel { depth: n as int, ..f }, w),
            _ => (f, w.push("fallback.depth must be an integer in 1..=5; using the default"@)),
        }
    } else if key == "up"@ {
        match v {
            TomlValue::Integer(n) if 0 <= n && n <= FALLBACK_MAX_UP => (FallbackModel { up: n as int, ..f }, w),
            _ => (f, w.push("fallback.up must be an integer in 0..=5; using the default"@)),
        }
    } else if key == "no_ignore"@ {
        match v {
            TomlValue::Boolean(b) => (FallbackModel { no_ignore: b, ..f }, w),
            _ => (f, w.push("fallback.no_ignore must be a boolean; using the default"@)),
        }
    } else if key == "exclude"@ {
        match exclude_list(v) {
            Some(names) => (FallbackModel { exclude: names, ..f }, w),
            None => (f, w.push("fallback.exclude must be an array of non-empty strings; using the default"@)),
        }
    } else {
        (f, w.push("unknown config key 'fallback."@ + key + "'; ignored"@))
    }
}

/// The first `n` keys of a `[fallback]` table applied in order.
pub open spec fn fallback_steps(f: FallbackModel, w: Seq<Seq<char>>, entries: Seq<(String, TomlValue)>, n: nat) -> (FallbackModel, Seq<Seq<char>>)
    decreases n,
{
    if n == 0 || n > entries.len() {
        (f, w)
    } else {
        let before = fallback_steps(f, w, entries, (n - 1) as nat);
        fallback_step(before.0, before.1, entries[n - 1].0@, entries[n - 1].1)
    }
}

pub open spec fn engine_warning() -> Seq<char> {
    "engine must be \"reference\" or \"nucleo\"; using \"reference\""@
}

/// One top-level key applied to the settings and the warnings.
pub open spec fn step(m: SettingsModel, w: Seq<Seq<char>>, key: Seq<char>, v: TomlValue) -> (SettingsModel, Seq<Seq<char>>) {
    if key == "typo_min_length"@ {
        match v {
            TomlValue::Integer(n) if n >= 1 => (SettingsModel { typo_min_length: (n as usize) as int, ..m }, w),
            _ => (m, w.push("typo_min_length must be an integer >= 1; using the default"@)),
        }
    } else if key == "fallback"@ {
        match v {
            TomlValue::Table(entries) => {
                let r = fallback_steps(m.fallback, w, entries@, entries@.len());
                (SettingsModel { fallback: r.0, ..m }, r.1)
            },
            _ => (m, w.push("fallback must be a table; using its defaults"@)),
        }
    } else if key == "home"@ {
        match v {
            TomlValue::Text(s) if s@.len() > 0 => (SettingsModel { home: Some(s@), ..m }, w),
            _ => (m, w.push("home must be a non-empty string; using no override"@)),
        }
    } else if key == "retention_days"@ {
        match v {
            TomlValue::Integer(n) if 0 <= n && n <= u32::MAX => (SettingsModel { retention_days: n as int, ..m }, w),
            _ => (m, w.push("retention_days must be an integer >= 0; using the default"@)),
        }
    } else if key == "exclude_dirs"@ {
        match exclude_list(v) {
            Some(entries) => (SettingsModel { exclude_dirs: accepted(entries), ..m }, w + relative_warnings(entries)),
            None => (m, w.push("exclude_dirs must be an array of non-empty strings; using no exclusion"@)),
        }
    } else if key == "engine"@ {
        match v {
            TomlValue::Text(s) if s@ == "reference"@ => (SettingsModel { engine: Engine::Reference, ..m }, w),
            TomlValue::Text(s) if s@ == "nucleo"@ => (SettingsModel { engine: Engine::Nucleo, ..m }, w),
            _ => (m, w.push(engine_warning())),
        }
    } else if key == "ambiguity"@ || key == "keyboard_layout"@ {
        (m, w.push(key + " is not supported yet; ignored"@))
    } else {
        (m, w.push("unknown config key '"@ + key + "'; ignored"@))
    }
}

/// The first `n` top-level keys applied in order.
pub open spec fn steps(entries: Seq<(String, TomlValue)>, n: nat) -> (SettingsModel, Seq<Seq<char>>)
    decreases n,
{
    if n == 0 || n > entries.len() {
        (default_model(), seq![])
    } else {
        let before = steps(entries, (n - 1) as nat);
        step(before.0, before.1, entries[n - 1].0@, entries[n - 1].1)
    }
}

/// The settings and warnings a parsed document gives; `None` stands for
/// text that is not TOML.
pub open spec fn settings_of(document: Option<Seq<(String, TomlValue)>>) -> (SettingsModel, Seq<Seq<char>>) {
    match document {
        None => (default_model(), seq!["config.toml is malformed TOML; using every default"@]),
        Some(entries) => steps(entries, entries.len()),
    }
}

#[verifier::external_type_specification]
#[verifier::external_body]
pub struct ExTomlValue(toml::Value);

/// What `str::parse::<toml::Table>` gives for `text`, each value converted
/// by `toml_value`, in the table's key order; `None` when the text is not
/// TOML.
pub uninterp spec fn toml_document(text: Seq<char>) -> Option<Seq<(String, TomlValue)>>;

/// Parses `text` with `toml`'s `FromStr` for `toml::Table`; its result is
/// what `toml_document` names, a function of the text alone.
#[verifier::external_body]
fn parse_document(text: &str) -> (r: Option<Vec<(String, TomlValue)>>)
    ensures
        match r {
            Some(entries) => toml_document(text@) == Some(entries@),
            None => toml_document(text@) is None,
        },
{
    match text.parse::<toml::Table>() {
        Ok(table) => Some(table.into_iter().map(|(key, value)| (key, toml_value(value))).collect()),
        Err(_) => None,
    }
}

/// Converts a `toml::Value` variant by variant, floats and date-times
/// becoming `Other`; `parse_document` applies it to every value and states
/// the result through `toml_document`, so it promises nothing of its own.
#[verifier::external_body]
fn toml_value(value: toml::Value) -> TomlValue {
    match value {
        toml::Value::String(text) => TomlValue::Text(text),
        toml::Value::Integer(n) => TomlValue::Integer(n),
        toml::Value::Boolean(b) => TomlValue::Boolean(b),
        toml::Value::Array(items) => TomlValue::Array(items.into_iter().map(toml_value).collect()),
        toml::Value::Table(table) => TomlValue::Table(table.into_iter().map(|(k, v)| (k, toml_value(v))).collect()),
        toml::Value::Float(_) | toml::Value::Datetime(_) => TomlValue::Other,
    }
}

/// The texts of a list of strings.
pub open spec fn texts(v: Seq<String>) -> Seq<Seq<char>> {
    v.map_values(|s: String| s@)
}

fn warn(warnings: &mut Vec<String>, message: &str)
    ensures
        texts(final(warnings)@) == texts(old(warnings)@).push(message@),
{
    let ghost before = warnings@;
    warnings.push(message.to_owned());
    assert(texts(warnings@) =~= texts(before).push(message@));
}

fn warn_chars(warnings: &mut Vec<String>, message: Vec<char>)
    ensures
        texts(final(warnings)@) == texts(old(warnings)@).push(message@),
{
    let ghost before = warnings@;
    warnings.push(text::string_of(&message));
    assert(texts(warnings@) =~= texts(before).push(message@));
}

/// `prefix`, then `middle`, then `suffix`, as characters.
fn framed(prefix: &str, middle: &str, suffix: &str) -> (r: Vec<char>)
    ensures
        r@ == prefix@ + middle@ + suffix@,
{
    let mut out: Vec<char> = Vec::new();
    text::push_str(&mut out, prefix);
    text::push_str(&mut out, middle);
    text::push_str(&mut out, suffix);
    assert(out@ =~= prefix@ + middle@ + suffix@);
    out
}

/// Reads an array of non-empty strings.
fn parse_exclude(value: &TomlValue) -> (r: Option<Vec<String>>)
    ensures
        match r {
            Some(names) => exclude_list(*value) == Some(texts(names@)),
            None => exclude_list(*value) is None,
        },
{
    let items = match value {
        TomlValue::Array(items) => items,
        _ => return None,
    };
    let mut names: Vec<String> = Vec::new();
    let mut i: usize = 0;
    while i < items.len()
        invariant
            i <= items@.len(),
            *value == TomlValue::Array(*items),
            names@.len() == i,
            forall|j: int| 0 <= j < i ==> (#[trigger] items@[j] matches TomlValue::Text(s) && s@.len() > 0),
            forall|j: int| 0 <= j < i ==> (#[trigger] names@[j])@ == match items@[j] {
                TomlValue::Text(s) => s@,
                _ => seq![],
            },
        decreases items@.len() - i,
    {
        match &items[i] {
            TomlValue::Text(name) => {
                if text::chars_of(name.as_str()).len() == 0 {
                    return None;
                }
                names.push(name.clone());
            },
            _ => return None,
        }
        i += 1;
    }
    assert(texts(names@) =~= items@.map_values(|item: TomlValue| match item {
        TomlValue::Text(s) => s@,
        _ => seq![],
    }));
    Some(names)
}

/// Reads every `exclude_dirs` entry, warning about each relative one.
fn exclusion_targets(entries: &Vec<String>, warnings: &mut Vec<String>) -> (r: Vec<Target>)
    ensures
        r@.len() == accepted(texts(entries@)).len(),
        forall|i: int| 0 <= i < r@.len() ==> remove::excludes_as(accepted(texts(entries@))[i], Some(#[trigger] r@[i])),
        texts(final(warnings)@) == texts(old(warnings)@) + relative_warnings(texts(entries@)),
{
    let ghost start = texts(warnings@);
    let mut targets: Vec<Target> = Vec::new();
    let mut i: usize = 0;
    while i < entries.len()
        invariant
            i <= entries@.len(),
            targets@.len() == accepted(texts(entries@).take(i as int)).len(),
            forall|k: int| 0 <= k < targets@.len() ==> remove::excludes_as(accepted(texts(entries@).take(i as int))[k], Some(#[trigger] targets@[k])),
            texts(warnings@) == start + relative_warnings(texts(entries@).take(i as int)),
        decreases entries@.len() - i,
    {
        let entry = &entries[i];
        let ghost prefix = texts(entries@).take(i + 1);
        proof {
            assert(prefix.drop_last() =~= texts(entries@).take(i as int));
            assert(prefix.last() == entry@);
        }
        match remove::exclusion_target(entry.as_str()) {
            Some(target) => {
                targets.push(target);
            },
            None => {
                warn_chars(warnings, framed("exclude_dirs entry '", entry.as_str(), "' is a relative path; ignored"));
                assert(texts(warnings@) =~= start + relative_warnings(prefix));
            },
        }
        i += 1;
    }
    assert(texts(entries@).take(i as int) =~= texts(entries@));
    targets
}

/// Applies one `[fallback]` key.
fn fallback_key(settings: &mut FallbackSettings, warnings: &mut Vec<String>, key: &String, value: &TomlValue)
    ensures
        (fallback_model(*final(settings)), texts(final(warnings)@)) == fallback_step(
            fallback_model(*old(settings)),
            texts(old(warnings)@),
            key@,
            *value,
        ),
{
    if text::same_str(key.as_str(), "depth") {
        match value {
            TomlValue::Integer(n) => {
                if 1 <= *n && *n <= FALLBACK_MAX_DEPTH as i64 {
                    settings.depth = *n as usize;
                    return;
                }
            },
            _ => {},
        }
        warn(warnings, "fallback.depth must be an integer in 1..=5; using the default");
    } else if text::same_str(key.as_str(), "up") {
        match value {
            TomlValue::Integer(n) => {
                if 0 <= *n && *n <= FALLBACK_MAX_UP as i64 {
                    settings.up = *n as usize;
                    return;
                }
            },
            _ => {},
        }
        warn(warnings, "fallback.up must be an integer in 0..=5; using the default");
    } else if text::same_str(key.as_str(), "no_ignore") {
        match value {
            TomlValue::Boolean(b) => settings.no_ignore = *b,
            _ => warn(warnings, "fallback.no_ignore must be a boolean; using the default"),
        }
    } else if text::same_str(key.as_str(), "exclude") {
        match parse_exclude(value) {
            Some(exclude) => settings.exclude = exclude,
            None => warn(warnings, "fallback.exclude must be an array of non-empty strings; using the default"),
        }
    } else {
        warn_chars(warnings, framed("unknown config key 'fallback.", key.as_str(), "'; ignored"));
    }
}

/// Applies every key of a `[fallback]` table, in order.
fn parse_fallback(settings: &mut FallbackSettings, warnings: &mut Vec<String>, entries: &Vec<(String, TomlValue)>)
    ensures
        (fallback_model(*final(settings)), texts(final(warnings)@)) == fallback_steps(
            fallback_model(*old(settings)),
            texts(old(warnings)@),
            entries@,
            entries@.len(),
        ),
{
    let ghost f0 = fallback_model(*settings);
    let ghost w0 = texts(warnings@);
    let mut i: usize = 0;
    while i < entries.len()
        invariant
            i <= entries@.len(),
            (fallback_model(*settings), texts(warnings@)) == fallback_steps(f0, w0, entries@, i as nat),
        decreases entries@.len() - i,
    {
        let entry = &entries[i];
        fallback_key(settings, warnings, &entry.0, &entry.1);
        i += 1;
    }
}

/// Applies one top-level key.
fn settings_key(settings: &mut Settings, warnings: &mut Vec<String>, key: &String, value: &TomlValue, Ghost(m): Ghost<SettingsModel>) -> (r: Ghost<SettingsModel>)
    requires
        models(*old(settings), m),
    ensures
        models(*final(settings), r@),
        (r@, texts(final(warnings)@)) == step(m, texts(old(warnings)@), key@, *value),
{
    let ghost w = texts(warnings@);
    if text::same_str(key.as_str(), "typo_min_length") {
        match value {
            TomlValue::Integer(n) => {
                if *n >= 1 {
                    settings.typo_min_length = *n as usize;
                    return Ghost(SettingsModel { typo_min_length: (*n as usize) as int, ..m });
                }
            },
            _ => {},
        }
        warn(warnings, "typo_min_length must be an integer >= 1; using the default");
        Ghost(m)
    } else if text::same_str(key.as_str(), "fallback") {
        match value {
            TomlValue::Table(entries) => {
                parse_fallback(&mut settings.fallback, warnings, entries);
                Ghost(SettingsModel { fallback: fallback_model(settings.fallback), ..m })
            },
            _ => {
                warn(warnings, "fallback must be a table; using its defaults");
                Ghost(m)
            },
        }
    } else if text::same_str(key.as_str(), "home") {
        match value {
            TomlValue::Text(home) => {
                if text::chars_of(home.as_str()).len() > 0 {
                    settings.home = Some(home.clone());
                    return Ghost(SettingsModel { home: Some(home@), ..m });
                }
            },
            _ => {},
        }
        warn(warnings, "home must be a non-empty string; using no override");
        Ghost(m)
    } else if text::same_str(key.as_str(), "retention_days") {
        match value {
            TomlValue::Integer(n) => {
                if 0 <= *n && *n <= 0xFFFF_FFFF {
                    settings.retention_days = *n as u32;
                    return Ghost(SettingsModel { retention_days: *n as int, ..m });
                }
            },
            _ => {},
        }
        warn(warnings, "retention_days must be an integer >= 0; using the default");
        Ghost(m)
    } else if text::same_str(key.as_str(), "exclude_dirs") {
        match parse_exclude(value) {
            Some(entries) => {
                settings.exclude_dirs = exclusion_targets(&entries, warnings);
                Ghost(SettingsModel { exclude_dirs: accepted(texts(entries@)), ..m })
            },
            None => {
                warn(warnings, "exclude_dirs must be an array of non-empty strings; using no exclusion");
                Ghost(m)
            },
        }
    } else if text::same_str(key.as_str(), "engine") {
        match value {
            TomlValue::Text(name) => {
                if text::same_str(name.as_str(), "reference") {
                    settings.engine = Engine::Reference;
                    return Ghost(SettingsModel { engine: Engine::Reference, ..m });
                }
                if text::same_str(name.as_str(), "nucleo") {
                    settings.engine = Engine::Nucleo;
                    return Ghost(SettingsModel { engine: Engine::Nucleo, ..m });
                }
            },
            _ => {},
        }
        warn(warnings, "engine must be \"reference\" or \"nucleo\"; using \"reference\"");
        Ghost(m)
    } else if text::same_str(key.as_str(), "ambiguity") || text::same_str(key.as_str(), "keyboard_layout") {
        warn_chars(warnings, framed("", key.as_str(), " is not supported yet; ignored"));
        proof {
            reveal_strlit("");
            assert(""@ + key@ =~= key@);
        }
        Ghost(m)
    } else {
        warn_chars(warnings, framed("unknown config key '", key.as_str(), "'; ignored"));
        Ghost(m)
    }
}

/// A parsed document's entries as a sequence.
pub open spec fn document_view(document: Option<Vec<(String, TomlValue)>>) -> Option<Seq<(String, TomlValue)>> {
    match document {
        Some(entries) => Some(entries@),
        None => None,
    }
}

/// The settings and warnings a parsed document gives; `None` stands for
/// text that is not TOML.
pub fn settings_from(document: Option<Vec<(String, TomlValue)>>) -> (r: (Settings, Vec<String>))
    ensures
        models(r.0, settings_of(document_view(document)).0),
        texts(r.1@) == settings_of(document_view(document)).1,
{
    let mut settings = Settings::default();
    let mut warnings: Vec<String> = Vec::new();
    let entries = match document {
        Some(entries) => entries,
        None => {
            warn(&mut warnings, "config.toml is malformed TOML; using every default");
            assert(texts(warnings@) =~= seq!["config.toml is malformed TOML; using every default"@]);
            return (settings, warnings);
        },
    };
    let ghost mut m = default_model();
    assert(texts(warnings@) =~= Seq::<Seq<char>>::empty());
    let mut i: usize = 0;
    while i < entries.len()
        invariant
            i <= entries@.len(),
            models(settings, m),
            (m, texts(warnings@)) == steps(entries@, i as nat),
        decreases entries@.len() - i,
    {
        let entry = &entries[i];
        let next = settings_key(&mut settings, &mut warnings, &entry.0, &entry.1, Ghost(m));
        proof {
            m = next@;
        }
        i += 1;
    }
    (settings, warnings)
}

/// Parses `config.toml`'s text into `Settings`, filling defaults in for
/// every missing or invalid key and collecting one warning per problem.
pub fn parse(text: &str) -> (r: (Settings, Vec<String>))
    ensures
        models(r.0, settings_of(toml_document(text@)).0),
        texts(r.1@) == settings_of(toml_document(text@)).1,
{
    let document = parse_document(text);
    proof {
        assert(document_view(document) == toml_document(text@));
    }
    settings_from(document)
}

/// `v` is a value `typo_min_length` accepts: an integer of at least 1.
pub open spec fn valid_typo_min_length(v: TomlValue) -> bool {
    v matches TomlValue::Integer(n) && n >= 1
}

/// `v` is a value `home` accepts: a non-empty string.
pub open spec fn valid_home(v: TomlValue) -> bool {
    v matches TomlValue::Text(s) && s@.len() > 0
}

/// `v` is a value `retention_days` accepts: an integer in `0..=u32::MAX`.
pub open spec fn valid_retention_days(v: TomlValue) -> bool {
    v matches TomlValue::Integer(n) && 0 <= n && n <= u32::MAX
}

/// `v` is a value `exclude_dirs` accepts: an array of non-empty strings.
pub open spec fn valid_exclude_dirs(v: TomlValue) -> bool {
    exclude_list(v) is Some
}

/// `v` is the one `engine` value that changes the default: `"nucleo"`.
pub open spec fn picks_nucleo(v: TomlValue) -> bool {
    v matches TomlValue::Text(s) && s@ == "nucleo"@
}

/// No entry among the first `n` names `key` with a value `valid` accepts.
pub open spec fn never_set(entries: Seq<(String, TomlValue)>, n: nat, key: Seq<char>, valid: spec_fn(TomlValue) -> bool) -> bool {
    forall|i: int| 0 <= i < n ==> (#[trigger] entries[i]).0@ != key || !valid(entries[i].1)
}

proof fn lemma_steps_per_key(entries: Seq<(String, TomlValue)>, n: nat)
    requires
        n <= entries.len(),
    ensures
        never_set(entries, n, "typo_min_length"@, |v: TomlValue| valid_typo_min_length(v))
            ==> steps(entries, n).0.typo_min_length == default_model().typo_min_length,
        never_set(entries, n, "home"@, |v: TomlValue| valid_home(v)) ==> steps(entries, n).0.home == default_model().home,
        never_set(entries, n, "retention_days"@, |v: TomlValue| valid_retention_days(v))
            ==> steps(entries, n).0.retention_days == default_model().retention_days,
        never_set(entries, n, "exclude_dirs"@, |v: TomlValue| valid_exclude_dirs(v))
            ==> steps(entries, n).0.exclude_dirs == default_model().exclude_dirs,
        never_set(entries, n, "engine"@, |v: TomlValue| picks_nucleo(v)) ==> steps(entries, n).0.engine == default_model().engine,
        never_set(entries, n, "fallback"@, |v: TomlValue| v is Table) ==> steps(entries, n).0.fallback == default_model().fallback,
    decreases n,
{
    if n > 0 {
        lemma_steps_per_key(entries, (n - 1) as nat);
        assert(forall|key: Seq<char>, valid: spec_fn(TomlValue) -> bool|
            #[trigger] never_set(entries, n, key, valid) ==> never_set(entries, (n - 1) as nat, key, valid));
    }
}

/// Settings fall back key by key: a setting that no entry of the document
/// names with a value it accepts keeps its default, whatever the other
/// entries hold; `engine` leaves the reference engine only for `"nucleo"`.
pub proof fn lemma_settings_fall_back_per_key(entries: Seq<(String, TomlValue)>)
    ensures
        never_set(entries, entries.len(), "typo_min_length"@, |v: TomlValue| valid_typo_min_length(v))
            ==> settings_of(Some(entries)).0.typo_min_length == default_model().typo_min_length,
        never_set(entries, entries.len(), "home"@, |v: TomlValue| valid_home(v))
            ==> settings_of(Some(entries)).0.home == default_model().home,
        never_set(entries, entries.len(), "retention_days"@, |v: TomlValue| valid_retention_days(v))
            ==> settings_of(Some(entries)).0.retention_days == default_model().retention_days,
        never_set(entries, entries.len(), "exclude_dirs"@, |v: TomlValue| valid_exclude_dirs(v))
            ==> settings_of(Some(entries)).0.exclude_dirs == default_model().exclude_dirs,
        never_set(entries, entries.len(), "engine"@, |v: TomlValue| picks_nucleo(v))
            ==> settings_of(Some(entries)).0.engine == default_model().engine,
        never_set(entries, entries.len(), "fallback"@, |v: TomlValue| v is Table)
            ==> settings_of(Some(entries)).0.fallback == default_model().fallback,
{
    lemma_steps_per_key(entries, entries.len());
}

/// An empty document gives every default and no warning.
pub proof fn lemma_empty_document_defaults()
    ensures
        settings_of(Some(Seq::<(String, TomlValue)>::empty())) == (default_model(), Seq::<Seq<char>>::empty()),
{
}

} // verus!
