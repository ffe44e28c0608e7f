//! The configuration: what it holds, and what a document has to say to be one.
//!
//! Anything a run must be told stays out of it: the API key comes from the environment, named by
//! [`ApiConfig::api_key_env`], so the file can live in a repository. And the schema stays small on
//! purpose: every field here is one the app reads.
//!
//! [`migrate`] brings an older document up to this schema.

pub mod migrate;

use vstd::prelude::*;

use crate::config::migrate::{
    document_version, law_a_migrated_text_is_the_same_configuration, lemma_names, migrate_document,
    migration_of, version_of, Migration,
};
use crate::json::{entry_views, no_entries, object, plain, put, Json, JsonView};
use crate::logger::{
    law_levels_round_trip_through_their_names, level_name, level_named, Level, Logger,
};
use crate::text::{blank, copy, is_blank, opt_view};
use crate::toml::{
    find_key, one_line, plain_section, pretty_toml, sectioned, toml_of, toml_parse, toml_text,
    Document, Toml, TomlView,
};

verus! {

/// The schema version this build writes.
///
/// A document with no `config_version` reads as version 0, which is what makes "older than anything
/// this build knows" expressible.
pub const CONFIG_VERSION: u32 = 1;

#[derive(Debug, Clone, PartialEq)]
pub struct Config {
    pub config_version: u32,
    pub logger: Logger,
    pub api: ApiConfig,
    pub editor: EditorConfig,
    pub theme: ThemeConfig,
}

#[verifier::ext_equal]
pub struct ConfigView {
    pub config_version: u32,
    pub logger: Logger,
    pub api: ApiConfigView,
    pub editor: EditorConfig,
    pub theme: ThemeConfigView,
}

impl View for Config {
    type V = ConfigView;

    open spec fn view(&self) -> ConfigView {
        ConfigView {
            config_version: self.config_version,
            logger: self.logger,
            api: self.api@,
            editor: self.editor,
            theme: self.theme@,
        }
    }
}

/// How to reach the model.
#[derive(Debug, Clone, PartialEq)]
pub struct ApiConfig {
    pub base_url: String,
    /// Which model to call.
    pub model: String,
    /// Whether the reasoning is shown. It is a display choice, not a request parameter.
    pub show_thinking: bool,
    /// The name of the environment variable that holds the key, never the key itself, because this
    /// file is meant to be readable in a repository.
    pub api_key_env: String,
}

#[verifier::ext_equal]
pub struct ApiConfigView {
    pub base_url: Seq<char>,
    pub model: Seq<char>,
    pub show_thinking: bool,
    pub api_key_env: Seq<char>,
}

impl View for ApiConfig {
    type V = ApiConfigView;

    open spec fn view(&self) -> ApiConfigView {
        ApiConfigView {
            base_url: self.base_url@,
            model: self.model@,
            show_thinking: self.show_thinking,
            api_key_env: self.api_key_env@,
        }
    }
}

/// How the app should look.
#[derive(Debug, Clone, PartialEq)]
pub struct ThemeConfig {
    /// One of the built-in theme names.
    pub name: String,
    /// `unicode` or `ascii`.
    pub glyphs: String,
    /// `auto` (probe the terminal), or `truecolor`, `ansi256`, `ansi`.
    pub color_mode: String,
}

#[verifier::ext_equal]
pub struct ThemeConfigView {
    pub name: Seq<char>,
    pub glyphs: Seq<char>,
    pub color_mode: Seq<char>,
}

impl View for ThemeConfig {
    type V = ThemeConfigView;

    open spec fn view(&self) -> ThemeConfigView {
        ThemeConfigView {
            name: self.name@,
            glyphs: self.glyphs@,
            color_mode: self.color_mode@,
        }
    }
}

/// Editor defaults, read by the editor pane when it opens a buffer.
#[derive(Debug, Clone, Copy, PartialEq, Eq, Structural)]
pub struct EditorConfig {
    /// Spaces a `Tab` in the editor inserts.
    pub tab_width: u8,
}

// ---------------------------------------------------------------------------------------------
// Defaults

pub const BASE_URL: &'static str = "https://api.deepseek.com";

pub const MODEL: &'static str = "deepseek-chat";

pub const API_KEY_ENV: &'static str = "DEEPSEEK_API_KEY";

pub const THEME: &'static str = "terminal";

pub const GLYPHS: &'static str = "unicode";

pub const COLOR_MODE: &'static str = "auto";

pub const TAB_WIDTH: u8 = 4;

pub open spec fn default_logger() -> Logger {
    Logger { log_level: Level::Info }
}

pub open spec fn default_api() -> ApiConfigView {
    ApiConfigView {
        base_url: BASE_URL@,
        model: MODEL@,
        show_thinking: true,
        api_key_env: API_KEY_ENV@,
    }
}

pub open spec fn default_editor() -> EditorConfig {
    EditorConfig { tab_width: TAB_WIDTH }
}

pub open spec fn default_theme() -> ThemeConfigView {
    ThemeConfigView { name: THEME@, glyphs: GLYPHS@, color_mode: COLOR_MODE@ }
}

pub open spec fn default_config() -> ConfigView {
    ConfigView {
        config_version: CONFIG_VERSION,
        logger: default_logger(),
        api: default_api(),
        editor: default_editor(),
        theme: default_theme(),
    }
}

impl Default for ApiConfig {
    fn default() -> (out: Self)
        ensures
            out@ == default_api(),
    {
        ApiConfig {
            base_url: copy(BASE_URL),
            model: copy(MODEL),
            show_thinking: true,
            api_key_env: copy(API_KEY_ENV),
        }
    }
}

impl Default for ThemeConfig {
    fn default() -> (out: Self)
        ensures
            out@ == default_theme(),
    {
        ThemeConfig { name: copy(THEME), glyphs: copy(GLYPHS), color_mode: copy(COLOR_MODE) }
    }
}

impl Default for EditorConfig {
    fn default() -> (out: Self)
        ensures
            out == default_editor(),
    {
        EditorConfig { tab_width: TAB_WIDTH }
    }
}

impl Default for Config {
    fn default() -> (out: Self)
        ensures
            out@ == default_config(),
    {
        Config {
            config_version: CONFIG_VERSION,
            logger: Logger::default(),
            api: ApiConfig::default(),
            editor: EditorConfig::default(),
            theme: ThemeConfig::default(),
        }
    }
}

// ---------------------------------------------------------------------------------------------
// The key

/// A key that was found, unless there is nothing in it: that is what an unset variable in a shell
/// script looks like.
pub open spec fn usable_key(found: Option<Seq<char>>) -> Option<Seq<char>> {
    match found {
        Some(key) => if blank(key) {
            None
        } else {
            Some(key)
        },
        None => None,
    }
}

/// The key among what a lookup found.
pub fn key_found(found: Option<String>) -> (out: Option<String>)
    ensures
        opt_view(out) == usable_key(opt_view(found)),
{
    match found {
        Some(key) => if is_blank(&key) {
            None
        } else {
            Some(key)
        },
        None => None,
    }
}

impl ApiConfig {
    /// The key, using a supplied lookup.
    ///
    /// The lookup is a parameter so that what the app would do can be asked without writing to the
    /// environment of the process.
    pub fn api_key_with<F: FnOnce(&str) -> Option<String>>(&self, lookup: F) -> (out: Option<
        String,
    >)
        requires
            forall|name: &str|
                name@ == self@.api_key_env ==> #[trigger] call_requires(lookup, (name,)),
        ensures
            exists|name: &str, found: Option<String>|
                name@ == self@.api_key_env && #[trigger] call_ensures(lookup, (name,), found)
                    && opt_view(out) == usable_key(opt_view(found)),
    {
        let name: &str = self.api_key_env.as_str();
        let found = lookup(name);
        let ghost seen = found;
        let out = key_found(found);
        assert(call_ensures(lookup, (name,), seen));
        out
    }
}

// ---------------------------------------------------------------------------------------------
// Reading a document

/// Whether a section can be read out of a value: a table holds its fields by name, an array by
/// position, and a date holds none of them.
pub open spec fn is_section(value: TomlView) -> bool {
    value is Table || value is List || value is Datetime
}

/// What a section holds for a field.
pub open spec fn field(section: TomlView, index: int, name: Seq<char>) -> Option<TomlView> {
    match section {
        TomlView::Table(_) => section.get(name),
        TomlView::List(items) => if 0 <= index < items.len() {
            Some(items[index])
        } else {
            None
        },
        _ => None,
    }
}

/// A text, or what it is when it is not said; no answer when something else stands there.
pub open spec fn text_field(value: Option<TomlView>, default: Seq<char>) -> Option<Seq<char>> {
    match value {
        None => Some(default),
        Some(TomlView::Text(text)) => Some(text),
        Some(_) => None,
    }
}

pub open spec fn flag_field(value: Option<TomlView>, default: bool) -> Option<bool> {
    match value {
        None => Some(default),
        Some(TomlView::Bool(flag)) => Some(flag),
        Some(_) => None,
    }
}

/// A whole number up to a bound.
pub open spec fn count_field(value: Option<TomlView>, default: int, most: int) -> Option<int> {
    match value {
        None => Some(default),
        Some(TomlView::Int(n)) => if 0 <= n <= most {
            Some(n)
        } else {
            None
        },
        Some(_) => None,
    }
}

/// Whether a value has no parts.
pub open spec fn hollow(value: TomlView) -> bool {
    match value {
        TomlView::List(items) => items.len() == 0,
        TomlView::Table(entries) => entries.len() == 0,
        _ => false,
    }
}

/// A level: its name, or a table with nothing but its name for a key.
pub open spec fn level_of(value: TomlView) -> Option<Level> {
    match value {
        TomlView::Text(name) => level_named(name),
        TomlView::Table(entries) => if entries.len() == 1 && hollow(entries[0].1) {
            level_named(entries[0].0)
        } else {
            None
        },
        _ => None,
    }
}

/// The logger's section. Its level has to be said.
pub open spec fn logger_of(value: Option<TomlView>) -> Option<Logger> {
    match value {
        None => Some(default_logger()),
        Some(section) => match field(section, 0, "log_level"@) {
            Some(level) => match level_of(level) {
                Some(log_level) => Some(Logger { log_level }),
                None => None,
            },
            None => None,
        },
    }
}

pub open spec fn api_of(value: Option<TomlView>) -> Option<ApiConfigView> {
    match value {
        None => Some(default_api()),
        Some(section) => if is_section(section) {
            match (
                text_field(field(section, 0, "base_url"@), BASE_URL@),
                text_field(field(section, 1, "model"@), MODEL@),
                flag_field(field(section, 2, "show_thinking"@), true),
                text_field(field(section, 3, "api_key_env"@), API_KEY_ENV@),
            ) {
                (Some(base_url), Some(model), Some(show_thinking), Some(api_key_env)) => Some(
                    ApiConfigView { base_url, model, show_thinking, api_key_env },
                ),
                _ => None,
            }
        } else {
            None
        },
    }
}

pub open spec fn editor_of(value: Option<TomlView>) -> Option<EditorConfig> {
    match value {
        None => Some(default_editor()),
        Some(section) => if is_section(section) {
            match count_field(field(section, 0, "tab_width"@), TAB_WIDTH as int, u8::MAX as int) {
                Some(width) => Some(EditorConfig { tab_width: width as u8 }),
                None => None,
            }
        } else {
            None
        },
    }
}

pub open spec fn theme_of(value: Option<TomlView>) -> Option<ThemeConfigView> {
    match value {
        None => Some(default_theme()),
        Some(section) => if is_section(section) {
            match (
                text_field(field(section, 0, "name"@), THEME@),
                text_field(field(section, 1, "glyphs"@), GLYPHS@),
                text_field(field(section, 2, "color_mode"@), COLOR_MODE@),
            ) {
                (Some(name), Some(glyphs), Some(color_mode)) => Some(
                    ThemeConfigView { name, glyphs, color_mode },
                ),
                _ => None,
            }
        } else {
            None
        },
    }
}

/// The configuration a document is. What is not said has its default, what the schema does not have
/// is ignored, and a field of another type than it should have makes it none.
pub open spec fn config_of(tree: TomlView) -> Option<ConfigView> {
    match (
        count_field(tree.get("config_version"@), CONFIG_VERSION as int, u32::MAX as int),
        logger_of(tree.get("logger"@)),
        api_of(tree.get("api"@)),
        editor_of(tree.get("editor"@)),
        theme_of(tree.get("theme"@)),
    ) {
        (Some(version), Some(logger), Some(api), Some(editor), Some(theme)) => Some(
            ConfigView { config_version: version as u32, logger, api, editor, theme },
        ),
        _ => None,
    }
}

fn field_in<'a>(section: &'a Toml, index: usize, name: &str) -> (out: Option<&'a Toml>)
    ensures
        match out {
            Some(value) => field(section@, index as int, name@) == Some(value@),
            None => field(section@, index as int, name@) is None,
        },
{
    match section {
        Toml::Table(_) => section.get(name),
        Toml::List(items) => if index < items.len() {
            assert(section@->List_0[index as int] == items@[index as int]@);
            Some(&items[index])
        } else {
            None
        },
        _ => None,
    }
}

fn read_text(value: Option<&Toml>, default: &str) -> (out: Option<String>)
    ensures
        opt_view(out) == text_field(
            (match value {
                Some(value) => Some(value@),
                None => None,
            }),
            default@,
        ),
{
    match value {
        None => Some(copy(default)),
        Some(Toml::Text(text)) => Some(copy(text)),
        Some(_) => None,
    }
}

fn read_flag(value: Option<&Toml>, default: bool) -> (out: Option<bool>)
    ensures
        out == flag_field(
            (match value {
                Some(value) => Some(value@),
                None => None,
            }),
            default,
        ),
{
    match value {
        None => Some(default),
        Some(Toml::Bool(flag)) => Some(*flag),
        Some(_) => None,
    }
}

fn read_count(value: Option<&Toml>, default: u32, most: u32) -> (out: Option<u32>)
    ensures
        match out {
            Some(n) => count_field(
                (match value {
                    Some(value) => Some(value@),
                    None => None,
                }),
                default as int,
                most as int,
            ) == Some(n as int),
            None => count_field(
                (match value {
                    Some(value) => Some(value@),
                    None => None,
                }),
                default as int,
                most as int,
            ) is None,
        },
{
    match value {
        None => Some(default),
        Some(Toml::Int(n)) => if 0 <= *n && *n <= most as i64 {
            Some(*n as u32)
        } else {
            None
        },
        Some(_) => None,
    }
}

fn read_level(value: &Toml) -> (out: Option<Level>)
    ensures
        out == level_of(value@),
{
    match value {
        Toml::Text(name) => Level::from_name(name),
        Toml::Table(entries) => {
            if entries.len() != 1 {
                return None;
            }
            assert(value@->Table_0[0] == (entries@[0].0@, entries@[0].1@));
            let empty: bool = match &entries[0].1 {
                Toml::List(items) => items.len() == 0,
                Toml::Table(inner) => inner.len() == 0,
                _ => false,
            };
            if empty {
                Level::from_name(&entries[0].0)
            } else {
                None
            }
        },
        _ => None,
    }
}

fn reads_as_section(value: &Toml) -> (out: bool)
    ensures
        out == is_section(value@),
{
    match value {
        Toml::Table(_) => true,
        Toml::List(_) => true,
        Toml::Datetime => true,
        _ => false,
    }
}

fn read_logger(value: Option<&Toml>) -> (out: Option<Logger>)
    ensures
        out == logger_of(
            (match value {
                Some(value) => Some(value@),
                None => None,
            }),
        ),
{
    match value {
        None => Some(Logger::default()),
        Some(section) => match field_in(section, 0, "log_level") {
            Some(level) => match read_level(level) {
                Some(log_level) => Some(Logger { log_level }),
                None => None,
            },
            None => None,
        },
    }
}

fn read_api(value: Option<&Toml>) -> (out: Option<ApiConfig>)
    ensures
        (match out {
            Some(api) => Some(api@),
            None => None,
        }) == api_of(
            (match value {
                Some(value) => Some(value@),
                None => None,
            }),
        ),
{
    match value {
        None => Some(ApiConfig::default()),
        Some(section) => {
            if !reads_as_section(section) {
                return None;
            }
            match (
                read_text(field_in(section, 0, "base_url"), BASE_URL),
                read_text(field_in(section, 1, "model"), MODEL),
                read_flag(field_in(section, 2, "show_thinking"), true),
                read_text(field_in(section, 3, "api_key_env"), API_KEY_ENV),
            ) {
                (Some(base_url), Some(model), Some(show_thinking), Some(api_key_env)) => Some(
                    ApiConfig { base_url, model, show_thinking, api_key_env },
                ),
                _ => None,
            }
        },
    }
}

fn read_editor(value: Option<&Toml>) -> (out: Option<EditorConfig>)
    ensures
        out == editor_of(
            (match value {
                Some(value) => Some(value@),
                None => None,
            }),
        ),
{
    match value {
        None => Some(EditorConfig::default()),
        Some(section) => {
            if !reads_as_section(section) {
                return None;
            }
            match read_count(field_in(section, 0, "tab_width"), TAB_WIDTH as u32, 255) {
                Some(width) => Some(EditorConfig { tab_width: width as u8 }),
                None => None,
            }
        },
    }
}

fn read_theme(value: Option<&Toml>) -> (out: Option<ThemeConfig>)
    ensures
        (match out {
            Some(theme) => Some(theme@),
            None => None,
        }) == theme_of(
            (match value {
                Some(value) => Some(value@),
                None => None,
            }),
        ),
{
    match value {
        None => Some(ThemeConfig::default()),
        Some(section) => {
            if !reads_as_section(section) {
                return None;
            }
            match (
                read_text(field_in(section, 0, "name"), THEME),
                read_text(field_in(section, 1, "glyphs"), GLYPHS),
                read_text(field_in(section, 2, "color_mode"), COLOR_MODE),
            ) {
                (Some(name), Some(glyphs), Some(color_mode)) => Some(
                    ThemeConfig { name, glyphs, color_mode },
                ),
                _ => None,
            }
        },
    }
}

impl Config {
    /// The configuration a document is; none when it is not one.
    pub fn from_toml(tree: &Toml) -> (out: Option<Config>)
        ensures
            match out {
                Some(config) => config_of(tree@) == Some(config@),
                None => config_of(tree@) is None,
            },
    {
        match (
            read_count(tree.get("config_version"), CONFIG_VERSION, 0xffff_ffff),
            read_logger(tree.get("logger")),
            read_api(tree.get("api")),
            read_editor(tree.get("editor")),
            read_theme(tree.get("theme")),
        ) {
            (Some(config_version), Some(logger), Some(api), Some(editor), Some(theme)) => Some(
                Config { config_version, logger, api, editor, theme },
            ),
            _ => None,
        }
    }
}

// ---------------------------------------------------------------------------------------------
// Loading

/// Where a loaded configuration comes from, and what is to be done about the file.
#[derive(Debug, Clone, PartialEq)]
pub enum Source {
    /// There is no file.
    Missing,
    /// The file is not a configuration. It stays as it is, and the run goes on with defaults.
    NotRead,
    /// The file is of this schema.
    AsWritten,
    /// The file is of a newer schema; it is never rewritten.
    Newer { version: u32 },
    /// The file was of an older schema. It is copied, and then the migrated text takes its place,
    /// unless there is nothing in that text: a writer that produced nothing must not be allowed to
    /// erase the user's file.
    Migrated { migration: Migration, write: bool },
}

#[derive(Debug, Clone, PartialEq)]
pub struct Loaded {
    pub config: Config,
    pub source: Source,
}

/// What a migrated text is read back as; a text that cannot be read back leaves the configuration
/// as it was.
pub open spec fn read_back(text: Seq<char>, before: ConfigView) -> ConfigView {
    match toml_parse(text) {
        Some(tree) => match config_of(tree) {
            Some(config) => config,
            None => before,
        },
        None => before,
    }
}

/// Whether this is what loading gives for the text of a file.
pub open spec fn is_loaded(out: Loaded, text: Option<Seq<char>>) -> bool {
    match text {
        None => out.config@ == default_config() && out.source is Missing,
        Some(text) => match toml_parse(text) {
            None => out.config@ == default_config() && out.source is NotRead,
            Some(tree) => match config_of(tree) {
                None => out.config@ == default_config() && out.source is NotRead,
                Some(config) => if version_of(tree) == CONFIG_VERSION {
                    out.config@ == config && out.source is AsWritten
                } else if version_of(tree) > CONFIG_VERSION {
                    out.config@ == config && out.source == (Source::Newer {
                        version: version_of(tree),
                    })
                } else {
                    match out.source {
                        Source::Migrated { migration, write } => {
                            &&& migration_of(migration, text, tree)
                            &&& write == !blank(migration.text@)
                            &&& out.config@ == read_back(migration.text@, config)
                        },
                        _ => false,
                    }
                },
            },
        },
    }
}

impl Config {
    /// Reads the configuration from the text of its file, or defaults when there is none.
    ///
    /// A file that does not parse is not written over. Apart from a migration, which is the user's
    /// own file edited in place, loading never writes.
    pub fn load_from(text: Option<&str>) -> (out: Loaded)
        ensures
            is_loaded(
                out,
                (match text {
                    Some(text) => Some(text@),
                    None => None,
                }),
            ),
    {
        let text: &str = match text {
            Some(text) => text,
            None => {
                return Loaded { config: Config::default(), source: Source::Missing };
            },
        };
        let document = match Document::parse(text) {
            Some(document) => document,
            None => {
                return Loaded { config: Config::default(), source: Source::NotRead };
            },
        };
        let tree = document.tree();
        let config = match Config::from_toml(&tree) {
            Some(config) => config,
            None => {
                return Loaded { config: Config::default(), source: Source::NotRead };
            },
        };
        match migrate_document(text) {
            None => {
                let version: u32 = document_version(&tree);
                let source = if version == CONFIG_VERSION {
                    Source::AsWritten
                } else {
                    Source::Newer { version }
                };
                Loaded { config, source }
            },
            Some(migration) => {
                // What this process runs on is what the file now says, read back from the text
                // about to be written.
                let again = match Document::parse(&migration.text) {
                    Some(document) => Config::from_toml(&document.tree()),
                    None => None,
                };
                let write: bool = !is_blank(&migration.text);
                let config = match again {
                    Some(again) => again,
                    None => config,
                };
                Loaded { config, source: Source::Migrated { migration, write } }
            },
        }
    }
}

// ---------------------------------------------------------------------------------------------
// Writing the file

pub open spec fn logger_json(logger: Logger) -> JsonView {
    JsonView::Object(seq![("log_level"@, JsonView::Text(level_name(logger.log_level)))])
}

pub open spec fn api_json(api: ApiConfigView) -> JsonView {
    JsonView::Object(
        seq![
            ("base_url"@, JsonView::Text(api.base_url)),
            ("model"@, JsonView::Text(api.model)),
            ("show_thinking"@, JsonView::Bool(api.show_thinking)),
            ("api_key_env"@, JsonView::Text(api.api_key_env)),
        ],
    )
}

pub open spec fn editor_json(editor: EditorConfig) -> JsonView {
    JsonView::Object(seq![("tab_width"@, JsonView::Int(editor.tab_width as int))])
}

pub open spec fn theme_json(theme: ThemeConfigView) -> JsonView {
    JsonView::Object(
        seq![
            ("name"@, JsonView::Text(theme.name)),
            ("glyphs"@, JsonView::Text(theme.glyphs)),
            ("color_mode"@, JsonView::Text(theme.color_mode)),
        ],
    )
}

/// What the file of a configuration says: the version, then every section with all of its fields.
pub open spec fn config_json(config: ConfigView) -> JsonView {
    JsonView::Object(
        seq![
            ("config_version"@, JsonView::Int(config.config_version as int)),
            ("logger"@, logger_json(config.logger)),
            ("api"@, api_json(config.api)),
            ("editor"@, editor_json(config.editor)),
            ("theme"@, theme_json(config.theme)),
        ],
    )
}

impl Logger {
    fn to_json(&self) -> (out: Json)
        ensures
            out@ == logger_json(*self),
    {
        let mut entries = no_entries();
        put(&mut entries, "log_level", Json::Text(copy(self.log_level.name())));
        assert(entry_views(entries@) =~= logger_json(*self)->Object_0);
        object(entries)
    }
}

impl ApiConfig {
    fn to_json(&self) -> (out: Json)
        ensures
            out@ == api_json(self@),
    {
        let mut entries = no_entries();
        put(&mut entries, "base_url", Json::Text(copy(&self.base_url)));
        put(&mut entries, "model", Json::Text(copy(&self.model)));
        put(&mut entries, "show_thinking", Json::Bool(self.show_thinking));
        put(&mut entries, "api_key_env", Json::Text(copy(&self.api_key_env)));
        assert(entry_views(entries@) =~= api_json(self@)->Object_0);
        object(entries)
    }
}

impl EditorConfig {
    fn to_json(&self) -> (out: Json)
        ensures
            out@ == editor_json(*self),
    {
        let mut entries = no_entries();
        put(&mut entries, "tab_width", Json::Unsigned(self.tab_width as u64));
        assert(entry_views(entries@) =~= editor_json(*self)->Object_0);
        object(entries)
    }
}

impl ThemeConfig {
    fn to_json(&self) -> (out: Json)
        ensures
            out@ == theme_json(self@),
    {
        let mut entries = no_entries();
        put(&mut entries, "name", Json::Text(copy(&self.name)));
        put(&mut entries, "glyphs", Json::Text(copy(&self.glyphs)));
        put(&mut entries, "color_mode", Json::Text(copy(&self.color_mode)));
        assert(entry_views(entries@) =~= theme_json(self@)->Object_0);
        object(entries)
    }
}

/// No two fields of one table have the same name.
proof fn lemma_field_names()
    ensures
        "base_url"@ != "model"@,
        "base_url"@ != "show_thinking"@,
        "base_url"@ != "api_key_env"@,
        "model"@ != "show_thinking"@,
        "model"@ != "api_key_env"@,
        "show_thinking"@ != "api_key_env"@,
        "name"@ != "glyphs"@,
        "name"@ != "color_mode"@,
        "glyphs"@ != "color_mode"@,
{
    reveal_strlit("base_url");
    reveal_strlit("model");
    reveal_strlit("show_thinking");
    reveal_strlit("api_key_env");
    reveal_strlit("name");
    reveal_strlit("glyphs");
    reveal_strlit("color_mode");
    assert("base_url"@.len() == 8 && "model"@.len() == 5 && "show_thinking"@.len() == 13
        && "api_key_env"@.len() == 11);
    assert("name"@.len() == 4 && "glyphs"@.len() == 6 && "color_mode"@.len() == 10);
}

/// A configuration is written as lines and then sections.
proof fn lemma_config_is_sectioned(config: ConfigView)
    ensures
        sectioned(config_json(config)),
        plain(config_json(config), 2),
{
    lemma_names();
    lemma_field_names();
    let all = config_json(config)->Object_0;
    assert(plain_section(all[1].1));
    assert(plain_section(all[2].1));
    assert(plain_section(all[3].1));
    assert(plain_section(all[4].1));
    assert(one_line(all[0].1));
    assert forall|i: int| 0 <= i < all.len() implies plain((#[trigger] all[i]).1, 1) by {
        if i > 0 {
            let inner = all[i].1->Object_0;
            assert forall|k: int| 0 <= k < inner.len() implies plain((#[trigger] inner[k]).1, 0) by {
                assert(one_line(inner[k].1));
            }
        }
    }
}

impl Config {
    fn to_json(&self) -> (out: Json)
        ensures
            out@ == config_json(self@),
    {
        let mut entries = no_entries();
        put(&mut entries, "config_version", Json::Unsigned(self.config_version as u64));
        put(&mut entries, "logger", self.logger.to_json());
        put(&mut entries, "api", self.api.to_json());
        put(&mut entries, "editor", self.editor.to_json());
        put(&mut entries, "theme", self.theme.to_json());
        assert(entry_views(entries@) =~= config_json(self@)->Object_0);
        object(entries)
    }

    /// The file's text. It says every field, and reads back as this configuration.
    pub fn to_toml(&self) -> (out: String)
        ensures
            toml_text(config_json(self@)) == Some(out@),
            toml_parse(out@) == Some(toml_of(config_json(self@))),
            config_of(toml_parse(out@)->0) == Some(self@),
    {
        let json = self.to_json();
        proof {
            lemma_config_is_sectioned(self@);
            law_a_written_configuration_reads_back(self@);
            assert(plain(json@, 2));
        }
        match pretty_toml(&json) {
            Some(text) => text,
            None => String::new(),
        }
    }
}

// ---------------------------------------------------------------------------------------------
// Laws

/// A configuration is read back from what its file says.
pub proof fn law_a_written_configuration_reads_back(config: ConfigView)
    ensures
        config_of(toml_of(config_json(config))) == Some(config),
{
    lemma_names();
    lemma_field_names();
    law_levels_round_trip_through_their_names(config.logger.log_level);
    reveal_with_fuel(find_key, 6);
    reveal_with_fuel(toml_of, 3);
    let tree = toml_of(config_json(config));
    assert(tree.get("config_version"@) == Some(TomlView::Int(config.config_version as int)));
    assert(tree.get("logger"@) == Some(toml_of(logger_json(config.logger))));
    assert(tree.get("api"@) == Some(toml_of(api_json(config.api))));
    assert(tree.get("editor"@) == Some(toml_of(editor_json(config.editor))));
    assert(tree.get("theme"@) == Some(toml_of(theme_json(config.theme))));
    assert(logger_of(tree.get("logger"@)) == Some(config.logger));
    assert(api_of(tree.get("api"@)) == Some(config.api));
    assert(editor_of(tree.get("editor"@)) == Some(config.editor));
    assert(theme_of(tree.get("theme"@)) == Some(config.theme));
}

/// What was saved is loaded: for a configuration of this schema, or of a newer one, loading the text
/// of [`Config::to_toml`] gives the same configuration, and nothing is written.
pub proof fn law_what_was_saved_is_loaded(config: ConfigView, text: Seq<char>, out: Loaded)
    requires
        config.config_version >= CONFIG_VERSION,
        toml_parse(text) == Some(toml_of(config_json(config))),
        is_loaded(out, Some(text)),
    ensures
        out.config@ == config,
        out.source == if config.config_version == CONFIG_VERSION {
            Source::AsWritten
        } else {
            Source::Newer { version: config.config_version }
        },
{
    law_a_written_configuration_reads_back(config);
    reveal_with_fuel(find_key, 2);
    let tree = toml_of(config_json(config));
    assert(tree.get("config_version"@) == Some(TomlView::Int(config.config_version as int)));
}

/// A migration loses nothing the user wrote: what is loaded from a file of an older schema is their
/// own configuration, at this schema's version.
pub proof fn law_a_migration_is_loaded_as_the_users_own(text: Seq<char>, out: Loaded)
    requires
        is_loaded(out, Some(text)),
        out.source is Migrated,
    ensures
        toml_parse(text) is Some,
        config_of(toml_parse(text)->0) is Some,
        out.config@ == (ConfigView {
            config_version: CONFIG_VERSION,
            ..config_of(toml_parse(text)->0)->0
        }),
{
    let tree = toml_parse(text)->0;
    match out.source {
        Source::Migrated { migration, write } => {
            law_a_migrated_text_is_the_same_configuration(migration, text, tree);
        },
        _ => {},
    }
}

/// Loading what a migration wrote changes nothing: it is the same configuration, and it is loaded as
/// it is written.
pub proof fn law_a_migrated_file_is_loaded_as_it_is(text: Seq<char>, out: Loaded, again: Loaded)
    requires
        is_loaded(out, Some(text)),
        match out.source {
            Source::Migrated { migration, write } => is_loaded(again, Some(migration.text@)),
            _ => false,
        },
    ensures
        again.config@ == out.config@,
        again.source is AsWritten,
{
    law_a_migration_is_loaded_as_the_users_own(text, out);
    match out.source {
        Source::Migrated { migration, write } => {
            law_a_migrated_text_is_the_same_configuration(migration, text, toml_parse(text)->0);
        },
        _ => {},
    }
}

/// What a table of a document says of a key.
pub open spec fn said(tree: TomlView, section: Seq<char>, key: Seq<char>) -> Option<TomlView> {
    match tree.get(section) {
        Some(table) => table.get(key),
        None => None,
    }
}

/// Whether a section is a table, or is not there.
pub open spec fn tabled(tree: TomlView, section: Seq<char>) -> bool {
    match tree.get(section) {
        Some(value) => value is Table,
        None => true,
    }
}

/// A text is the one that is said, and the default where none is; nothing but a text can be said.
pub open spec fn text_is(found: Option<TomlView>, default: Seq<char>, value: Seq<char>) -> bool {
    match found {
        Some(TomlView::Text(text)) => value == text,
        Some(_) => false,
        None => value == default,
    }
}

/// Each setting is what the document says under its own section and its own name, and its default
/// where the document says nothing.
pub proof fn law_a_setting_is_what_the_document_says(tree: TomlView, config: ConfigView)
    requires
        config_of(tree) == Some(config),
    ensures
        tabled(tree, "api"@) ==> {
            &&& text_is(
                said(tree, "api"@, "base_url"@),
                "https://api.deepseek.com"@,
                config.api.base_url,
            )
            &&& text_is(said(tree, "api"@, "model"@), "deepseek-chat"@, config.api.model)
            &&& text_is(
                said(tree, "api"@, "api_key_env"@),
                "DEEPSEEK_API_KEY"@,
                config.api.api_key_env,
            )
            &&& match said(tree, "api"@, "show_thinking"@) {
                Some(TomlView::Bool(flag)) => config.api.show_thinking == flag,
                Some(_) => false,
                None => config.api.show_thinking,
            }
        },
        tabled(tree, "theme"@) ==> {
            &&& text_is(said(tree, "theme"@, "name"@), "terminal"@, config.theme.name)
            &&& text_is(said(tree, "theme"@, "glyphs"@), "unicode"@, config.theme.glyphs)
            &&& text_is(said(tree, "theme"@, "color_mode"@), "auto"@, config.theme.color_mode)
        },
        tabled(tree, "editor"@) ==> match said(tree, "editor"@, "tab_width"@) {
            Some(TomlView::Int(n)) => 0 <= n <= 255 && config.editor.tab_width == n,
            Some(_) => false,
            None => config.editor.tab_width == 4,
        },
        tabled(tree, "logger"@) ==> match said(tree, "logger"@, "log_level"@) {
            Some(TomlView::Text(name)) => level_named(name) == Some(config.logger.log_level),
            Some(TomlView::Table(_)) => true,
            Some(_) => false,
            None => tree.get("logger"@) is None && config.logger.log_level is Info,
        },
        match tree.get("config_version"@) {
            Some(TomlView::Int(n)) => 0 <= n <= u32::MAX && config.config_version == n,
            Some(_) => false,
            None => config.config_version == CONFIG_VERSION,
        },
{
}

/// A document is a configuration when all it says of the settings has the right type: texts, a flag,
/// a width that fits, a level that there is, and a version.
pub proof fn law_a_well_typed_document_is_a_configuration(tree: TomlView)
    requires
        tabled(tree, "api"@),
        tabled(tree, "theme"@),
        tabled(tree, "editor"@),
        tabled(tree, "logger"@),
        said(tree, "api"@, "base_url"@) matches Some(value) ==> value is Text,
        said(tree, "api"@, "model"@) matches Some(value) ==> value is Text,
        said(tree, "api"@, "api_key_env"@) matches Some(value) ==> value is Text,
        said(tree, "api"@, "show_thinking"@) matches Some(value) ==> value is Bool,
        said(tree, "theme"@, "name"@) matches Some(value) ==> value is Text,
        said(tree, "theme"@, "glyphs"@) matches Some(value) ==> value is Text,
        said(tree, "theme"@, "color_mode"@) matches Some(value) ==> value is Text,
        said(tree, "editor"@, "tab_width"@) matches Some(value) ==> value is Int && 0
            <= value->Int_0 <= 255,
        tree.get("logger"@) is Some ==> match said(tree, "logger"@, "log_level"@) {
            Some(TomlView::Text(name)) => level_named(name) is Some,
            _ => false,
        },
        tree.get("config_version"@) matches Some(value) ==> value is Int && 0 <= value->Int_0
            <= u32::MAX,
    ensures
        config_of(tree) is Some,
{
}

/// Whether two documents both have a section as a table, or both lack it.
pub open spec fn alike(a: TomlView, b: TomlView, section: Seq<char>) -> bool {
    tabled(a, section) && tabled(b, section) && a.get(section) is Some == b.get(section) is Some
}

/// What the schema does not have makes no difference: two documents that say the same of each setting
/// are one configuration, whatever else they hold.
pub proof fn law_unknown_keys_make_no_difference(a: TomlView, b: TomlView)
    requires
        a.get("config_version"@) == b.get("config_version"@),
        alike(a, b, "logger"@),
        alike(a, b, "api"@),
        alike(a, b, "editor"@),
        alike(a, b, "theme"@),
        said(a, "logger"@, "log_level"@) == said(b, "logger"@, "log_level"@),
        said(a, "api"@, "base_url"@) == said(b, "api"@, "base_url"@),
        said(a, "api"@, "model"@) == said(b, "api"@, "model"@),
        said(a, "api"@, "show_thinking"@) == said(b, "api"@, "show_thinking"@),
        said(a, "api"@, "api_key_env"@) == said(b, "api"@, "api_key_env"@),
        said(a, "editor"@, "tab_width"@) == said(b, "editor"@, "tab_width"@),
        said(a, "theme"@, "name"@) == said(b, "theme"@, "name"@),
        said(a, "theme"@, "glyphs"@) == said(b, "theme"@, "glyphs"@),
        said(a, "theme"@, "color_mode"@) == said(b, "theme"@, "color_mode"@),
    ensures
        config_of(a) == config_of(b),
{
}

/// The configuration of someone who never wrote one.
pub proof fn law_the_configuration_of_a_first_run()
    ensures
        default_config().config_version == CONFIG_VERSION,
        default_config().logger.log_level is Info,
        default_config().api.base_url == "https://api.deepseek.com"@,
        default_config().api.model == "deepseek-chat"@,
        default_config().api.api_key_env == "DEEPSEEK_API_KEY"@,
        default_config().api.show_thinking,
        default_config().editor.tab_width == 4,
        default_config().theme.name == "terminal"@,
        default_config().theme.glyphs == "unicode"@,
        default_config().theme.color_mode == "auto"@,
{
}

/// A file that is not there, and one that cannot be read, gives the defaults, and says which it was;
/// one of this version or of a later is taken as it stands and left alone; only an earlier one is
/// migrated.
pub proof fn law_a_file_is_loaded_by_its_version(out: Loaded, text: Seq<char>)
    ensures
        is_loaded(out, None) ==> out.config@ == default_config() && out.source is Missing,
        is_loaded(out, Some(text)) ==> match toml_parse(text) {
            Some(tree) => match config_of(tree) {
                Some(config) => {
                    &&& version_of(tree) == CONFIG_VERSION ==> out.config@ == config
                        && out.source is AsWritten
                    &&& version_of(tree) > CONFIG_VERSION ==> out.config@ == config && out.source
                        == (Source::Newer { version: version_of(tree) })
                    &&& version_of(tree) < CONFIG_VERSION ==> out.source is Migrated
                },
                None => out.config@ == default_config() && out.source is NotRead,
            },
            None => out.config@ == default_config() && out.source is NotRead,
        },
{
}

/// A key is taken as it was found, unless nothing but white space was.
pub proof fn law_a_blank_key_is_no_key(key: Seq<char>)
    ensures
        usable_key(None) is None,
        (forall|i: int| 0 <= i < key.len() ==> crate::text::white(#[trigger] key[i])) ==> usable_key(
            Some(key),
        ) is None,
        !(forall|i: int| 0 <= i < key.len() ==> crate::text::white(#[trigger] key[i]))
            ==> usable_key(Some(key)) == Some(key),
{
}

/// A section can be written as a list of its fields in their order; a date in its place says nothing,
/// and anything else is no section.
pub proof fn law_a_section_can_be_told_by_its_places(
    a: TomlView,
    b: TomlView,
    c: TomlView,
    d: TomlView,
    value: TomlView,
)
    ensures
        api_of(Some(TomlView::List(seq![a, b, c, d]))) == api_of(
            Some(
                TomlView::Table(
                    seq![
                        ("base_url"@, a),
                        ("model"@, b),
                        ("show_thinking"@, c),
                        ("api_key_env"@, d),
                    ],
                ),
            ),
        ),
        theme_of(Some(TomlView::List(seq![a, b, c]))) == theme_of(
            Some(TomlView::Table(seq![("name"@, a), ("glyphs"@, b), ("color_mode"@, c)])),
        ),
        editor_of(Some(TomlView::List(seq![a]))) == editor_of(
            Some(TomlView::Table(seq![("tab_width"@, a)])),
        ),
        logger_of(Some(TomlView::List(seq![a]))) == logger_of(
            Some(TomlView::Table(seq![("log_level"@, a)])),
        ),
        api_of(Some(TomlView::Datetime)) == Some(default_api()),
        theme_of(Some(TomlView::Datetime)) == Some(default_theme()),
        editor_of(Some(TomlView::Datetime)) == Some(default_editor()),
        !(value is Table || value is List || value is Datetime) ==> api_of(Some(value)) is None
            && theme_of(Some(value)) is None && editor_of(Some(value)) is None && logger_of(
            Some(value),
        ) is None,
{
    reveal_strlit("base_url");
    reveal_strlit("model");
    reveal_strlit("show_thinking");
    reveal_strlit("api_key_env");
    reveal_strlit("name");
    reveal_strlit("glyphs");
    reveal_strlit("color_mode");
    assert("base_url"@.len() == 8 && "model"@.len() == 5 && "show_thinking"@.len() == 13
        && "api_key_env"@.len() == 11);
    assert("name"@.len() == 4 && "glyphs"@.len() == 6 && "color_mode"@.len() == 10);
    reveal_with_fuel(crate::toml::find_key, 5);
    let api = seq![("base_url"@, a), ("model"@, b), ("show_thinking"@, c), ("api_key_env"@, d)];
    assert(api[0].0 == "base_url"@ && api[1].0 == "model"@ && api[2].0 == "show_thinking"@
        && api[3].0 == "api_key_env"@);
    let theme = seq![("name"@, a), ("glyphs"@, b), ("color_mode"@, c)];
    assert(theme[0].0 == "name"@ && theme[1].0 == "glyphs"@ && theme[2].0 == "color_mode"@);
    let editor = seq![("tab_width"@, a)];
    assert(editor[0].0 == "tab_width"@);
    let logger = seq![("log_level"@, a)];
    assert(logger[0].0 == "log_level"@);
}

/// A level is its name, or a table whose only key is its name and that says nothing of it.
pub proof fn law_a_level_is_its_name(name: Seq<char>, value: TomlView)
    ensures
        level_of(TomlView::Text(name)) == level_named(name),
        level_of(TomlView::Table(seq![(name, TomlView::Table(Seq::empty()))])) == level_named(name),
        level_of(TomlView::Table(seq![(name, TomlView::List(Seq::empty()))])) == level_named(name),
        level_of(value) is Some ==> match value {
            TomlView::Text(_) => true,
            TomlView::Table(entries) => entries.len() == 1 && (entries[0].1 == TomlView::Table(
                Seq::empty(),
            ) || entries[0].1 == TomlView::List(Seq::empty())),
            _ => false,
        },
{
    let table = seq![(name, TomlView::Table(Seq::empty()))];
    assert(table[0] == (name, TomlView::Table(Seq::empty())));
    let list = seq![(name, TomlView::List(Seq::empty()))];
    assert(list[0] == (name, TomlView::List(Seq::empty())));
    if level_of(value) is Some {
        if let TomlView::Table(entries) = value {
            match entries[0].1 {
                TomlView::Table(inner) => {
                    assert(inner =~= Seq::<(Seq<char>, TomlView)>::empty());
                },
                TomlView::List(inner) => {
                    assert(inner =~= Seq::<TomlView>::empty());
                },
                _ => {},
            }
        }
    }
}

} // verus!
