//! What the user writes down: prompts, configuration, and where they are kept.

use jmds::config::migrate::{
    backup_extension, document_version, migrate_document, path_name, stale_keys,
};
use jmds::config::{
    key_found, ApiConfig, Config, EditorConfig, Source, ThemeConfig, CONFIG_VERSION,
};
use jmds::logger::{log_dir, Level, Logger};
use jmds::paths::{
    artifacts_dir, artifacts_in, cache_dir, config_dir, config_file, expand_tilde,
    expand_tilde_with, join_path, same_path, APP,
};
use jmds::prompt::{
    default_prompt_in, default_prompt_path, prompts_dir, prompts_in, templates_in, Entry, Prompt,
    PromptError,
};
use jmds::toml::{Document, Step, Toml};

// Prompts -------------------------------------------------------------------------------------

#[test]
fn templates_are_the_markdown_files_by_name() {
    let entry = |name: &str, is_file| Entry { name: name.to_string(), is_file };
    let found = templates_in(&[
        entry("review.md", true),
        entry("fix.md", true),
        entry("notes.txt", true),
        entry("nested.md", false),
        entry(".md", true),
    ]);
    assert_eq!(found, ["fix", "review"]);
}

#[test]
fn a_prompts_directory_that_is_not_there_has_no_templates() {
    assert!(templates_in(&[]).is_empty());
}

#[test]
fn a_header_with_both_keys_parses_and_assembles_in_order() {
    let text = "---\npath: src/main.rs\ninstruction: 加一个 --version\n---\n\n顺便看看帮助文本。\n";
    let prompt = Prompt::parse(text).unwrap();
    assert_eq!(prompt.path.as_deref(), Some("src/main.rs"));
    assert_eq!(prompt.instruction.as_deref(), Some("加一个 --version"));
    assert_eq!(prompt.body, "顺便看看帮助文本。");

    let assembled = prompt.assemble("/work");
    assert_eq!(
        assembled,
        format!(
            "File: {}\nTask: 加一个 --version\n\n顺便看看帮助文本。",
            std::path::Path::new("/work").join("src/main.rs").display()
        )
    );
}

#[test]
fn an_absolute_path_is_left_alone() {
    let prompt = Prompt::parse("---\npath: /etc/hosts\n---\n").unwrap();
    assert!(prompt.assemble("/work").starts_with("File: /etc/hosts"));
}

#[test]
fn a_file_with_no_header_is_all_body() {
    let prompt = Prompt::parse("把 read 的超时改成 120 秒\n和 clamp 的提示语一起看\n").unwrap();
    assert!(prompt.path.is_none() && prompt.instruction.is_none());
    assert_eq!(
        prompt.body,
        "把 read 的超时改成 120 秒\n和 clamp 的提示语一起看"
    );
    assert_eq!(prompt.assemble("/work"), prompt.body);
}

#[test]
fn a_open_fence_is_an_error_rather_than_a_guess() {
    let error = Prompt::parse("---\npath: x\n").unwrap_err();
    assert_eq!(error, PromptError::UnclosedFrontmatter);
    assert!(error.message().contains("收尾"), "{}", error.message());
}

#[test]
fn unknown_keys_and_empty_values_are_tolerated() {
    let text =
        "---\nmodel: deepseek-reasoner\npath:\ninstruction: 做点事\nlater: yes\n---\nbody\n";
    let prompt = Prompt::parse(text).unwrap();
    assert_eq!(prompt.path, None, "an empty value is not a path");
    assert_eq!(prompt.instruction.as_deref(), Some("做点事"));
    assert_eq!(prompt.body, "body");
}

#[test]
fn a_horizontal_rule_later_in_the_text_is_not_a_header() {
    let prompt = Prompt::parse("先说一句\n\n---\n\n后面还有\n").unwrap();
    assert_eq!(prompt.body, "先说一句\n\n---\n\n后面还有");
}

#[test]
fn a_key_that_merely_starts_with_a_key_name_is_not_that_key() {
    let prompt = Prompt::parse("---\npathology: x\ninstructional: y\n---\n").unwrap();
    assert_eq!(prompt.path, None);
    assert_eq!(prompt.instruction, None);
}

#[test]
fn the_template_round_trips_through_the_parser() {
    let prompt = Prompt::parse(&Prompt::template()).expect("the template parses");
    assert!(prompt.path.is_none(), "an empty value means no path");
    assert!(prompt.instruction.is_none());
    assert!(prompt.is_empty());
    assert_eq!(prompt.assemble("/work"), "");
}

#[test]
fn an_empty_prompt_is_empty_by_every_measure() {
    assert!(Prompt::parse("").unwrap().is_empty());
    assert!(Prompt::parse("---\n---\n").unwrap().is_empty());
    assert!(!Prompt::parse("x").unwrap().is_empty());
}

#[test]
fn the_prompt_directory_sits_beside_the_sessions() {
    let dir = prompts_dir();
    assert!(std::path::Path::new(&dir).ends_with("prompts"), "{dir}");
    let default = default_prompt_path();
    assert_eq!(std::path::Path::new(&default).file_name().unwrap(), "prompt.md");
}

#[test]
fn the_last_row_about_a_key_counts() {
    let prompt = Prompt::parse("---  \r\npath: a\r\n path : b\r\n  path:c  \r\n---\r\nbody\r\n").unwrap();
    assert_eq!(prompt.path.as_deref(), Some("c"));
    assert_eq!(prompt.body, "body");
    let prompt = Prompt::parse("---\npath: a\npath:\n---\n").unwrap();
    assert_eq!(prompt.path, None);
    assert_eq!(Prompt::default(), Prompt::parse("").unwrap());
}

// The logger ----------------------------------------------------------------------------------

#[test]
fn the_default_level_is_info() {
    assert_eq!(Logger::default().log_level, Level::Info);
}

#[test]
fn a_level_is_read_from_its_name_in_any_case() {
    for level in [Level::Error, Level::Warn, Level::Info, Level::Debug, Level::Trace] {
        assert_eq!(Level::from_name(level.name()), Some(level));
        assert_eq!(Level::from_name(&level.name().to_lowercase()), Some(level));
    }
    assert_eq!(Level::from_name("off"), None);
    assert_eq!(log_dir(true, "/c"), ".");
    assert_eq!(log_dir(false, "/c"), "/c");
}

// Paths ---------------------------------------------------------------------------------------

#[test]
fn every_path_is_named_after_the_app() {
    for path in [config_dir(), cache_dir(), config_file()] {
        assert!(
            std::path::Path::new(&path).components().any(|c| c.as_os_str() == APP),
            "{path} is not under {APP}"
        );
    }
    assert_eq!(
        std::path::PathBuf::from(config_file()),
        std::path::PathBuf::from(config_dir()).join("config.toml")
    );
    assert!(artifacts_dir().starts_with(&cache_dir()));
    assert_ne!(artifacts_dir(), cache_dir());
}

#[test]
fn a_tilde_stands_for_the_home_directory() {
    let home = || Some("/home/me".to_string());
    assert_eq!(expand_tilde_with("~", home()), "/home/me");
    assert_eq!(expand_tilde_with("~/src", home()), "/home/me/src");
    assert_eq!(expand_tilde_with("~you/src", home()), "~you/src");
    assert_eq!(expand_tilde_with("src/~", home()), "src/~");
    assert_eq!(expand_tilde_with("~/src", None), "~/src");
    assert_eq!(expand_tilde("/etc/hosts"), "/etc/hosts");
    assert_eq!(join_path("/a/", "b"), "/a/b");
    assert_eq!(join_path("/a", "/b"), "/b");
    assert!(same_path("/a//b/./c", "/a/b/c/"));
    assert!(!same_path("/a/b", "a/b"));
}

// The configuration ---------------------------------------------------------------------------

fn sweep(text: &str) -> Vec<String> {
    let tree = Document::parse(text).expect("parses").tree();
    stale_keys(&tree).iter().map(path_name).collect()
}

fn migrated(text: &str) -> String {
    match Config::load_from(Some(text)).source {
        Source::Migrated { migration, write } => {
            assert!(write);
            migration.text
        }
        other => panic!("{other:?}"),
    }
}

#[test]
fn a_missing_file_is_not_an_error() {
    let loaded = Config::load_from(None);
    assert_eq!(loaded.config, Config::default());
    assert_eq!(loaded.source, Source::Missing);
}

#[test]
fn a_file_that_does_not_parse_yields_defaults_and_is_left_alone() {
    let loaded = Config::load_from(Some("this is not toml = = =\n"));
    assert_eq!(loaded.config, Config::default());
    assert_eq!(loaded.source, Source::NotRead);
    let loaded = Config::load_from(Some("[editor]\ntab_width = \"wide\"\n"));
    assert_eq!(loaded.config, Config::default());
    assert_eq!(loaded.source, Source::NotRead);
}

#[test]
fn the_api_key_is_read_from_the_named_variable_and_never_written() {
    let api = ApiConfig { api_key_env: "JMDS_TEST_KEY".into(), ..ApiConfig::default() };
    assert_eq!(
        api.api_key_with(|name| {
            if name == "JMDS_TEST_KEY" {
                Some("sk-secret".to_string())
            } else {
                None
            }
        }),
        Some("sk-secret".to_string())
    );
    assert_eq!(api.api_key_with(|_| Some("  ".into())), None);
    assert_eq!(api.api_key_with(|_| None), None);
    assert_eq!(key_found(Some("k".into())), Some("k".into()));

    let written = Config { api, ..Config::default() }.to_toml();
    assert!(written.contains("JMDS_TEST_KEY"), "{written}");
    assert!(
        !written.contains("sk-"),
        "the file carries the variable's name, not a key: {written}"
    );
}

#[test]
fn defaults_round_trip_through_the_writer_and_the_reader() {
    let config = Config::default();
    let text = config.to_toml();
    assert!(!text.is_empty());
    assert!(text.contains(&format!("config_version = {CONFIG_VERSION}")));
    let tree = Document::parse(&text).expect("the writer's output parses").tree();
    let back = Config::from_toml(&tree).expect("the writer's output is a configuration");
    assert_eq!(back, config);
}

#[test]
fn what_saves_can_be_loaded_back() {
    let mut config = Config::default();
    config.editor.tab_width = 2;
    let loaded = Config::load_from(Some(&config.to_toml()));

    assert_eq!(loaded.config, config);
    assert_eq!(
        loaded.source,
        Source::AsWritten,
        "a file this build wrote needs no migration and gets no backup"
    );
}

#[test]
fn a_new_file_says_every_field_in_order() {
    assert_eq!(
        Config::default().to_toml(),
        "\
config_version = 1

[logger]
log_level = \"INFO\"

[api]
base_url = \"https://api.deepseek.com\"
model = \"deepseek-chat\"
show_thinking = true
api_key_env = \"DEEPSEEK_API_KEY\"

[editor]
tab_width = 4

[theme]
name = \"terminal\"
glyphs = \"unicode\"
color_mode = \"auto\"
"
    );
}

#[test]
fn any_text_survives_a_save() {
    let awkward = [
        "",
        " ",
        "\n",
        "\n\n",
        "\r",
        "\r\n",
        "\t",
        "\"",
        "\"\"",
        "\"\"\"",
        "\"\"\"\"\"\"",
        "'",
        "'''",
        "'\"",
        "'\"\"",
        "'\"\"\"'",
        "a\n'''\n\"\"\"",
        "\\",
        "\\\n",
        "a\\\n  b",
        "\u{0}\u{1}\u{7f}",
        "\u{feff}",
        "# [x]\ny = 1",
        "\n'",
        "\n\"\"\"\"\"",
        "中文 \u{1f600}",
        "\u{85}\u{2028}",
        "ends with a quote\"",
        "it's \"both\"",
    ];
    for text in awkward {
        let mut config = Config::default();
        config.api.model = text.to_string();
        config.theme.name = text.to_string();
        let loaded = Config::load_from(Some(&config.to_toml()));
        assert_eq!(loaded.config, config);
        assert_eq!(loaded.source, Source::AsWritten);
    }
}

#[test]
fn a_newer_configuration_is_saved_as_what_it_is() {
    let mut config = Config::default();
    config.config_version = u32::MAX;
    config.logger.log_level = Level::Trace;
    config.editor.tab_width = 0;
    config.api.show_thinking = false;
    let loaded = Config::load_from(Some(&config.to_toml()));
    assert_eq!(loaded.config, config);
    assert_eq!(loaded.source, Source::Newer { version: u32::MAX });
}

#[test]
fn a_migration_keeps_what_the_user_wrote() {
    let original = "\
# 我的注释：这一行必须活着
config_version = 0

# 这一条注释属于下面那个已废弃的键，会跟着它一起走
model = \"deepseek-chat\"

# 服务地址（这条注释必须留着）
[api]
base_url = \"https://api.deepseek.com\" # 行尾注释也要留着

# 段落注释
[editor]
tab_width = 2
";
    let loaded = Config::load_from(Some(original));
    let after = migrated(original);

    for line in [
        "# 我的注释：这一行必须活着",
        "# 服务地址（这条注释必须留着）",
        "# 行尾注释也要留着",
        "# 段落注释",
    ] {
        assert!(after.contains(line), "{line} 不该丢:\n{after}");
    }
    assert!(after.contains(&format!("config_version = {CONFIG_VERSION}")), "{after}");
    assert!(after.contains("tab_width = 2"), "{after}");
    assert!(!after.contains("model ="), "{after}");
    assert!(!after.contains("这一条注释属于"), "{after}");
    assert_eq!(loaded.config.editor.tab_width, 2);
    assert_eq!(loaded.config.api.base_url, "https://api.deepseek.com");
}

#[test]
fn a_migration_drops_the_keys_the_schema_no_longer_has_at_every_level() {
    let original = "\
config_version = 0
old_top_level = 1
[api]
model = \"deepseek-chat\"
old_model_field = \"x\"
[api.legacy]
nested = true
[[panes]]
kind = \"chat\"
";
    let after = migrated(original);
    for gone in ["old_top_level", "old_model_field", "[api.legacy]", "[[panes]]"] {
        assert!(!after.contains(gone), "`{gone}` 该消失:\n{after}");
    }
    assert!(after.contains("model = \"deepseek-chat\""), "{after}");
    assert!(after.contains(&format!("config_version = {CONFIG_VERSION}")), "{after}");
}

#[test]
fn an_unversioned_file_is_migrated_once_and_keeps_its_sections() {
    let original = "# 手写注释\n[editor]\ntab_width = 2\n";
    let first = Config::load_from(Some(original));
    let after = migrated(original);
    assert_eq!(first.config.editor.tab_width, 2);
    assert_eq!(first.config.config_version, CONFIG_VERSION);
    assert!(after.contains("# 手写注释"), "{after}");

    let version_at = after.find("config_version").unwrap();
    let table_at = after.find("[editor]").unwrap();
    assert!(version_at < table_at, "{after}");

    let again = Config::load_from(Some(&after));
    assert_eq!(again.config, first.config);
    assert_eq!(again.source, Source::AsWritten);
    match first.source {
        Source::Migrated { migration, .. } => assert_eq!(backup_extension(migration.from), "toml.bak-v0"),
        other => panic!("{other:?}"),
    }
}

#[test]
fn a_newer_schema_is_read_as_written_and_never_rewritten() {
    let original = "config_version = 99\n[api]\nmodel = \"deepseek-reasoner\"\n";
    let loaded = Config::load_from(Some(original));
    assert_eq!(loaded.config.config_version, 99);
    assert_eq!(loaded.config.api.model, "deepseek-reasoner");
    assert_eq!(loaded.config.api.base_url, ApiConfig::default().base_url);
    assert_eq!(loaded.source, Source::Newer { version: 99 });
    assert!(migrate_document(original).is_none());
}

#[test]
fn the_sweep_keeps_every_key_the_config_has() {
    let text = r#"
        config_version = 1
        [logger]
        log_level = "debug"
        [api]
        base_url = "https://api.deepseek.com"
        model = "deepseek-chat"
        show_thinking = true
        api_key_env = "DEEPSEEK_API_KEY"
        [editor]
        tab_width = 2
    "#;
    assert_eq!(sweep(text), Vec::<String>::new());
}

#[test]
fn the_sweep_finds_a_key_that_is_not_in_the_schema() {
    let text = "config_version = 1\nnonsense = 3\n[api]\nold_model = \"x\"\n";
    assert_eq!(sweep(text), vec!["nonsense", "api.old_model"]);
}

#[test]
fn the_sweep_looks_inside_nested_tables_and_arrays() {
    let text = r#"
        config_version = 1
        [api]
        model = "deepseek-chat"
        [api.legacy]
        nested = 1
        [[panes]]
        kind = "chat"
    "#;
    let found = sweep(text);
    assert!(found.contains(&"api.legacy".to_string()), "{found:?}");
    assert!(found.contains(&"panes".to_string()), "{found:?}");
    assert!(
        !found.iter().any(|path| path.starts_with("panes[")),
        "a subtree that is gone is reported once: {found:?}"
    );
}

#[test]
fn removing_a_key_takes_it_out_of_the_document_without_touching_the_rest() {
    let text = "# 我的注释\nconfig_version = 1\nobsolete = 1\n[api]\nmodel = \"deepseek-chat\"\n";
    let mut doc = Document::parse(text).unwrap();
    for path in stale_keys(&doc.tree()) {
        doc.remove(&path);
    }
    let out = doc.text();
    assert!(!out.contains("obsolete"), "{out}");
    assert!(out.contains("# 我的注释"), "{out}");
    assert!(out.contains("model = \"deepseek-chat\""), "{out}");
}

#[test]
fn a_file_without_the_version_key_reads_as_older_than_anything() {
    let doc = Document::parse("[api]\nmodel = \"deepseek-chat\"\n").unwrap();
    assert_eq!(document_version(&doc.tree()), 0);
    let doc = Document::parse("config_version = \"one\"\n").unwrap();
    assert_eq!(document_version(&doc.tree()), 0, "not a number is not a version");
}

#[test]
fn setting_the_version_keeps_what_was_on_that_line() {
    let mut doc = Document::parse("config_version = 1 # 手写的行尾注释\n").unwrap();
    doc.set_integer("config_version", i64::from(CONFIG_VERSION));
    let out = doc.text();
    assert!(out.contains("config_version = 1"), "{out}");
    assert!(out.contains("# 手写的行尾注释"), "decor 要留住: {out}");
}

#[test]
fn a_version_key_that_was_missing_lands_before_the_tables() {
    let mut doc = Document::parse("[editor]\ntab_width = 4\n").unwrap();
    doc.set_integer("config_version", i64::from(CONFIG_VERSION));
    let out = doc.text();
    let version_at = out.find("config_version").expect("written");
    let table_at = out.find("[editor]").expect("kept");
    assert!(version_at < table_at, "{out}");
}

#[test]
fn a_document_is_read_into_a_tree() {
    let doc = Document::parse(
        "a = 1\nb = \"x\"\nc = [true, 1.5, 1979-05-27]\n[d]\ne = { f = [] }\n[[g]]\nh = 2\n[[g]]\n",
    )
    .unwrap();
    assert_eq!(
        doc.tree(),
        Toml::Table(vec![
            ("a".into(), Toml::Int(1)),
            ("b".into(), Toml::Text("x".into())),
            ("c".into(), Toml::List(vec![Toml::Bool(true), Toml::Float, Toml::Datetime])),
            (
                "d".into(),
                Toml::Table(vec![(
                    "e".into(),
                    Toml::Table(vec![("f".into(), Toml::List(vec![]))])
                )])
            ),
            (
                "g".into(),
                Toml::List(vec![
                    Toml::Table(vec![("h".into(), Toml::Int(2))]),
                    Toml::Table(vec![]),
                ])
            ),
        ])
    );
    assert!(Document::parse("= =").is_none());
}

#[test]
fn a_key_is_removed_wherever_it_stands() {
    let mut doc = Document::parse("x = { y = [ { z = 1, w = 2 } ] }\n[[t]]\nu = 1\nv = 2\n").unwrap();
    doc.remove(&vec![
        Step::Key("x".into()),
        Step::Key("y".into()),
        Step::Element(0),
        Step::Key("z".into()),
    ]);
    doc.remove(&vec![Step::Key("t".into()), Step::Element(0), Step::Key("v".into())]);
    doc.remove(&vec![Step::Key("nowhere".into())]);
    assert_eq!(
        doc.tree(),
        Toml::Table(vec![
            (
                "x".into(),
                Toml::Table(vec![(
                    "y".into(),
                    Toml::List(vec![Toml::Table(vec![("w".into(), Toml::Int(2))])])
                )])
            ),
            ("t".into(), Toml::List(vec![Toml::Table(vec![("u".into(), Toml::Int(1))])])),
        ])
    );
    assert_eq!(
        path_name(&vec![Step::Key("panes".into()), Step::Element(0), Step::Key("kind".into())]),
        "panes[0].kind"
    );
}

#[test]
fn every_field_is_read_and_a_wrong_one_is_refused() {
    let read = |text: &str| Config::from_toml(&Document::parse(text).unwrap().tree());
    let full = read(
        "config_version = 7\n[logger]\nlog_level = \"WARN\"\n[api]\nbase_url = \"u\"\nmodel = \"m\"\n\
         show_thinking = false\napi_key_env = \"k\"\n[editor]\ntab_width = 8\n[theme]\nname = \"n\"\n\
         glyphs = \"ascii\"\ncolor_mode = \"ansi\"\n",
    )
    .unwrap();
    assert_eq!(
        full,
        Config {
            config_version: 7,
            logger: Logger { log_level: Level::Warn },
            api: ApiConfig {
                base_url: "u".into(),
                model: "m".into(),
                show_thinking: false,
                api_key_env: "k".into(),
            },
            editor: EditorConfig { tab_width: 8 },
            theme: ThemeConfig {
                name: "n".into(),
                glyphs: "ascii".into(),
                color_mode: "ansi".into(),
            },
        }
    );
    assert_eq!(read("unknown = 1\n"), Some(Config::default()));
    for wrong in [
        "config_version = -1",
        "config_version = \"1\"",
        "[logger]",
        "[logger]\nlog_level = \"loud\"",
        "api = 3",
        "[api]\nshow_thinking = 1",
        "[editor]\ntab_width = 256",
        "[theme]\nname = 1.5",
    ] {
        assert_eq!(read(wrong), None, "{wrong}");
    }
    assert_eq!(read("editor = [2]").unwrap().editor.tab_width, 2);
    assert_eq!(read("logger = { log_level = { debug = {} } }").unwrap().logger.log_level, Level::Debug);
}

#[test]
fn what_the_app_keeps_is_below_the_directory_it_is_given() {
    assert_eq!(artifacts_in("/c/jmds"), "/c/jmds/artifacts");
    assert_eq!(prompts_in("/k/jmds"), "/k/jmds/prompts");
    assert_eq!(default_prompt_in("/k/jmds/prompts"), "/k/jmds/prompts/prompt.md");
}

#[test]
fn the_body_is_sent_verbatim() {
    let prompt = Prompt::parse("---\n---\na\r\nb").unwrap();
    assert_eq!(prompt.body, "a\r\nb");
    let prompt = Prompt::parse("---\r\npath: x\r\n---  \r\n\r\n a\r\n\r\nb \r\n").unwrap();
    assert_eq!(prompt.path.as_deref(), Some("x"));
    assert_eq!(prompt.body, "a\r\n\r\nb");
    assert_eq!(Prompt::parse("---\n---").unwrap().body, "");
}

#[test]
fn a_number_is_written_where_the_old_one_stood() {
    let mut document = Document::parse("# above\nn  =  1   # beside\nm = 2\n").unwrap();
    document.set_integer("n", 7);
    assert_eq!(document.text(), "# above\nn  =  7   # beside\nm = 2\n");
    document.remove(&vec![Step::Key("n".to_string())]);
    assert_eq!(document.text(), "m = 2\n");
}

#[test]
fn what_a_migration_wrote_is_loaded_as_it_is() {
    for text in [
        "",
        "config_version = 0 # mine\n[editor]\ntab_width = 2\nold = 1\n",
        "[api.gone]\nx = 1\n",
        "api.gone.x = 1\n",
        "[logger.log_level.WARN]\n[theme]\nname = \"dark\"\nwas = { a = 1, b = [] }\n",
        "theme = { name = \"dark\", was = 1 }\neditor = [3]\n[[more]]\na = 1\n[[more]]\n",
        "theme = { was.x = 1, name = \"dark\" }\r\n[editor.old.deep]\r\nx = 1\r\n",
        "[[editor.old]]\n[editor.old.y]\nz = 1\n[[editor.old]]\n# last\n[api]\nmodel = 'm' # own\n",
        "# first\n[theme] # here\nwas = [ # c\n  { a = 1 },\n]\nname = \"dark\" # end",
        "[config_version]\nx = 1\n",
    ] {
        let loaded = Config::load_from(Some(text));
        if loaded.source == Source::NotRead {
            assert!(text.starts_with("[config_version]"), "{text}");
            continue;
        }
        let Source::Migrated { migration, write } = &loaded.source else {
            panic!("{text}: {:?}", loaded.source)
        };
        assert!(*write, "{text}");
        assert_eq!(loaded.config.config_version, CONFIG_VERSION);
        let again = Config::load_from(Some(&migration.text));
        assert_eq!(again.config, loaded.config, "{}", migration.text);
        assert_eq!(again.source, Source::AsWritten, "{}", migration.text);
        let before = Document::parse(text).unwrap().tree();
        let mut user = Config::from_toml(&before).unwrap();
        user.config_version = CONFIG_VERSION;
        assert_eq!(loaded.config, user, "{}", migration.text);
    }
}
