use helix_config::config::{
    default_bindings, merge_keys, resolve, Config, ConfigLoadError, ConfigRaw, KeymapConfig, Mode,
};
use helix_config::value::{merge_values, ConfigValue};

fn load_test(config: &str) -> Config {
    Config::load(Ok(config.to_owned()), Err(ConfigLoadError::default())).unwrap()
}

fn cmd(key: &str, command: &str) -> (String, ConfigValue) {
    (key.to_owned(), ConfigValue::String(command.to_owned()))
}

fn table(entries: Vec<(String, ConfigValue)>) -> ConfigValue {
    ConfigValue::Table(entries)
}

fn get<'a>(v: &'a ConfigValue, key: &str) -> Option<&'a ConfigValue> {
    match v {
        ConfigValue::Table(entries) => entries.iter().find(|(k, _)| k == key).map(|(_, v)| v),
        _ => None,
    }
}

fn command_at(v: &ConfigValue, path: &[&str]) -> Option<String> {
    let mut cur = v;
    for key in path {
        cur = get(cur, key)?;
    }
    match cur {
        ConfigValue::String(s) => Some(s.clone()),
        _ => None,
    }
}

fn trie<'a>(c: &'a Config, mode: Mode) -> &'a ConfigValue {
    get(&c.keys.bindings, &mode.name()).unwrap()
}

#[test]
fn parsing_keymaps_config_file() {
    let sample_keymaps = r#"
            [keys.insert]
            y = "move_line_down"
            S-C-a = "delete_selection"

            [keys.normal]
            A-F12 = "move_next_word_end"
        "#;

    let keymap_config = KeymapConfig {
        supertab: None,
        bindings: merge_keys(
            default_bindings(),
            table(vec![
                (
                    "insert".to_owned(),
                    table(vec![cmd("S-C-a", "delete_selection"), cmd("y", "move_line_down")]),
                ),
                ("normal".to_owned(), table(vec![cmd("A-F12", "move_next_word_end")])),
            ]),
        ),
    };

    assert_eq!(
        load_test(sample_keymaps),
        Config {
            keys: keymap_config,
            ..Default::default()
        }
    );
}

#[test]
fn keys_resolve_to_correct_defaults() {
    let default_keys = load_test("").keys.bindings;
    assert_eq!(default_keys, default_bindings());

    let default_keys = Config::default().keys.bindings;
    assert_eq!(default_keys, default_bindings());
}

#[test]
fn two_failed_reads_give_the_global_error() {
    let r = Config::load(
        Err(ConfigLoadError::Error("global missing".to_owned())),
        Err(ConfigLoadError::Error("local missing".to_owned())),
    );
    assert_eq!(r, Err(ConfigLoadError::Error("global missing".to_owned())));
}

#[test]
fn local_source_alone_is_laid_on_the_defaults() {
    let c = Config::load(
        Err(ConfigLoadError::default()),
        Ok("[keys.insert]\ny = \"move_line_down\"\n".to_owned()),
    )
    .unwrap();
    assert_eq!(command_at(trie(&c, Mode::Insert), &["y"]), Some("move_line_down".to_owned()));
    assert_eq!(command_at(trie(&c, Mode::Insert), &["esc"]), Some("normal_mode".to_owned()));
    let defaults = Config::default();
    assert_eq!(trie(&c, Mode::Normal), trie(&defaults, Mode::Normal));
    assert_eq!(trie(&c, Mode::Select), trie(&defaults, Mode::Select));
}

#[test]
fn local_theme_wins_over_global() {
    let c = Config::load(Ok("theme = \"a\"".to_owned()), Ok("theme = \"b\"".to_owned())).unwrap();
    assert_eq!(c.theme, Some("b".to_owned()));
    let c = Config::load(Ok("theme = \"a\"".to_owned()), Ok("icons = \"x\"".to_owned())).unwrap();
    assert_eq!(c.theme, Some("a".to_owned()));
    assert_eq!(c.icons, Some("x".to_owned()));
}

#[test]
fn invalid_global_is_reported_before_valid_local() {
    let r = Config::load(Ok("theme = ".to_owned()), Ok("theme = \"b\"".to_owned()));
    assert!(matches!(r, Err(ConfigLoadError::BadConfig(_))));
}

#[test]
fn invalid_global_wins_over_invalid_local() {
    let r = Config::load(Ok("theme = 3".to_owned()), Ok("bogus = 1".to_owned()));
    let g = Config::load(Ok("theme = 3".to_owned()), Err(ConfigLoadError::default()));
    assert!(matches!(r, Err(ConfigLoadError::BadConfig(_))));
    assert_eq!(r, g);
}

#[test]
fn bad_config_wins_over_failed_read() {
    let r = Config::load(Err(ConfigLoadError::default()), Ok("bogus = 1".to_owned()));
    assert!(matches!(r, Err(ConfigLoadError::BadConfig(_))));
    let r = Config::load(Ok("theme = 3".to_owned()), Err(ConfigLoadError::default()));
    assert!(matches!(r, Err(ConfigLoadError::BadConfig(_))));
}

#[test]
fn keymap_layers_keep_both_sources() {
    let c = Config::load(
        Ok("[keys.normal]\na = \"cmd1\"\n".to_owned()),
        Ok("[keys.normal]\nb = \"cmd2\"\n".to_owned()),
    )
    .unwrap();
    let normal = trie(&c, Mode::Normal);
    assert_eq!(command_at(normal, &["a"]), Some("cmd1".to_owned()));
    assert_eq!(command_at(normal, &["b"]), Some("cmd2".to_owned()));
    assert_eq!(command_at(normal, &["h"]), Some("move_char_left".to_owned()));
    assert_eq!(command_at(trie(&c, Mode::Insert), &["esc"]), Some("normal_mode".to_owned()));
}

#[test]
fn local_key_override_replaces_global_one() {
    let c = Config::load(
        Ok("[keys.normal]\na = \"cmd1\"\nh = \"g_left\"\n".to_owned()),
        Ok("[keys.normal]\na = \"cmd2\"\n".to_owned()),
    )
    .unwrap();
    let normal = trie(&c, Mode::Normal);
    assert_eq!(command_at(normal, &["a"]), Some("cmd2".to_owned()));
    assert_eq!(command_at(normal, &["h"]), Some("g_left".to_owned()));
}

#[test]
fn nested_key_tries_merge() {
    let c = Config::load(
        Ok("[keys.normal.g]\na = \"one\"\n".to_owned()),
        Ok("[keys.normal.g]\nb = \"two\"\n".to_owned()),
    )
    .unwrap();
    let normal = trie(&c, Mode::Normal);
    assert_eq!(command_at(normal, &["g", "a"]), Some("one".to_owned()));
    assert_eq!(command_at(normal, &["g", "b"]), Some("two".to_owned()));
}

#[test]
fn supertab_override_replaces_base() {
    let c = Config::load(
        Ok("[keys]\nsupertab = \"global_cmd\"\n".to_owned()),
        Ok("[keys]\nsupertab = \"local_cmd\"\n".to_owned()),
    )
    .unwrap();
    assert_eq!(c.keys.supertab, Some("local_cmd".to_owned()));
    let c = Config::load(Ok("[keys]\nsupertab = \"global_cmd\"\n".to_owned()), Ok("".to_owned())).unwrap();
    assert_eq!(c.keys.supertab, Some("global_cmd".to_owned()));
}

#[test]
fn editor_settings_merge_three_levels_deep() {
    let global = "[editor.a.b]\nkeep = 1\nleaf = 1\n[editor.a]\nsibling = true\n";
    let local = "[editor.a.b]\nleaf = 2\n";
    let c = Config::load(Ok(global.to_owned()), Ok(local.to_owned())).unwrap();
    let b = get(get(&c.editor, "a").unwrap(), "b").unwrap();
    assert_eq!(get(b, "leaf"), Some(&ConfigValue::Integer(2)));
    assert_eq!(get(b, "keep"), Some(&ConfigValue::Integer(1)));
    assert_eq!(get(get(&c.editor, "a").unwrap(), "sibling"), Some(&ConfigValue::Boolean(true)));
}

#[test]
fn editor_settings_below_the_depth_bound_are_replaced_whole() {
    let global = "[editor.a.b.c]\nkeep = 1\nleaf = 1\n";
    let local = "[editor.a.b.c]\nleaf = 2\n";
    let c = Config::load(Ok(global.to_owned()), Ok(local.to_owned())).unwrap();
    let cc = get(get(get(&c.editor, "a").unwrap(), "b").unwrap(), "c").unwrap();
    assert_eq!(get(cc, "leaf"), Some(&ConfigValue::Integer(2)));
    assert_eq!(get(cc, "keep"), None);
}

#[test]
fn editor_leaf_overrides_table() {
    let c = Config::load(Ok("[editor.a]\nx = 1\n".to_owned()), Ok("[editor]\na = 5\n".to_owned())).unwrap();
    assert_eq!(get(&c.editor, "a"), Some(&ConfigValue::Integer(5)));
}

#[test]
fn single_editor_tree_is_used_as_is() {
    let c = load_test("[editor]\nscrolloff = 3\nline-number = \"relative\"\n");
    assert_eq!(get(&c.editor, "scrolloff"), Some(&ConfigValue::Integer(3)));
    assert_eq!(get(&c.editor, "line-number"), Some(&ConfigValue::String("relative".to_owned())));
    assert_eq!(load_test("").editor, ConfigValue::Table(vec![]));
}

#[test]
fn floats_are_kept_in_their_spelling() {
    let c = load_test("[editor]\nratio = 1.5\n");
    assert_eq!(get(&c.editor, "ratio"), Some(&ConfigValue::Other("1.5".to_owned())));
}

#[test]
fn resolving_with_itself_matches_resolving_alone() {
    let text = "theme = \"t\"\n[keys.normal]\nx = \"cmd\"\n[editor.a]\nb = 1\n";
    let alone = Config::load(Ok(text.to_owned()), Err(ConfigLoadError::default())).unwrap();
    let twice = Config::load(Ok(text.to_owned()), Ok(text.to_owned())).unwrap();
    assert_eq!(alone, twice);
}

#[test]
fn unknown_fields_are_rejected() {
    assert!(matches!(ConfigRaw::parse("colour = \"x\""), Err(ConfigLoadError::BadConfig(_))));
    assert!(matches!(ConfigRaw::parse("[keys.visual]\na = \"x\""), Err(ConfigLoadError::BadConfig(_))));
    assert!(matches!(ConfigRaw::parse("[keys]\nsupertab = 1"), Err(ConfigLoadError::BadConfig(_))));
    assert!(matches!(ConfigRaw::parse("keys = 1"), Err(ConfigLoadError::BadConfig(_))));
    assert!(ConfigRaw::parse("[editor.anything]\nwhatever = 1").is_ok());
}

#[test]
fn parse_failure_carries_the_parser_message() {
    match ConfigRaw::parse("theme = ") {
        Err(ConfigLoadError::BadConfig(m)) => assert!(!m.is_empty()),
        other => panic!("unexpected {:?}", other),
    }
}

#[test]
fn resolve_passes_errors_through() {
    let r = resolve(Err(ConfigLoadError::Error("g".to_owned())), Err(ConfigLoadError::BadConfig("l".to_owned())));
    assert_eq!(r, Err(ConfigLoadError::BadConfig("l".to_owned())));
    let r = resolve(Err(ConfigLoadError::BadConfig("g".to_owned())), Err(ConfigLoadError::Error("l".to_owned())));
    assert_eq!(r, Err(ConfigLoadError::BadConfig("g".to_owned())));
    let r = resolve(Err(ConfigLoadError::BadConfig("g".to_owned())), Err(ConfigLoadError::BadConfig("l".to_owned())));
    assert_eq!(r, Err(ConfigLoadError::BadConfig("g".to_owned())));
    let r = Config::load(Err(ConfigLoadError::BadConfig("g".to_owned())), Err(ConfigLoadError::BadConfig("l".to_owned())));
    assert_eq!(r, Err(ConfigLoadError::BadConfig("g".to_owned())));
}

#[test]
fn merge_depth_zero_replaces() {
    let l = table(vec![cmd("a", "x")]);
    let r = table(vec![cmd("b", "y")]);
    assert_eq!(merge_values(l, r, 0), table(vec![cmd("b", "y")]));
    let l = table(vec![cmd("a", "x")]);
    let r = table(vec![cmd("b", "y")]);
    assert_eq!(merge_values(l, r, 1), table(vec![cmd("a", "x"), cmd("b", "y")]));
}

#[test]
fn error_messages_and_default() {
    assert_eq!(ConfigLoadError::default(), ConfigLoadError::Error("place holder".to_owned()));
    assert_eq!(ConfigLoadError::BadConfig("m".to_owned()).message(), "m".to_owned());
}

#[test]
fn deeply_nested_text_is_refused_before_parsing() {
    let text = format!("a = {}", "[".repeat(100_000));
    assert!(matches!(ConfigRaw::parse(&text), Err(ConfigLoadError::BadConfig(_))));
    let text = format!("[{}]\nx = 1\n", vec!["a"; 10_000].join("."));
    assert!(matches!(ConfigRaw::parse(&text), Err(ConfigLoadError::BadConfig(_))));
}

#[test]
fn nesting_at_the_bound_still_parses() {
    let text = format!("[editor]\na = {}1{}\n", "[".repeat(512), "]".repeat(512));
    assert!(ConfigRaw::parse(&text).is_ok());
    let text = format!("[editor]\na = {}1{}\n", "[".repeat(513), "]".repeat(513));
    assert!(matches!(ConfigRaw::parse(&text), Err(ConfigLoadError::BadConfig(_))));
}

#[test]
fn deep_headers_and_keys_at_the_bound_parse() {
    let header = vec!["a"; 300].join(".");
    let key = vec!["b"; 100].join(".");
    let text = format!("[editor.{}]\n{} = {}1{}\n", header, key, "[".repeat(100), "]".repeat(100));
    assert!(ConfigRaw::parse(&text).is_ok());
}

#[test]
fn comments_and_strings_do_not_count_as_nesting() {
    let text = format!("# {}\n", ".".repeat(2000));
    let c = Config::load(Ok(text), Err(ConfigLoadError::default())).unwrap();
    assert_eq!(c, Config::default());
    let text = format!(
        "theme = \"{}\"\nicons = '{}'\n[editor]\nx = \"\"\"{}\"\"\"\ny = \'\'\'{}\'\'\'\n",
        "[".repeat(1000),
        "{".repeat(1000),
        ".".repeat(1000),
        "[.".repeat(1000)
    );
    let c = load_test(&text);
    assert_eq!(c.theme, Some("[".repeat(1000)));
    assert_eq!(get(&c.editor, "y"), Some(&ConfigValue::String("[.".repeat(1000))));
}

#[test]
fn many_array_bindings_parse() {
    let mut text = String::from("[keys.normal]\n");
    for i in 0..700 {
        text.push_str(&format!("k{} = [\"save\", \"quit\"]\n", i));
    }
    let c = load_test(&text);
    let normal = get(&c.keys.bindings, "normal").unwrap();
    assert!(get(normal, "k699").is_some());
}

#[test]
fn global_leaf_yields_to_local_table() {
    let c = Config::load(Ok("[editor]\na = 5\n".to_owned()), Ok("[editor.a]\nx = 1\n".to_owned())).unwrap();
    assert_eq!(get(get(&c.editor, "a").unwrap(), "x"), Some(&ConfigValue::Integer(1)));
}
