use vstd::prelude::*;

use vstd::utf8::encode_utf8;

use crate::value::{
    ConfigValue, has_key, key_at, lookup, merge_values, merged, same_tree, lemma_first_exists,
    lemma_lookup_first, lemma_merge_again, lemma_merge_congruent, lemma_merge_self,
    lemma_same_tree_positional, lemma_same_tree_trans,
};

verus! {

/// How deep the editor settings of the two sources are merged.
pub const EDITOR_MERGE_DEPTH: usize = 3;

/// How deep key tries are merged: at every depth a document can reach.
pub const KEY_MERGE_DEPTH: usize = usize::MAX;

/// Why a configuration could not be loaded.
#[derive(Clone, Debug, PartialEq)]
pub enum ConfigLoadError {
    /// A source was read but does not hold a valid configuration.
    BadConfig(String),
    /// A source could not be read.
    Error(String),
}

impl Default for ConfigLoadError {
    fn default() -> (r: Self)
        ensures
            r matches ConfigLoadError::Error(m) && m@ == "place holder"@,
    {
        ConfigLoadError::Error("place holder".to_owned())
    }
}

impl ConfigLoadError {
    /// The message that describes the failure.
    pub fn message(&self) -> (r: String)
        ensures
            r@ == match self {
                ConfigLoadError::BadConfig(m) => m@,
                ConfigLoadError::Error(m) => m@,
            },
    {
        match self {
            ConfigLoadError::BadConfig(m) => m.clone(),
            ConfigLoadError::Error(m) => m.clone(),
        }
    }
}

/// An editor mode, each with its own key trie.
#[derive(Clone, Copy, Debug, PartialEq, Eq, Structural, Hash)]
pub enum Mode {
    Normal,
    Select,
    Insert,
}

/// The name under which a mode's trie stands in the `keys` table.
pub open spec fn mode_name(m: Mode) -> Seq<char> {
    match m {
        Mode::Normal => "normal"@,
        Mode::Select => "select"@,
        Mode::Insert => "insert"@,
    }
}

pub open spec fn is_mode_name(k: Seq<char>) -> bool {
    k == "normal"@ || k == "select"@ || k == "insert"@
}

impl Mode {
    pub fn name(&self) -> (r: String)
        ensures
            r@ == mode_name(*self),
    {
        match self {
            Mode::Normal => "normal".to_owned(),
            Mode::Select => "select".to_owned(),
            Mode::Insert => "insert".to_owned(),
        }
    }
}

/// Key binding overrides.
///
/// `bindings` is a table from mode name to that mode's key trie: a table from
/// key chord to a command name, a list of command names, or a nested trie.
/// Key chords and command names are kept as written: this library does not
/// check that a chord parses or that a command exists.
#[derive(Debug, PartialEq)]
pub struct KeymapConfig {
    /// An alternative command to run when tab is pressed and the cursor has
    /// text other than whitespace to its left on the current line.
    pub supertab: Option<String>,
    pub bindings: ConfigValue,
}

/// Entry `e` binds `key` to the command `cmd`.
pub open spec fn binds(e: (String, ConfigValue), key: Seq<char>, cmd: Seq<char>) -> bool {
    e.0@ == key && e.1 is String && e.1->String_0@ == cmd
}

/// The built-in key tries, mode by mode.
pub open spec fn is_default_bindings(v: ConfigValue) -> bool {
    v is Table && {
        let modes = v->Table_0@;
        &&& modes.len() == 3
        &&& modes[0].0@ == "normal"@ && modes[0].1 is Table && {
            let t = modes[0].1->Table_0@;
            &&& t.len() == 6
            &&& binds(t[0], "h"@, "move_char_left"@)
            &&& binds(t[1], "j"@, "move_line_down"@)
            &&& binds(t[2], "k"@, "move_line_up"@)
            &&& binds(t[3], "l"@, "move_char_right"@)
            &&& binds(t[4], "i"@, "insert_mode"@)
            &&& binds(t[5], "v"@, "select_mode"@)
        }
        &&& modes[1].0@ == "select"@ && modes[1].1 is Table && {
            let t = modes[1].1->Table_0@;
            &&& t.len() == 6
            &&& binds(t[0], "h"@, "extend_char_left"@)
            &&& binds(t[1], "j"@, "extend_line_down"@)
            &&& binds(t[2], "k"@, "extend_line_up"@)
            &&& binds(t[3], "l"@, "extend_char_right"@)
            &&& binds(t[4], "v"@, "normal_mode"@)
            &&& binds(t[5], "esc"@, "normal_mode"@)
        }
        &&& modes[2].0@ == "insert"@ && modes[2].1 is Table && {
            let t = modes[2].1->Table_0@;
            &&& t.len() == 1
            &&& binds(t[0], "esc"@, "normal_mode"@)
        }
    }
}

fn bind(key: &str, cmd: &str) -> (r: (String, ConfigValue))
    ensures
        binds(r, key@, cmd@),
{
    (key.to_owned(), ConfigValue::String(cmd.to_owned()))
}

/// The built-in key tries: a small fixed keymap for the normal, select and
/// insert modes (13 bindings), which stands in for an editor's full default
/// keymap as the base that overrides are laid on.
pub fn default_bindings() -> (r: ConfigValue)
    ensures
        is_default_bindings(r),
{
    let normal = vec![
        bind("h", "move_char_left"),
        bind("j", "move_line_down"),
        bind("k", "move_line_up"),
        bind("l", "move_char_right"),
        bind("i", "insert_mode"),
        bind("v", "select_mode"),
    ];
    let select = vec![
        bind("h", "extend_char_left"),
        bind("j", "extend_line_down"),
        bind("k", "extend_line_up"),
        bind("l", "extend_char_right"),
        bind("v", "normal_mode"),
        bind("esc", "normal_mode"),
    ];
    let insert = vec![bind("esc", "normal_mode")];
    ConfigValue::Table(
        vec![
            ("normal".to_owned(), ConfigValue::Table(normal)),
            ("select".to_owned(), ConfigValue::Table(select)),
            ("insert".to_owned(), ConfigValue::Table(insert)),
        ],
    )
}

impl Default for KeymapConfig {
    fn default() -> (r: KeymapConfig)
        ensures
            r.supertab is None,
            is_default_bindings(r.bindings),
    {
        KeymapConfig { supertab: None, bindings: default_bindings() }
    }
}

/// `r` is `base` with the overrides `over`, if any, laid on top: a supertab
/// override replaces the base one, and the tries merge mode by mode, key by key.
pub open spec fn keymap_layered(base: KeymapConfig, over: Option<KeymapConfig>, r: KeymapConfig) -> bool {
    match over {
        None => r == base,
        Some(o) => {
            &&& r.supertab == (if o.supertab is Some { o.supertab } else { base.supertab })
            &&& merged(base.bindings, o.bindings, r.bindings, KEY_MERGE_DEPTH as nat)
        },
    }
}

/// Lays the key tries `delta` over `base`, mode by mode and key by key.
pub fn merge_keys(base: ConfigValue, delta: ConfigValue) -> (r: ConfigValue)
    ensures
        merged(base, delta, r, KEY_MERGE_DEPTH as nat),
{
    merge_values(base, delta, KEY_MERGE_DEPTH)
}

impl KeymapConfig {
    /// These bindings with the overrides `over`, if any, laid on top.
    pub fn layered(self, over: Option<KeymapConfig>) -> (r: KeymapConfig)
        ensures
            keymap_layered(self, over, r),
    {
        match over {
            None => self,
            Some(o) => {
                let supertab = if o.supertab.is_some() { o.supertab } else { self.supertab };
                KeymapConfig { supertab, bindings: merge_keys(self.bindings, o.bindings) }
            },
        }
    }
}

/// The string that `v` holds, if it holds one.
pub open spec fn string_of(v: Option<ConfigValue>) -> Option<String> {
    match v {
        Some(ConfigValue::String(s)) => Some(s),
        _ => None,
    }
}

/// An entry the `keys` table may hold: a supertab command, or a mode's trie.
pub open spec fn key_entry_ok(e: (String, ConfigValue)) -> bool {
    (e.0@ == "supertab"@ && e.1 is String) || (is_mode_name(e.0@) && e.1 is Table)
}

/// `k` is the keymap override spelled by the `keys` table entries `e`.
pub open spec fn keymap_of(e: Seq<(String, ConfigValue)>, k: KeymapConfig) -> bool {
    &&& k.supertab == string_of(lookup(e, "supertab"@))
    &&& k.bindings is Table
    &&& forall|key: Seq<char>| #[trigger]
        lookup(k.bindings->Table_0@, key) == (if key == "supertab"@ {
            None
        } else {
            lookup(e, key)
        })
}

/// The names of the fields and modes differ from each other.
proof fn lemma_names_distinct()
    ensures
        !is_mode_name("supertab"@),
        !is_mode_name("theme"@),
        !is_mode_name("icons"@),
        !is_mode_name("keys"@),
        !is_mode_name("editor"@),
        "theme"@ != "icons"@,
        "theme"@ != "keys"@,
        "theme"@ != "editor"@,
        "icons"@ != "keys"@,
        "icons"@ != "editor"@,
        "keys"@ != "editor"@,
{
    reveal_strlit("supertab");
    reveal_strlit("normal");
    reveal_strlit("select");
    reveal_strlit("insert");
    reveal_strlit("theme");
    reveal_strlit("icons");
    reveal_strlit("keys");
    reveal_strlit("editor");
    assert("supertab"@.len() == 8);
    assert("normal"@.len() == 6 && "normal"@[0] == 'n');
    assert("select"@.len() == 6 && "select"@[0] == 's');
    assert("insert"@.len() == 6 && "insert"@[0] == 'i');
    assert("theme"@.len() == 5 && "theme"@[0] == 't');
    assert("icons"@.len() == 5 && "icons"@[0] == 'i');
    assert("keys"@.len() == 4);
    assert("editor"@.len() == 6 && "editor"@[0] == 'e');
}

/// Where every entry of kind `name` holds a string, `name` is present exactly
/// when its string is.
proof fn lemma_string_field(e: Seq<(String, ConfigValue)>, name: Seq<char>)
    requires
        forall|i: int| 0 <= i < e.len() && #[trigger] key_at(e, i) == name ==> e[i].1 is String,
    ensures
        string_of(lookup(e, name)) is Some <==> has_key(e, name),
{
    if has_key(e, name) {
        let f = lemma_first_exists(e, name);
        lemma_lookup_first(e, name, f);
    }
}

/// Reads the `keys` table: a supertab command and one trie per mode.
pub fn parse_keymap(entries: Vec<(String, ConfigValue)>) -> (r: Result<KeymapConfig, ConfigLoadError>)
    ensures
        r is Ok <==> forall|i: int| 0 <= i < entries@.len() ==> #[trigger] key_entry_ok(entries@[i]),
        r matches Ok(k) ==> keymap_of(entries@, k),
        r matches Err(e) ==> e is BadConfig,
{
    let ghost all = entries@;
    let supertab_name = "supertab".to_owned();
    let normal_name = "normal".to_owned();
    let select_name = "select".to_owned();
    let insert_name = "insert".to_owned();
    let mut rest = entries;
    let mut supertab: Option<String> = None;
    let mut kept: Vec<(String, ConfigValue)> = Vec::new();
    while rest.len() > 0
        invariant
            all == entries@,
            supertab_name@ == "supertab"@,
            normal_name@ == "normal"@,
            select_name@ == "select"@,
            insert_name@ == "insert"@,
            rest@.len() <= all.len(),
            rest@ == all.subrange(all.len() - rest@.len(), all.len() as int),
            forall|i: int| 0 <= i < all.len() - rest@.len() ==> #[trigger] key_entry_ok(all[i]),
            supertab == string_of(lookup(all.subrange(0, all.len() - rest@.len()), "supertab"@)),
            forall|key: Seq<char>| #[trigger]
                lookup(kept@, key) == (if key == "supertab"@ {
                    None
                } else {
                    lookup(all.subrange(0, all.len() - rest@.len()), key)
                }),
        decreases rest@.len(),
    {
        let ghost j = all.len() - rest@.len();
        let ghost prefix = all.subrange(0, j);
        let ghost kept_before = kept@;
        proof {
            lemma_names_distinct();
            assert(rest@[0] == all[j]);
            assert forall|i: int| 0 <= i < prefix.len() && #[trigger] key_at(prefix, i) == "supertab"@ implies prefix[i].1 is String by {
                assert(key_entry_ok(all[i]));
            }
            lemma_string_field(prefix, "supertab"@);
        }
        let (key, val) = rest.remove(0);
        proof {
            assert(all.subrange(0, j + 1) == prefix.push((key, val)));
            assert forall|k: Seq<char>| #[trigger] lookup(all.subrange(0, j + 1), k) == (if has_key(prefix, k) || k != key@ {
                lookup(prefix, k)
            } else {
                Some(val)
            }) by {
                crate::value::lemma_push(prefix, (key, val), k);
            }
        }
        let is_supertab = key == supertab_name;
        let is_mode = key == normal_name || key == select_name || key == insert_name;
        let shape_ok = if is_supertab {
            matches!(val, ConfigValue::String(_))
        } else {
            is_mode && matches!(val, ConfigValue::Table(_))
        };
        if !shape_ok {
            proof {
                assert(!key_entry_ok(all[j]));
                assert(!(forall|i: int| 0 <= i < all.len() ==> #[trigger] key_entry_ok(all[i])));
            }
            return Err(ConfigLoadError::BadConfig("`keys` holds a field or a value of the wrong kind".to_owned()));
        }
        if is_supertab {
            if let ConfigValue::String(command) = val {
                if supertab.is_none() {
                    supertab = Some(command);
                }
            }
        } else {
            kept.push((key, val));
            proof {
                assert forall|k: Seq<char>| #[trigger] lookup(kept@, k) == (if k == "supertab"@ {
                    None
                } else {
                    lookup(all.subrange(0, j + 1), k)
                }) by {
                    crate::value::lemma_push(kept_before, (key, val), k);
                    if k != "supertab"@ {
                        if has_key(prefix, k) {
                            let f = lemma_first_exists(prefix, k);
                            lemma_lookup_first(prefix, k, f);
                        }
                        if has_key(kept_before, k) {
                            let f = lemma_first_exists(kept_before, k);
                            lemma_lookup_first(kept_before, k, f);
                        }
                    }
                }
            }
        }
        proof {
            assert(all.len() - rest@.len() == j + 1);
        }
    }
    proof {
        assert(all.subrange(0, all.len() as int) == all);
    }
    Ok(KeymapConfig { supertab, bindings: ConfigValue::Table(kept) })
}

/// A configuration source as written: every field optional.
#[derive(Debug, PartialEq)]
pub struct ConfigRaw {
    pub theme: Option<String>,
    pub icons: Option<String>,
    pub keys: Option<KeymapConfig>,
    pub editor: Option<ConfigValue>,
}

/// A `keys` table that reads as a keymap override.
pub open spec fn keymap_ok(v: ConfigValue) -> bool {
    v is Table && forall|i: int| 0 <= i < v->Table_0@.len() ==> #[trigger] key_entry_ok(v->Table_0@[i])
}

/// A top-level entry the configuration may hold.
pub open spec fn field_ok(e: (String, ConfigValue)) -> bool {
    ||| (e.0@ == "theme"@ && e.1 is String)
    ||| (e.0@ == "icons"@ && e.1 is String)
    ||| (e.0@ == "keys"@ && keymap_ok(e.1))
    ||| e.0@ == "editor"@
}

/// `c` is the configuration spelled by the top-level entries `e`.
pub open spec fn raw_of(e: Seq<(String, ConfigValue)>, c: ConfigRaw) -> bool {
    &&& c.theme == string_of(lookup(e, "theme"@))
    &&& c.icons == string_of(lookup(e, "icons"@))
    &&& c.editor == lookup(e, "editor"@)
    &&& (c.keys is Some <==> has_key(e, "keys"@))
    &&& (c.keys matches Some(k) ==> keymap_of(lookup(e, "keys"@)->0->Table_0@, k))
}

/// The lookup of `name` after one more entry.
proof fn lemma_lookup_next(prefix: Seq<(String, ConfigValue)>, entry: (String, ConfigValue), name: Seq<char>)
    ensures
        lookup(prefix.push(entry), name) == (if has_key(prefix, name) || entry.0@ != name {
            lookup(prefix, name)
        } else {
            Some(entry.1)
        }),
        has_key(prefix.push(entry), name) == (has_key(prefix, name) || entry.0@ == name),
{
    crate::value::lemma_push(prefix, entry, name);
    let n = prefix.push(entry);
    if has_key(prefix, name) {
        let f = lemma_first_exists(prefix, name);
        assert(key_at(n, f) == key_at(prefix, f));
    }
    if has_key(n, name) && entry.0@ != name {
        let f = lemma_first_exists(n, name);
        assert(key_at(n, f) == key_at(prefix, f));
    }
    if entry.0@ == name {
        assert(key_at(n, prefix.len() as int) == name);
    }
}

impl ConfigRaw {
    /// Reads a parsed document: a table whose only fields are `theme`, `icons`,
    /// `keys` and `editor`.
    pub fn from_value(v: ConfigValue) -> (r: Result<ConfigRaw, ConfigLoadError>)
        ensures
            r is Ok <==> (v is Table && forall|i: int|
                0 <= i < v->Table_0@.len() ==> #[trigger] field_ok(v->Table_0@[i])),
            r matches Ok(c) ==> raw_of(v->Table_0@, c),
            r matches Err(e) ==> e is BadConfig,
    {
        let entries = match v {
            ConfigValue::Table(entries) => entries,
            _ => {
                return Err(ConfigLoadError::BadConfig("the configuration must be a table".to_owned()));
            },
        };
        let ghost all = entries@;
        let theme_name = "theme".to_owned();
        let icons_name = "icons".to_owned();
        let keys_name = "keys".to_owned();
        let editor_name = "editor".to_owned();
        let mut rest = entries;
        let mut theme: Option<String> = None;
        let mut icons: Option<String> = None;
        let mut keys: Option<KeymapConfig> = None;
        let mut editor: Option<ConfigValue> = None;
        while rest.len() > 0
            invariant
                all == v->Table_0@,
                theme_name@ == "theme"@,
                icons_name@ == "icons"@,
                keys_name@ == "keys"@,
                editor_name@ == "editor"@,
                rest@.len() <= all.len(),
                rest@ == all.subrange(all.len() - rest@.len(), all.len() as int),
                forall|i: int| 0 <= i < all.len() - rest@.len() ==> #[trigger] field_ok(all[i]),
                raw_of(all.subrange(0, all.len() - rest@.len()), ConfigRaw { theme, icons, keys, editor }),
            decreases rest@.len(),
        {
            let ghost j = all.len() - rest@.len();
            let ghost prefix = all.subrange(0, j);
            proof {
                lemma_names_distinct();
                assert(rest@[0] == all[j]);
                assert forall|i: int| 0 <= i < prefix.len() && #[trigger] key_at(prefix, i) == "theme"@ implies prefix[i].1 is String by {
                    assert(field_ok(all[i]));
                }
                assert forall|i: int| 0 <= i < prefix.len() && #[trigger] key_at(prefix, i) == "icons"@ implies prefix[i].1 is String by {
                    assert(field_ok(all[i]));
                }
                lemma_string_field(prefix, "theme"@);
                lemma_string_field(prefix, "icons"@);
            }
            let (key, val) = rest.remove(0);
            proof {
                assert(all.subrange(0, j + 1) == prefix.push((key, val)));
                lemma_lookup_next(prefix, (key, val), "theme"@);
                lemma_lookup_next(prefix, (key, val), "icons"@);
                lemma_lookup_next(prefix, (key, val), "keys"@);
                lemma_lookup_next(prefix, (key, val), "editor"@);
            }
            if key == theme_name || key == icons_name {
                if !matches!(val, ConfigValue::String(_)) {
                    proof {
                        assert(!field_ok(all[j]));
                        assert(!(forall|i: int| 0 <= i < all.len() ==> #[trigger] field_ok(all[i])));
                    }
                    return Err(ConfigLoadError::BadConfig("`theme` and `icons` must be strings".to_owned()));
                }
                if let ConfigValue::String(name) = val {
                    if key == theme_name {
                        if theme.is_none() {
                            theme = Some(name);
                        }
                    } else if icons.is_none() {
                        icons = Some(name);
                    }
                }
            } else if key == keys_name {
                let ghost kv = val;
                match val {
                    ConfigValue::Table(t) => {
                        match parse_keymap(t) {
                            Ok(k) => {
                                if keys.is_none() {
                                    keys = Some(k);
                                }
                            },
                            Err(e) => {
                                proof {
                                    assert(!keymap_ok(kv));
                                    assert(!field_ok(all[j]));
                                    assert(!(forall|i: int| 0 <= i < all.len() ==> #[trigger] field_ok(all[i])));
                                }
                                return Err(e);
                            },
                        }
                    },
                    _ => {
                        proof {
                            assert(!field_ok(all[j]));
                            assert(!(forall|i: int| 0 <= i < all.len() ==> #[trigger] field_ok(all[i])));
                        }
                        return Err(ConfigLoadError::BadConfig("`keys` must be a table".to_owned()));
                    },
                }
            } else if key == editor_name {
                if editor.is_none() {
                    editor = Some(val);
                }
            } else {
                proof {
                    assert(!field_ok(all[j]));
                    assert(!(forall|i: int| 0 <= i < all.len() ==> #[trigger] field_ok(all[i])));
                }
                return Err(ConfigLoadError::BadConfig("unknown field in the configuration".to_owned()));
            }
            proof {
                assert(all.len() - rest@.len() == j + 1);
            }
        }
        proof {
            assert(all.subrange(0, all.len() as int) == all);
        }
        Ok(ConfigRaw { theme, icons, keys, editor })
    }
}

/// A parsed TOML value, as the toml parser hands it over.
#[verifier::external_type_specification]
#[verifier::external_body]
pub struct ExTomlValue(toml::Value);

/// How deep a text handed to the toml parser may nest, by `nesting_depth`. The
/// parser recurses once per level, with no limit of its own, so a deeper
/// document would exhaust the stack.
pub const MAX_NESTING: usize = 512;

/// Where a scan of a TOML text stands: the next byte, whether it is in plain
/// text (0), a comment (1), a basic (2), multi-line basic (3), literal (4) or
/// multi-line literal (5) string, how many `[`/`{` are open, the dots seen on
/// the current line and in the last table header, whether the line holds only
/// blanks so far, and whether it is a table header.
#[derive(Clone, Copy)]
pub struct ScanState {
    pub pos: usize,
    pub mode: u8,
    pub open: usize,
    pub line_dots: usize,
    pub header_dots: usize,
    pub line_start: bool,
    pub header_line: bool,
}

/// An upper bound on how deep the parser recurses at this point: open brackets
/// and braces, plus the dotted parts of the current key and of the current
/// table header, each of which opens a nested table.
pub open spec fn nesting_depth(s: ScanState) -> nat {
    s.open as nat + s.line_dots as nat + s.header_dots as nat
}

pub open spec fn scan_start() -> ScanState {
    ScanState { pos: 0, mode: 0, open: 0, line_dots: 0, header_dots: 0, line_start: true, header_line: false }
}

/// Byte `i` of `b` is `c`.
pub open spec fn byte_is(b: Seq<u8>, i: int, c: u8) -> bool {
    0 <= i < b.len() && b[i] == c
}

pub open spec fn triple(b: Seq<u8>, i: int, c: u8) -> bool {
    byte_is(b, i, c) && byte_is(b, i + 1, c) && byte_is(b, i + 2, c)
}

/// How many quotes close a multi-line string: the delimiter and up to two
/// quotes of content before it.
pub open spec fn close_len(b: Seq<u8>, i: int, c: u8) -> int {
    if byte_is(b, i + 3, c) {
        if byte_is(b, i + 4, c) {
            5
        } else {
            4
        }
    } else {
        3
    }
}

/// One byte past an escape, or two where the escaped byte is there.
pub open spec fn escape_len(b: Seq<u8>, i: int) -> int {
    if i + 1 < b.len() {
        2
    } else {
        1
    }
}

pub open spec fn moved(s: ScanState, pos: int, mode: u8) -> ScanState {
    ScanState { pos: pos as usize, mode, ..s }
}

/// The state after a line break outside any string.
pub open spec fn after_newline(s: ScanState) -> ScanState {
    if s.open == 0 {
        ScanState {
            pos: (s.pos + 1) as usize,
            mode: 0,
            open: 0,
            line_dots: 0,
            header_dots: if s.header_line {
                s.line_dots
            } else {
                s.header_dots
            },
            line_start: true,
            header_line: false,
        }
    } else {
        ScanState { pos: (s.pos + 1) as usize, mode: 0, line_start: true, ..s }
    }
}

/// One step of the scan, from the byte at `s.pos`.
pub open spec fn scan_step(b: Seq<u8>, s: ScanState) -> ScanState {
    let i = s.pos as int;
    let c = b[i];
    if s.mode == 1 {
        if c == 10 {
            after_newline(s)
        } else {
            moved(s, i + 1, 1)
        }
    } else if s.mode == 2 {
        if c == 92 {
            moved(s, i + escape_len(b, i), 2)
        } else if c == 34 {
            moved(s, i + 1, 0)
        } else {
            moved(s, i + 1, 2)
        }
    } else if s.mode == 3 {
        if c == 92 {
            moved(s, i + escape_len(b, i), 3)
        } else if triple(b, i, 34) {
            moved(s, i + close_len(b, i, 34), 0)
        } else {
            moved(s, i + 1, 3)
        }
    } else if s.mode == 4 {
        if c == 39 {
            moved(s, i + 1, 0)
        } else {
            moved(s, i + 1, 4)
        }
    } else if s.mode == 5 {
        if triple(b, i, 39) {
            moved(s, i + close_len(b, i, 39), 0)
        } else {
            moved(s, i + 1, 5)
        }
    } else if c == 10 {
        after_newline(s)
    } else if c == 32 || c == 9 || c == 13 {
        moved(s, i + 1, 0)
    } else if c == 35 {
        ScanState { pos: (i + 1) as usize, mode: 1, line_start: false, ..s }
    } else if c == 34 {
        if triple(b, i, 34) {
            ScanState { pos: (i + 3) as usize, mode: 3, line_start: false, ..s }
        } else {
            ScanState { pos: (i + 1) as usize, mode: 2, line_start: false, ..s }
        }
    } else if c == 39 {
        if triple(b, i, 39) {
            ScanState { pos: (i + 3) as usize, mode: 5, line_start: false, ..s }
        } else {
            ScanState { pos: (i + 1) as usize, mode: 4, line_start: false, ..s }
        }
    } else if c == 91 {
        ScanState {
            pos: (i + 1) as usize,
            open: (s.open + 1) as usize,
            line_start: false,
            header_line: s.header_line || (s.open == 0 && s.line_start),
            ..s
        }
    } else if c == 123 {
        ScanState { pos: (i + 1) as usize, open: (s.open + 1) as usize, line_start: false, ..s }
    } else if c == 93 || c == 125 {
        ScanState {
            pos: (i + 1) as usize,
            open: if s.open > 0 {
                (s.open - 1) as usize
            } else {
                0
            },
            line_start: false,
            ..s
        }
    } else if c == 46 {
        ScanState { pos: (i + 1) as usize, line_dots: (s.line_dots + 1) as usize, line_start: false, ..s }
    } else {
        ScanState { pos: (i + 1) as usize, line_start: false, ..s }
    }
}

/// From state `s` on, the scan of `b` never goes deeper than `MAX_NESTING`.
/// (A step always moves forward; the first test only makes the measure plain.)
pub open spec fn fits_from(b: Seq<u8>, s: ScanState) -> bool
    decreases b.len() - s.pos,
{
    if s.pos >= b.len() {
        true
    } else {
        let t = scan_step(b, s);
        if t.pos <= s.pos || t.pos > b.len() {
            true
        } else {
            nesting_depth(t) <= MAX_NESTING as nat && fits_from(b, t)
        }
    }
}

/// The bytes of a TOML text never nest deeper than `MAX_NESTING`, skipping
/// comments and strings.
pub open spec fn nesting_fits(b: Seq<u8>) -> bool {
    fits_from(b, scan_start())
}

fn byte_at(b: &[u8], i: usize, k: usize, c: u8) -> (r: bool)
    ensures
        r == byte_is(b@, i + k, c),
{
    if k < b.len() && i < b.len() - k {
        b[i + k] == c
    } else {
        false
    }
}

fn scan_step_exec(b: &[u8], s: ScanState) -> (t: ScanState)
    requires
        s.pos < b@.len(),
        nesting_depth(s) <= MAX_NESTING as nat,
    ensures
        t == scan_step(b@, s),
        s.pos < t.pos <= b@.len(),
{
    let i = s.pos;
    let c = b[i];
    let q3 = byte_at(b, i, 0, 34) && byte_at(b, i, 1, 34) && byte_at(b, i, 2, 34);
    let a3 = byte_at(b, i, 0, 39) && byte_at(b, i, 1, 39) && byte_at(b, i, 2, 39);
    let esc: usize = if i + 1 < b.len() { 2 } else { 1 };
    let close_q: usize = if byte_at(b, i, 3, 34) { if byte_at(b, i, 4, 34) { 5 } else { 4 } } else { 3 };
    let close_a: usize = if byte_at(b, i, 3, 39) { if byte_at(b, i, 4, 39) { 5 } else { 4 } } else { 3 };
    let newline = if s.open == 0 {
        ScanState {
            pos: i + 1,
            mode: 0,
            open: 0,
            line_dots: 0,
            header_dots: if s.header_line { s.line_dots } else { s.header_dots },
            line_start: true,
            header_line: false,
        }
    } else {
        ScanState { pos: i + 1, mode: 0, line_start: true, ..s }
    };
    if s.mode == 1 {
        if c == 10 { newline } else { ScanState { pos: i + 1, mode: 1, ..s } }
    } else if s.mode == 2 {
        if c == 92 {
            ScanState { pos: i + esc, mode: 2, ..s }
        } else if c == 34 {
            ScanState { pos: i + 1, mode: 0, ..s }
        } else {
            ScanState { pos: i + 1, mode: 2, ..s }
        }
    } else if s.mode == 3 {
        if c == 92 {
            ScanState { pos: i + esc, mode: 3, ..s }
        } else if q3 {
            ScanState { pos: i + close_q, mode: 0, ..s }
        } else {
            ScanState { pos: i + 1, mode: 3, ..s }
        }
    } else if s.mode == 4 {
        if c == 39 {
            ScanState { pos: i + 1, mode: 0, ..s }
        } else {
            ScanState { pos: i + 1, mode: 4, ..s }
        }
    } else if s.mode == 5 {
        if a3 {
            ScanState { pos: i + close_a, mode: 0, ..s }
        } else {
            ScanState { pos: i + 1, mode: 5, ..s }
        }
    } else if c == 10 {
        newline
    } else if c == 32 || c == 9 || c == 13 {
        ScanState { pos: i + 1, mode: 0, ..s }
    } else if c == 35 {
        ScanState { pos: i + 1, mode: 1, line_start: false, ..s }
    } else if c == 34 {
        if q3 {
            ScanState { pos: i + 3, mode: 3, line_start: false, ..s }
        } else {
            ScanState { pos: i + 1, mode: 2, line_start: false, ..s }
        }
    } else if c == 39 {
        if a3 {
            ScanState { pos: i + 3, mode: 5, line_start: false, ..s }
        } else {
            ScanState { pos: i + 1, mode: 4, line_start: false, ..s }
        }
    } else if c == 91 {
        ScanState {
            pos: i + 1,
            open: s.open + 1,
            line_start: false,
            header_line: s.header_line || (s.open == 0 && s.line_start),
            ..s
        }
    } else if c == 123 {
        ScanState { pos: i + 1, open: s.open + 1, line_start: false, ..s }
    } else if c == 93 || c == 125 {
        ScanState { pos: i + 1, open: if s.open > 0 { s.open - 1 } else { 0 }, line_start: false, ..s }
    } else if c == 46 {
        ScanState { pos: i + 1, line_dots: s.line_dots + 1, line_start: false, ..s }
    } else {
        ScanState { pos: i + 1, line_start: false, ..s }
    }
}

/// The text is shallow enough to hand to the parser.
pub fn within_nesting_bound(text: &str) -> (r: bool)
    ensures
        r == nesting_fits(encode_utf8(text@)),
{
    let bytes = text.as_bytes();
    let mut s = ScanState { pos: 0, mode: 0, open: 0, line_dots: 0, header_dots: 0, line_start: true, header_line: false };
    while s.pos < bytes.len()
        invariant
            bytes@ == encode_utf8(text@),
            s.pos <= bytes@.len(),
            nesting_depth(s) <= MAX_NESTING as nat,
            fits_from(bytes@, scan_start()) == fits_from(bytes@, s),
        decreases bytes@.len() - s.pos,
    {
        let t = scan_step_exec(bytes, s);
        if t.open > MAX_NESTING || t.line_dots > MAX_NESTING || t.header_dots > MAX_NESTING
            || t.open + t.line_dots + t.header_dots > MAX_NESTING {
            return false;
        }
        s = t;
    }
    true
}

/// The document a TOML text spells, if it is one: what `toml::from_str` gives
/// for the text, read into a `ConfigValue`.
pub uninterp spec fn toml_doc(text: Seq<char>) -> Option<ConfigValue>;

/// Relies on `toml::from_str` to parse a TOML document (its result depends on
/// the text alone; tables come out in key order), on the Display of
/// `toml::de::Error` for the message, and on `toml_value` to read the result.
#[verifier::external_body]
fn parse_toml(text: &str) -> (r: Result<ConfigValue, String>)
    requires
        nesting_fits(encode_utf8(text@)),
    ensures
        (r is Ok) == (toml_doc(text@) is Some),
        r matches Ok(v) ==> v == toml_doc(text@)->0,
{
    toml::from_str::<toml::Value>(text).map(toml_value).map_err(|e| e.to_string())
}

/// Relies on the variants of `toml::Value` to read a parsed value one for one;
/// floats and datetimes are kept as their Display text.
#[verifier::external_body]
fn toml_value(v: toml::Value) -> ConfigValue {
    match v {
        toml::Value::String(s) => ConfigValue::String(s),
        toml::Value::Integer(i) => ConfigValue::Integer(i),
        toml::Value::Boolean(b) => ConfigValue::Boolean(b),
        toml::Value::Float(x) => ConfigValue::Other(x.to_string()),
        toml::Value::Datetime(d) => ConfigValue::Other(d.to_string()),
        toml::Value::Array(a) => ConfigValue::Array(a.into_iter().map(toml_value).collect()),
        toml::Value::Table(t) => ConfigValue::Table(t.into_iter().map(|(k, x)| (k, toml_value(x))).collect()),
    }
}

/// `r` is what reading the text `t` gives: a `BadConfig` error where it nests
/// too deeply or is no TOML document, and otherwise what `ConfigRaw::from_value`
/// gives for its document.
pub open spec fn text_parsed(t: Seq<char>, r: Result<ConfigRaw, ConfigLoadError>) -> bool {
    if !nesting_fits(encode_utf8(t)) {
        r matches Err(ConfigLoadError::BadConfig(_))
    } else {
        match toml_doc(t) {
            None => r matches Err(ConfigLoadError::BadConfig(_)),
            Some(v) => {
                &&& (r is Ok) == (v is Table && forall|i: int|
                    0 <= i < v->Table_0@.len() ==> #[trigger] field_ok(v->Table_0@[i]))
                &&& (r matches Ok(c) ==> raw_of(v->Table_0@, c))
                &&& (r matches Err(e) ==> e is BadConfig)
            },
        }
    }
}

/// `r` is what reading the source `src` gives: a failed read passes through
/// unchanged, and a text is parsed (see `text_parsed`).
pub open spec fn source_parsed(src: Result<String, ConfigLoadError>, r: Result<ConfigRaw, ConfigLoadError>) -> bool {
    match src {
        Err(e) => r == Err::<ConfigRaw, ConfigLoadError>(e),
        Ok(t) => text_parsed(t@, r),
    }
}

impl ConfigRaw {
    /// Parses a TOML text into a raw configuration.
    pub fn parse(text: &str) -> (r: Result<ConfigRaw, ConfigLoadError>)
        ensures
            text_parsed(text@, r),
    {
        if !within_nesting_bound(text) {
            return Err(ConfigLoadError::BadConfig("the document nests too deeply".to_owned()));
        }
        match parse_toml(text) {
            Err(message) => Err(ConfigLoadError::BadConfig(message)),
            Ok(v) => ConfigRaw::from_value(v),
        }
    }
}

/// Reads one source: a failed read passes through, a text is parsed.
pub fn parse_source(src: Result<String, ConfigLoadError>) -> (r: Result<ConfigRaw, ConfigLoadError>)
    ensures
        source_parsed(src, r),
{
    match src {
        Err(e) => Err(e),
        Ok(text) => ConfigRaw::parse(text.as_str()),
    }
}

/// The resolved configuration.
///
/// `editor` is the merged editor settings tree as written. It is not checked
/// against an editor's settings schema, so a setting whose value that schema
/// would refuse is not reported as `BadConfig` here; an empty table stands for
/// every setting at its default.
#[derive(Debug, PartialEq)]
pub struct Config {
    pub theme: Option<String>,
    pub icons: Option<String>,
    pub keys: KeymapConfig,
    pub editor: ConfigValue,
}

impl Default for Config {
    /// No theme or icons, the built-in keymap, and every editor setting at its
    /// default (an empty settings table).
    fn default() -> (r: Config)
        ensures
            r.theme is None,
            r.icons is None,
            r.keys.supertab is None,
            is_default_bindings(r.keys.bindings),
            r.editor is Table && r.editor->Table_0@.len() == 0,
    {
        Config {
            theme: None,
            icons: None,
            keys: KeymapConfig::default(),
            editor: ConfigValue::Table(Vec::new()),
        }
    }
}

pub open spec fn option_or(a: Option<String>, b: Option<String>) -> Option<String> {
    if a is Some {
        a
    } else {
        b
    }
}

/// The editor settings tree that the global and local settings `g` and `l`
/// resolve to: an empty table (every setting at its default) where neither is
/// set, the one that is set, or local merged over global three levels deep.
pub open spec fn editor_resolved(g: Option<ConfigValue>, l: Option<ConfigValue>, e: ConfigValue) -> bool {
    match (g, l) {
        (None, None) => e is Table && e->Table_0@.len() == 0,
        (Some(x), None) => e == x,
        (None, Some(y)) => e == y,
        (Some(x), Some(y)) => merged(x, y, e, EDITOR_MERGE_DEPTH as nat),
    }
}

/// The keymap that the global and local overrides `g` and `l` resolve to: the
/// built-in keymap, with `g` laid on it, then `l` laid on the result.
pub open spec fn keys_resolved(g: Option<KeymapConfig>, l: Option<KeymapConfig>, k: KeymapConfig) -> bool {
    exists|d: KeymapConfig, mid: KeymapConfig|
        #![trigger keymap_layered(d, g, mid), keymap_layered(mid, l, k)]
        {
            &&& d.supertab is None
            &&& is_default_bindings(d.bindings)
            &&& keymap_layered(d, g, mid)
            &&& keymap_layered(mid, l, k)
        }
}

/// `c` resolves two sources that were both read: local values win over global.
pub open spec fn merged_config(g: ConfigRaw, l: ConfigRaw, c: Config) -> bool {
    &&& c.theme == option_or(l.theme, g.theme)
    &&& c.icons == option_or(l.icons, g.icons)
    &&& keys_resolved(g.keys, l.keys, c.keys)
    &&& editor_resolved(g.editor, l.editor, c.editor)
}

/// `c` resolves the one source `a` that was read.
pub open spec fn single_config(a: ConfigRaw, c: Config) -> bool {
    &&& c.theme == a.theme
    &&& c.icons == a.icons
    &&& keys_resolved(a.keys, None, c.keys)
    &&& editor_resolved(a.editor, None, c.editor)
}

/// `r` is the outcome of resolving the global source `g` and the local one `l`.
///
/// Two sources that were read merge. Otherwise a `BadConfig` error wins, the
/// global one first; one source that was read is used alone; and where neither
/// was read the global error is returned.
pub open spec fn resolved(
    g: Result<ConfigRaw, ConfigLoadError>,
    l: Result<ConfigRaw, ConfigLoadError>,
    r: Result<Config, ConfigLoadError>,
) -> bool {
    match (g, l) {
        (Ok(a), Ok(b)) => r matches Ok(c) && merged_config(a, b, c),
        (Err(ConfigLoadError::BadConfig(m)), _) => r == Err::<Config, ConfigLoadError>(ConfigLoadError::BadConfig(m)),
        (_, Err(ConfigLoadError::BadConfig(m))) => r == Err::<Config, ConfigLoadError>(ConfigLoadError::BadConfig(m)),
        (Ok(a), Err(_)) => r matches Ok(c) && single_config(a, c),
        (Err(_), Ok(b)) => r matches Ok(c) && single_config(b, c),
        (Err(e), Err(_)) => r == Err::<Config, ConfigLoadError>(e),
    }
}

/// The built-in keymap with the global and then the local overrides laid on it.
pub fn resolve_keys(g: Option<KeymapConfig>, l: Option<KeymapConfig>) -> (r: KeymapConfig)
    ensures
        keys_resolved(g, l, r),
{
    let d = KeymapConfig::default();
    let ghost d0 = d;
    let mid = d.layered(g);
    let ghost mid0 = mid;
    let r = mid.layered(l);
    proof {
        assert(keymap_layered(d0, g, mid0) && keymap_layered(mid0, l, r));
    }
    r
}

/// The editor settings tree of the two sources (see `editor_resolved`).
pub fn resolve_editor(g: Option<ConfigValue>, l: Option<ConfigValue>) -> (r: ConfigValue)
    ensures
        editor_resolved(g, l, r),
{
    match (g, l) {
        (None, None) => ConfigValue::Table(Vec::new()),
        (Some(x), None) => x,
        (None, Some(y)) => y,
        (Some(x), Some(y)) => merge_values(x, y, EDITOR_MERGE_DEPTH),
    }
}

/// Resolves the global and local sources into one configuration.
pub fn resolve(
    global: Result<ConfigRaw, ConfigLoadError>,
    local: Result<ConfigRaw, ConfigLoadError>,
) -> (r: Result<Config, ConfigLoadError>)
    ensures
        resolved(global, local, r),
{
    match (global, local) {
        (Ok(g), Ok(l)) => {
            let keys = resolve_keys(g.keys, l.keys);
            let editor = resolve_editor(g.editor, l.editor);
            let theme = if l.theme.is_some() { l.theme } else { g.theme };
            let icons = if l.icons.is_some() { l.icons } else { g.icons };
            Ok(Config { theme, icons, keys, editor })
        },
        (Err(ConfigLoadError::BadConfig(m)), _) => Err(ConfigLoadError::BadConfig(m)),
        (_, Err(ConfigLoadError::BadConfig(m))) => Err(ConfigLoadError::BadConfig(m)),
        (Ok(c), Err(_)) | (Err(_), Ok(c)) => {
            let keys = resolve_keys(c.keys, None);
            let editor = resolve_editor(c.editor, None);
            Ok(Config { theme: c.theme, icons: c.icons, keys, editor })
        },
        (Err(e), Err(_)) => Err(e),
    }
}

impl Config {
    /// Loads the configuration from the global and the local source, each the
    /// text that was read or the error that reading it gave.
    pub fn load(
        global: Result<String, ConfigLoadError>,
        local: Result<String, ConfigLoadError>,
    ) -> (r: Result<Config, ConfigLoadError>)
        ensures
            exists|g: Result<ConfigRaw, ConfigLoadError>, l: Result<ConfigRaw, ConfigLoadError>|
                #![trigger source_parsed(global, g), source_parsed(local, l)]
                source_parsed(global, g) && source_parsed(local, l) && resolved(g, l, r),
            (global is Err && local is Err && local->Err_0 is Error) ==> r == Err::<Config, ConfigLoadError>(
                global->Err_0,
            ),
    {
        let g = parse_source(global);
        let l = parse_source(local);
        let ghost g0 = g;
        let ghost l0 = l;
        let r = resolve(g, l);
        proof {
            assert(source_parsed(global, g0) && source_parsed(local, l0) && resolved(g0, l0, r));
        }
        r
    }
}

/// Two tables of commands with the same keys and commands, position by position,
/// have the same contents.
proof fn lemma_same_commands(a: ConfigValue, b: ConfigValue, depth: nat)
    requires
        depth > 0,
        a is Table,
        b is Table,
        a->Table_0@.len() == b->Table_0@.len(),
        forall|i: int|
            0 <= i < a->Table_0@.len() ==> {
                let x = #[trigger] a->Table_0@[i];
                let y = b->Table_0@[i];
                x.0@ == y.0@ && x.1 is String && y.1 is String && x.1->String_0@ == y.1->String_0@
            },
    ensures
        same_tree(a, b, depth),
{
    assert forall|i: int| 0 <= i < a->Table_0@.len() implies #[trigger] key_at(a->Table_0@, i) == key_at(b->Table_0@, i) by {
        assert(a->Table_0@[i].0@ == b->Table_0@[i].0@);
    }
    assert forall|i: int| 0 <= i < a->Table_0@.len() implies #[trigger] same_tree(
        a->Table_0@[i].1,
        b->Table_0@[i].1,
        (depth - 1) as nat,
    ) by {
        assert(a->Table_0@[i].1 is String);
    }
    lemma_same_tree_positional(a, b, depth);
}

/// Any two values of the built-in keymap have the same contents.
pub proof fn lemma_default_bindings_same(a: ConfigValue, b: ConfigValue, depth: nat)
    requires
        is_default_bindings(a),
        is_default_bindings(b),
        depth >= 2,
    ensures
        same_tree(a, b, depth),
{
    let ea = a->Table_0@;
    let eb = b->Table_0@;
    assert forall|i: int| 0 <= i < ea.len() implies #[trigger] same_tree(ea[i].1, eb[i].1, (depth - 1) as nat) by {
        let ta = ea[i].1;
        let tb = eb[i].1;
        assert forall|j: int|
            0 <= j < ta->Table_0@.len() implies {
                let x = #[trigger] ta->Table_0@[j];
                let y = tb->Table_0@[j];
                x.0@ == y.0@ && x.1 is String && y.1 is String && x.1->String_0@ == y.1->String_0@
            } by {
            if i == 0 {
                assert(0 <= j < 6);
            } else if i == 1 {
                assert(0 <= j < 6);
            } else {
                assert(j == 0);
            }
        }
        lemma_same_commands(ta, tb, (depth - 1) as nat);
    }
    assert forall|i: int| 0 <= i < ea.len() implies #[trigger] key_at(ea, i) == key_at(eb, i) by {}
    lemma_same_tree_positional(a, b, depth);
}

/// Resolving a source together with a failed read of the other gives what
/// resolving the source together with itself gives: the same theme, icons and
/// supertab command, and key tries and editor settings with the same contents.
pub proof fn lemma_resolve_with_itself(
    c: ConfigRaw,
    e: ConfigLoadError,
    alone: Result<Config, ConfigLoadError>,
    twice: Result<Config, ConfigLoadError>,
)
    requires
        e is Error,
        resolved(Ok(c), Err(e), alone),
        resolved(Ok(c), Ok(c), twice),
    ensures
        alone is Ok && twice is Ok,
        twice->Ok_0.theme == alone->Ok_0.theme,
        twice->Ok_0.icons == alone->Ok_0.icons,
        twice->Ok_0.keys.supertab == alone->Ok_0.keys.supertab,
        same_tree(twice->Ok_0.keys.bindings, alone->Ok_0.keys.bindings, KEY_MERGE_DEPTH as nat),
        same_tree(twice->Ok_0.editor, alone->Ok_0.editor, EDITOR_MERGE_DEPTH as nat),
{
    let a = alone->Ok_0;
    let t = twice->Ok_0;
    let depth = KEY_MERGE_DEPTH as nat;
    let (d1, mid1) = choose|d: KeymapConfig, mid: KeymapConfig|
        #![trigger keymap_layered(d, c.keys, mid), keymap_layered(mid, None, a.keys)]
        {
            &&& d.supertab is None
            &&& is_default_bindings(d.bindings)
            &&& keymap_layered(d, c.keys, mid)
            &&& keymap_layered(mid, None, a.keys)
        };
    let (d2, mid2) = choose|d: KeymapConfig, mid: KeymapConfig|
        #![trigger keymap_layered(d, c.keys, mid), keymap_layered(mid, c.keys, t.keys)]
        {
            &&& d.supertab is None
            &&& is_default_bindings(d.bindings)
            &&& keymap_layered(d, c.keys, mid)
            &&& keymap_layered(mid, c.keys, t.keys)
        };
    lemma_default_bindings_same(d2.bindings, d1.bindings, depth);
    match c.keys {
        None => {},
        Some(o) => {
            lemma_merge_again(d2.bindings, o.bindings, mid2.bindings, t.keys.bindings, depth);
            lemma_merge_congruent(d2.bindings, d1.bindings, o.bindings, mid2.bindings, mid1.bindings, depth);
            lemma_same_tree_trans(t.keys.bindings, mid2.bindings, mid1.bindings, depth);
        },
    }
    match c.editor {
        Some(x) => {
            lemma_merge_self(x, t.editor, EDITOR_MERGE_DEPTH as nat);
        },
        None => {
            assert forall|k: Seq<char>| #[trigger] lookup(t.editor->Table_0@, k) == lookup(t.editor->Table_0@, k) && match (
                lookup(t.editor->Table_0@, k),
                lookup(a.editor->Table_0@, k),
            ) {
                (None, None) => true,
                (Some(p), Some(q)) => same_tree(p, q, (EDITOR_MERGE_DEPTH - 1) as nat),
                _ => false,
            } by {}
        },
    }
}

} // verus!
