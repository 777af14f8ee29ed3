//! Opinionated defaults, one layout knob, and a named boolean per pass.

use toml::Value::{Boolean, Integer, Table};
use vstd::prelude::*;

use crate::passes::key_lt;
use crate::text::{chars_of, push_lit, push_signed, signed_decimal, string_of};

verus! {

#[derive(Debug, Clone, PartialEq, Eq)]
pub struct Config {
    /// The only layout knob. Indentation is fixed at two spaces.
    pub width: usize,
    pub passes: Passes,
}

#[derive(Debug, Clone, PartialEq, Eq)]
pub struct Passes {
    /// One exported name per line in a `provide` form.
    pub provide_one_per_line: bool,
    /// Sort clauses within a `require` form and forms within a require block.
    pub sort_require: bool,
    /// Keep a `;;@doc` comment block glued to the form it documents.
    pub attach_doc_comments: bool,
    /// Exactly one blank line between top-level forms.
    pub blank_lines: bool,
    /// Align `let` bindings under the first binding.
    pub align_let_bindings: bool,
    /// Two semicolons on an own-line comment, one on a trailing comment.
    pub comment_style: bool,
    /// Reader shorthand for two item quoting forms.
    pub quote_sugar: bool,
    /// `#t` and `#f` rather than `#true` and `#false`.
    pub boolean_spelling: bool,
    /// Sort the names and clauses inside a `provide` form.
    pub sort_provide: bool,
}

/// Every pass on: the pedantic defaults.
pub open spec fn default_passes() -> Passes {
    Passes {
        provide_one_per_line: true,
        sort_require: true,
        attach_doc_comments: true,
        blank_lines: true,
        align_let_bindings: true,
        comment_style: true,
        quote_sugar: true,
        boolean_spelling: true,
        sort_provide: true,
    }
}

/// Width 80 and every pass on.
pub open spec fn default_config() -> Config {
    Config { width: 80, passes: default_passes() }
}

impl Default for Passes {
    fn default() -> (passes: Self)
        ensures
            passes == default_passes(),
    {
        Passes {
            provide_one_per_line: true,
            sort_require: true,
            attach_doc_comments: true,
            blank_lines: true,
            align_let_bindings: true,
            comment_style: true,
            quote_sugar: true,
            boolean_spelling: true,
            sort_provide: true,
        }
    }
}

impl Default for Config {
    fn default() -> (config: Self)
        ensures
            config == default_config(),
    {
        Config { width: 80, passes: Passes::default() }
    }
}

/// Why a configuration is unusable.
#[derive(Debug, Clone, PartialEq, Eq)]
pub enum ConfigError {
    Syntax { origin: String, message: String },
    UnknownKey { origin: String, key: String },
    WrongType { origin: String, key: String, expected: String },
    BadWidth { origin: String, width: i64 },
    NotATable { origin: String, key: String },
    Unreadable { path: String, message: String },
    BadSet { argument: String },
}

/// A configuration error as a plain value.
pub enum ConfigErrorV {
    Syntax(Seq<char>, Seq<char>),
    UnknownKey(Seq<char>, Seq<char>),
    WrongType(Seq<char>, Seq<char>, Seq<char>),
    BadWidth(Seq<char>, i64),
    NotATable(Seq<char>, Seq<char>),
    Unreadable(Seq<char>, Seq<char>),
    BadSet(Seq<char>),
}

pub open spec fn config_error_view(e: ConfigError) -> ConfigErrorV {
    match e {
        ConfigError::Syntax { origin, message } => ConfigErrorV::Syntax(origin@, message@),
        ConfigError::UnknownKey { origin, key } => ConfigErrorV::UnknownKey(origin@, key@),
        ConfigError::WrongType { origin, key, expected } => ConfigErrorV::WrongType(origin@, key@, expected@),
        ConfigError::BadWidth { origin, width } => ConfigErrorV::BadWidth(origin@, width),
        ConfigError::NotATable { origin, key } => ConfigErrorV::NotATable(origin@, key@),
        ConfigError::Unreadable { path, message } => ConfigErrorV::Unreadable(path@, message@),
        ConfigError::BadSet { argument } => ConfigErrorV::BadSet(argument@),
    }
}

// ---------------------------------------------------------------------------
// TOML as the configuration reads it
// ---------------------------------------------------------------------------

/// A TOML value, as far as the configuration reads it: booleans, integers
/// and tables; any other value is only ever the wrong type.
pub enum TomlValue {
    Boolean(bool),
    Integer(i64),
    Table(Vec<(String, TomlValue)>),
    Other,
}

/// A TOML value as a plain value.
pub enum TomlV {
    Boolean(bool),
    Integer(i64),
    Table(Seq<(Seq<char>, TomlV)>),
    Other,
}

pub open spec fn toml_view(v: TomlValue) -> TomlV
    decreases v,
{
    match v {
        TomlValue::Boolean(b) => TomlV::Boolean(b),
        TomlValue::Integer(i) => TomlV::Integer(i),
        TomlValue::Table(entries) => TomlV::Table(entries_view(entries@)),
        TomlValue::Other => TomlV::Other,
    }
}

/// The entries of a table as plain values, in order.
pub open spec fn entries_view(s: Seq<(String, TomlValue)>) -> Seq<(Seq<char>, TomlV)>
    decreases s,
{
    if s.len() == 0 {
        seq![]
    } else {
        proof {
            assert(decreases_to!(s => s[s.len() - 1]));
        }
        entries_view(s.drop_last()).push((s.last().0@, toml_view(s.last().1)))
    }
}

pub proof fn lemma_entries_view(s: Seq<(String, TomlValue)>)
    ensures
        entries_view(s).len() == s.len(),
        forall|i: int| 0 <= i < s.len() ==> #[trigger] entries_view(s)[i] == (s[i].0@, toml_view(s[i].1)),
    decreases s.len(),
{
    if s.len() > 0 {
        lemma_entries_view(s.drop_last());
    }
}

/// What `toml` parses a text into, as a table of plain values in the map's
/// own key order, tables below the second level shown without their
/// entries; or the parser's message.
pub uninterp spec fn toml_parse(text: Seq<char>) -> Result<Seq<(Seq<char>, TomlV)>, Seq<char>>;

/// A parse outcome as plain values.
pub open spec fn parsed_view(r: Result<Vec<(String, TomlValue)>, String>) -> Result<Seq<(Seq<char>, TomlV)>, Seq<char>> {
    match r {
        Ok(entries) => Ok(entries_view(entries@)),
        Err(message) => Err(message@),
    }
}

/// Parses `text` with `text.parse::<toml::Table>()`, and on failure takes the
/// error's `message()`.
///
/// Trusted: the contract claims only that the outcome is a function of the
/// text, named `toml_parse`. Booleans, integers and tables keep their
/// variant and value, any other value becomes `Other`, and a table nested
/// in a table nested in the document keeps its variant but not its entries.
#[verifier::external_body]
fn parse_table(text: &str) -> (r: Result<Vec<(String, TomlValue)>, String>)
    ensures
        parsed_view(r) == toml_parse(text@),
{
    let table = text.parse::<toml::Table>().map_err(|error| error.message().to_string())?;
    Ok(table.into_iter().map(|(key, value)| (key, match value {
        Boolean(b) => TomlValue::Boolean(b),
        Integer(i) => TomlValue::Integer(i),
        Table(inner) => TomlValue::Table(inner.into_iter().map(|(key, value)| (key, match value {
            Boolean(b) => TomlValue::Boolean(b),
            Integer(i) => TomlValue::Integer(i),
            Table(_) => TomlValue::Table(Vec::new()),
            _ => TomlValue::Other,
        })).collect()),
        _ => TomlValue::Other,
    })).collect())
}


// ---------------------------------------------------------------------------
// Tables in key order
// ---------------------------------------------------------------------------

/// The value bound to `key`, if any.
pub open spec fn get_v(t: Seq<(Seq<char>, TomlV)>, key: Seq<char>) -> Option<TomlV>
    decreases t.len(),
{
    if t.len() == 0 {
        None
    } else if t[0].0 == key {
        Some(t[0].1)
    } else {
        get_v(t.drop_first(), key)
    }
}

/// `t` with `key` bound to `value`: the entry replaced where the key is
/// present, otherwise inserted before the first greater key, so that a table
/// built this way lists its keys in order, each once.
pub open spec fn insert_v(t: Seq<(Seq<char>, TomlV)>, key: Seq<char>, value: TomlV) -> Seq<(Seq<char>, TomlV)>
    decreases t.len(),
{
    if t.len() == 0 {
        seq![(key, value)]
    } else if t[0].0 == key {
        t.update(0, (key, value))
    } else if key_lt(key, t[0].0) {
        seq![(key, value)] + t
    } else {
        seq![t[0]] + insert_v(t.drop_first(), key, value)
    }
}

/// The entries of `from` bound into `into` one by one, in order. Where both
/// sides hold a table under a key, the tables are merged in the same way.
pub open spec fn merge_v(into: Seq<(Seq<char>, TomlV)>, from: Seq<(Seq<char>, TomlV)>) -> Seq<(Seq<char>, TomlV)>
    decreases from,
{
    if from.len() == 0 {
        into
    } else {
        proof {
            assert(decreases_to!(from => from[from.len() - 1]));
        }
        let acc = merge_v(into, from.drop_last());
        let (key, value) = from.last();
        insert_v(acc, key, merged_value(get_v(acc, key), value))
    }
}

/// What a key is bound to after merging `incoming` over `existing`.
pub open spec fn merged_value(existing: Option<TomlV>, incoming: TomlV) -> TomlV
    decreases incoming,
{
    match incoming {
        TomlV::Table(inner) => match existing {
            Some(TomlV::Table(outer)) => TomlV::Table(merge_v(outer, inner)),
            _ => incoming,
        },
        _ => incoming,
    }
}



// ---------------------------------------------------------------------------
// From a table to a configuration
// ---------------------------------------------------------------------------

/// The keys of the `[passes]` table, in the order their values are checked.
pub open spec fn known_passes() -> Seq<Seq<char>> {
    seq![
        "provide-one-per-line"@,
        "sort-require"@,
        "attach-doc-comments"@,
        "blank-lines"@,
        "align-let-bindings"@,
        "comment-style"@,
        "quote-sugar"@,
        "boolean-spelling"@,
        "sort-provide"@,
    ]
}

/// The keys a configuration table may hold at its top level.
pub open spec fn known_keys() -> Seq<Seq<char>> {
    seq!["width"@, "passes"@]
}

/// The first of `keys` that `t` binds to something other than a boolean.
pub open spec fn first_not_boolean(t: Seq<(Seq<char>, TomlV)>, keys: Seq<Seq<char>>) -> Option<Seq<char>>
    decreases keys.len(),
{
    if keys.len() == 0 {
        None
    } else {
        match get_v(t, keys[0]) {
            Some(TomlV::Boolean(_)) | None => first_not_boolean(t, keys.drop_first()),
            Some(_) => Some(keys[0]),
        }
    }
}

/// The first key of `t`, in its order, that is not one of `known`.
pub open spec fn first_unknown(t: Seq<(Seq<char>, TomlV)>, known: Seq<Seq<char>>) -> Option<Seq<char>>
    decreases t.len(),
{
    if t.len() == 0 {
        None
    } else if !known.contains(t[0].0) {
        Some(t[0].0)
    } else {
        first_unknown(t.drop_first(), known)
    }
}

/// The boolean `t` binds to `key`, or `true`, the pedantic default.
pub open spec fn flag(t: Seq<(Seq<char>, TomlV)>, key: Seq<char>) -> bool {
    match get_v(t, key) {
        Some(TomlV::Boolean(b)) => b,
        _ => true,
    }
}

/// The passes a valid `[passes]` table switches on and off.
pub open spec fn passes_of(p: Seq<(Seq<char>, TomlV)>) -> Passes {
    Passes {
        provide_one_per_line: flag(p, "provide-one-per-line"@),
        sort_require: flag(p, "sort-require"@),
        attach_doc_comments: flag(p, "attach-doc-comments"@),
        blank_lines: flag(p, "blank-lines"@),
        align_let_bindings: flag(p, "align-let-bindings"@),
        comment_style: flag(p, "comment-style"@),
        quote_sugar: flag(p, "quote-sugar"@),
        boolean_spelling: flag(p, "boolean-spelling"@),
        sort_provide: flag(p, "sort-provide"@),
    }
}

/// The configuration a table describes, checked in this order: `width` is
/// an integer of at least 1; `passes` is a table; each known pass is a
/// boolean; no unknown pass; no unknown key. Missing keys keep the defaults.
pub open spec fn from_table_v(t: Seq<(Seq<char>, TomlV)>, origin: Seq<char>) -> Result<Config, ConfigErrorV> {
    let width: Result<usize, ConfigErrorV> = match get_v(t, "width"@) {
        None => Ok(80),
        Some(TomlV::Integer(w)) => if w < 1 {
            Err(ConfigErrorV::BadWidth(origin, w))
        } else {
            Ok(w as usize)
        },
        Some(_) => Err(ConfigErrorV::WrongType(origin, "width"@, "an integer"@)),
    };
    let passes: Result<Seq<(Seq<char>, TomlV)>, ConfigErrorV> = match get_v(t, "passes"@) {
        None => Ok(seq![]),
        Some(TomlV::Table(p)) => Ok(p),
        Some(_) => Err(ConfigErrorV::NotATable(origin, "passes"@)),
    };
    match width {
        Err(e) => Err(e),
        Ok(width) => match passes {
            Err(e) => Err(e),
            Ok(p) => match first_not_boolean(p, known_passes()) {
                Some(key) => Err(ConfigErrorV::WrongType(origin, key, "a boolean"@)),
                None => match first_unknown(p, known_passes()) {
                    Some(key) => Err(ConfigErrorV::UnknownKey(origin, "passes."@ + key)),
                    None => match first_unknown(t, known_keys()) {
                        Some(key) => Err(ConfigErrorV::UnknownKey(origin, key)),
                        None => Ok(Config { width, passes: passes_of(p) }),
                    },
                },
            },
        },
    }
}


// ---------------------------------------------------------------------------
// Executable tables
// ---------------------------------------------------------------------------

/// A copy of a value.
fn copy_value(v: &TomlValue) -> (r: TomlValue)
    ensures
        toml_view(r) == toml_view(*v),
    decreases v,
{
    match v {
        TomlValue::Boolean(b) => TomlValue::Boolean(*b),
        TomlValue::Integer(i) => TomlValue::Integer(*i),
        TomlValue::Other => TomlValue::Other,
        TomlValue::Table(entries) => {
            proof {
                lemma_entries_view(entries@);
            }
            let mut out: Vec<(String, TomlValue)> = Vec::new();
            let mut i: usize = 0;
            while i < entries.len()
                invariant
                    *v == TomlValue::Table(*entries),
                    i <= entries@.len(),
                    entries_view(out@) == entries_view(entries@).take(i as int),
                    entries_view(entries@).len() == entries@.len(),
                    forall|j: int| 0 <= j < entries@.len() ==> #[trigger] entries_view(entries@)[j] == (entries@[j].0@, toml_view(entries@[j].1)),
                decreases entries@.len() - i,
            {
                proof {
                    assert(decreases_to!(*v => v->Table_0));
                    assert(decreases_to!(v->Table_0 => v->Table_0@));
                    assert(decreases_to!(v->Table_0@ => entries@[i as int]));
                    assert(decreases_to!(entries@[i as int] => entries@[i as int].1));
                }
                let value = copy_value(&entries[i].1);
                let key = entries[i].0.clone();
                let ghost before = out@;
                out.push((key, value));
                proof {
                    assert(out@.drop_last() =~= before);
                    assert(entries_view(entries@).take(i + 1) =~= entries_view(entries@).take(i as int).push(
                        entries_view(entries@)[i as int],
                    ));
                }
                i += 1;
            }
            assert(entries_view(entries@).take(entries@.len() as int) =~= entries_view(entries@));
            TomlValue::Table(out)
        },
    }
}

/// The position of `key` in `t`, if present.
fn position_of(t: &Vec<(String, TomlValue)>, key: &[char]) -> (r: Option<usize>)
    ensures
        match r {
            Some(i) => i < t@.len() && get_v(entries_view(t@), key@) == Some(toml_view(t@[i as int].1)),
            None => get_v(entries_view(t@), key@) is None,
        },
{
    proof {
        lemma_entries_view(t@);
    }
    let ghost tv = entries_view(t@);
    let mut i: usize = 0;
    assert(tv.skip(0) =~= tv);
    while i < t.len()
        invariant
            tv == entries_view(t@),
            tv.len() == t@.len(),
            forall|j: int| 0 <= j < t@.len() ==> #[trigger] tv[j] == (t@[j].0@, toml_view(t@[j].1)),
            i <= t@.len(),
            get_v(tv, key@) == get_v(tv.skip(i as int), key@),
        decreases t@.len() - i,
    {
        let name = chars_of(t[i].0.as_str());
        assert(tv.skip(i as int)[0] == tv[i as int]);
        if same_text(name.as_slice(), key) {
            return Some(i);
        }
        assert(tv.skip(i as int).drop_first() =~= tv.skip(i + 1));
        i += 1;
    }
    None
}

/// Whether two texts are equal.
fn same_text(a: &[char], b: &[char]) -> (r: bool)
    ensures
        r == (a@ == b@),
{
    if a.len() != b.len() {
        return false;
    }
    let mut i: usize = 0;
    while i < a.len()
        invariant
            a@.len() == b@.len(),
            i <= a@.len(),
            forall|j: int| 0 <= j < i ==> a@[j] == b@[j],
        decreases a@.len() - i,
    {
        if a[i] != b[i] {
            return false;
        }
        i += 1;
    }
    assert(a@ =~= b@);
    true
}

proof fn lemma_insert_at(t: Seq<(Seq<char>, TomlV)>, key: Seq<char>, value: TomlV, i: int)
    requires
        0 <= i <= t.len(),
        forall|j: int| 0 <= j < i ==> #[trigger] t[j].0 != key && !key_lt(key, t[j].0),
        i == t.len() || t[i].0 == key || key_lt(key, t[i].0),
    ensures
        insert_v(t, key, value) == if i < t.len() && t[i].0 == key {
            t.update(i, (key, value))
        } else {
            t.insert(i, (key, value))
        },
    decreases i,
{
    if i > 0 {
        let rest = t.drop_first();
        assert forall|j: int| 0 <= j < i - 1 implies #[trigger] rest[j].0 != key && !key_lt(key, rest[j].0) by {
            assert(rest[j] == t[j + 1]);
        }
        lemma_insert_at(rest, key, value, i - 1);
        if i < t.len() && t[i].0 == key {
            assert(seq![t[0]] + rest.update(i - 1, (key, value)) =~= t.update(i, (key, value)));
        } else {
            assert(seq![t[0]] + rest.insert(i - 1, (key, value)) =~= t.insert(i, (key, value)));
        }
    } else {
        if t.len() > 0 && t[0].0 != key {
            assert(seq![(key, value)] + t =~= t.insert(0, (key, value)));
        } else if t.len() == 0 {
            assert(seq![(key, value)] =~= t.insert(0, (key, value)));
        }
    }
}

/// `t` with `key` bound to `value`.
fn insert(t: Vec<(String, TomlValue)>, key: String, value: TomlValue) -> (r: Vec<(String, TomlValue)>)
    ensures
        entries_view(r@) == insert_v(entries_view(t@), key@, toml_view(value)),
{
    proof {
        lemma_entries_view(t@);
    }
    let ghost tv = entries_view(t@);
    let k = chars_of(key.as_str());
    let mut i: usize = 0;
    while i < t.len()
        invariant
            tv == entries_view(t@),
            tv.len() == t@.len(),
            forall|j: int| 0 <= j < t@.len() ==> #[trigger] tv[j] == (t@[j].0@, toml_view(t@[j].1)),
            k@ == key@,
            i <= t@.len(),
            forall|j: int| 0 <= j < i ==> #[trigger] tv[j].0 != key@ && !key_lt(key@, tv[j].0),
        ensures
            i <= t@.len(),
            forall|j: int| 0 <= j < i ==> #[trigger] tv[j].0 != key@ && !key_lt(key@, tv[j].0),
            i == t@.len() || tv[i as int].0 == key@ || key_lt(key@, tv[i as int].0),
        decreases t@.len() - i,
    {
        let name = chars_of(t[i].0.as_str());
        if same_text(name.as_slice(), k.as_slice()) || crate::passes::less(k.as_slice(), name.as_slice()) {
            break;
        }
        i += 1;
    }
    proof {
        lemma_insert_at(tv, key@, toml_view(value), i as int);
    }
    let mut t = t;
    let ghost before = t@;
    let replace = i < t.len() && same_text(chars_of(t[i].0.as_str()).as_slice(), k.as_slice());
    if replace {
        let _ = t.remove(i);
        t.insert(i, (key, value));
        proof {
            lemma_entries_view(t@);
            assert(entries_view(t@) =~= tv.update(i as int, (key@, toml_view(value))));
        }
    } else {
        t.insert(i, (key, value));
        proof {
            lemma_entries_view(t@);
            assert(entries_view(t@) =~= tv.insert(i as int, (key@, toml_view(value))));
        }
    }
    t
}

/// The entries of `from` bound into `into` one by one, tables merged.
fn merge(into: Vec<(String, TomlValue)>, from: &Vec<(String, TomlValue)>) -> (r: Vec<(String, TomlValue)>)
    ensures
        entries_view(r@) == merge_v(entries_view(into@), entries_view(from@)),
    decreases from,
{
    proof {
        lemma_entries_view(from@);
    }
    let ghost iv = entries_view(into@);
    let ghost fv = entries_view(from@);
    let mut acc = into;
    let mut i: usize = 0;
    assert(fv.take(0) =~= Seq::<(Seq<char>, TomlV)>::empty());
    while i < from.len()
        invariant
            fv == entries_view(from@),
            fv.len() == from@.len(),
            forall|j: int| 0 <= j < from@.len() ==> #[trigger] fv[j] == (from@[j].0@, toml_view(from@[j].1)),
            i <= from@.len(),
            entries_view(acc@) == merge_v(iv, fv.take(i as int)),
        decreases from@.len() - i,
    {
        assert(fv.take(i + 1).drop_last() =~= fv.take(i as int));
        assert(fv.take(i + 1).last() == fv[i as int]);
        let key = chars_of(from[i].0.as_str());
        let found = position_of(&acc, key.as_slice());
        let merged = match &from[i].1 {
            TomlValue::Table(inner) => {
                match found {
                    Some(at) => match &acc[at].1 {
                        TomlValue::Table(outer) => {
                            let outer_copy = copy_value(&acc[at].1);
                            let outer_entries = match outer_copy {
                                TomlValue::Table(e) => e,
                                _ => Vec::new(),
                            };
                            proof {
                                assert(decreases_to!(*from => from@));
                                assert(decreases_to!(from@ => from@[i as int]));
                                assert(decreases_to!(from@[i as int] => from@[i as int].1));
                                assert(decreases_to!(from@[i as int].1 => from@[i as int].1->Table_0));
                            }
                            TomlValue::Table(merge(outer_entries, inner))
                        },
                        _ => copy_value(&from[i].1),
                    },
                    None => copy_value(&from[i].1),
                }
            },
            _ => copy_value(&from[i].1),
        };
        assert(toml_view(merged) == merged_value(get_v(entries_view(acc@), key@), fv[i as int].1));
        acc = insert(acc, from[i].0.clone(), merged);
        i += 1;
    }
    assert(fv.take(from@.len() as int) =~= fv);
    acc
}


/// The value `t` binds to `key`, if any.
fn get<'a>(t: &'a Vec<(String, TomlValue)>, key: &str) -> (r: Option<&'a TomlValue>)
    ensures
        match r {
            Some(v) => get_v(entries_view(t@), key@) == Some(toml_view(*v)),
            None => get_v(entries_view(t@), key@) is None,
        },
{
    let k = chars_of(key);
    match position_of(t, k.as_slice()) {
        Some(i) => Some(&t[i].1),
        None => None,
    }
}

/// The boolean `t` binds to `key`, `true` when it binds nothing, or the
/// error for a value of another type.
fn boolean(t: &Vec<(String, TomlValue)>, key: &str, origin: &str) -> (r: Result<bool, ConfigError>)
    ensures
        match get_v(entries_view(t@), key@) {
            None => r == Ok::<bool, ConfigError>(true),
            Some(TomlV::Boolean(b)) => r == Ok::<bool, ConfigError>(b),
            Some(_) => r matches Err(e) && config_error_view(e) == ConfigErrorV::WrongType(origin@, key@, "a boolean"@),
        },
{
    match get(t, key) {
        None => Ok(true),
        Some(TomlValue::Boolean(b)) => Ok(*b),
        Some(_) => Err(
            ConfigError::WrongType {
                origin: String::from_str(origin),
                key: String::from_str(key),
                expected: String::from_str("a boolean"),
            },
        ),
    }
}

/// Whether `key` names a pass.
fn is_known_pass(key: &[char]) -> (r: bool)
    ensures
        r == known_passes().contains(key@),
{
    let r = crate::text::eq_lit(key, "provide-one-per-line") || crate::text::eq_lit(key, "sort-require")
        || crate::text::eq_lit(key, "attach-doc-comments") || crate::text::eq_lit(key, "blank-lines")
        || crate::text::eq_lit(key, "align-let-bindings") || crate::text::eq_lit(key, "comment-style")
        || crate::text::eq_lit(key, "quote-sugar") || crate::text::eq_lit(key, "boolean-spelling")
        || crate::text::eq_lit(key, "sort-provide");
    proof {
        let k = known_passes();
        if r {
            assert(k.contains(key@));
        } else {
            assert forall|i: int| 0 <= i < k.len() implies k[i] != key@ by {}
        }
    }
    r
}

/// Whether `key` may stand at the top level of a configuration.
fn is_known_key(key: &[char]) -> (r: bool)
    ensures
        r == known_keys().contains(key@),
{
    let r = crate::text::eq_lit(key, "width") || crate::text::eq_lit(key, "passes");
    proof {
        let k = known_keys();
        if r {
            assert(k.contains(key@));
        } else {
            assert forall|i: int| 0 <= i < k.len() implies k[i] != key@ by {}
        }
    }
    r
}

/// The first key of `t` that `known` does not accept.
fn find_unknown(t: &Vec<(String, TomlValue)>, passes: bool) -> (r: Option<usize>)
    ensures
        match r {
            Some(i) => i < t@.len() && first_unknown(entries_view(t@), if passes {
                known_passes()
            } else {
                known_keys()
            }) == Some(t@[i as int].0@),
            None => first_unknown(entries_view(t@), if passes {
                known_passes()
            } else {
                known_keys()
            }) is None,
        },
{
    proof {
        lemma_entries_view(t@);
    }
    let ghost tv = entries_view(t@);
    let ghost known = if passes {
        known_passes()
    } else {
        known_keys()
    };
    let mut i: usize = 0;
    assert(tv.skip(0) =~= tv);
    while i < t.len()
        invariant
            tv == entries_view(t@),
            tv.len() == t@.len(),
            forall|j: int| 0 <= j < t@.len() ==> #[trigger] tv[j] == (t@[j].0@, toml_view(t@[j].1)),
            known == if passes {
                known_passes()
            } else {
                known_keys()
            },
            i <= t@.len(),
            first_unknown(tv, known) == first_unknown(tv.skip(i as int), known),
        decreases t@.len() - i,
    {
        let name = chars_of(t[i].0.as_str());
        assert(tv.skip(i as int)[0] == tv[i as int]);
        let known_here = if passes {
            is_known_pass(name.as_slice())
        } else {
            is_known_key(name.as_slice())
        };
        if !known_here {
            return Some(i);
        }
        assert(tv.skip(i as int).drop_first() =~= tv.skip(i + 1));
        i += 1;
    }
    None
}

/// Parses `table` into a `Config`, rejecting any key it does not recognise.
pub fn from_table(table: &Vec<(String, TomlValue)>, origin: &str) -> (r: Result<Config, ConfigError>)
    ensures
        match r {
            Ok(config) => from_table_v(entries_view(table@), origin@) == Ok::<Config, ConfigErrorV>(config),
            Err(e) => from_table_v(entries_view(table@), origin@) == Err::<Config, ConfigErrorV>(
                config_error_view(e),
            ),
        },
{
    let width: usize = match get(table, "width") {
        None => 80,
        Some(TomlValue::Integer(width)) => {
            if *width < 1 {
                return Err(ConfigError::BadWidth { origin: String::from_str(origin), width: *width });
            }
            *width as usize
        },
        Some(_) => {
            return Err(
                ConfigError::WrongType {
                    origin: String::from_str(origin),
                    key: String::from_str("width"),
                    expected: String::from_str("an integer"),
                },
            );
        },
    };
    let empty: Vec<(String, TomlValue)> = Vec::new();
    let passes: &Vec<(String, TomlValue)> = match get(table, "passes") {
        None => &empty,
        Some(TomlValue::Table(passes)) => passes,
        Some(_) => {
            return Err(ConfigError::NotATable { origin: String::from_str(origin), key: String::from_str("passes") });
        },
    };
    assert(entries_view(empty@) =~= Seq::<(Seq<char>, TomlV)>::empty());
    let ghost p = entries_view(passes@);
    proof {
        reveal_with_fuel(first_not_boolean, 10);
    }
    let provide_one_per_line = boolean(passes, "provide-one-per-line", origin)?;
    let sort_require = boolean(passes, "sort-require", origin)?;
    let attach_doc_comments = boolean(passes, "attach-doc-comments", origin)?;
    let blank_lines = boolean(passes, "blank-lines", origin)?;
    let align_let_bindings = boolean(passes, "align-let-bindings", origin)?;
    let comment_style = boolean(passes, "comment-style", origin)?;
    let quote_sugar = boolean(passes, "quote-sugar", origin)?;
    let boolean_spelling = boolean(passes, "boolean-spelling", origin)?;
    let sort_provide = boolean(passes, "sort-provide", origin)?;
    assert(first_not_boolean(p, known_passes()) is None);
    match find_unknown(passes, true) {
        Some(i) => {
            let mut key: Vec<char> = Vec::new();
            crate::text::push_lit(&mut key, "passes.");
            let name = chars_of(passes[i].0.as_str());
            crate::text::push_all(&mut key, name.as_slice());
            return Err(ConfigError::UnknownKey { origin: String::from_str(origin), key: crate::text::string_of(key.as_slice()) });
        },
        None => {},
    }
    match find_unknown(table, false) {
        Some(i) => {
            return Err(ConfigError::UnknownKey { origin: String::from_str(origin), key: table[i].0.clone() });
        },
        None => {},
    }
    Ok(
        Config {
            width,
            passes: Passes {
                provide_one_per_line,
                sort_require,
                attach_doc_comments,
                blank_lines,
                align_let_bindings,
                comment_style,
                quote_sugar,
                boolean_spelling,
                sort_provide,
            },
        },
    )
}


// ---------------------------------------------------------------------------
// Layers
// ---------------------------------------------------------------------------

/// Where the first `=` of `s` stands, if any.
pub open spec fn first_equals(s: Seq<char>) -> Option<nat>
    decreases s.len(),
{
    if s.len() == 0 {
        None
    } else if s[0] == '=' {
        Some(0)
    } else {
        match first_equals(s.drop_first()) {
            Some(i) => Some(i + 1),
            None => None,
        }
    }
}

/// The one line TOML document a `KEY.PATH=VALUE` override stands for, or
/// `None` when it has no `=` or no key before it.
pub open spec fn set_document_v(argument: Seq<char>) -> Option<Seq<char>> {
    match first_equals(argument) {
        None => None,
        Some(i) => {
            let key = crate::cst::trim(argument.take(i as int));
            if key.len() == 0 {
                None
            } else {
                Some(key + " = "@ + argument.skip((i + 1) as int))
            }
        },
    }
}

/// The tables of `layers` merged in order over an empty table: each later
/// layer over all the earlier ones.
pub open spec fn merge_all(layers: Seq<Seq<(Seq<char>, TomlV)>>) -> Seq<(Seq<char>, TomlV)>
    decreases layers.len(),
{
    if layers.len() == 0 {
        seq![]
    } else {
        merge_v(merge_all(layers.drop_last()), layers.last())
    }
}

/// A stack of TOML layers, merged lowest precedence first, and the origin
/// of the last one, which errors name.
pub struct Layers {
    merged: Vec<(String, TomlValue)>,
    origin: String,
    layers: Ghost<Seq<Seq<(Seq<char>, TomlV)>>>,
}

/// The layers as plain values: each table pushed, lowest first, and the
/// origin of the last.
pub struct LayersV {
    pub layers: Seq<Seq<(Seq<char>, TomlV)>>,
    pub origin: Seq<char>,
}

impl View for Layers {
    type V = LayersV;

    closed spec fn view(&self) -> LayersV {
        LayersV { layers: self.layers@, origin: self.origin@ }
    }
}

impl Layers {
    /// The table kept is always the layers merged in order.
    #[verifier::type_invariant]
    spec fn merged_in_order(self) -> bool {
        entries_view(self.merged@) == merge_all(self.layers@)
    }

    pub fn new() -> (layers: Layers)
        ensures
            layers@ == (LayersV { layers: seq![], origin: "configuration"@ }),
    {
        let merged: Vec<(String, TomlValue)> = Vec::new();
        assert(entries_view(merged@) =~= Seq::<(Seq<char>, TomlV)>::empty());
        let ghost none: Seq<Seq<(Seq<char>, TomlV)>> = seq![];
        Layers { merged, origin: String::from_str("configuration"), layers: Ghost(none) }
    }

    /// Merges `table` over the layers so far, as the layer from `origin`.
    pub fn push_table(&mut self, table: Vec<(String, TomlValue)>, origin: &str)
        ensures
            final(self)@ == (LayersV {
                layers: old(self)@.layers.push(entries_view(table@)),
                origin: origin@,
            }),
    {
        let mut current = Layers::new();
        std::mem::swap(self, &mut current);
        proof {
            use_type_invariant(&current);
        }
        let Layers { merged, origin: _, layers } = current;
        let merged = merge(merged, &table);
        let ghost pushed = layers@.push(entries_view(table@));
        assert(pushed.drop_last() =~= layers@);
        *self = Layers { merged, origin: String::from_str(origin), layers: Ghost(pushed) };
    }

    /// Merges the TOML document `text` over the layers so far.
    pub fn push_toml(&mut self, text: &str, origin: &str) -> (r: Result<(), ConfigError>)
        ensures
            match toml_parse(text@) {
                Err(message) => r matches Err(e) && config_error_view(e) == ConfigErrorV::Syntax(
                    origin@,
                    message,
                ) && final(self)@ == old(self)@,
                Ok(t) => r is Ok && final(self)@ == (LayersV {
                    layers: old(self)@.layers.push(t),
                    origin: origin@,
                }),
            },
    {
        let table = match parse_table(text) {
            Ok(table) => table,
            Err(message) => {
                return Err(ConfigError::Syntax { origin: String::from_str(origin), message });
            },
        };
        self.push_table(table, origin);
        Ok(())
    }

    /// Applies a `KEY.PATH=VALUE` override, where `VALUE` is TOML.
    pub fn push_set(&mut self, argument: &str) -> (r: Result<(), ConfigError>)
        ensures
            match set_document_v(argument@) {
                None => r matches Err(e) && config_error_view(e) == ConfigErrorV::BadSet(argument@)
                    && final(self)@ == old(self)@,
                Some(document) => match toml_parse(document) {
                    Err(_) => r matches Err(e) && config_error_view(e) == ConfigErrorV::BadSet(argument@)
                        && final(self)@ == old(self)@,
                    Ok(t) => r is Ok && final(self)@ == (LayersV {
                        layers: old(self)@.layers.push(t),
                        origin: "--set "@ + argument@,
                    }),
                },
            },
    {
        let chars = chars_of(argument);
        let mut i: usize = 0;
        assert(chars@.skip(0) =~= chars@);
        while i < chars.len() && chars[i] != '='
            invariant
                i <= chars@.len(),
                first_equals(chars@) == match first_equals(chars@.skip(i as int)) {
                    Some(j) => Some((j + i) as nat),
                    None => None,
                },
            decreases chars@.len() - i,
        {
            assert(chars@.skip(i as int).drop_first() =~= chars@.skip(i + 1));
            i += 1;
        }
        if i == chars.len() {
            assert(chars@.skip(i as int) =~= Seq::<char>::empty());
            return Err(ConfigError::BadSet { argument: String::from_str(argument) });
        }
        assert(chars@.skip(i as int)[0] == '=');
        let before = &chars.as_slice()[0..i];
        assert(before@ =~= chars@.take(i as int));
        let a = crate::text::trimmed_start_len(before);
        let rest = &before[a..before.len()];
        assert(rest@ =~= before@.skip(a as int));
        let e = crate::text::trimmed_end_len(rest);
        let key = &rest[0..e];
        assert(key@ =~= crate::cst::trim(chars@.take(i as int)));
        if key.len() == 0 {
            return Err(ConfigError::BadSet { argument: String::from_str(argument) });
        }
        let value = &chars.as_slice()[i + 1..chars.len()];
        let mut document: Vec<char> = Vec::new();
        crate::text::push_all(&mut document, key);
        crate::text::push_lit(&mut document, " = ");
        crate::text::push_all(&mut document, value);
        assert(document@ =~= key@ + " = "@ + chars@.skip(i + 1));
        let text = crate::text::string_of(document.as_slice());
        let table = match parse_table(text.as_str()) {
            Ok(table) => table,
            Err(_) => {
                return Err(ConfigError::BadSet { argument: String::from_str(argument) });
            },
        };
        let mut origin: Vec<char> = Vec::new();
        crate::text::push_lit(&mut origin, "--set ");
        crate::text::push_all(&mut origin, chars.as_slice());
        let origin = crate::text::string_of(origin.as_slice());
        self.push_table(table, origin.as_str());
        Ok(())
    }

    /// The configuration the layers describe.
    pub fn resolve(&self) -> (r: Result<Config, ConfigError>)
        ensures
            match r {
                Ok(config) => from_table_v(merge_all(self@.layers), self@.origin) == Ok::<Config, ConfigErrorV>(
                    config,
                ),
                Err(e) => from_table_v(merge_all(self@.layers), self@.origin) == Err::<Config, ConfigErrorV>(
                    config_error_view(e),
                ),
            },
    {
        proof {
            use_type_invariant(self);
        }
        from_table(&self.merged, self.origin.as_str())
    }
}


// ---------------------------------------------------------------------------
// Messages
// ---------------------------------------------------------------------------

/// What a configuration error says to the user.
pub open spec fn config_message_v(e: ConfigErrorV) -> Seq<char> {
    match e {
        ConfigErrorV::Syntax(origin, message) => origin + ": "@ + message,
        ConfigErrorV::UnknownKey(origin, key) => origin + ": unknown configuration key `"@ + key + "`"@,
        ConfigErrorV::WrongType(origin, key, expected) => origin + ": `"@ + key + "` must be "@ + expected,
        ConfigErrorV::BadWidth(origin, width) => origin + ": `width` must be at least 1, got "@
            + signed_decimal(width as int),
        ConfigErrorV::NotATable(origin, key) => origin + ": `"@ + key + "` must be a table"@,
        ConfigErrorV::Unreadable(path, message) => path + ": "@ + message,
        ConfigErrorV::BadSet(argument) => "--set expects KEY.PATH=VALUE with a TOML value, got `"@ + argument
            + "`"@,
    }
}

impl ConfigError {
    /// What the error says to the user.
    pub fn message(&self) -> (m: String)
        ensures
            m@ == config_message_v(config_error_view(*self)),
    {
        let mut out: Vec<char> = Vec::new();
        match self {
            ConfigError::Syntax { origin, message } => {
                push_lit(&mut out, origin.as_str());
                push_lit(&mut out, ": ");
                push_lit(&mut out, message.as_str());
            },
            ConfigError::UnknownKey { origin, key } => {
                push_lit(&mut out, origin.as_str());
                push_lit(&mut out, ": unknown configuration key `");
                push_lit(&mut out, key.as_str());
                push_lit(&mut out, "`");
            },
            ConfigError::WrongType { origin, key, expected } => {
                push_lit(&mut out, origin.as_str());
                push_lit(&mut out, ": `");
                push_lit(&mut out, key.as_str());
                push_lit(&mut out, "` must be ");
                push_lit(&mut out, expected.as_str());
            },
            ConfigError::BadWidth { origin, width } => {
                push_lit(&mut out, origin.as_str());
                push_lit(&mut out, ": `width` must be at least 1, got ");
                push_signed(&mut out, *width);
            },
            ConfigError::NotATable { origin, key } => {
                push_lit(&mut out, origin.as_str());
                push_lit(&mut out, ": `");
                push_lit(&mut out, key.as_str());
                push_lit(&mut out, "` must be a table");
            },
            ConfigError::Unreadable { path, message } => {
                push_lit(&mut out, path.as_str());
                push_lit(&mut out, ": ");
                push_lit(&mut out, message.as_str());
            },
            ConfigError::BadSet { argument } => {
                push_lit(&mut out, "--set expects KEY.PATH=VALUE with a TOML value, got `");
                push_lit(&mut out, argument.as_str());
                push_lit(&mut out, "`");
            },
        }
        let m = string_of(out.as_slice());
        assert(m@ =~= config_message_v(config_error_view(*self)));
        m
    }
}


// ---------------------------------------------------------------------------
// Laws of tables and layers
// ---------------------------------------------------------------------------

/// Reading a key after binding it gives the value bound.
pub proof fn lemma_get_insert_same(t: Seq<(Seq<char>, TomlV)>, key: Seq<char>, value: TomlV)
    ensures
        get_v(insert_v(t, key, value), key) == Some(value),
    decreases t.len(),
{
    if t.len() > 0 && t[0].0 != key && !key_lt(key, t[0].0) {
        lemma_get_insert_same(t.drop_first(), key, value);
        let r = seq![t[0]] + insert_v(t.drop_first(), key, value);
        assert(r.drop_first() =~= insert_v(t.drop_first(), key, value));
    }
}

/// Binding one key leaves every other key's value as it was.
pub proof fn lemma_get_insert_other(t: Seq<(Seq<char>, TomlV)>, key: Seq<char>, value: TomlV, other: Seq<char>)
    requires
        other != key,
    ensures
        get_v(insert_v(t, key, value), other) == get_v(t, other),
    decreases t.len(),
{
    if t.len() == 0 {
        assert(seq![(key, value)].drop_first() =~= Seq::<(Seq<char>, TomlV)>::empty());
    } else if t[0].0 == key {
        assert(t.update(0, (key, value)).drop_first() =~= t.drop_first());
    } else if key_lt(key, t[0].0) {
        assert((seq![(key, value)] + t).drop_first() =~= t);
    } else {
        lemma_get_insert_other(t.drop_first(), key, value, other);
        let r = seq![t[0]] + insert_v(t.drop_first(), key, value);
        assert(r.drop_first() =~= insert_v(t.drop_first(), key, value));
    }
}

proof fn lemma_get_none(t: Seq<(Seq<char>, TomlV)>, key: Seq<char>)
    ensures
        get_v(t, key) is None <==> forall|i: int| 0 <= i < t.len() ==> #[trigger] t[i].0 != key,
    decreases t.len(),
{
    if t.len() > 0 {
        lemma_get_none(t.drop_first(), key);
        if get_v(t, key) is None {
            assert forall|i: int| 0 <= i < t.len() implies #[trigger] t[i].0 != key by {
                if i > 0 {
                    assert(t.drop_first()[i - 1] == t[i]);
                }
            }
        } else if t[0].0 != key {
            let j = choose|j: int| 0 <= j < t.drop_first().len() && #[trigger] t.drop_first()[j].0 == key;
            assert(t[j + 1].0 == key);
        }
    }
}

/// A key that a later layer does not mention keeps the value the earlier
/// layers gave it.
pub proof fn lemma_merge_keeps_unmentioned(into: Seq<(Seq<char>, TomlV)>, from: Seq<(Seq<char>, TomlV)>, key: Seq<char>)
    requires
        get_v(from, key) is None,
    ensures
        get_v(merge_v(into, from), key) == get_v(into, key),
    decreases from.len(),
{
    if from.len() > 0 {
        lemma_get_none(from, key);
        lemma_get_none(from.drop_last(), key);
        assert forall|i: int| 0 <= i < from.drop_last().len() implies #[trigger] from.drop_last()[i].0 != key by {
            assert(from.drop_last()[i] == from[i]);
        }
        lemma_merge_keeps_unmentioned(into, from.drop_last(), key);
        let acc = merge_v(into, from.drop_last());
        let (k, v) = from.last();
        assert(k != key);
        lemma_get_insert_other(acc, k, merged_value(get_v(acc, k), v), key);
    }
}

/// A key that a later layer binds to a boolean, an integer or any value
/// other than a table ends up bound to that value: the later layer wins.
/// The layer's keys are distinct, as in any parsed TOML table.
pub proof fn lemma_merge_later_wins(into: Seq<(Seq<char>, TomlV)>, from: Seq<(Seq<char>, TomlV)>, key: Seq<char>)
    requires
        forall|i: int, j: int| 0 <= i < from.len() && 0 <= j < from.len() && #[trigger] from[i].0 == #[trigger] from[j].0 ==> i == j,
        get_v(from, key) is Some,
        !(get_v(from, key)->0 is Table),
    ensures
        get_v(merge_v(into, from), key) == get_v(from, key),
    decreases from.len(),
{
    let acc = merge_v(into, from.drop_last());
    let (k, v) = from.last();
    if k == key {
        lemma_get_first_unique(from, from.len() - 1);
        lemma_get_insert_same(acc, k, merged_value(get_v(acc, k), v));
    } else {
        lemma_get_drop_last(from, key);
        lemma_merge_later_wins(into, from.drop_last(), key);
        lemma_get_insert_other(acc, k, merged_value(get_v(acc, k), v), key);
    }
}

/// Merging a table binds each of its keys to its value merged over what the
/// earlier layers held: a table over a table merges key by key, anything
/// else replaces. The table's keys are distinct, as in any parsed TOML table.
pub proof fn lemma_merge_binds(into: Seq<(Seq<char>, TomlV)>, from: Seq<(Seq<char>, TomlV)>, key: Seq<char>)
    requires
        forall|i: int, j: int| 0 <= i < from.len() && 0 <= j < from.len() && #[trigger] from[i].0 == #[trigger] from[j].0 ==> i == j,
        get_v(from, key) is Some,
    ensures
        get_v(merge_v(into, from), key) == Some(merged_value(get_v(into, key), get_v(from, key)->0)),
    decreases from.len(),
{
    let acc = merge_v(into, from.drop_last());
    let (k, v) = from.last();
    let rest = from.drop_last();
    assert forall|i: int, j: int| 0 <= i < rest.len() && 0 <= j < rest.len() && #[trigger] rest[i].0 == #[trigger] rest[j].0 implies i == j by {
        assert(rest[i] == from[i] && rest[j] == from[j]);
    }
    if k == key {
        lemma_get_first_unique(from, from.len() - 1);
        assert forall|i: int| 0 <= i < rest.len() implies #[trigger] rest[i].0 != key by {
            assert(rest[i] == from[i]);
        }
        lemma_get_none(rest, key);
        lemma_merge_keeps_unmentioned(into, rest, key);
        lemma_get_insert_same(acc, k, merged_value(get_v(acc, k), v));
    } else {
        lemma_get_drop_last(from, key);
        lemma_merge_binds(into, rest, key);
        lemma_get_insert_other(acc, k, merged_value(get_v(acc, k), v), key);
    }
}

/// Each layer of the stack binds the keys it holds over the layers below
/// it, table into table key by key, and leaves every other key as the
/// layers below left it. Each layer's keys are distinct.
pub proof fn lemma_layer_over_lower(layers: Seq<Seq<(Seq<char>, TomlV)>>, key: Seq<char>)
    requires
        layers.len() > 0,
        forall|i: int, j: int| 0 <= i < layers.last().len() && 0 <= j < layers.last().len()
            && #[trigger] layers.last()[i].0 == #[trigger] layers.last()[j].0 ==> i == j,
    ensures
        get_v(merge_all(layers), key) == match get_v(layers.last(), key) {
            Some(v) => Some(merged_value(get_v(merge_all(layers.drop_last()), key), v)),
            None => get_v(merge_all(layers.drop_last()), key),
        },
{
    if get_v(layers.last(), key) is Some {
        lemma_merge_binds(merge_all(layers.drop_last()), layers.last(), key);
    } else {
        lemma_merge_keeps_unmentioned(merge_all(layers.drop_last()), layers.last(), key);
    }
}

/// The latest layer that binds a key to something other than a table
/// decides its value: defaults, then the configuration file, then each
/// overlay in order. Each layer's keys are distinct.
pub proof fn lemma_latest_layer_wins(layers: Seq<Seq<(Seq<char>, TomlV)>>, key: Seq<char>, i: int)
    requires
        0 <= i < layers.len(),
        forall|l: int, a: int, b: int| 0 <= l < layers.len() && 0 <= a < layers[l].len() && 0 <= b < layers[l].len()
            && #[trigger] layers[l][a].0 == #[trigger] layers[l][b].0 ==> a == b,
        get_v(layers[i], key) is Some,
        !(get_v(layers[i], key)->0 is Table),
        forall|j: int| i < j < layers.len() ==> #[trigger] get_v(layers[j], key) is None,
    ensures
        get_v(merge_all(layers), key) == get_v(layers[i], key),
    decreases layers.len(),
{
    let last = layers.len() - 1;
    assert(layers.last() == layers[last]);
    if i == last {
        lemma_merge_later_wins(merge_all(layers.drop_last()), layers.last(), key);
    } else {
        let lower = layers.drop_last();
        assert forall|l: int, a: int, b: int| 0 <= l < lower.len() && 0 <= a < lower[l].len() && 0 <= b < lower[l].len()
            && #[trigger] lower[l][a].0 == #[trigger] lower[l][b].0 implies a == b by {
            assert(lower[l] == layers[l]);
        }
        assert forall|j: int| i < j < lower.len() implies #[trigger] get_v(lower[j], key) is None by {
            assert(lower[j] == layers[j]);
        }
        assert(lower[i] == layers[i]);
        lemma_latest_layer_wins(lower, key, i);
        assert(get_v(layers[last], key) is None);
        lemma_merge_keeps_unmentioned(merge_all(lower), layers.last(), key);
    }
}

/// A key that no layer mentions stays unset, so its default holds.
pub proof fn lemma_unmentioned_key_unset(layers: Seq<Seq<(Seq<char>, TomlV)>>, key: Seq<char>)
    requires
        forall|j: int| 0 <= j < layers.len() ==> #[trigger] get_v(layers[j], key) is None,
    ensures
        get_v(merge_all(layers), key) is None,
    decreases layers.len(),
{
    if layers.len() > 0 {
        let lower = layers.drop_last();
        assert forall|j: int| 0 <= j < lower.len() implies #[trigger] get_v(lower[j], key) is None by {
            assert(lower[j] == layers[j]);
        }
        lemma_unmentioned_key_unset(lower, key);
        assert(get_v(layers[layers.len() - 1], key) is None);
        lemma_merge_keeps_unmentioned(merge_all(lower), layers.last(), key);
    }
}

proof fn lemma_get_first_unique(t: Seq<(Seq<char>, TomlV)>, i: int)
    requires
        0 <= i < t.len(),
        forall|a: int, b: int| 0 <= a < t.len() && 0 <= b < t.len() && #[trigger] t[a].0 == #[trigger] t[b].0 ==> a == b,
    ensures
        get_v(t, t[i].0) == Some(t[i].1),
    decreases i,
{
    if i > 0 {
        let r = t.drop_first();
        assert(t[0].0 != t[i].0);
        assert(r[i - 1] == t[i]);
        assert forall|a: int, b: int| 0 <= a < r.len() && 0 <= b < r.len() && #[trigger] r[a].0 == #[trigger] r[b].0 implies a == b by {
            assert(r[a] == t[a + 1] && r[b] == t[b + 1]);
        }
        lemma_get_first_unique(r, i - 1);
    }
}

proof fn lemma_get_drop_last(t: Seq<(Seq<char>, TomlV)>, key: Seq<char>)
    requires
        t.len() > 0,
        t.last().0 != key,
    ensures
        get_v(t.drop_last(), key) == get_v(t, key),
    decreases t.len(),
{
    if t.len() == 1 {
        assert(t.drop_first().len() == 0);
        assert(t.drop_last().len() == 0);
    } else if t[0].0 != key {
        assert(t.drop_first().drop_last() =~= t.drop_last().drop_first());
        assert(t.drop_last()[0] == t[0]);
        lemma_get_drop_last(t.drop_first(), key);
    } else {
        assert(t.drop_last()[0] == t[0]);
    }
}

/// A table that sets nothing gives the pedantic defaults.
pub proof fn lemma_empty_table_gives_defaults(origin: Seq<char>)
    ensures
        from_table_v(seq![], origin) == Ok::<Config, ConfigErrorV>(default_config()),
{
    reveal_with_fuel(first_not_boolean, 10);
}

/// A table that is accepted holds no key outside the known set, at the top
/// level or under `[passes]`.
pub proof fn lemma_accepted_keys_are_known(t: Seq<(Seq<char>, TomlV)>, origin: Seq<char>)
    requires
        from_table_v(t, origin) is Ok,
    ensures
        forall|i: int| 0 <= i < t.len() ==> known_keys().contains(#[trigger] t[i].0),
        get_v(t, "passes"@) matches Some(TomlV::Table(p)) ==> forall|i: int| 0 <= i < p.len() ==> known_passes().contains(#[trigger] p[i].0),
{
    lemma_first_unknown_none(t, known_keys());
    match get_v(t, "passes"@) {
        Some(TomlV::Table(p)) => lemma_first_unknown_none(p, known_passes()),
        _ => {},
    }
}

proof fn lemma_first_unknown_none(t: Seq<(Seq<char>, TomlV)>, known: Seq<Seq<char>>)
    requires
        first_unknown(t, known) is None,
    ensures
        forall|i: int| 0 <= i < t.len() ==> known.contains(#[trigger] t[i].0),
    decreases t.len(),
{
    if t.len() > 0 {
        lemma_first_unknown_none(t.drop_first(), known);
        assert forall|i: int| 0 <= i < t.len() implies known.contains(#[trigger] t[i].0) by {
            if i > 0 {
                assert(t.drop_first()[i - 1] == t[i]);
            }
        }
    }
}


// ---------------------------------------------------------------------------
// Where a configuration file is looked for
// ---------------------------------------------------------------------------

/// `name` under the directory `dir`, with one `/` between them.
pub open spec fn join_v(dir: Seq<char>, name: Seq<char>) -> Seq<char> {
    if dir.len() == 0 {
        name
    } else if dir.last() == '/' {
        dir + name
    } else {
        dir + "/"@ + name
    }
}

/// The files looked for in the directories from the `i`th on: `steelwool.toml`
/// then `.steelwool.toml` in each, up to and including the first directory
/// that holds `.git`.
pub open spec fn candidates_from(dirs: Seq<Seq<char>>, has_git: Seq<bool>, i: nat) -> Seq<Seq<char>>
    decreases dirs.len() - i,
{
    if i >= dirs.len() {
        seq![]
    } else {
        let here = seq![join_v(dirs[i as int], "steelwool.toml"@), join_v(dirs[i as int], ".steelwool.toml"@)];
        if has_git[i as int] {
            here
        } else {
            here + candidates_from(dirs, has_git, i + 1)
        }
    }
}

/// The user's configuration file: `steelwool/steelwool.toml` under
/// `$XDG_CONFIG_HOME` when it is set and not empty, else under
/// `$HOME/.config`; none when neither is set.
pub open spec fn user_config_v(xdg_config_home: Option<Seq<char>>, home: Option<Seq<char>>) -> Option<Seq<char>> {
    let base = match xdg_config_home {
        Some(x) if x.len() > 0 => Some(x),
        _ => match home {
            Some(h) => Some(join_v(h, ".config"@)),
            None => None,
        },
    };
    match base {
        Some(b) => Some(join_v(join_v(b, "steelwool"@), "steelwool.toml"@)),
        None => None,
    }
}

/// Rule C12: every file configuration discovery looks for, in the order it
/// looks. `dirs` are the input's directory and its ancestors, nearest first,
/// and `has_git` says which of them hold `.git`.
pub open spec fn discovery_v(
    dirs: Seq<Seq<char>>,
    has_git: Seq<bool>,
    xdg_config_home: Option<Seq<char>>,
    home: Option<Seq<char>>,
) -> Seq<Seq<char>> {
    candidates_from(dirs, has_git, 0) + match user_config_v(xdg_config_home, home) {
        Some(u) => seq![u],
        None => seq![],
    }
}

fn join(dir: &str, name: &str) -> (r: String)
    ensures
        r@ == join_v(dir@, name@),
{
    let d = chars_of(dir);
    let mut out: Vec<char> = Vec::new();
    push_lit(&mut out, dir);
    if d.len() > 0 && d[d.len() - 1] != '/' {
        push_lit(&mut out, "/");
    }
    push_lit(&mut out, name);
    let r = string_of(out.as_slice());
    assert(r@ =~= join_v(dir@, name@));
    r
}

pub open spec fn strings_view(v: Seq<String>) -> Seq<Seq<char>> {
    v.map_values(|s: String| s@)
}

/// The files configuration discovery looks for, in order; the first that is
/// a file is the configuration. `ancestors` are the input's directory and
/// its ancestors, nearest first, and `has_git` says which hold `.git`.
pub fn discovery_candidates(
    ancestors: &Vec<String>,
    has_git: &Vec<bool>,
    xdg_config_home: Option<String>,
    home: Option<String>,
) -> (r: Vec<String>)
    requires
        ancestors@.len() == has_git@.len(),
    ensures
        strings_view(r@) == discovery_v(
            strings_view(ancestors@),
            has_git@,
            match xdg_config_home {
                Some(x) => Some(x@),
                None => None,
            },
            match home {
                Some(h) => Some(h@),
                None => None,
            },
        ),
{
    let ghost dirs = strings_view(ancestors@);
    let mut r: Vec<String> = Vec::new();
    let mut i: usize = 0;
    assert(strings_view(r@) =~= Seq::<Seq<char>>::empty());
    while i < ancestors.len()
        invariant
            dirs == strings_view(ancestors@),
            ancestors@.len() == has_git@.len(),
            i <= ancestors@.len(),
            candidates_from(dirs, has_git@, 0) == strings_view(r@) + candidates_from(dirs, has_git@, i as nat),
        decreases ancestors@.len() - i,
    {
        let ghost before = strings_view(r@);
        let dir = ancestors[i].as_str();
        r.push(join(dir, "steelwool.toml"));
        r.push(join(dir, ".steelwool.toml"));
        let ghost here = seq![join_v(dirs[i as int], "steelwool.toml"@), join_v(dirs[i as int], ".steelwool.toml"@)];
        assert(strings_view(r@) =~= before + here);
        if has_git[i] {
            assert(candidates_from(dirs, has_git@, i as nat) == here);
            assert(strings_view(r@) + candidates_from(dirs, has_git@, ancestors@.len() as nat) =~= strings_view(r@));
            i = ancestors.len();
        } else {
            assert(candidates_from(dirs, has_git@, i as nat) == here + candidates_from(dirs, has_git@, (i + 1) as nat));
            i += 1;
        }
    }
    assert(candidates_from(dirs, has_git@, i as nat) =~= Seq::<Seq<char>>::empty());
    let base: Option<String> = match xdg_config_home {
        Some(x) => {
            if x.as_str().unicode_len() > 0 {
                Some(x)
            } else {
                match home {
                    Some(h) => Some(join(h.as_str(), ".config")),
                    None => None,
                }
            }
        },
        None => match home {
            Some(h) => Some(join(h.as_str(), ".config")),
            None => None,
        },
    };
    let ghost before = strings_view(r@);
    match base {
        Some(b) => {
            let dir = join(b.as_str(), "steelwool");
            r.push(join(dir.as_str(), "steelwool.toml"));
            assert(strings_view(r@) =~= before.push(r@.last()@));
        },
        None => {},
    }
    r
}

/// An optional string as plain text.
pub open spec fn optional_view(s: Option<String>) -> Option<Seq<char>> {
    match s {
        Some(x) => Some(x@),
        None => None,
    }
}

/// The first of `candidates` whose answer in `is_file` is yes; a candidate
/// without an answer is not a file.
pub open spec fn first_file_v(candidates: Seq<Seq<char>>, is_file: Seq<bool>) -> Option<Seq<char>>
    decreases candidates.len(),
{
    if candidates.len() == 0 || is_file.len() == 0 {
        None
    } else if is_file[0] {
        Some(candidates[0])
    } else {
        first_file_v(candidates.drop_first(), is_file.drop_first())
    }
}

/// Rule C12: the configuration file discovery picks, the first candidate
/// that is a file. `is_file` answers, candidate by candidate in the order
/// of `discovery_candidates`, whether that path is a file.
pub fn discover(
    ancestors: &Vec<String>,
    has_git: &Vec<bool>,
    xdg_config_home: Option<String>,
    home: Option<String>,
    is_file: &Vec<bool>,
) -> (r: Option<String>)
    requires
        ancestors@.len() == has_git@.len(),
    ensures
        match r {
            Some(p) => Some(p@),
            None => None,
        } == first_file_v(
            discovery_v(strings_view(ancestors@), has_git@, optional_view(xdg_config_home), optional_view(home)),
            is_file@,
        ),
{
    let ghost dv = discovery_v(
        strings_view(ancestors@),
        has_git@,
        optional_view(xdg_config_home),
        optional_view(home),
    );
    let candidates = discovery_candidates(ancestors, has_git, xdg_config_home, home);
    let ghost cv = strings_view(candidates@);
    let mut i: usize = 0;
    assert(cv.skip(0) =~= cv);
    assert(is_file@.skip(0) =~= is_file@);
    while i < candidates.len() && i < is_file.len()
        invariant
            cv == strings_view(candidates@),
            cv == dv,
            dv == discovery_v(strings_view(ancestors@), has_git@, optional_view(xdg_config_home), optional_view(home)),
            i <= candidates@.len(),
            i <= is_file@.len(),
            first_file_v(cv, is_file@) == first_file_v(cv.skip(i as int), is_file@.skip(i as int)),
        decreases candidates@.len() - i,
    {
        if is_file[i] {
            let found = String::from_str(candidates[i].as_str());
            assert(cv.skip(i as int)[0] == cv[i as int]);
            assert(is_file@.skip(i as int)[0] == is_file@[i as int]);
            assert(cv[i as int] == candidates@[i as int]@);
            assert(first_file_v(cv.skip(i as int), is_file@.skip(i as int)) == Some(cv[i as int]));
            return Some(found);
        }
        assert(cv.skip(i as int).drop_first() =~= cv.skip(i + 1));
        assert(is_file@.skip(i as int).drop_first() =~= is_file@.skip(i + 1));
        i += 1;
    }
    None
}


// ---------------------------------------------------------------------------
// Each key sets its own setting
// ---------------------------------------------------------------------------

/// `value` is what `key` of `p` asks for: the boolean it is bound to, or on
/// when it is absent.
pub open spec fn asked(p: Seq<(Seq<char>, TomlV)>, key: Seq<char>, value: bool) -> bool {
    match get_v(p, key) {
        Some(TomlV::Boolean(b)) => value == b,
        _ => value,
    }
}

/// Each key of an accepted table sets its own setting and no other: `width`
/// the width (80 when absent), and each key of `[passes]` the pass of the
/// same name (on when absent).
pub proof fn lemma_each_key_sets_its_own_setting(t: Seq<(Seq<char>, TomlV)>, origin: Seq<char>, config: Config)
    requires
        from_table_v(t, origin) == Ok::<Config, ConfigErrorV>(config),
    ensures
        get_v(t, "width"@) matches Some(TomlV::Integer(w)) ==> config.width == w as usize,
        get_v(t, "width"@) is None ==> config.width == 80,
        ({
            let p = match get_v(t, "passes"@) {
                Some(TomlV::Table(p)) => p,
                _ => seq![],
            };
            &&& asked(p, "provide-one-per-line"@, config.passes.provide_one_per_line)
            &&& asked(p, "sort-require"@, config.passes.sort_require)
            &&& asked(p, "attach-doc-comments"@, config.passes.attach_doc_comments)
            &&& asked(p, "blank-lines"@, config.passes.blank_lines)
            &&& asked(p, "align-let-bindings"@, config.passes.align_let_bindings)
            &&& asked(p, "comment-style"@, config.passes.comment_style)
            &&& asked(p, "quote-sugar"@, config.passes.quote_sugar)
            &&& asked(p, "boolean-spelling"@, config.passes.boolean_spelling)
            &&& asked(p, "sort-provide"@, config.passes.sort_provide)
        }),
{
}

} // verus!
