//! A configuration source that reads environment variables into a tree of
//! tables, splitting each variable's name into a path.
use vstd::prelude::*;
use vstd::string::*;
use vstd::utf8::{decode_utf8, encode_utf8, is_char_boundary};
use crate::text::{ascii_lowercase, has_no_ascii_letter, lemma_ascii_lowercase_prefix, lemma_empty_pieces_prefix, lemma_pieces_ascii, lemma_pieces_lack_separator, occurrences, lemma_split_count, has_prefix, lower, debug_text, debug_quoted, split_pieces, views, split_str, to_lowercase, starts_with, ends_with, concat, str_eq};
use crate::tree::{Placement, insert_mixed, nested_part, nested_item, nested_apart, flat_name, lemma_insert_mixed_refused, value_wf, lemma_entries_wf, lemma_entries_wf_update, PathItem, insert_all, prefix_conflict, paths_nonempty, item_path, lemma_insert_all_refused, lemma_prefix_conflict_order_free, ConfigNode, ConfigValue, ConfigEntry, ConfigTable, nested_insert, lookup_path, path_blocked, lemma_entries_map_lookup, lemma_entries_map_update, lemma_nested_insert_reads_back, lemma_nested_insert_refused};

verus! {

/// The value of an environment variable: its text, or, where it is not valid
/// Unicode, the `{:?}` rendering of its raw form.
#[derive(Debug)]
pub enum EnvText {
    Unicode(String),
    NonUnicode(String),
}

/// One environment variable. `key` is `None` where the name is not valid
/// Unicode.
#[derive(Debug)]
pub struct EnvVar {
    pub key: Option<String>,
    pub value: EnvText,
}

/// The outcome of reading the secret file at `path`: its contents, or the
/// text of the failure.
#[derive(Debug)]
pub struct SecretRead {
    pub path: String,
    pub contents: Result<String, String>,
}

/// Why an environment could not be collected.
#[derive(Debug)]
pub enum EnvError {
    /// A variable names a path that another variable made a table, or that
    /// passes through a string.
    Conflict { key: String },
    /// A variable that is kept holds a value that is not valid Unicode.
    NonUnicode { key: String, value: String },
    /// A secret file could not be read.
    SecretFile { path: String, key: String, reason: String },
}

pub ghost struct EnvVarView {
    pub key: Option<Seq<char>>,
    pub value: Result<Seq<char>, Seq<char>>,
}

pub ghost struct SecretReadView {
    pub path: Seq<char>,
    pub contents: Result<Seq<char>, Seq<char>>,
}

pub ghost enum EnvErrorView {
    Conflict { key: Seq<char> },
    NonUnicode { key: Seq<char>, value: Seq<char> },
    SecretFile { path: Seq<char>, key: Seq<char>, reason: Seq<char> },
}

pub open spec fn opt_view(o: Option<String>) -> Option<Seq<char>> {
    match o {
        Some(s) => Some(s@),
        None => None,
    }
}

pub open spec fn result_view(r: Result<String, String>) -> Result<Seq<char>, Seq<char>> {
    match r {
        Ok(s) => Ok(s@),
        Err(s) => Err(s@),
    }
}

impl View for EnvVar {
    type V = EnvVarView;

    open spec fn view(&self) -> EnvVarView {
        EnvVarView {
            key: opt_view(self.key),
            value: match self.value {
                EnvText::Unicode(s) => Ok(s@),
                EnvText::NonUnicode(s) => Err(s@),
            },
        }
    }
}

impl View for SecretRead {
    type V = SecretReadView;

    open spec fn view(&self) -> SecretReadView {
        SecretReadView { path: self.path@, contents: result_view(self.contents) }
    }
}

impl View for EnvError {
    type V = EnvErrorView;

    open spec fn view(&self) -> EnvErrorView {
        match self {
            EnvError::Conflict { key } => EnvErrorView::Conflict { key: key@ },
            EnvError::NonUnicode { key, value } => EnvErrorView::NonUnicode { key: key@, value: value@ },
            EnvError::SecretFile { path, key, reason } => EnvErrorView::SecretFile {
                path: path@,
                key: key@,
                reason: reason@,
            },
        }
    }
}

/// The text of an error, as the configuration library reports it.
pub open spec fn error_message(e: EnvErrorView) -> Seq<char> {
    match e {
        EnvErrorView::Conflict { key } => "Conflicting config definition for "@ + debug_text(key)
            + "."@,
        EnvErrorView::NonUnicode { key, value } => "env variable "@ + debug_text(key)
            + " contains non-Unicode data: "@ + value,
        EnvErrorView::SecretFile { path, key, reason } => "failed to read secret file "@
            + debug_text(path) + " for config key "@ + debug_text(key) + ": "@ + reason,
    }
}

/// The settings of an environment source.
pub ghost struct EnvironmentView {
    pub prefix: Option<Seq<char>>,
    pub prefix_separator: Option<Seq<char>>,
    pub separator: Option<Seq<char>>,
    pub ignore_empty: bool,
    pub keep_prefix: bool,
    pub secret_files: bool,
    pub source: Option<Seq<(Seq<char>, Seq<char>)>>,
}

/// The separator between the prefix and the rest of a name: the prefix
/// separator if set, else the separator if set, else `_`.
pub open spec fn prefix_separator_of(env: EnvironmentView) -> Seq<char> {
    match (env.prefix_separator, env.separator) {
        (Some(p), _) => p,
        (None, Some(s)) => s,
        (None, None) => "_"@,
    }
}

/// The separator between the segments of a name; empty when unset.
pub open spec fn separator_of(env: EnvironmentView) -> Seq<char> {
    match env.separator {
        Some(s) => s,
        None => Seq::empty(),
    }
}

/// The variables that a source reads: its explicit map where it has one,
/// else the process environment.
pub open spec fn input_entries(env: EnvironmentView, process_env: Seq<EnvVarView>) -> Seq<EnvVarView> {
    match env.source {
        Some(pairs) => pairs.map_values(|p: (Seq<char>, Seq<char>)| EnvVarView { key: Some(p.0), value: Ok(p.1) }),
        None => process_env,
    }
}

/// Whether `s` ends with the characters of `suffix`.
pub open spec fn has_suffix(s: Seq<char>, suffix: Seq<char>) -> bool {
    suffix.len() <= s.len() && s.skip(s.len() - suffix.len()) == suffix
}

/// A file's contents without one line ending (`\r\n`, else `\n`) at its end.
pub open spec fn strip_line_end(c: Seq<char>) -> Seq<char> {
    if has_suffix(c, "\r\n"@) {
        c.take(c.len() - "\r\n"@.len())
    } else if has_suffix(c, "\n"@) {
        c.take(c.len() - "\n"@.len())
    } else {
        c
    }
}

/// What a value stands for where secret files are enabled.
pub ghost enum SecretRef {
    /// The value itself (with `@@/` turned into `@/`).
    Literal(Seq<char>),
    /// The contents of the file at this absolute path.
    File(Seq<char>),
}

/// `@@/rest` stands for the text `@/rest`, `@/rest` for the file `/rest`,
/// and any other value for itself.
pub open spec fn secret_ref(v: Seq<char>) -> SecretRef {
    if has_prefix(v, "@@/"@) {
        SecretRef::Literal("@/"@ + v.skip("@@/"@.len() as int))
    } else if has_prefix(v, "@/"@) {
        SecretRef::File("/"@ + v.skip("@/"@.len() as int))
    } else {
        SecretRef::Literal(v)
    }
}

/// The first read outcome recorded for `path`.
pub open spec fn secret_lookup(secrets: Seq<SecretReadView>, path: Seq<char>) -> Option<Result<Seq<char>, Seq<char>>>
    decreases secrets.len(),
{
    if secrets.len() == 0 {
        None
    } else if secrets[0].path == path {
        Some(secrets[0].contents)
    } else {
        secret_lookup(secrets.drop_first(), path)
    }
}

/// What happens to one variable.
pub ghost enum EntryOutcome {
    Skip,
    Panic,
    /// The value names this secret file, and no read outcome is given for it.
    NeedsFile(Seq<char>),
    Fail(EnvErrorView),
    Insert { key: Seq<char>, value: Seq<char> },
}

/// The name of a variable without its first `n` bytes of UTF-8.
pub open spec fn drop_bytes(key: Seq<char>, n: int) -> Seq<char> {
    decode_utf8(encode_utf8(key).subrange(n, encode_utf8(key).len() as int))
}

/// Where a prefix is set, a variable whose lower-cased name does not begin
/// with the lower-cased prefix and prefix separator is skipped; one that
/// does loses the prefix, unless the prefix is kept. The name loses as many
/// bytes as the prefix and prefix separator have, which panics where that
/// does not end at a character of the name.
pub open spec fn entry_outcome(env: EnvironmentView, e: EnvVarView, secrets: Seq<SecretReadView>) -> EntryOutcome {
    match e.key {
        None => EntryOutcome::Skip,
        Some(key) => {
            if env.ignore_empty && e.value == Ok::<Seq<char>, Seq<char>>(Seq::empty()) {
                EntryOutcome::Skip
            } else {
                let nkey = lower(key);
                match env.prefix {
                    None => value_outcome(env, key, nkey, e.value, secrets),
                    Some(p) => {
                        let pattern = p + prefix_separator_of(env);
                        let npattern = lower(pattern);
                        if !has_prefix(nkey, npattern) {
                            EntryOutcome::Skip
                        } else if env.keep_prefix {
                            value_outcome(env, key, nkey, e.value, secrets)
                        } else if !is_char_boundary(encode_utf8(key), encode_utf8(pattern).len() as int) {
                            EntryOutcome::Panic
                        } else {
                            value_outcome(
                                env,
                                drop_bytes(key, encode_utf8(pattern).len() as int),
                                nkey.skip(npattern.len() as int),
                                e.value,
                                secrets,
                            )
                        }
                    },
                }
            }
        },
    }
}

/// What happens to a kept variable, once its name (`key`, and `nkey` lower
/// cased) has lost the prefix.
pub open spec fn value_outcome(
    env: EnvironmentView,
    key: Seq<char>,
    nkey: Seq<char>,
    value: Result<Seq<char>, Seq<char>>,
    secrets: Seq<SecretReadView>,
) -> EntryOutcome {
    match value {
        Err(raw) => EntryOutcome::Fail(EnvErrorView::NonUnicode { key: nkey, value: raw }),
        Ok(v) => if !env.secret_files {
            EntryOutcome::Insert { key, value: v }
        } else {
            match secret_ref(v) {
                SecretRef::Literal(t) => EntryOutcome::Insert { key, value: t },
                SecretRef::File(path) => match secret_lookup(secrets, path) {
                    Some(Ok(c)) => EntryOutcome::Insert { key, value: strip_line_end(c) },
                    Some(Err(reason)) => EntryOutcome::Fail(
                        EnvErrorView::SecretFile { path, key: nkey, reason },
                    ),
                    None => EntryOutcome::NeedsFile(path),
                },
            }
        },
    }
}

/// The segments of a variable's name: the pieces between separators, empty
/// ones left out, each lower-cased; with no separator, the whole name
/// lower-cased.
pub open spec fn key_segments(key: Seq<char>, sep: Seq<char>) -> Seq<Seq<char>> {
    if sep.len() == 0 {
        seq![lower(key)]
    } else {
        lowered_nonempty(split_pieces(key, sep))
    }
}

/// The non-empty pieces, each lower-cased, in order.
pub open spec fn lowered_nonempty(s: Seq<Seq<char>>) -> Seq<Seq<char>>
    decreases s.len(),
{
    if s.len() == 0 {
        Seq::empty()
    } else {
        let rest = lowered_nonempty(s.drop_last());
        if s.last().len() > 0 {
            rest.push(lower(s.last()))
        } else {
            rest
        }
    }
}

/// Stores `v` under the name `key`: at the path of its segments, or, with no
/// separator or no segment, directly under the lower-cased name.
pub open spec fn insert_value_spec(
    m: Map<Seq<char>, ConfigNode>,
    key: Seq<char>,
    v: ConfigNode,
    sep: Seq<char>,
) -> Option<Map<Seq<char>, ConfigNode>> {
    let segs = key_segments(key, sep);
    if sep.len() == 0 || segs.len() == 0 {
        Some(m.insert(lower(key), v))
    } else {
        nested_insert(m, segs, v)
    }
}

/// The name of a variable and the prefix pattern it is held to are ASCII.
pub open spec fn ascii_entry(env: EnvironmentView, e: EnvVarView) -> bool {
    &&& (e.key matches Some(k) ==> vstd::utf8::is_ascii_chars(k))
    &&& (env.prefix matches Some(p) ==> vstd::utf8::is_ascii_chars(p + prefix_separator_of(env)))
}

/// All the names, and the prefix pattern, are ASCII.
pub open spec fn ascii_names(env: EnvironmentView, es: Seq<EnvVarView>) -> bool {
    forall|i: int| 0 <= i < es.len() ==> ascii_entry(env, #[trigger] es[i])
}

/// For ASCII text, dropping as many bytes as an ASCII prefix pattern has
/// ends at a character and drops exactly as many characters.
pub proof fn lemma_ascii_prefix_drop(key: Seq<char>, pattern: Seq<char>)
    requires
        vstd::utf8::is_ascii_chars(key),
        vstd::utf8::is_ascii_chars(pattern),
        pattern.len() <= key.len(),
    ensures
        encode_utf8(pattern).len() == pattern.len(),
        is_char_boundary(encode_utf8(key), pattern.len() as int),
        drop_bytes(key, pattern.len() as int) == key.skip(pattern.len() as int),
{
    vstd::utf8::is_ascii_chars_encode_utf8(key);
    vstd::utf8::is_ascii_chars_encode_utf8(pattern);
    vstd::utf8::encode_utf8_valid_utf8(key);
    let b = encode_utf8(key);
    let n = pattern.len() as int;
    if n == key.len() {
        vstd::utf8::is_char_boundary_start_end_of_seq(b);
    } else {
        vstd::utf8::is_char_boundary_iff_not_is_continuation_byte(b, n);
        assert(b[n] == key[n] as u8);
        assert('\0' <= key[n] <= '\u{7f}');
    }
    let rest = key.skip(n);
    assert(vstd::utf8::is_ascii_chars(rest)) by {
        assert forall|i: int| 0 <= i < rest.len() implies '\0' <= #[trigger] rest[i] <= '\u{7f}' by {
            assert(rest[i] == key[n + i]);
        }
    }
    vstd::utf8::is_ascii_chars_encode_utf8(rest);
    assert(b.subrange(n, b.len() as int) =~= encode_utf8(rest)) by {
        assert forall|i: int| 0 <= i < rest.len() implies #[trigger] b.subrange(n, b.len() as int)[i] == encode_utf8(rest)[i] by {
            assert(rest[i] == key[n + i]);
        }
    }
    vstd::utf8::encode_utf8_decode_utf8(rest);
}

/// The result of collecting a sequence of variables into `m`.
pub ghost enum CollectOutcome {
    Done(Map<Seq<char>, ConfigNode>),
    Failed(EnvErrorView),
    Panics,
    /// The next variable to be taken names this secret file, whose read
    /// outcome is not given yet.
    NeedsFile(Seq<char>),
}

pub open spec fn collect_from(
    env: EnvironmentView,
    es: Seq<EnvVarView>,
    secrets: Seq<SecretReadView>,
    m: Map<Seq<char>, ConfigNode>,
) -> CollectOutcome
    decreases es.len(),
{
    if es.len() == 0 {
        CollectOutcome::Done(m)
    } else {
        match entry_outcome(env, es[0], secrets) {
            EntryOutcome::Skip => collect_from(env, es.drop_first(), secrets, m),
            EntryOutcome::Panic => CollectOutcome::Panics,
            EntryOutcome::NeedsFile(p) => CollectOutcome::NeedsFile(p),
            EntryOutcome::Fail(e) => CollectOutcome::Failed(e),
            EntryOutcome::Insert { key, value } => match insert_value_spec(
                m,
                key,
                ConfigNode::Leaf(value),
                separator_of(env),
            ) {
                Some(m2) => collect_from(env, es.drop_first(), secrets, m2),
                None => CollectOutcome::Failed(EnvErrorView::Conflict { key }),
            },
        }
    }
}

/// What collecting the variables of a source gives.
pub open spec fn collect_spec(
    env: EnvironmentView,
    process_env: Seq<EnvVarView>,
    secrets: Seq<SecretReadView>,
) -> CollectOutcome {
    collect_from(env, input_entries(env, process_env), secrets, Map::empty())
}

/// Splits a variable's name into the segments of its path.
pub fn normalize_key_segments(key: &str, separator: &str) -> (r: Vec<String>)
    ensures
        views(r@) == key_segments(key@, separator@),
        separator@.len() > 0 ==> forall|i: int| 0 <= i < r@.len() ==> (#[trigger] r@[i])@.len() > 0,
        separator@.len() > 0 ==> r@.len() <= occurrences(key@, separator@) + 1,
{
    if separator.unicode_len() == 0 {
        let mut v: Vec<String> = Vec::new();
        v.push(to_lowercase(key));
        assert(views(v@) =~= seq![lower(key@)]);
        return v;
    }
    let pieces = split_str(key, separator);
    let ghost pv = views(pieces@);
    proof {
        lemma_split_count(key@, separator@);
    }
    let mut out: Vec<String> = Vec::new();
    let mut i: usize = 0;
    assert(pv.take(0) =~= Seq::<Seq<char>>::empty());
    assert(views(out@) =~= Seq::<Seq<char>>::empty());
    while i < pieces.len()
        invariant
            pv == views(pieces@),
            i <= pieces@.len(),
            views(out@) == lowered_nonempty(pv.take(i as int)),
            out@.len() <= i,
            forall|j: int| 0 <= j < out@.len() ==> (#[trigger] out@[j])@.len() > 0,
        decreases pieces@.len() - i,
    {
        proof {
            assert(pv.take(i + 1).drop_last() =~= pv.take(i as int));
            assert(pv.take(i + 1).last() == pieces@[i as int]@);
        }
        if pieces[i].unicode_len() > 0 {
            let lowered = to_lowercase(pieces[i].as_str());
            let ghost before = out@;
            out.push(lowered);
            assert(views(out@) =~= views(before).push(lowered@));
        }
        i = i + 1;
    }
    assert(pv.take(pieces@.len() as int) =~= pv);
    out
}

fn conflict(full_key: &str) -> (e: EnvError)
    ensures
        e@ == (EnvErrorView::Conflict { key: full_key@ }),
{
    EnvError::Conflict { key: full_key.to_owned() }
}

/// Stores `value` at the path `segments`, creating the missing tables on the
/// way. Refused, with the table left as it was, where a proper prefix of the
/// path holds a string or the path itself holds a table.
pub fn insert_nested_segments(
    map: &mut ConfigTable,
    segments: &[String],
    value: ConfigValue,
    full_key: &str,
) -> (r: Result<(), EnvError>)
    requires
        segments@.len() > 0,
    ensures
        match nested_insert(old(map)@, views(segments@), value.node()) {
            Some(m2) => r is Ok && final(map)@ == m2,
            None => r matches Err(e) && e@ == (EnvErrorView::Conflict { key: full_key@ })
                && final(map)@ == old(map)@,
        },
        old(map).wf() && value_wf(value) ==> final(map).wf(),
    decreases segments@.len(),
{
    let ghost path = views(segments@);
    let ghost m0 = map@;
    let current = segments[0].clone();
    proof {
        lemma_entries_map_lookup(map.entries@, current@);
        assert(path[0] == current@);
    }
    if segments.len() == 1 {
        match map.get(current.as_str()) {
            Some(ConfigValue::Table(_)) => {
                return Err(conflict(full_key));
            },
            _ => {},
        }
        map.insert(current, value);
        return Ok(());
    }
    let (_, rest) = segments.split_at(1);
    proof {
        assert(views(rest@) =~= path.drop_first());
    }
    match map.position(current.as_str()) {
        Some(i) => {
            let ghost old_entries = map.entries@;
            let ghost wf0 = map.wf() && value_wf(value);
            proof {
                if wf0 {
                    lemma_entries_wf(old_entries);
                    assert(value_wf(old_entries[i as int].value));
                }
            }
            let ConfigEntry { key, value: existing } = map.entries.remove(i);
            match existing {
                ConfigValue::Table(mut t) => {
                    let ghost t0 = t@;
                    assert(m0[path[0]] == ConfigNode::Table(t0));
                    let r = insert_nested_segments(&mut t, rest, value, full_key);
                    let ghost entry = ConfigEntry { key, value: ConfigValue::Table(t) };
                    map.entries.insert(i, ConfigEntry { key, value: ConfigValue::Table(t) });
                    proof {
                        assert(map.entries@ =~= old_entries.update(i as int, entry));
                        lemma_entries_map_update(old_entries, i as int, entry);
                        if wf0 {
                            lemma_entries_wf_update(old_entries, i as int, entry);
                        }
                        if r is Err {
                            assert(m0.insert(path[0], ConfigNode::Table(t0)) =~= m0);
                        }
                    }
                    r
                },
                ConfigValue::Text(text) => {
                    let ghost entry = ConfigEntry { key, value: ConfigValue::Text(text) };
                    map.entries.insert(i, ConfigEntry { key, value: ConfigValue::Text(text) });
                    proof {
                        assert(map.entries@ =~= old_entries.update(i as int, entry));
                        lemma_entries_map_update(old_entries, i as int, entry);
                        if wf0 {
                            lemma_entries_wf_update(old_entries, i as int, entry);
                        }
                        assert(m0.insert(path[0], entry.value.node()) =~= m0);
                    }
                    Err(conflict(full_key))
                },
            }
        },
        None => {
            let mut t = ConfigTable::new();
            let r = insert_nested_segments(&mut t, rest, value, full_key);
            match r {
                Ok(()) => {
                    map.insert(current, ConfigValue::Table(t));
                    Ok(())
                },
                Err(e) => Err(e),
            }
        },
    }
}

/// Stores `value` under a variable's name: at the path of its segments, or,
/// with no separator or no segment, directly under the lower-cased name.
pub fn insert_value(
    map: &mut ConfigTable,
    key: String,
    value: ConfigValue,
    separator: &str,
) -> (r: Result<(), EnvError>)
    ensures
        match insert_value_spec(old(map)@, key@, value.node(), separator@) {
            Some(m2) => r is Ok && final(map)@ == m2,
            None => r matches Err(e) && e@ == (EnvErrorView::Conflict { key: key@ })
                && final(map)@ == old(map)@,
        },
        old(map).wf() && value_wf(value) ==> final(map).wf(),
{
    if separator.unicode_len() == 0 {
        map.insert(to_lowercase(key.as_str()), value);
        return Ok(());
    }
    let segments = normalize_key_segments(key.as_str(), separator);
    if segments.len() == 0 {
        map.insert(to_lowercase(key.as_str()), value);
        return Ok(());
    }
    insert_nested_segments(map, segments.as_slice(), value, key.as_str())
}

/// An environment source: which variables it reads, and how their names
/// become paths.
#[derive(Clone, Debug)]
pub struct Environment {
    prefix: Option<String>,
    prefix_separator: Option<String>,
    separator: Option<String>,
    ignore_empty: bool,
    keep_prefix: bool,
    secret_files: bool,
    source: Option<Vec<(String, String)>>,
}

pub open spec fn pairs_view(v: Seq<(String, String)>) -> Seq<(Seq<char>, Seq<char>)> {
    v.map_values(|p: (String, String)| (p.0@, p.1@))
}

impl View for Environment {
    type V = EnvironmentView;

    closed spec fn view(&self) -> EnvironmentView {
        EnvironmentView {
            prefix: opt_view(self.prefix),
            prefix_separator: opt_view(self.prefix_separator),
            separator: opt_view(self.separator),
            ignore_empty: self.ignore_empty,
            keep_prefix: self.keep_prefix,
            secret_files: self.secret_files,
            source: match self.source {
                Some(v) => Some(pairs_view(v@)),
                None => None,
            },
        }
    }
}

/// The settings of a source that has nothing set.
pub open spec fn default_view() -> EnvironmentView {
    EnvironmentView {
        prefix: None,
        prefix_separator: None,
        separator: None,
        ignore_empty: false,
        keep_prefix: false,
        secret_files: false,
        source: None,
    }
}

impl Default for Environment {
    fn default() -> (r: Environment)
        ensures
            r@ == default_view(),
    {
        Environment {
            prefix: None,
            prefix_separator: None,
            separator: None,
            ignore_empty: false,
            keep_prefix: false,
            secret_files: false,
            source: None,
        }
    }
}

/// What happens to one variable, as computed.
enum EntryStep {
    Skip,
    Panic,
    NeedsFile(String),
    Fail(EnvError),
    Insert(String, String),
}

impl EntryStep {
    spec fn outcome(self) -> EntryOutcome {
        match self {
            EntryStep::Skip => EntryOutcome::Skip,
            EntryStep::Panic => EntryOutcome::Panic,
            EntryStep::NeedsFile(p) => EntryOutcome::NeedsFile(p@),
            EntryStep::Fail(e) => EntryOutcome::Fail(e@),
            EntryStep::Insert(k, v) => EntryOutcome::Insert { key: k@, value: v@ },
        }
    }
}

/// A file's contents without one line ending at its end.
pub fn strip_line_end_of(c: &str) -> (r: String)
    ensures
        r@ == strip_line_end(c@),
{
    let len = c.unicode_len();
    let crlf = "\r\n";
    let lf = "\n";
    if ends_with(c, crlf) {
        let n = crlf.unicode_len();
        return c.substring_char(0, len - n).to_owned();
    }
    if ends_with(c, lf) {
        let n = lf.unicode_len();
        return c.substring_char(0, len - n).to_owned();
    }
    c.to_owned()
}

/// What a value stands for where secret files are enabled, as computed.
pub enum SecretTarget {
    Literal(String),
    File(String),
}

/// `@@/rest` stands for the text `@/rest`, `@/rest` for the file `/rest`,
/// and any other value for itself.
pub fn secret_target(v: &str) -> (r: SecretTarget)
    ensures
        match (r, secret_ref(v@)) {
            (SecretTarget::Literal(t), SecretRef::Literal(u)) => t@ == u,
            (SecretTarget::File(t), SecretRef::File(u)) => t@ == u,
            _ => false,
        },
{
    let escaped = "@@/";
    let file = "@/";
    let len = v.unicode_len();
    if starts_with(v, escaped) {
        let rest = v.substring_char(escaped.unicode_len(), len);
        return SecretTarget::Literal(concat(file, rest));
    }
    if starts_with(v, file) {
        let rest = v.substring_char(file.unicode_len(), len);
        return SecretTarget::File(concat("/", rest));
    }
    SecretTarget::Literal(v.to_owned())
}

pub open spec fn secret_views(v: Seq<SecretRead>) -> Seq<SecretReadView> {
    v.map_values(|x: SecretRead| x@)
}

pub open spec fn env_views(v: Seq<EnvVar>) -> Seq<EnvVarView> {
    v.map_values(|x: EnvVar| x@)
}

/// The first read outcome recorded for `path`.
fn find_secret<'a>(secrets: &'a Vec<SecretRead>, path: &str) -> (r: Option<&'a Result<String, String>>)
    ensures
        match (r, secret_lookup(secret_views(secrets@), path@)) {
            (Some(x), Some(y)) => result_view(*x) == y,
            (None, None) => true,
            _ => false,
        },
{
    let ghost sv = secret_views(secrets@);
    let mut i: usize = 0;
    assert(sv.skip(0) =~= sv);
    while i < secrets.len()
        invariant
            sv == secret_views(secrets@),
            i <= secrets@.len(),
            secret_lookup(sv.skip(i as int), path@) == secret_lookup(sv, path@),
        decreases secrets@.len() - i,
    {
        assert(sv.skip(i as int).drop_first() =~= sv.skip(i + 1));
        if str_eq(secrets[i].path.as_str(), path) {
            return Some(&secrets[i].contents);
        }
        i = i + 1;
    }
    None
}

impl Environment {
    /// The separator between the prefix and the rest of a name.
    fn prefix_separator_str(&self) -> (r: &str)
        ensures
            r@ == prefix_separator_of(self@),
    {
        match (&self.prefix_separator, &self.separator) {
            (Some(p), _) => p.as_str(),
            (None, Some(s)) => s.as_str(),
            (None, None) => "_",
        }
    }

    /// The separator between the segments of a name; empty when unset.
    fn separator_str(&self) -> (r: &str)
        ensures
            r@ == separator_of(self@),
    {
        proof {
            reveal_strlit("");
        }
        match &self.separator {
            Some(s) => s.as_str(),
            None => "",
        }
    }

    /// What happens to a kept variable once its name lost the prefix.
    fn value_step(&self, key: String, nkey: String, value: &EnvText, secrets: &Vec<SecretRead>) -> (r: EntryStep)
        ensures
            r.outcome() == value_outcome(
                self@,
                key@,
                nkey@,
                match value {
                    EnvText::Unicode(s) => Ok(s@),
                    EnvText::NonUnicode(s) => Err(s@),
                },
                secret_views(secrets@),
            ),
    {
        match value {
            EnvText::NonUnicode(raw) => EntryStep::Fail(EnvError::NonUnicode { key: nkey, value: raw.clone() }),
            EnvText::Unicode(v) => {
                if !self.secret_files {
                    return EntryStep::Insert(key, v.clone());
                }
                match secret_target(v.as_str()) {
                    SecretTarget::Literal(t) => EntryStep::Insert(key, t),
                    SecretTarget::File(path) => match find_secret(secrets, path.as_str()) {
                        Some(Ok(c)) => EntryStep::Insert(key, strip_line_end_of(c.as_str())),
                        Some(Err(reason)) => EntryStep::Fail(
                            EnvError::SecretFile { path, key: nkey, reason: reason.clone() },
                        ),
                        None => EntryStep::NeedsFile(path),
                    },
                }
            },
        }
    }

    /// What happens to one variable.
    fn entry_step(&self, entry: &EnvVar, secrets: &Vec<SecretRead>) -> (r: EntryStep)
        ensures
            r.outcome() == entry_outcome(self@, entry@, secret_views(secrets@)),
            ascii_entry(self@, entry@) ==> !(r.outcome() is Panic),
    {
        let key = match &entry.key {
            None => {
                return EntryStep::Skip;
            },
            Some(k) => k,
        };
        if self.ignore_empty {
            match &entry.value {
                EnvText::Unicode(v) => {
                    if v.unicode_len() == 0 {
                        assert(v@ =~= Seq::<char>::empty());
                        return EntryStep::Skip;
                    }
                },
                EnvText::NonUnicode(_) => {},
            }
        }
        let normalized = to_lowercase(key.as_str());
        match &self.prefix {
            None => self.value_step(key.clone(), normalized, &entry.value, secrets),
            Some(p) => {
                let pattern = concat(p.as_str(), self.prefix_separator_str());
                let npattern = to_lowercase(pattern.as_str());
                if !starts_with(normalized.as_str(), npattern.as_str()) {
                    return EntryStep::Skip;
                }
                if self.keep_prefix {
                    return self.value_step(key.clone(), normalized, &entry.value, secrets);
                }
                let n = pattern.as_str().as_bytes().len();
                proof {
                    vstd::utf8::encode_utf8_valid_utf8(key@);
                    if ascii_entry(self@, entry@) {
                        assert(normalized@.len() == key@.len());
                        assert(npattern@.len() == pattern@.len());
                        lemma_ascii_prefix_drop(key@, pattern@);
                    }
                }
                if !key.as_str().is_char_boundary(n) {
                    return EntryStep::Panic;
                }
                let (_, rest) = key.as_str().split_at(n);
                let stripped = rest.to_owned();
                proof {
                    vstd::utf8::encode_utf8_decode_utf8(rest@);
                    assert(stripped@ == drop_bytes(key@, n as int));
                }
                let nlen = normalized.unicode_len();
                let plen = npattern.unicode_len();
                let nstripped = normalized.as_str().substring_char(plen, nlen).to_owned();
                assert(nstripped@ =~= normalized@.skip(plen as int));
                self.value_step(stripped, nstripped, &entry.value, secrets)
            },
        }
    }
}

/// The result of collecting, as computed.
enum CollectRun {
    Done(ConfigTable),
    Failed(EnvError),
    Panics,
    NeedsFile(String),
}

impl CollectRun {
    spec fn outcome(self) -> CollectOutcome {
        match self {
            CollectRun::Done(t) => CollectOutcome::Done(t@),
            CollectRun::Failed(e) => CollectOutcome::Failed(e@),
            CollectRun::Panics => CollectOutcome::Panics,
            CollectRun::NeedsFile(p) => CollectOutcome::NeedsFile(p@),
        }
    }
}

fn vars_of_pairs(pairs: &Vec<(String, String)>) -> (r: Vec<EnvVar>)
    ensures
        r@.len() == pairs@.len(),
        forall|i: int| 0 <= i < r@.len() ==> (#[trigger] r@[i])@ == (EnvVarView { key: Some(pairs@[i].0@), value: Ok(pairs@[i].1@) }),
{
    let mut r: Vec<EnvVar> = Vec::new();
    let mut i: usize = 0;
    while i < pairs.len()
        invariant
            i <= pairs@.len(),
            r@.len() == i,
            forall|j: int| 0 <= j < i ==> (#[trigger] r@[j])@ == (EnvVarView { key: Some(pairs@[j].0@), value: Ok(pairs@[j].1@) }),
        decreases pairs@.len() - i,
    {
        let (k, v) = &pairs[i];
        r.push(EnvVar { key: Some(k.clone()), value: EnvText::Unicode(v.clone()) });
        i = i + 1;
    }
    r
}

impl EnvError {
    /// The text of the error, as the configuration library reports it.
    pub fn message(&self) -> (r: String)
        ensures
            r@ == error_message(self@),
    {
        match self {
            EnvError::Conflict { key } => {
                let mut m = "Conflicting config definition for ".to_owned();
                m.append(debug_quoted(key.as_str()).as_str());
                m.append(".");
                m
            },
            EnvError::NonUnicode { key, value } => {
                let mut m = "env variable ".to_owned();
                m.append(debug_quoted(key.as_str()).as_str());
                m.append(" contains non-Unicode data: ");
                m.append(value.as_str());
                m
            },
            EnvError::SecretFile { path, key, reason } => {
                let mut m = "failed to read secret file ".to_owned();
                m.append(debug_quoted(path.as_str()).as_str());
                m.append(" for config key ");
                m.append(debug_quoted(key.as_str()).as_str());
                m.append(": ");
                m.append(reason.as_str());
                m
            },
        }
    }
}

/// The origin that every value collected from the environment carries.
pub fn environment_origin() -> (r: String)
    ensures
        r@ == "the environment"@,
{
    "the environment".to_owned()
}

impl Environment {
    /// A source that reads only the variables whose names begin with the
    /// prefix `s` and the prefix separator.
    pub fn with_prefix(s: &str) -> (r: Self)
        ensures
            r@ == (EnvironmentView { prefix: Some(s@), ..default_view() }),
    {
        Environment { prefix: Some(s.to_owned()), ..Environment::default() }
    }

    /// Sets the prefix; see `with_prefix`.
    pub fn prefix(self, s: &str) -> (r: Self)
        ensures
            r@ == (EnvironmentView { prefix: Some(s@), ..self@ }),
    {
        Environment { prefix: Some(s.to_owned()), ..self }
    }

    /// Sets the separator between the prefix and the rest of a name.
    pub fn prefix_separator(self, s: &str) -> (r: Self)
        ensures
            r@ == (EnvironmentView { prefix_separator: Some(s@), ..self@ }),
    {
        Environment { prefix_separator: Some(s.to_owned()), ..self }
    }

    /// Sets the separator between the segments of a name.
    pub fn separator(self, s: &str) -> (r: Self)
        ensures
            r@ == (EnvironmentView { separator: Some(s@), ..self@ }),
    {
        Environment { separator: Some(s.to_owned()), ..self }
    }

    /// Whether variables with an empty value are left out.
    pub fn ignore_empty(self, ignore: bool) -> (r: Self)
        ensures
            r@ == (EnvironmentView { ignore_empty: ignore, ..self@ }),
    {
        Environment { ignore_empty: ignore, ..self }
    }

    /// Whether the prefix stays part of the names.
    pub fn keep_prefix(self, keep: bool) -> (r: Self)
        ensures
            r@ == (EnvironmentView { keep_prefix: keep, ..self@ }),
    {
        Environment { keep_prefix: keep, ..self }
    }

    /// Reads these variables in place of the process environment, where set.
    /// As in a map, no name occurs twice.
    pub fn source(self, source: Option<Vec<(String, String)>>) -> (r: Self)
        requires
            source matches Some(v) ==> forall|i: int, j: int| 0 <= i < j < v@.len() ==> (#[trigger] v@[i]).0@ != (#[trigger] v@[j]).0@,
        ensures
            r@ == (EnvironmentView {
                source: match source {
                    Some(v) => Some(pairs_view(v@)),
                    None => None,
                },
                ..self@
            }),
    {
        Environment { source, ..self }
    }

    /// Whether values of the form `@/path` stand for the contents of that file.
    pub fn secret_files(self, enable: bool) -> (r: Self)
        ensures
            r@ == (EnvironmentView { secret_files: enable, ..self@ }),
    {
        Environment { secret_files: enable, ..self }
    }

    /// Whether the source reads the process environment (it has no
    /// variables of its own).
    pub fn reads_process_env(&self) -> (r: bool)
        ensures
            r == (self@.source is None),
    {
        self.source.is_none()
    }

    fn run_collect(&self, process_env: &Vec<EnvVar>, secrets: &Vec<SecretRead>) -> (r: CollectRun)
        ensures
            r.outcome() == collect_spec(self@, env_views(process_env@), secret_views(secrets@)),
            ascii_names(self@, input_entries(self@, env_views(process_env@))) ==> !(r.outcome() is Panics),
            r matches CollectRun::Done(t) ==> t.wf(),
    {
        let converted: Option<Vec<EnvVar>> = match &self.source {
            Some(pairs) => Some(vars_of_pairs(pairs)),
            None => None,
        };
        let entries: &Vec<EnvVar> = match &converted {
            Some(v) => v,
            None => process_env,
        };
        let ghost es = env_views(entries@);
        let ghost sv = secret_views(secrets@);
        assert(es =~= input_entries(self@, env_views(process_env@)));
        let separator = self.separator_str();
        let mut m = ConfigTable::new();
        let mut i: usize = 0;
        assert(es.skip(0) =~= es);
        while i < entries.len()
            invariant
                es == env_views(entries@),
                es == input_entries(self@, env_views(process_env@)),
                sv == secret_views(secrets@),
                separator@ == separator_of(self@),
                m.wf(),
                i <= entries@.len(),
                collect_from(self@, es, sv, Map::empty()) == collect_from(self@, es.skip(i as int), sv, m@),
            decreases entries@.len() - i,
        {
            assert(es.skip(i as int).drop_first() =~= es.skip(i + 1));
            assert(es.skip(i as int)[0] == entries@[i as int]@);
            assert(es[i as int] == entries@[i as int]@);
            match self.entry_step(&entries[i], secrets) {
                EntryStep::Skip => {},
                EntryStep::Panic => {
                    return CollectRun::Panics;
                },
                EntryStep::NeedsFile(p) => {
                    return CollectRun::NeedsFile(p);
                },
                EntryStep::Fail(e) => {
                    return CollectRun::Failed(e);
                },
                EntryStep::Insert(key, value) => {
                    match insert_value(&mut m, key, ConfigValue::Text(value), separator) {
                        Ok(()) => {},
                        Err(e) => {
                            return CollectRun::Failed(e);
                        },
                    }
                },
            }
            i = i + 1;
        }
        CollectRun::Done(m)
    }

    /// Collects the variables into a table. The variables are the source's
    /// own where it has them, else `process_env`; `secrets` holds the read
    /// outcomes of the secret files that the taken variables name (see
    /// `checked_collect`, which says which file to read next).
    pub fn collect(&self, process_env: &Vec<EnvVar>, secrets: &Vec<SecretRead>) -> (r: Result<ConfigTable, EnvError>)
        requires
            collect_spec(self@, env_views(process_env@), secret_views(secrets@)) is Done
                || collect_spec(self@, env_views(process_env@), secret_views(secrets@)) is Failed,
        ensures
            match collect_spec(self@, env_views(process_env@), secret_views(secrets@)) {
                CollectOutcome::Done(m) => r matches Ok(t) && t@ == m,
                CollectOutcome::Failed(e) => r matches Err(x) && x@ == e,
                _ => false,
            },
            r matches Ok(t) ==> t.wf(),
    {
        match self.run_collect(process_env, secrets) {
            CollectRun::Done(t) => Ok(t),
            CollectRun::Failed(e) => Err(e),
            _ => {
                proof {
                    assert(false);
                }
                Err(conflict(""))
            },
        }
    }

    /// Collects the variables, as `collect` does; or names the secret file
    /// that the next variable to be taken needs, where `secrets` has no read
    /// outcome for it; or reports that collecting would cut a name inside a
    /// character when it drops the prefix. The files are asked for one at a
    /// time, in the order in which the variables are taken, and only those
    /// of variables that are taken.
    pub fn checked_collect(&self, process_env: &Vec<EnvVar>, secrets: &Vec<SecretRead>) -> (r: CollectProgress)
        ensures
            ascii_names(self@, input_entries(self@, env_views(process_env@))) ==> !(r is Panics)
                && !(collect_spec(self@, env_views(process_env@), secret_views(secrets@)) is Panics),
            match (collect_spec(self@, env_views(process_env@), secret_views(secrets@)), r) {
                (CollectOutcome::Done(m), CollectProgress::Finished(Ok(t))) => t@ == m,
                (CollectOutcome::Failed(e), CollectProgress::Finished(Err(x))) => x@ == e,
                (CollectOutcome::NeedsFile(p), CollectProgress::NeedsFile(q)) => q@ == p,
                (CollectOutcome::Panics, CollectProgress::Panics) => true,
                _ => false,
            },
            r matches CollectProgress::Finished(Ok(t)) ==> t.wf(),
    {
        match self.run_collect(process_env, secrets) {
            CollectRun::Panics => CollectProgress::Panics,
            CollectRun::NeedsFile(p) => CollectProgress::NeedsFile(p),
            _ => CollectProgress::Finished(self.collect(process_env, secrets)),
        }
    }
}

/// Where collecting stands.
#[derive(Debug)]
pub enum CollectProgress {
    /// Done: the table, or why it could not be built.
    Finished(Result<ConfigTable, EnvError>),
    /// The read outcome of this secret file is needed to go on.
    NeedsFile(String),
    /// Dropping the prefix of a name would cut it inside a character.
    Panics,
}

/// Collecting one more variable continues from where the others left off.
pub proof fn lemma_collect_push(
    env: EnvironmentView,
    es: Seq<EnvVarView>,
    e: EnvVarView,
    secrets: Seq<SecretReadView>,
    m: Map<Seq<char>, ConfigNode>,
)
    ensures
        collect_from(env, es.push(e), secrets, m) == match collect_from(env, es, secrets, m) {
            CollectOutcome::Done(m1) => collect_from(env, seq![e], secrets, m1),
            other => other,
        },
    decreases es.len(),
{
    if es.len() == 0 {
        assert(es.push(e) =~= seq![e]);
    } else {
        assert(es.push(e).drop_first() =~= es.drop_first().push(e));
        assert(es.push(e)[0] == es[0]);
        match entry_outcome(env, es[0], secrets) {
            EntryOutcome::Skip => {
                lemma_collect_push(env, es.drop_first(), e, secrets, m);
            },
            EntryOutcome::Insert { key, value } => {
                match insert_value_spec(m, key, ConfigNode::Leaf(value), separator_of(env)) {
                    Some(m2) => {
                        lemma_collect_push(env, es.drop_first(), e, secrets, m2);
                    },
                    None => {},
                }
            },
            _ => {},
        }
    }
}

/// What a write gives back to a read: when a collection succeeds, the last
/// variable's value stands at the path of its name's segments.
pub proof fn lemma_collect_reads_back_last(
    env: EnvironmentView,
    es: Seq<EnvVarView>,
    e: EnvVarView,
    secrets: Seq<SecretReadView>,
)
    requires
        collect_from(env, es.push(e), secrets, Map::empty()) is Done,
        entry_outcome(env, e, secrets) is Insert,
        separator_of(env).len() > 0,
        key_segments(entry_outcome(env, e, secrets)->key, separator_of(env)).len() > 0,
    ensures
        lookup_path(
            collect_from(env, es.push(e), secrets, Map::empty())->Done_0,
            key_segments(entry_outcome(env, e, secrets)->key, separator_of(env)),
        ) == Some(ConfigNode::Leaf(entry_outcome(env, e, secrets)->value)),
{
    lemma_collect_push(env, es, e, secrets, Map::empty());
    let m1 = collect_from(env, es, secrets, Map::empty())->Done_0;
    let key = entry_outcome(env, e, secrets)->key;
    let value = entry_outcome(env, e, secrets)->value;
    let segs = key_segments(key, separator_of(env));
    assert(seq![e].drop_first() =~= Seq::<EnvVarView>::empty());
    assert(seq![e][0] == e);
    assert(insert_value_spec(m1, key, ConfigNode::Leaf(value), separator_of(env)) == nested_insert(m1, segs, ConfigNode::Leaf(value)));
    if let Some(m2) = nested_insert(m1, segs, ConfigNode::Leaf(value)) {
        assert(collect_from(env, Seq::<EnvVarView>::empty(), secrets, m2) == CollectOutcome::Done(m2));
        assert(collect_from(env, seq![e], secrets, m1) == CollectOutcome::Done(m2));
    }
    assert(nested_insert(m1, segs, ConfigNode::Leaf(value)) is Some);
    lemma_nested_insert_reads_back(m1, segs, ConfigNode::Leaf(value));
}

/// A variable is refused for a conflict exactly when its path is blocked in
/// what the variables before it built: a proper prefix of the path holds a
/// string, or the path itself holds a table.
pub proof fn lemma_collect_conflict(
    env: EnvironmentView,
    es: Seq<EnvVarView>,
    e: EnvVarView,
    secrets: Seq<SecretReadView>,
)
    requires
        collect_from(env, es, secrets, Map::empty()) is Done,
        entry_outcome(env, e, secrets) is Insert,
        separator_of(env).len() > 0,
        key_segments(entry_outcome(env, e, secrets)->key, separator_of(env)).len() > 0,
    ensures
        (collect_from(env, es.push(e), secrets, Map::empty()) is Failed) <==> path_blocked(
            collect_from(env, es, secrets, Map::empty())->Done_0,
            key_segments(entry_outcome(env, e, secrets)->key, separator_of(env)),
        ),
{
    lemma_collect_push(env, es, e, secrets, Map::empty());
    let m1 = collect_from(env, es, secrets, Map::empty())->Done_0;
    let key = entry_outcome(env, e, secrets)->key;
    let value = entry_outcome(env, e, secrets)->value;
    let segs = key_segments(key, separator_of(env));
    assert(seq![e].drop_first() =~= Seq::<EnvVarView>::empty());
    assert(seq![e][0] == e);
    assert(insert_value_spec(m1, key, ConfigNode::Leaf(value), separator_of(env)) == nested_insert(m1, segs, ConfigNode::Leaf(value)));
    if let Some(m2) = nested_insert(m1, segs, ConfigNode::Leaf(value)) {
        assert(collect_from(env, Seq::<EnvVarView>::empty(), secrets, m2) == CollectOutcome::Done(m2));
        assert(collect_from(env, seq![e], secrets, m1) == CollectOutcome::Done(m2));
    }
    lemma_nested_insert_refused(m1, segs, ConfigNode::Leaf(value));
}

/// Where a taken variable's value goes, in the terms of the tree: at the
/// path of its name's segments, or, where the name has no segment, directly
/// under the lower-cased name.
pub open spec fn entry_placement(env: EnvironmentView, e: EnvVarView, secrets: Seq<SecretReadView>) -> Option<Placement> {
    match entry_outcome(env, e, secrets) {
        EntryOutcome::Insert { key, value } => {
            let segs = key_segments(key, separator_of(env));
            if segs.len() == 0 {
                Some(Placement::Flat(lower(key), value))
            } else {
                Some(Placement::Nested(segs, value))
            }
        },
        _ => None,
    }
}

pub open spec fn entry_placements(env: EnvironmentView, es: Seq<EnvVarView>, secrets: Seq<SecretReadView>) -> Seq<Option<Placement>> {
    es.map_values(|e: EnvVarView| entry_placement(env, e, secrets))
}

/// The paths of the taken variables whose names have segments, in place.
pub open spec fn entry_items(env: EnvironmentView, es: Seq<EnvVarView>, secrets: Seq<SecretReadView>) -> Seq<PathItem> {
    nested_part(entry_placements(env, es, secrets))
}

/// A separator is set; every variable is skipped or taken (no value is
/// refused for being non-Unicode or for its secret file, and no name is
/// cut); and no name without segments, lower-cased, is the first segment
/// of another taken name. All of it holds of plain variables (see
/// `lemma_plain_entries_taken_apart`).
pub open spec fn taken_apart(env: EnvironmentView, es: Seq<EnvVarView>, secrets: Seq<SecretReadView>) -> bool {
    &&& separator_of(env).len() > 0
    &&& forall|i: int| 0 <= i < es.len() ==> {
        let o = #[trigger] entry_outcome(env, es[i], secrets);
        o is Skip || o is Insert
    }
    &&& nested_apart(entry_placements(env, es, secrets))
}

proof fn lemma_collect_as_insert_mixed(
    env: EnvironmentView,
    es: Seq<EnvVarView>,
    secrets: Seq<SecretReadView>,
    m: Map<Seq<char>, ConfigNode>,
)
    requires
        separator_of(env).len() > 0,
        forall|i: int| 0 <= i < es.len() ==> {
            let o = #[trigger] entry_outcome(env, es[i], secrets);
            o is Skip || o is Insert
        },
    ensures
        collect_from(env, es, secrets, m) is Done || collect_from(env, es, secrets, m) is Failed,
        collect_from(env, es, secrets, m) is Failed <==> insert_mixed(m, entry_placements(env, es, secrets)) is None,
    decreases es.len(),
{
    if es.len() > 0 {
        let rest = es.drop_first();
        let pl = entry_placements(env, es, secrets);
        assert(pl.drop_first() =~= entry_placements(env, rest, secrets));
        assert(pl[0] == entry_placement(env, es[0], secrets));
        assert forall|i: int| 0 <= i < rest.len() implies {
            let o = #[trigger] entry_outcome(env, rest[i], secrets);
            o is Skip || o is Insert
        } by {
            assert(rest[i] == es[i + 1]);
            let o = entry_outcome(env, es[i + 1], secrets);
        }
        let o = entry_outcome(env, es[0], secrets);
        match o {
            EntryOutcome::Skip => {
                lemma_collect_as_insert_mixed(env, rest, secrets, m);
            },
            EntryOutcome::Insert { key, value } => {
                let segs = key_segments(key, separator_of(env));
                if segs.len() == 0 {
                    lemma_collect_as_insert_mixed(env, rest, secrets, m.insert(lower(key), ConfigNode::Leaf(value)));
                } else {
                    assert(insert_value_spec(m, key, ConfigNode::Leaf(value), separator_of(env)) == nested_insert(m, segs, ConfigNode::Leaf(value)));
                    if let Some(m2) = nested_insert(m, segs, ConfigNode::Leaf(value)) {
                        lemma_collect_as_insert_mixed(env, rest, secrets, m2);
                    }
                }
            },
            _ => {},
        }
    }
}

proof fn lemma_lowered_nonempty_empty(s: Seq<Seq<char>>)
    ensures
        lowered_nonempty(s).len() == 0 <==> forall|k: int| 0 <= k < s.len() ==> (#[trigger] s[k]).len() == 0,
    decreases s.len(),
{
    if s.len() > 0 {
        let d = s.drop_last();
        lemma_lowered_nonempty_empty(d);
        if lowered_nonempty(s).len() == 0 {
            assert forall|k: int| 0 <= k < s.len() implies (#[trigger] s[k]).len() == 0 by {
                if k < s.len() - 1 {
                    assert(s[k] == d[k]);
                }
            }
        }
        if forall|k: int| 0 <= k < s.len() ==> (#[trigger] s[k]).len() == 0 {
            assert forall|k: int| 0 <= k < d.len() implies (#[trigger] d[k]).len() == 0 by {
                assert(d[k] == s[k]);
            }
            assert(s.last() == s[s.len() - 1]);
        }
    }
}

proof fn lemma_lowered_nonempty_first(s: Seq<Seq<char>>) -> (j: int)
    requires
        lowered_nonempty(s).len() > 0,
    ensures
        0 <= j < s.len(),
        s[j].len() > 0,
        lowered_nonempty(s)[0] == lower(s[j]),
    decreases s.len(),
{
    let d = s.drop_last();
    if lowered_nonempty(d).len() > 0 {
        let j = lemma_lowered_nonempty_first(d);
        assert(d[j] == s[j]);
        j
    } else {
        s.len() - 1
    }
}

/// Where the separator holds no letter and the names are ASCII, a name
/// without segments, lower-cased, is never the first segment of a name
/// with segments: the first is made of separators, the second holds none.
proof fn lemma_flat_name_not_segment(k1: Seq<char>, k2: Seq<char>, sep: Seq<char>)
    requires
        sep.len() > 0,
        has_no_ascii_letter(sep),
        vstd::utf8::is_ascii_chars(k1),
        vstd::utf8::is_ascii_chars(k2),
        key_segments(k1, sep).len() == 0,
        key_segments(k2, sep).len() > 0,
    ensures
        lower(k1) != key_segments(k2, sep)[0],
{
    let ps2 = split_pieces(k2, sep);
    let j = lemma_lowered_nonempty_first(ps2);
    let piece = ps2[j];
    lemma_pieces_ascii(k2, sep);
    lemma_pieces_lack_separator(k2, sep);
    assert(vstd::utf8::is_ascii_chars(piece));
    assert(!has_prefix(piece, sep));
    if k1.len() > 0 && lower(k1) == key_segments(k2, sep)[0] {
        let ps1 = split_pieces(k1, sep);
        lemma_lowered_nonempty_empty(ps1);
        lemma_empty_pieces_prefix(k1, sep);
        lemma_ascii_lowercase_prefix(k1, sep);
        lemma_ascii_lowercase_prefix(piece, sep);
        assert(lower(piece) == ascii_lowercase(piece));
    }
    assert(lower(k1).len() == k1.len());
    assert(lower(piece).len() == piece.len());
}

/// Where secret files are off, the value is Unicode and the names are
/// ASCII, a variable is skipped or taken, under an ASCII name.
proof fn lemma_plain_entry_outcome(env: EnvironmentView, e: EnvVarView, secrets: Seq<SecretReadView>)
    requires
        !env.secret_files,
        ascii_entry(env, e),
        e.value is Ok,
    ensures
        entry_outcome(env, e, secrets) is Skip || entry_outcome(env, e, secrets) is Insert,
        entry_outcome(env, e, secrets) matches EntryOutcome::Insert { key, .. } ==> vstd::utf8::is_ascii_chars(key),
{
    if let Some(key) = e.key {
        if let Some(p) = env.prefix {
            let pattern = p + prefix_separator_of(env);
            let nkey = lower(key);
            let npattern = lower(pattern);
            assert(nkey.len() == key.len());
            assert(npattern.len() == pattern.len());
            if has_prefix(nkey, npattern) && !env.keep_prefix {
                lemma_ascii_prefix_drop(key, pattern);
                let rest = key.skip(pattern.len() as int);
                assert forall|i: int| 0 <= i < rest.len() implies '\0' <= #[trigger] rest[i] <= '\u{7f}' by {
                    assert(rest[i] == key[pattern.len() + i]);
                }
            }
        }
    }
}

/// A plain set of variables: a separator without letters is set, secret
/// files are off, every value is Unicode (as in every source given as a
/// map), and the names and the prefix pattern are ASCII.
pub open spec fn plain_entries(env: EnvironmentView, es: Seq<EnvVarView>) -> bool {
    &&& separator_of(env).len() > 0
    &&& has_no_ascii_letter(separator_of(env))
    &&& !env.secret_files
    &&& ascii_names(env, es)
    &&& forall|i: int| 0 <= i < es.len() ==> (#[trigger] es[i]).value is Ok
}

/// Plain variables are taken apart.
pub proof fn lemma_plain_entries_taken_apart(env: EnvironmentView, es: Seq<EnvVarView>, secrets: Seq<SecretReadView>)
    requires
        plain_entries(env, es),
    ensures
        taken_apart(env, es, secrets),
{
    let sep = separator_of(env);
    let pl = entry_placements(env, es, secrets);
    assert forall|i: int| 0 <= i < es.len() implies {
        let o = #[trigger] entry_outcome(env, es[i], secrets);
        o is Skip || o is Insert
    } by {
        lemma_plain_entry_outcome(env, es[i], secrets);
    }
    assert forall|j: int| 0 <= j < pl.len() implies match #[trigger] pl[j] {
        Some(Placement::Nested(p, _)) => p.len() > 0 && forall|i: int| 0 <= i < pl.len() ==> #[trigger] flat_name(pl[i]) != Some(p[0]),
        _ => true,
    } by {
        assert(pl[j] == entry_placement(env, es[j], secrets));
        if let Some(Placement::Nested(p, _)) = pl[j] {
            lemma_plain_entry_outcome(env, es[j], secrets);
            let k2 = entry_outcome(env, es[j], secrets)->key;
            assert forall|i: int| 0 <= i < pl.len() implies #[trigger] flat_name(pl[i]) != Some(p[0]) by {
                assert(pl[i] == entry_placement(env, es[i], secrets));
                if let Some(Placement::Flat(f, _)) = pl[i] {
                    lemma_plain_entry_outcome(env, es[i], secrets);
                    let k1 = entry_outcome(env, es[i], secrets)->key;
                    lemma_flat_name_not_segment(k1, k2, sep);
                }
            }
        }
    }
}

/// Where every variable is skipped or taken and no name without segments
/// meets the first segment of another (see `taken_apart`), as with plain
/// variables (see `plain_entries`), collecting succeeds unless two taken
/// variables with segments have related paths, one path a proper prefix
/// of the other; then it fails with a conflict. Names without segments,
/// stored directly, never cause a conflict.
pub proof fn lemma_collect_refused_iff_conflict(
    env: EnvironmentView,
    process_env: Seq<EnvVarView>,
    secrets: Seq<SecretReadView>,
)
    requires
        taken_apart(env, input_entries(env, process_env), secrets)
            || plain_entries(env, input_entries(env, process_env)),
    ensures
        collect_spec(env, process_env, secrets) is Done || collect_spec(env, process_env, secrets) is Failed,
        collect_spec(env, process_env, secrets) is Failed <==> prefix_conflict(entry_items(env, input_entries(env, process_env), secrets)),
{
    let es = input_entries(env, process_env);
    if plain_entries(env, es) {
        lemma_plain_entries_taken_apart(env, es, secrets);
    }
    lemma_collect_as_insert_mixed(env, es, secrets, Map::empty());
    lemma_insert_mixed_refused(entry_placements(env, es, secrets));
}

/// Whether collecting fails does not depend on the order of the variables:
/// `es2` holds the variables of `es` rearranged by `perm` (with inverse
/// `inv`), where the variables are taken apart or plain.
pub proof fn lemma_collect_failure_order_free(
    env: EnvironmentView,
    es: Seq<EnvVarView>,
    es2: Seq<EnvVarView>,
    perm: Seq<int>,
    inv: Seq<int>,
    secrets: Seq<SecretReadView>,
)
    requires
        taken_apart(env, es, secrets) || plain_entries(env, es),
        es2.len() == es.len(),
        perm.len() == es.len(),
        inv.len() == es.len(),
        forall|i: int| 0 <= i < es.len() ==> 0 <= #[trigger] perm[i] < es.len() && es2[i] == es[perm[i]] && inv[perm[i]] == i,
        forall|i: int| 0 <= i < es.len() ==> 0 <= #[trigger] inv[i] < es.len() && perm[inv[i]] == i,
    ensures
        collect_from(env, es2, secrets, Map::empty()) is Failed <==> collect_from(env, es, secrets, Map::empty()) is Failed,
{
    if plain_entries(env, es) {
        lemma_plain_entries_taken_apart(env, es, secrets);
    }
    let pl = entry_placements(env, es, secrets);
    let pl2 = entry_placements(env, es2, secrets);
    assert forall|i: int| 0 <= i < es2.len() implies {
        let o = #[trigger] entry_outcome(env, es2[i], secrets);
        o is Skip || o is Insert
    } by {
        let o = entry_outcome(env, es[perm[i]], secrets);
    }
    assert(nested_apart(pl2)) by {
        assert forall|j: int| 0 <= j < pl2.len() implies match #[trigger] pl2[j] {
            Some(Placement::Nested(p, _)) => p.len() > 0 && forall|i: int| 0 <= i < pl2.len() ==> #[trigger] flat_name(pl2[i]) != Some(p[0]),
            _ => true,
        } by {
            assert(pl2[j] == pl[perm[j]]);
            match pl[perm[j]] {
                Some(Placement::Nested(p, _)) => {
                    assert forall|i: int| 0 <= i < pl2.len() implies #[trigger] flat_name(pl2[i]) != Some(p[0]) by {
                        assert(pl2[i] == pl[perm[i]]);
                        assert(flat_name(pl[perm[i]]) != Some(p[0]));
                    }
                },
                _ => {},
            }
        }
    }
    lemma_collect_as_insert_mixed(env, es, secrets, Map::empty());
    lemma_collect_as_insert_mixed(env, es2, secrets, Map::empty());
    lemma_insert_mixed_refused(pl);
    lemma_insert_mixed_refused(pl2);
    let items = entry_items(env, es, secrets);
    let items2 = entry_items(env, es2, secrets);
    assert forall|i: int| 0 <= i < items.len() implies 0 <= #[trigger] perm[i] < items.len() && items2[i] == items[perm[i]] && inv[perm[i]] == i by {
        assert(items2[i] == nested_item(pl2[i]));
        assert(items[perm[i]] == nested_item(pl[perm[i]]));
    }
    assert forall|i: int| 0 <= i < items.len() implies 0 <= #[trigger] inv[i] < items.len() && perm[inv[i]] == i by {}
    lemma_prefix_conflict_order_free(items, items2, perm, inv);
}

/// Where empty values are ignored, a variable with an empty value has no
/// effect.
pub proof fn lemma_empty_value_ignored(
    env: EnvironmentView,
    key: Seq<char>,
    secrets: Seq<SecretReadView>,
)
    requires
        env.ignore_empty,
    ensures
        entry_outcome(env, EnvVarView { key: Some(key), value: Ok(Seq::empty()) }, secrets) == EntryOutcome::Skip,
{
}

/// With secret files disabled, a value is kept as it is.
pub proof fn lemma_value_passes_through(
    env: EnvironmentView,
    key: Seq<char>,
    nkey: Seq<char>,
    v: Seq<char>,
    secrets: Seq<SecretReadView>,
)
    requires
        !env.secret_files,
    ensures
        value_outcome(env, key, nkey, Ok(v), secrets) == (EntryOutcome::Insert { key, value: v }),
{
}

/// `@@/rest` is the escape for a literal `@/rest`; `@/rest` names the file
/// `/rest`.
pub proof fn lemma_secret_escape(rest: Seq<char>)
    ensures
        secret_ref("@@/"@ + rest) == SecretRef::Literal("@/"@ + rest),
        secret_ref("@/"@ + rest) == SecretRef::File("/"@ + rest),
{
    reveal_strlit("@@/");
    reveal_strlit("@/");
    reveal_strlit("/");
    let a = "@@/"@ + rest;
    assert(a.take(3) =~= "@@/"@);
    assert(a.skip(3) =~= rest);
    let b = "@/"@ + rest;
    assert(b.take(2) =~= "@/"@);
    assert(b.skip(2) =~= rest);
    assert(!has_prefix(b, "@@/"@) || b.len() >= 3);
    if has_prefix(b, "@@/"@) {
        assert(b[1] == "@@/"@[1]);
    }
}

/// With secret files enabled, `@/rest` reads the file `/rest`: its contents,
/// less one line ending, become the value; a failed read is refused with
/// an error whose text names the path and the variable's lower-cased name
/// (both in `{:?}` form) and the reason, and nothing of the file.
pub proof fn lemma_secret_file_read(
    env: EnvironmentView,
    key: Seq<char>,
    nkey: Seq<char>,
    rest: Seq<char>,
    secrets: Seq<SecretReadView>,
)
    requires
        env.secret_files,
    ensures
        ({
            let path = "/"@ + rest;
            let o = value_outcome(env, key, nkey, Ok("@/"@ + rest), secrets);
            match secret_lookup(secrets, path) {
                Some(Ok(c)) => o == (EntryOutcome::Insert { key, value: strip_line_end(c) }),
                Some(Err(reason)) => {
                    &&& o == EntryOutcome::Fail(EnvErrorView::SecretFile { path, key: nkey, reason })
                    &&& error_message(o->Fail_0) == "failed to read secret file "@ + debug_text(path)
                        + " for config key "@ + debug_text(nkey) + ": "@ + reason
                },
                None => o == EntryOutcome::NeedsFile(path),
            }
        }),
{
    lemma_secret_escape(rest);
}

proof fn lemma_lowered_nonempty_concat(a: Seq<Seq<char>>, b: Seq<Seq<char>>)
    ensures
        lowered_nonempty(a + b) == lowered_nonempty(a) + lowered_nonempty(b),
    decreases b.len(),
{
    if b.len() == 0 {
        assert(a + b =~= a);
        assert(lowered_nonempty(a) + lowered_nonempty(b) =~= lowered_nonempty(a));
    } else {
        lemma_lowered_nonempty_concat(a, b.drop_last());
        assert((a + b).drop_last() =~= a + b.drop_last());
        assert((a + b).last() == b.last());
        if b.last().len() > 0 {
            assert(lowered_nonempty(a) + lowered_nonempty(b.drop_last()).push(lower(b.last()))
                =~= (lowered_nonempty(a) + lowered_nonempty(b.drop_last())).push(lower(b.last())));
        }
    }
}

proof fn lemma_lowered_one(k: Seq<char>)
    ensures
        lowered_nonempty(seq![k]) == (if k.len() > 0 { seq![lower(k)] } else { Seq::<Seq<char>>::empty() }),
{
    assert(seq![k].drop_last() =~= Seq::<Seq<char>>::empty());
    assert(lowered_nonempty(Seq::<Seq<char>>::empty()) =~= Seq::<Seq<char>>::empty());
    assert(seq![k].last() == k);
    assert(Seq::<Seq<char>>::empty().push(lower(k)) =~= seq![lower(k)]);
}

/// A name in which the separator does not occur is one segment, its
/// lower-cased self, or none where it is empty.
pub proof fn lemma_segments_without_separator(k: Seq<char>, sep: Seq<char>)
    requires
        sep.len() > 0,
        forall|j: int| 0 <= j < k.len() ==> !#[trigger] crate::text::matches_at(k, sep, j),
    ensures
        key_segments(k, sep) == (if k.len() > 0 { seq![lower(k)] } else { Seq::<Seq<char>>::empty() }),
{
    crate::text::lemma_split_without_separator(k, sep);
    lemma_lowered_one(k);
}

/// A name splits at the separator: the text before its first occurrence
/// gives one segment, lower-cased (none if empty), followed by the segments
/// of what comes after it.
pub proof fn lemma_segments_split_at_separator(k: Seq<char>, sep: Seq<char>, rest: Seq<char>)
    requires
        sep.len() > 0,
        forall|j: int| 0 <= j < k.len() ==> !#[trigger] crate::text::matches_at(k + sep + rest, sep, j),
    ensures
        key_segments(k + sep + rest, sep) == (if k.len() > 0 { seq![lower(k)] } else { Seq::<Seq<char>>::empty() })
            + key_segments(rest, sep),
{
    crate::text::lemma_split_first_piece(k, sep, rest);
    lemma_lowered_nonempty_concat(seq![k], split_pieces(rest, sep));
    lemma_lowered_one(k);
}

/// A value that is not valid Unicode is refused, naming the variable's
/// lower-cased name and the value as read.
pub proof fn lemma_non_unicode_refused(
    env: EnvironmentView,
    key: Seq<char>,
    nkey: Seq<char>,
    raw: Seq<char>,
    secrets: Seq<SecretReadView>,
)
    ensures
        value_outcome(env, key, nkey, Err(raw), secrets) == EntryOutcome::Fail(EnvErrorView::NonUnicode { key: nkey, value: raw }),
        error_message(EnvErrorView::NonUnicode { key: nkey, value: raw }) == "env variable "@ + debug_text(nkey)
            + " contains non-Unicode data: "@ + raw,
{
}

/// Without a prefix, every variable with a Unicode value (not an ignored
/// empty one) is taken under its whole name, where secret files are off.
pub proof fn lemma_unprefixed_source_takes_all(
    env: EnvironmentView,
    key: Seq<char>,
    v: Seq<char>,
    secrets: Seq<SecretReadView>,
)
    requires
        env.prefix is None,
        !env.secret_files,
        !env.ignore_empty || v.len() > 0,
    ensures
        entry_outcome(env, EnvVarView { key: Some(key), value: Ok(v) }, secrets) == (EntryOutcome::Insert { key, value: v }),
{
    if v.len() > 0 {
        assert(Ok::<Seq<char>, Seq<char>>(v) != Ok::<Seq<char>, Seq<char>>(Seq::empty()));
    }
}

/// A source given as a map reads nothing of the process environment.
pub proof fn lemma_map_source_ignores_process_env(
    env: EnvironmentView,
    pe1: Seq<EnvVarView>,
    pe2: Seq<EnvVarView>,
    secrets: Seq<SecretReadView>,
)
    requires
        env.source is Some,
    ensures
        collect_spec(env, pe1, secrets) == collect_spec(env, pe2, secrets),
{
}

/// With secret files enabled, a value that begins neither with `@/` nor
/// with `@@/` stands for itself: it is kept unchanged, and no file is read.
pub proof fn lemma_plain_value_kept(
    env: EnvironmentView,
    key: Seq<char>,
    nkey: Seq<char>,
    v: Seq<char>,
    secrets: Seq<SecretReadView>,
)
    requires
        env.secret_files,
        !has_prefix(v, "@/"@),
        !has_prefix(v, "@@/"@),
    ensures
        value_outcome(env, key, nkey, Ok(v), secrets) == (EntryOutcome::Insert { key, value: v }),
{
}

/// The prefix pattern is the prefix followed by the prefix separator where
/// one is set, whatever the separator; else by the separator where one is
/// set; else by `_`. A variable whose name begins with that pattern, in any
/// ASCII case, is taken: under the rest of its name, or under its whole
/// name where the prefix is kept.
pub proof fn lemma_prefix_pattern_taken(
    env: EnvironmentView,
    pre: Seq<char>,
    ps: Seq<char>,
    head: Seq<char>,
    rest: Seq<char>,
    v: Seq<char>,
    secrets: Seq<SecretReadView>,
)
    requires
        env.prefix == Some(pre),
        env.prefix_separator == Some(ps)
            || (env.prefix_separator is None && env.separator == Some(ps))
            || (env.prefix_separator is None && env.separator is None && ps == "_"@),
        !env.secret_files,
        !env.ignore_empty || v.len() > 0,
        vstd::utf8::is_ascii_chars(pre + ps),
        vstd::utf8::is_ascii_chars(head + rest),
        ascii_lowercase(head) == ascii_lowercase(pre + ps),
    ensures
        entry_outcome(env, EnvVarView { key: Some(head + rest), value: Ok(v) }, secrets) == (EntryOutcome::Insert {
            key: if env.keep_prefix { head + rest } else { rest },
            value: v,
        }),
{
    let key = head + rest;
    let pattern = pre + ps;
    assert(prefix_separator_of(env) == ps);
    assert(head.len() == pattern.len()) by {
        assert(ascii_lowercase(head).len() == head.len());
    }
    assert(key.take(head.len() as int) =~= head);
    assert(key.skip(head.len() as int) =~= rest);
    let nkey = lower(key);
    let npattern = lower(pattern);
    assert(nkey.take(pattern.len() as int) =~= npattern) by {
        assert forall|i: int| 0 <= i < pattern.len() implies #[trigger] nkey.take(pattern.len() as int)[i] == npattern[i] by {
            assert(key[i] == head[i]);
            assert(ascii_lowercase(head)[i] == ascii_lowercase(pattern)[i]);
        }
    }
    assert(has_prefix(nkey, npattern));
    if !env.keep_prefix {
        lemma_ascii_prefix_drop(key, pattern);
    }
    if v.len() > 0 {
        assert(Ok::<Seq<char>, Seq<char>>(v) != Ok::<Seq<char>, Seq<char>>(Seq::empty()));
    }
}

/// Where a prefix is set, a variable whose lower-cased name does not begin
/// with the lower-cased prefix pattern is skipped, whether or not the
/// prefix is kept, and whatever its value.
pub proof fn lemma_unprefixed_skipped(
    env: EnvironmentView,
    pre: Seq<char>,
    key: Seq<char>,
    value: Result<Seq<char>, Seq<char>>,
    secrets: Seq<SecretReadView>,
)
    requires
        env.prefix == Some(pre),
        !has_prefix(lower(key), lower(pre + prefix_separator_of(env))),
    ensures
        entry_outcome(env, EnvVarView { key: Some(key), value }, secrets) == EntryOutcome::Skip,
{
}

/// Exactly one line ending is stripped from a secret file's contents: a
/// final `\r\n`, or else a final `\n`.
pub proof fn lemma_strip_one_line_end(c: Seq<char>)
    ensures
        strip_line_end(c + "\r\n"@) == c,
        c.len() == 0 || c.last() != '\r' ==> strip_line_end(c + "\n"@) == c,
        c.len() == 0 || c.last() != '\n' ==> strip_line_end(c) == c,
{
    reveal_strlit("\n");
    reveal_strlit("\r\n");
    let a = c + "\n"@;
    assert(a.skip(a.len() - 1) =~= "\n"@);
    assert(a.take(a.len() - 1) =~= c);
    if has_suffix(a, "\r\n"@) && c.len() > 0 {
        assert(a.skip(a.len() - 2)[0] == c.last());
    }
    let b = c + "\r\n"@;
    assert(b.skip(b.len() - 2) =~= "\r\n"@);
    assert(b.take(b.len() - 2) =~= c);
    if c.len() > 0 && c.last() != '\n' {
        if has_suffix(c, "\r\n"@) {
            assert(c.skip(c.len() - 2)[1] == c.last());
        }
        if has_suffix(c, "\n"@) {
            assert(c.skip(c.len() - 1)[0] == c.last());
        }
    }
}

} // verus!
