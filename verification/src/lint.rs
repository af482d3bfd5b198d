//! The rule model and the rule compiler: a declarative rule document becomes
//! an immutable rule whose ordered pattern mapping sends each pattern to an
//! optional replacement value.

use vstd::prelude::*;

use crate::template::{spec_wrap, views_of, wrap};
use vstd::string::StrSliceExecFns;

verus! {

/// How severe a finding is, ordered from mildest to gravest.
#[derive(Clone, Copy, Debug, PartialEq, Eq, Structural)]
pub enum Severity {
    Info,
    Suggestion,
    Warning,
    Error,
}

impl Default for Severity {
    fn default() -> (s: Self)
        ensures
            s == Severity::Warning,
    {
        Severity::Warning
    }
}

/// Why a rule document failed to compile.
#[derive(Clone, Copy, Debug, PartialEq, Eq, Structural)]
pub enum RuleCompileError {
    /// The document lacks the required `name` field, or the name is empty.
    MissingField,
    /// The document does not parse, or a field has the wrong shape.
    Malformed,
    /// The wrap template rejected a token or mapping key.
    Template,
}

/// The mathematical model of a pattern mapping: patterns in insertion order,
/// each with an optional replacement value.
pub type MappingModel = Seq<(Seq<char>, Option<Seq<char>>)>;

pub open spec fn opt_view(o: Option<String>) -> Option<Seq<char>> {
    match o {
        Some(s) => Some(s@),
        None => None,
    }
}

pub open spec fn mapping_view(m: Seq<(String, Option<String>)>) -> MappingModel {
    m.map_values(|p: (String, Option<String>)| (p.0@, opt_view(p.1)))
}

/// The first position of a key in the mapping, or -1 when absent.
pub open spec fn spec_find_key(m: MappingModel, k: Seq<char>) -> int
    decreases m.len(),
{
    if m.len() == 0 {
        -1
    } else if m[0].0 == k {
        0
    } else {
        let r = spec_find_key(m.drop_first(), k);
        if r < 0 {
            -1
        } else {
            r + 1
        }
    }
}

/// Map-insert semantics over the ordered mapping: an existing key keeps its
/// position and takes the new value (last wins); a new key is appended.
pub open spec fn spec_map_insert(m: MappingModel, k: Seq<char>, v: Option<Seq<char>>) -> MappingModel {
    let i = spec_find_key(m, k);
    if i < 0 {
        m.push((k, v))
    } else {
        m.update(i, (k, v))
    }
}

pub proof fn lemma_find_key(m: MappingModel, k: Seq<char>)
    ensures
        spec_find_key(m, k) < 0 ==> forall|j: int| 0 <= j < m.len() ==> (#[trigger] m[j]).0 != k,
        spec_find_key(m, k) >= 0 ==> 0 <= spec_find_key(m, k) < m.len() && m[spec_find_key(
            m,
            k,
        )].0 == k && forall|j: int| 0 <= j < spec_find_key(m, k) ==> (#[trigger] m[j]).0 != k,
    decreases m.len(),
{
    if m.len() > 0 && m[0].0 != k {
        let rest = m.drop_first();
        lemma_find_key(rest, k);
        assert(forall|j: int| 0 <= j < rest.len() ==> rest[j] == m[j + 1]);
        let fr = spec_find_key(rest, k);
        let f = spec_find_key(m, k);
        if fr < 0 {
            assert forall|j: int| 0 <= j < m.len() implies (#[trigger] m[j]).0 != k by {
                if j > 0 {
                    assert(rest[j - 1].0 != k);
                }
            }
        } else {
            assert(f == fr + 1);
            assert(m[f] == rest[fr]);
            assert forall|j: int| 0 <= j < f implies (#[trigger] m[j]).0 != k by {
                if j > 0 {
                    assert(rest[j - 1].0 != k);
                }
            }
        }
    }
}

/// The well-formedness invariant of a pattern mapping: no pattern occurs
/// twice.
pub open spec fn map_keys_unique(m: MappingModel) -> bool {
    forall|i: int, j: int| 0 <= i < j < m.len() ==> (#[trigger] m[i]).0 != (#[trigger] m[j]).0
}

/// Map-insert keeps the keys unique.
pub proof fn lemma_insert_keeps_keys_unique(m: MappingModel, k: Seq<char>, v: Option<Seq<char>>)
    requires
        map_keys_unique(m),
    ensures
        map_keys_unique(spec_map_insert(m, k, v)),
{
    lemma_find_key(m, k);
    let f = spec_find_key(m, k);
    let m2 = spec_map_insert(m, k, v);
    if f < 0 {
        assert forall|i: int, j: int| 0 <= i < j < m2.len() implies (#[trigger] m2[i]).0 != (
        #[trigger] m2[j]).0 by {
            if j == m2.len() - 1 {
                assert(m[i].0 != k);
            }
        }
    } else {
        assert forall|i: int, j: int| 0 <= i < j < m2.len() implies (#[trigger] m2[i]).0 != (
        #[trigger] m2[j]).0 by {
            if i == f {
                if m[j].0 == k {
                    assert(m[f].0 == m[j].0);
                }
            } else if j == f {
                assert(m[i].0 != k);
            }
        }
    }
}

proof fn lemma_add_tokens_keeps_keys_unique(
    m: MappingModel,
    template: Seq<char>,
    tokens: Seq<Seq<char>>,
)
    requires
        map_keys_unique(m),
    ensures
        spec_add_tokens(m, template, tokens) matches Some(m2) ==> map_keys_unique(m2),
    decreases tokens.len(),
{
    if tokens.len() > 0 {
        match spec_wrap(template, tokens[0]) {
            None => {},
            Some(p) => {
                lemma_insert_keeps_keys_unique(m, p, None);
                lemma_add_tokens_keeps_keys_unique(
                    spec_map_insert(m, p, None),
                    template,
                    tokens.drop_first(),
                );
            },
        }
    }
}

proof fn lemma_add_mapping_keeps_keys_unique(
    m: MappingModel,
    template: Seq<char>,
    entries: Seq<(Seq<char>, Seq<char>)>,
)
    requires
        map_keys_unique(m),
    ensures
        spec_add_mapping(m, template, entries) matches Some(m2) ==> map_keys_unique(m2),
    decreases entries.len(),
{
    if entries.len() > 0 {
        match spec_wrap(template, entries[0].0) {
            None => {},
            Some(p) => {
                lemma_insert_keeps_keys_unique(m, p, Some(entries[0].1));
                lemma_add_mapping_keeps_keys_unique(
                    spec_map_insert(m, p, Some(entries[0].1)),
                    template,
                    entries.drop_first(),
                );
            },
        }
    }
}

/// A compiled rule's pattern mapping never holds a pattern twice: map-insert
/// semantics make later entries overwrite earlier ones.
pub proof fn lemma_compiled_keys_unique(raw: RawLintModel)
    ensures
        spec_compile(raw) matches Ok(l) ==> map_keys_unique(l.mapping),
{
    if !(raw.name is None || raw.name->0.len() == 0) {
        let template = spec_template(raw);
        assert(map_keys_unique(Seq::<(Seq<char>, Option<Seq<char>>)>::empty()));
        lemma_add_tokens_keeps_keys_unique(Seq::empty(), template, raw.tokens);
        match spec_add_tokens(Seq::empty(), template, raw.tokens) {
            None => {},
            Some(m1) => {
                lemma_add_mapping_keeps_keys_unique(m1, template, raw.mapping);
            },
        }
    }
}

/// Insert a pattern into the ordered mapping: an existing key keeps its
/// position and takes the new value; a new key is appended.
pub fn map_insert(m: &mut Vec<(String, Option<String>)>, k: String, v: Option<String>)
    ensures
        mapping_view(final(m)@) == spec_map_insert(mapping_view(old(m)@), k@, opt_view(v)),
{
    let ghost m0 = mapping_view(old(m)@);
    let mut i: usize = 0;
    while i < m.len()
        invariant
            m@ == old(m)@,
            0 <= i <= m@.len(),
            m0 == mapping_view(m@),
            forall|j: int| 0 <= j < i ==> (#[trigger] m0[j]).0 != k@,
        decreases m@.len() - i,
    {
        proof {
            lemma_find_key(m0, k@);
            assert(m0[i as int] == (m@[i as int].0@, opt_view(m@[i as int].1)));
        }
        if m[i].0 == k {
            proof {
                assert(m0[i as int].0 == k@);
                assert(spec_find_key(m0, k@) == i as int) by {
                    let f = spec_find_key(m0, k@);
                    if f < 0 || f > i as int {
                        assert(m0[i as int].0 != k@);
                    } else if f < i as int {
                        assert(m0[f].0 != k@);
                    }
                }
            }
            m.set(i, (k, v));
            proof {
                assert(mapping_view(m@) =~= spec_map_insert(m0, k@, opt_view(v)));
            }
            return ;
        }
        i = i + 1;
    }
    proof {
        lemma_find_key(m0, k@);
        assert(spec_find_key(m0, k@) < 0) by {
            let f = spec_find_key(m0, k@);
            if f >= 0 {
                assert(m0[f].0 != k@);
            }
        }
    }
    m.push((k, v));
    proof {
        assert(mapping_view(m@) =~= spec_map_insert(m0, k@, opt_view(v)));
    }
}

/// A compiled lint rule: immutable after compilation. The mapping sends each
/// pattern, in insertion order, to an optional replacement value; a pattern
/// without a value is a bare token pattern.
#[derive(Clone, Debug)]
pub struct Lint {
    pub name: String,
    pub severity: Severity,
    pub msg: String,
    pub msg_mapping: String,
    pub mapping: Vec<(String, Option<String>)>,
}

/// The mathematical model of a compiled rule.
pub struct LintModel {
    pub name: Seq<char>,
    pub severity: Severity,
    pub msg: Seq<char>,
    pub msg_mapping: Seq<char>,
    pub mapping: MappingModel,
}

impl View for Lint {
    type V = LintModel;

    open spec fn view(&self) -> LintModel {
        LintModel {
            name: self.name@,
            severity: self.severity,
            msg: self.msg@,
            msg_mapping: self.msg_mapping@,
            mapping: mapping_view(self.mapping@),
        }
    }
}

/// One rule document after parsing and before compilation: absent fields are
/// None, tokens and mapping entries keep their document order.
pub struct RawLint {
    pub name: Option<String>,
    pub severity: Option<Severity>,
    pub msg: Option<String>,
    pub msg_mapping: Option<String>,
    pub regex: Option<String>,
    pub tokens: Vec<String>,
    pub mapping: Vec<(String, String)>,
}

/// The mathematical model of a parsed rule document.
pub struct RawLintModel {
    pub name: Option<Seq<char>>,
    pub severity: Option<Severity>,
    pub msg: Option<Seq<char>>,
    pub msg_mapping: Option<Seq<char>>,
    pub regex: Option<Seq<char>>,
    pub tokens: Seq<Seq<char>>,
    pub mapping: Seq<(Seq<char>, Seq<char>)>,
}

pub open spec fn str_pairs_view(s: Seq<(String, String)>) -> Seq<(Seq<char>, Seq<char>)> {
    s.map_values(|p: (String, String)| (p.0@, p.1@))
}

impl View for RawLint {
    type V = RawLintModel;

    open spec fn view(&self) -> RawLintModel {
        RawLintModel {
            name: opt_view(self.name),
            severity: self.severity,
            msg: opt_view(self.msg),
            msg_mapping: opt_view(self.msg_mapping),
            regex: opt_view(self.regex),
            tokens: views_of(self.tokens@),
            mapping: str_pairs_view(self.mapping@),
        }
    }
}

pub open spec fn spec_default_msg() -> Seq<char> {
    "{match} is a usage error"@
}

pub open spec fn spec_default_msg_mapping() -> Seq<char> {
    "Consider replacing {match} with {value}"@
}

pub open spec fn spec_default_regex() -> Seq<char> {
    "\\b{regex}\\b"@
}

/// The default message template for token patterns.
pub fn default_msg() -> (s: String)
    ensures
        s@ == spec_default_msg(),
{
    "{match} is a usage error".to_owned()
}

/// The default message template for value-mapped patterns.
pub fn default_msg_mapping() -> (s: String)
    ensures
        s@ == spec_default_msg_mapping(),
{
    "Consider replacing {match} with {value}".to_owned()
}

/// The default wrap template: the literal between word boundaries.
pub fn default_regex() -> (s: String)
    ensures
        s@ == spec_default_regex(),
{
    "\\b{regex}\\b".to_owned()
}

/// The default token list: none.
pub fn default_tokens() -> (v: Vec<String>)
    ensures
        v@.len() == 0,
{
    Vec::new()
}

/// The wrap template a document compiles under: its own, or the default.
pub open spec fn spec_template(raw: RawLintModel) -> Seq<char> {
    match raw.regex {
        Some(t) => t,
        None => spec_default_regex(),
    }
}

/// Insert each token, wrapped, as a bare pattern; None when the wrap template
/// rejects one.
pub open spec fn spec_add_tokens(m: MappingModel, template: Seq<char>, tokens: Seq<Seq<char>>) -> Option<
    MappingModel,
>
    decreases tokens.len(),
{
    if tokens.len() == 0 {
        Some(m)
    } else {
        match spec_wrap(template, tokens[0]) {
            None => None,
            Some(p) => spec_add_tokens(spec_map_insert(m, p, None), template, tokens.drop_first()),
        }
    }
}

/// Insert each mapping key, wrapped, with its replacement value; None when
/// the wrap template rejects one.
pub open spec fn spec_add_mapping(
    m: MappingModel,
    template: Seq<char>,
    entries: Seq<(Seq<char>, Seq<char>)>,
) -> Option<MappingModel>
    decreases entries.len(),
{
    if entries.len() == 0 {
        Some(m)
    } else {
        match spec_wrap(template, entries[0].0) {
            None => None,
            Some(p) => spec_add_mapping(
                spec_map_insert(m, p, Some(entries[0].1)),
                template,
                entries.drop_first(),
            ),
        }
    }
}

/// What compiling a parsed rule document yields: an error for a missing or
/// empty name or a rejected wrap, else the rule with defaults applied, its
/// tokens inserted as bare patterns first and its mapping entries after.
pub open spec fn spec_compile(raw: RawLintModel) -> Result<LintModel, RuleCompileError> {
    if raw.name is None || raw.name->0.len() == 0 {
        Err(RuleCompileError::MissingField)
    } else {
        let template = spec_template(raw);
        match spec_add_tokens(Seq::empty(), template, raw.tokens) {
            None => Err(RuleCompileError::Template),
            Some(m1) => match spec_add_mapping(m1, template, raw.mapping) {
                None => Err(RuleCompileError::Template),
                Some(m2) => Ok(
                    LintModel {
                        name: raw.name->0,
                        severity: match raw.severity {
                            Some(s) => s,
                            None => Severity::Warning,
                        },
                        msg: match raw.msg {
                            Some(s) => s,
                            None => spec_default_msg(),
                        },
                        msg_mapping: match raw.msg_mapping {
                            Some(s) => s,
                            None => spec_default_msg_mapping(),
                        },
                        mapping: m2,
                    },
                ),
            },
        }
    }
}

pub open spec fn lint_result_view(r: Result<Lint, RuleCompileError>) -> Result<
    LintModel,
    RuleCompileError,
> {
    match r {
        Ok(l) => Ok(l@),
        Err(e) => Err(e),
    }
}

impl Lint {
    /// Compile a parsed rule document: reject a missing or empty name, apply
    /// defaults, and expand tokens and mapping keys through the wrap template
    /// into the ordered pattern mapping.
    pub fn from_raw(raw: &RawLint) -> (r: Result<Lint, RuleCompileError>)
        ensures
            lint_result_view(r) == spec_compile(raw@),
    {
        let name: String = match &raw.name {
            None => {
                return Err(RuleCompileError::MissingField);
            },
            Some(n) => n.clone(),
        };
        if name.as_str().unicode_len() == 0 {
            return Err(RuleCompileError::MissingField);
        }
        let template: String = match &raw.regex {
            Some(t) => t.clone(),
            None => default_regex(),
        };
        let ghost tv = spec_template(raw@);
        let ghost toks = views_of(raw.tokens@);
        let mut mapping: Vec<(String, Option<String>)> = Vec::new();
        proof {
            assert(toks.skip(0) =~= toks);
            assert(mapping_view(mapping@) =~= Seq::<(Seq<char>, Option<Seq<char>>)>::empty());
        }
        let mut i: usize = 0;
        while i < raw.tokens.len()
            invariant
                0 <= i <= raw.tokens@.len(),
                toks == views_of(raw.tokens@),
                tv == spec_template(raw@),
                template@ == tv,
                raw@.name is Some && raw@.name->0.len() > 0,
                spec_add_tokens(Seq::empty(), tv, toks) == spec_add_tokens(
                    mapping_view(mapping@),
                    tv,
                    toks.skip(i as int),
                ),
            decreases raw.tokens@.len() - i,
        {
            proof {
                assert(toks.skip(i as int)[0] == toks[i as int]);
                assert(toks.skip(i as int).drop_first() =~= toks.skip(i + 1));
                assert(toks[i as int] == raw.tokens@[i as int]@);
            }
            let p = match wrap(template.as_str(), raw.tokens[i].as_str()) {
                None => {
                    return Err(RuleCompileError::Template);
                },
                Some(p) => p,
            };
            map_insert(&mut mapping, p, None);
            i = i + 1;
        }
        proof {
            assert(toks.skip(toks.len() as int) =~= Seq::<Seq<char>>::empty());
        }
        let ghost m1 = mapping_view(mapping@);
        let ghost ents = raw@.mapping;
        proof {
            assert(ents.skip(0) =~= ents);
        }
        let mut j: usize = 0;
        while j < raw.mapping.len()
            invariant
                0 <= j <= raw.mapping@.len(),
                ents == raw@.mapping,
                tv == spec_template(raw@),
                template@ == tv,
                raw@.name is Some && raw@.name->0.len() > 0,
                spec_add_tokens(Seq::empty(), tv, toks) == Some(m1),
                toks == views_of(raw.tokens@),
                spec_add_mapping(m1, tv, ents) == spec_add_mapping(
                    mapping_view(mapping@),
                    tv,
                    ents.skip(j as int),
                ),
            decreases raw.mapping@.len() - j,
        {
            proof {
                assert(ents.skip(j as int)[0] == ents[j as int]);
                assert(ents.skip(j as int).drop_first() =~= ents.skip(j + 1));
                assert(ents[j as int] == (raw.mapping@[j as int].0@, raw.mapping@[j as int].1@));
            }
            let p = match wrap(template.as_str(), raw.mapping[j].0.as_str()) {
                None => {
                    return Err(RuleCompileError::Template);
                },
                Some(p) => p,
            };
            let value = raw.mapping[j].1.clone();
            map_insert(&mut mapping, p, Some(value));
            j = j + 1;
        }
        proof {
            assert(ents.skip(ents.len() as int) =~= Seq::<(Seq<char>, Seq<char>)>::empty());
        }
        let severity = match raw.severity {
            Some(s) => s,
            None => Severity::Warning,
        };
        let msg = match &raw.msg {
            Some(s) => s.clone(),
            None => default_msg(),
        };
        let msg_mapping = match &raw.msg_mapping {
            Some(s) => s.clone(),
            None => default_msg_mapping(),
        };
        let l = Lint { name, severity, msg, msg_mapping, mapping };
        Ok(l)
    }
}

/// A rule document lacking a name, or naming nothing, never compiles: it
/// fails with the missing-field error rather than silently defaulting.
pub proof fn lemma_missing_name_rejected(raw: RawLintModel)
    requires
        raw.name is None || raw.name->0.len() == 0,
    ensures
        spec_compile(raw) == Err::<LintModel, RuleCompileError>(RuleCompileError::MissingField),
{
}

/// Compilation is a function of the parsed document alone: equal documents
/// compile to rules equal in every field.
pub proof fn lemma_compile_deterministic(a: RawLintModel, b: RawLintModel)
    requires
        a == b,
    ensures
        spec_compile(a) == spec_compile(b),
{
}

/// Declares the parsed document value type of the TOML crate.
#[verifier::external_type_specification]
#[verifier::external_body]
pub struct ExTomlValue(toml::Value);

/// The shape of a parsed TOML value, as far as rule documents read one: a
/// string, an array of values, a table of entries in document order, or any
/// other kind of value.
pub enum TomlModel {
    Str(Seq<char>),
    Arr(Seq<TomlModel>),
    Table(Seq<(Seq<char>, TomlModel)>),
    Other,
}

/// What a parsed TOML value holds.
pub uninterp spec fn toml_model(v: toml::Value) -> TomlModel;

/// What parsing a document yields: its value tree, or None when the text is
/// not valid TOML.
pub uninterp spec fn toml_doc(doc: Seq<char>) -> Option<TomlModel>;

/// The value of the first entry with the key; a parsed table holds each key
/// at most once.
pub open spec fn spec_table_get(es: Seq<(Seq<char>, TomlModel)>, key: Seq<char>) -> Option<
    TomlModel,
>
    decreases es.len(),
{
    if es.len() == 0 {
        None
    } else if es[0].0 == key {
        Some(es[0].1)
    } else {
        spec_table_get(es.drop_first(), key)
    }
}

/// The value under a key: None when this value is not a table, or the table
/// lacks the key.
pub open spec fn spec_value_get(m: TomlModel, key: Seq<char>) -> Option<TomlModel> {
    match m {
        TomlModel::Table(es) => spec_table_get(es, key),
        _ => None,
    }
}

/// Relies on toml::from_str::<toml::Value>: parse a document into a value
/// tree, a function of the document text alone; None when the document is not
/// valid TOML.
#[verifier::external_body]
fn toml_parse(doc: &str) -> (r: Option<toml::Value>)
    ensures
        r is Some <==> toml_doc(doc@) is Some,
        r matches Some(v) ==> Some(toml_model(v)) == toml_doc(doc@),
{
    toml::from_str::<toml::Value>(doc).ok()
}

/// Relies on toml::Value::get: the value under a key when this value is a
/// table holding that key, None otherwise.
#[verifier::external_body]
fn toml_get<'a>(v: &'a toml::Value, key: &str) -> (r: Option<&'a toml::Value>)
    ensures
        r is Some <==> spec_value_get(toml_model(*v), key@) is Some,
        r matches Some(w) ==> Some(toml_model(*w)) == spec_value_get(toml_model(*v), key@),
{
    v.get(key)
}

/// Relies on toml::Value::as_str: the contents when this value is a string,
/// None otherwise.
#[verifier::external_body]
fn toml_as_str(v: &toml::Value) -> (r: Option<String>)
    ensures
        r is Some <==> toml_model(*v) is Str,
        r matches Some(s) ==> toml_model(*v) == TomlModel::Str(s@),
{
    v.as_str().map(|s| s.to_owned())
}

/// Relies on toml::Value::as_array: the elements when this value is an array,
/// None otherwise.
#[verifier::external_body]
fn toml_as_array<'a>(v: &'a toml::Value) -> (r: Option<&'a Vec<toml::Value>>)
    ensures
        r is Some <==> toml_model(*v) is Arr,
        r matches Some(a) ==> toml_model(*v) == TomlModel::Arr(
            a@.map_values(|x: toml::Value| toml_model(x)),
        ),
{
    v.as_array()
}

/// Relies on toml::Value::as_table: the entries when this value is a table,
/// in document order (the map is built to preserve insertion order), None
/// otherwise.
#[verifier::external_body]
fn toml_table_entries(v: &toml::Value) -> (r: Option<Vec<(String, toml::Value)>>)
    ensures
        r is Some <==> toml_model(*v) is Table,
        r matches Some(es) ==> toml_model(*v) == TomlModel::Table(
            es@.map_values(|p: (String, toml::Value)| (p.0@, toml_model(p.1))),
        ),
{
    v.as_table().map(|t| t.iter().map(|(k, val)| (k.clone(), val.clone())).collect())
}

pub open spec fn spec_parse_severity(s: Seq<char>) -> Option<Severity> {
    if s == "info"@ {
        Some(Severity::Info)
    } else if s == "suggestion"@ {
        Some(Severity::Suggestion)
    } else if s == "warning"@ {
        Some(Severity::Warning)
    } else if s == "error"@ {
        Some(Severity::Error)
    } else {
        None
    }
}

/// The severity a document names, or None for an unknown name.
fn parse_severity(s: &String) -> (r: Option<Severity>)
    ensures
        r == spec_parse_severity(s@),
{
    if *s == "info".to_owned() {
        Some(Severity::Info)
    } else if *s == "suggestion".to_owned() {
        Some(Severity::Suggestion)
    } else if *s == "warning".to_owned() {
        Some(Severity::Warning)
    } else if *s == "error".to_owned() {
        Some(Severity::Error)
    } else {
        None
    }
}

/// An optional string field of a table: absent is Some(None), a string is
/// Some(Some(s)), any other shape is None.
pub open spec fn spec_opt_str(m: TomlModel, key: Seq<char>) -> Option<Option<Seq<char>>> {
    match spec_value_get(m, key) {
        None => Some(None),
        Some(TomlModel::Str(s)) => Some(Some(s)),
        Some(_) => None,
    }
}

/// The severity field of a lint table: absent is Some(None), a known severity
/// name is Some(Some(sev)), anything else is None.
pub open spec fn spec_severity_field(m: TomlModel) -> Option<Option<Severity>> {
    match spec_opt_str(m, "severity"@) {
        None => None,
        Some(None) => Some(None),
        Some(Some(s)) => match spec_parse_severity(s) {
            None => None,
            Some(sev) => Some(Some(sev)),
        },
    }
}

/// The elements of an array as strings, in order; None when one is not a
/// string.
pub open spec fn spec_str_items(xs: Seq<TomlModel>) -> Option<Seq<Seq<char>>>
    decreases xs.len(),
{
    if xs.len() == 0 {
        Some(seq![])
    } else {
        match xs[0] {
            TomlModel::Str(s) => match spec_str_items(xs.drop_first()) {
                None => None,
                Some(rest) => Some(seq![s] + rest),
            },
            _ => None,
        }
    }
}

/// The token list of a lint table: absent is an empty list, an array of
/// strings is the list, anything else is None.
pub open spec fn spec_tokens_field(m: TomlModel) -> Option<Seq<Seq<char>>> {
    match spec_value_get(m, "tokens"@) {
        None => Some(seq![]),
        Some(TomlModel::Arr(xs)) => spec_str_items(xs),
        Some(_) => None,
    }
}

/// The entries of a table with string values, in document order; None when a
/// value is not a string.
pub open spec fn spec_str_entries(es: Seq<(Seq<char>, TomlModel)>) -> Option<
    Seq<(Seq<char>, Seq<char>)>,
>
    decreases es.len(),
{
    if es.len() == 0 {
        Some(seq![])
    } else {
        match es[0].1 {
            TomlModel::Str(s) => match spec_str_entries(es.drop_first()) {
                None => None,
                Some(rest) => Some(seq![(es[0].0, s)] + rest),
            },
            _ => None,
        }
    }
}

/// The mapping table of a document: absent is an empty mapping, a table of
/// string values is its entries in document order, anything else is None.
pub open spec fn spec_mapping_field(top: TomlModel) -> Option<Seq<(Seq<char>, Seq<char>)>> {
    match spec_value_get(top, "mapping"@) {
        None => Some(seq![]),
        Some(TomlModel::Table(es)) => spec_str_entries(es),
        Some(_) => None,
    }
}

/// The parsed rule document a value tree describes: a `lint` table with the
/// rule's fields and an optional top-level `mapping` table; None when the
/// `lint` table is missing or a field has the wrong shape.
pub open spec fn spec_raw_of(top: TomlModel) -> Option<RawLintModel> {
    match spec_value_get(top, "lint"@) {
        None => None,
        Some(lt) => match (spec_opt_str(lt, "name"@), spec_severity_field(lt), spec_opt_str(
            lt,
            "msg"@,
        ), spec_opt_str(lt, "msg_mapping"@), spec_opt_str(lt, "regex"@), spec_tokens_field(lt),
        spec_mapping_field(top)) {
            (
                Some(name),
                Some(severity),
                Some(msg),
                Some(msg_mapping),
                Some(regex),
                Some(tokens),
                Some(mapping),
            ) => Some(RawLintModel { name, severity, msg, msg_mapping, regex, tokens, mapping }),
            _ => None,
        },
    }
}

/// What compiling one document yields: Malformed when the text does not parse
/// or a field has the wrong shape, else the compilation of its parsed fields.
pub open spec fn spec_compile_doc(doc: Seq<char>) -> Result<LintModel, RuleCompileError> {
    match toml_doc(doc) {
        None => Err(RuleCompileError::Malformed),
        Some(top) => match spec_raw_of(top) {
            None => Err(RuleCompileError::Malformed),
            Some(raw) => spec_compile(raw),
        },
    }
}

/// Read an optional string field of a table: absent is None, present with any
/// other shape is an error.
fn opt_str_field(tbl: &toml::Value, key: &str) -> (r: Result<Option<String>, RuleCompileError>)
    ensures
        r is Ok <==> spec_opt_str(toml_model(*tbl), key@) is Some,
        r matches Ok(o) ==> Some(opt_view(o)) == spec_opt_str(toml_model(*tbl), key@),
        r is Err ==> r == Err::<Option<String>, RuleCompileError>(RuleCompileError::Malformed),
{
    match toml_get(tbl, key) {
        None => Ok(None),
        Some(v) => match toml_as_str(v) {
            None => Err(RuleCompileError::Malformed),
            Some(s) => Ok(Some(s)),
        },
    }
}

/// Read an array's elements as strings, in order; None when one is not a
/// string.
fn str_items(arr: &Vec<toml::Value>) -> (r: Option<Vec<String>>)
    ensures
        ({
            let spec = spec_str_items(arr@.map_values(|x: toml::Value| toml_model(x)));
            (r is Some <==> spec is Some) && (r matches Some(v) ==> Some(views_of(v@)) == spec)
        }),
{
    let ghost xs = arr@.map_values(|x: toml::Value| toml_model(x));
    let mut out: Vec<String> = Vec::new();
    proof {
        assert(xs.skip(0) =~= xs);
        assert(views_of(out@) =~= Seq::<Seq<char>>::empty());
    }
    let mut i: usize = 0;
    while i < arr.len()
        invariant
            0 <= i <= arr@.len(),
            xs == arr@.map_values(|x: toml::Value| toml_model(x)),
            xs.len() == arr@.len(),
            ({
                let full = spec_str_items(xs);
                let rest = spec_str_items(xs.skip(i as int));
                (full is Some <==> rest is Some) && (full is Some ==> full->0 == views_of(out@)
                    + rest->0)
            }),
        decreases arr@.len() - i,
    {
        proof {
            assert(xs.skip(i as int)[0] == xs[i as int]);
            assert(xs.skip(i as int).drop_first() =~= xs.skip(i + 1));
            assert(xs[i as int] == toml_model(arr@[i as int]));
        }
        match toml_as_str(&arr[i]) {
            None => {
                return None;
            },
            Some(s) => {
                let ghost sv = s@;
                let ghost out0 = out@;
                out.push(s);
                proof {
                    assert(views_of(out@) =~= views_of(out0).push(sv));
                    let full = spec_str_items(xs);
                    let rest = spec_str_items(xs.skip(i as int));
                    let rest2 = spec_str_items(xs.skip(i + 1));
                    if full is Some {
                        assert(rest->0 =~= seq![sv] + rest2->0);
                        assert(views_of(out0) + rest->0 =~= views_of(out@) + rest2->0);
                    }
                }
            },
        }
        i = i + 1;
    }
    proof {
        assert(xs.skip(xs.len() as int) =~= Seq::<TomlModel>::empty());
        let full = spec_str_items(xs);
        if full is Some {
            assert(views_of(out@) + Seq::<Seq<char>>::empty() =~= views_of(out@));
        }
    }
    Some(out)
}

/// Read a table's entries as string pairs, in document order; None when a
/// value is not a string.
fn str_entries(entries: &Vec<(String, toml::Value)>) -> (r: Option<Vec<(String, String)>>)
    ensures
        ({
            let spec = spec_str_entries(
                entries@.map_values(|p: (String, toml::Value)| (p.0@, toml_model(p.1))),
            );
            (r is Some <==> spec is Some) && (r matches Some(v) ==> Some(str_pairs_view(v@))
                == spec)
        }),
{
    let ghost es = entries@.map_values(|p: (String, toml::Value)| (p.0@, toml_model(p.1)));
    let mut out: Vec<(String, String)> = Vec::new();
    proof {
        assert(es.skip(0) =~= es);
        assert(str_pairs_view(out@) =~= Seq::<(Seq<char>, Seq<char>)>::empty());
    }
    let mut i: usize = 0;
    while i < entries.len()
        invariant
            0 <= i <= entries@.len(),
            es == entries@.map_values(|p: (String, toml::Value)| (p.0@, toml_model(p.1))),
            es.len() == entries@.len(),
            ({
                let full = spec_str_entries(es);
                let rest = spec_str_entries(es.skip(i as int));
                (full is Some <==> rest is Some) && (full is Some ==> full->0 == str_pairs_view(
                    out@,
                ) + rest->0)
            }),
        decreases entries@.len() - i,
    {
        proof {
            assert(es.skip(i as int)[0] == es[i as int]);
            assert(es.skip(i as int).drop_first() =~= es.skip(i + 1));
            assert(es[i as int] == (entries@[i as int].0@, toml_model(entries@[i as int].1)));
        }
        match toml_as_str(&entries[i].1) {
            None => {
                return None;
            },
            Some(s) => {
                let k = entries[i].0.clone();
                let ghost kv = (k@, s@);
                let ghost out0 = out@;
                out.push((k, s));
                proof {
                    assert(str_pairs_view(out@) =~= str_pairs_view(out0).push(kv));
                    let full = spec_str_entries(es);
                    let rest = spec_str_entries(es.skip(i as int));
                    let rest2 = spec_str_entries(es.skip(i + 1));
                    if full is Some {
                        assert(rest->0 =~= seq![kv] + rest2->0);
                        assert(str_pairs_view(out0) + rest->0 =~= str_pairs_view(out@) + rest2->0);
                    }
                }
            },
        }
        i = i + 1;
    }
    proof {
        assert(es.skip(es.len() as int) =~= Seq::<(Seq<char>, TomlModel)>::empty());
        let full = spec_str_entries(es);
        if full is Some {
            assert(str_pairs_view(out@) + Seq::<(Seq<char>, Seq<char>)>::empty() =~= str_pairs_view(
                out@,
            ));
        }
    }
    Some(out)
}

/// Parse one rule document: a `lint` table with the rule's fields, and an
/// optional top-level `mapping` table of replacements, kept in document
/// order.
fn parse_document(doc: &str) -> (r: Result<RawLint, RuleCompileError>)
    ensures
        ({
            let spec = match toml_doc(doc@) {
                None => None,
                Some(top) => spec_raw_of(top),
            };
            (r is Ok <==> spec is Some) && (r matches Ok(raw) ==> Some(raw@) == spec) && (r is Err
                ==> r == Err::<RawLint, RuleCompileError>(RuleCompileError::Malformed))
        }),
{
    let val = match toml_parse(doc) {
        None => {
            return Err(RuleCompileError::Malformed);
        },
        Some(v) => v,
    };
    let ghost top = toml_model(val);
    let lint_tbl = match toml_get(&val, "lint") {
        None => {
            return Err(RuleCompileError::Malformed);
        },
        Some(t) => t,
    };
    let ghost lt = toml_model(*lint_tbl);
    let name = match opt_str_field(lint_tbl, "name") {
        Err(e) => {
            return Err(e);
        },
        Ok(n) => n,
    };
    let severity = match opt_str_field(lint_tbl, "severity") {
        Err(e) => {
            return Err(e);
        },
        Ok(None) => None,
        Ok(Some(s)) => match parse_severity(&s) {
            None => {
                return Err(RuleCompileError::Malformed);
            },
            Some(sev) => Some(sev),
        },
    };
    proof {
        assert(Some(severity) == spec_severity_field(lt));
    }
    let msg = match opt_str_field(lint_tbl, "msg") {
        Err(e) => {
            return Err(e);
        },
        Ok(m) => m,
    };
    let msg_mapping = match opt_str_field(lint_tbl, "msg_mapping") {
        Err(e) => {
            return Err(e);
        },
        Ok(m) => m,
    };
    let regex = match opt_str_field(lint_tbl, "regex") {
        Err(e) => {
            return Err(e);
        },
        Ok(m) => m,
    };
    let tokens: Vec<String> = match toml_get(lint_tbl, "tokens") {
        None => Vec::new(),
        Some(v) => match toml_as_array(v) {
            None => {
                return Err(RuleCompileError::Malformed);
            },
            Some(arr) => match str_items(arr) {
                None => {
                    return Err(RuleCompileError::Malformed);
                },
                Some(ts) => ts,
            },
        },
    };
    proof {
        assert(views_of(tokens@) == spec_tokens_field(lt)->0);
    }
    let mapping: Vec<(String, String)> = match toml_get(&val, "mapping") {
        None => Vec::new(),
        Some(v) => match toml_table_entries(v) {
            None => {
                return Err(RuleCompileError::Malformed);
            },
            Some(entries) => match str_entries(&entries) {
                None => {
                    return Err(RuleCompileError::Malformed);
                },
                Some(ms) => ms,
            },
        },
    };
    proof {
        assert(str_pairs_view(mapping@) == spec_mapping_field(top)->0);
    }
    let raw = RawLint { name, severity, msg, msg_mapping, regex, tokens, mapping };
    proof {
        assert(Some(raw@) == spec_raw_of(top));
    }
    Ok(raw)
}

/// The severity's display name.
pub open spec fn spec_severity_label(s: Severity) -> Seq<char> {
    match s {
        Severity::Info => "Info"@,
        Severity::Suggestion => "Suggestion"@,
        Severity::Warning => "Warning"@,
        Severity::Error => "Error"@,
    }
}

impl Severity {
    /// The severity's display name.
    pub fn label(&self) -> (s: String)
        ensures
            s@ == spec_severity_label(*self),
    {
        match self {
            Severity::Info => "Info".to_owned(),
            Severity::Suggestion => "Suggestion".to_owned(),
            Severity::Warning => "Warning".to_owned(),
            Severity::Error => "Error".to_owned(),
        }
    }
}

/// Whether two pattern mappings hold the same patterns and values in the same
/// order.
fn mapping_eq(a: &Vec<(String, Option<String>)>, b: &Vec<(String, Option<String>)>) -> (r: bool)
    ensures
        r == (mapping_view(a@) == mapping_view(b@)),
{
    if a.len() != b.len() {
        proof {
            assert(mapping_view(a@).len() != mapping_view(b@).len());
        }
        return false;
    }
    let mut i: usize = 0;
    while i < a.len()
        invariant
            0 <= i <= a@.len(),
            a@.len() == b@.len(),
            forall|j: int| 0 <= j < i ==> mapping_view(a@)[j] == mapping_view(b@)[j],
        decreases a@.len() - i,
    {
        proof {
            assert(mapping_view(a@)[i as int] == (a@[i as int].0@, opt_view(a@[i as int].1)));
            assert(mapping_view(b@)[i as int] == (b@[i as int].0@, opt_view(b@[i as int].1)));
        }
        if !(a[i].0 == b[i].0) {
            proof {
                assert(mapping_view(a@)[i as int] != mapping_view(b@)[i as int]);
            }
            return false;
        }
        let veq = match (&a[i].1, &b[i].1) {
            (None, None) => true,
            (Some(x), Some(y)) => *x == *y,
            _ => false,
        };
        if !veq {
            proof {
                assert(mapping_view(a@)[i as int] != mapping_view(b@)[i as int]);
            }
            return false;
        }
        i = i + 1;
    }
    proof {
        assert(mapping_view(a@) =~= mapping_view(b@));
    }
    true
}

impl PartialEq for Lint {
    fn eq(&self, other: &Self) -> (r: bool) {
        let r = self.name == other.name && self.severity == other.severity && self.msg == other.msg
            && self.msg_mapping == other.msg_mapping && mapping_eq(&self.mapping, &other.mapping);
        proof {
            if self@ == other@ {
                assert(self.name@ == other.name@);
                assert(self.msg@ == other.msg@);
                assert(self.msg_mapping@ == other.msg_mapping@);
                assert(mapping_view(self.mapping@) == mapping_view(other.mapping@));
            }
        }
        r
    }
}

impl vstd::std_specs::cmp::PartialEqSpecImpl for Lint {
    open spec fn obeys_eq_spec() -> bool {
        true
    }

    open spec fn eq_spec(&self, other: &Self) -> bool {
        self@ == other@
    }
}

/// An ordered collection of compiled rules, used together in one run.
pub type Lintset = Vec<Lint>;

/// Compile one declarative rule document: the result is exactly what
/// `spec_compile_doc` assigns to the document text — Malformed when it does
/// not parse or a field has the wrong shape, MissingField when the name is
/// absent or empty, else the rule with defaults applied and its patterns
/// expanded. A compiled rule never has an empty name.
pub fn compile(doc: &str) -> (r: Result<Lint, RuleCompileError>)
    ensures
        lint_result_view(r) == spec_compile_doc(doc@),
        r matches Ok(l) ==> l@.name.len() > 0,
{
    match parse_document(doc) {
        Err(e) => Err(e),
        Ok(raw) => {
            let r = Lint::from_raw(&raw);
            proof {
                assert(spec_compile_doc(doc@) == spec_compile(raw@));
            }
            r
        },
    }
}

/// Compiling the same document twice yields equal rules: the whole pipeline,
/// parse included, is a function of the document text alone.
pub proof fn lemma_compile_doc_deterministic(a: Seq<char>, b: Seq<char>)
    requires
        a == b,
    ensures
        spec_compile_doc(a) == spec_compile_doc(b),
{
}

/// Compile every rule document, in order: rule `i` of a successful batch is
/// exactly the compilation of document `i`, and the whole batch fails with
/// the first document's error, so a ruleset is all-or-nothing.
pub fn compile_all(docs: &Vec<String>) -> (r: Result<Lintset, RuleCompileError>)
    ensures
        r matches Ok(ls) ==> ls@.len() == docs@.len() && (forall|i: int|
            0 <= i < ls@.len() ==> spec_compile_doc(docs@[i]@) == Ok::<
                LintModel,
                RuleCompileError,
            >((#[trigger] ls@[i])@)) && (forall|i: int|
            0 <= i < ls@.len() ==> (#[trigger] ls@[i])@.name.len() > 0),
        r matches Err(e) ==> exists|i: int|
            0 <= i < docs@.len() && #[trigger] spec_compile_doc(docs@[i]@) == Err::<
                LintModel,
                RuleCompileError,
            >(e) && (forall|j: int| 0 <= j < i ==> spec_compile_doc(#[trigger] docs@[j]@) is Ok),
{
    let mut out: Vec<Lint> = Vec::new();
    let mut i: usize = 0;
    while i < docs.len()
        invariant
            0 <= i <= docs@.len(),
            out@.len() == i,
            forall|j: int|
                0 <= j < i ==> spec_compile_doc(docs@[j]@) == Ok::<LintModel, RuleCompileError>(
                    (#[trigger] out@[j])@,
                ),
            forall|j: int| 0 <= j < out@.len() ==> (#[trigger] out@[j])@.name.len() > 0,
        decreases docs@.len() - i,
    {
        match compile(docs[i].as_str()) {
            Err(e) => {
                proof {
                    assert(spec_compile_doc(docs@[i as int]@) == Err::<
                        LintModel,
                        RuleCompileError,
                    >(e));
                    assert forall|j: int|
                        0 <= j < i implies spec_compile_doc(#[trigger] docs@[j]@) is Ok by {
                        assert(spec_compile_doc(docs@[j]@) == Ok::<LintModel, RuleCompileError>(
                            out@[j]@,
                        ));
                    }
                }
                return Err(e);
            },
            Ok(l) => out.push(l),
        }
        i = i + 1;
    }
    Ok(out)
}

} // verus!
