//! Templates: variable contracts, validation of supplied values, and safe
//! rendering of a template body into a concrete server entry.
//!
//! Substitution is a restricted evaluator — variable lookup, conditional
//! blocks and iteration over array variables — so a template can never run
//! arbitrary logic.

use vstd::prelude::*;
use crate::json::{Json, JsonV};
use crate::strutil::{trim_spec, trim_chars, chars_eq, chars_to_string, string_to_chars};
use crate::config::{
    McpServer, McpServerV, first_lookup, jfields_view, pairs_view, strs_view, clone_json,
};
use crate::errors::ForgeError;

verus! {

// ---------------------------------------------------------------------------
// Template data model
// ---------------------------------------------------------------------------

/// The type a template variable declares.
#[derive(PartialEq, Eq, Structural, Clone, Copy)]
pub enum VariableType {
    String,
    Boolean,
    Number,
    Array,
    Select,
}

/// One variable's contract.
pub struct TemplateVariable {
    pub var_type: VariableType,
    pub description: String,
    pub default: Option<Json>,
    pub required: bool,
    pub validation: Option<String>,
    /// Only select-type variables carry options.
    pub options: Option<Vec<String>>,
}

/// A template body: shaped like a server entry, but every string may hold
/// substitution placeholders.
pub struct TemplateConfig {
    pub command: Option<String>,
    pub args: Option<Vec<String>>,
    pub url: Option<String>,
    pub env: Option<Vec<(String, String)>>,
}

/// A full template definition.
pub struct Template {
    pub name: String,
    pub version: String,
    pub description: String,
    pub author: String,
    pub tags: Vec<String>,
    pub platforms: Vec<String>,
    pub variables: Vec<(String, TemplateVariable)>,
    pub config: TemplateConfig,
    pub requirements: Option<Vec<(String, String)>>,
    pub setup_instructions: Option<String>,
}

/// One catalog row.
pub struct TemplateMetadata {
    pub name: String,
    pub version: String,
    pub description: String,
    pub author: String,
    pub tags: Vec<String>,
    pub platforms: Vec<String>,
    /// `"official"`, `"community"` or `"experimental"`.
    pub category: String,
    /// Path inside the template repository.
    pub path: String,
}

/// The catalog of available templates.
pub struct TemplateCatalog {
    pub version: String,
    pub last_updated: String,
    pub templates: Vec<(String, TemplateMetadata)>,
}

/// Bookkeeping for the on-disk template cache; timestamps are Unix seconds.
pub struct CacheMetadata {
    pub last_refresh: i64,
    pub etag: Option<String>,
    pub catalog_etag: Option<String>,
    pub expires_at: i64,
}

impl CacheMetadata {
    /// A fresh cache record: refreshed `now`, expiring thirty days later.
    pub fn fresh(now: i64) -> (r: CacheMetadata)
        requires
            now <= i64::MAX - 2_592_000,
        ensures
            r.last_refresh == now,
            r.expires_at == now + 2_592_000,
            r.etag is None,
            r.catalog_etag is None,
    {
        CacheMetadata { last_refresh: now, etag: None, catalog_etag: None, expires_at: now
            + 2_592_000 }
    }

    /// The cache is expired strictly after its expiry instant.
    pub fn is_expired(&self, now: i64) -> (r: bool)
        ensures
            r == (now > self.expires_at),
    {
        now > self.expires_at
    }
}

impl TemplateConfig {
    /// Exactly one of `url` and `command` must be present.
    pub open spec fn valid_shape(&self) -> bool {
        (self.url is Some) != (self.command is Some)
    }

    /// Rejects a body with both or neither of `url` and `command`.
    pub fn validate(&self) -> (r: Result<(), ForgeError>)
        ensures
            (r is Ok) == self.valid_shape(),
            r matches Err(e) ==> e is Validation,
    {
        match (self.url.as_ref(), self.command.as_ref()) {
            (Some(_), Some(_)) => Err(
                ForgeError::Validation(
                    String::from_str("Template cannot have both 'url' and 'command' fields"),
                ),
            ),
            (None, None) => Err(
                ForgeError::Validation(
                    String::from_str("Template must have either 'url' or 'command' field"),
                ),
            ),
            _ => Ok(()),
        }
    }

    /// A URL-style body.
    pub fn is_url_template(&self) -> (r: bool)
        ensures
            r == (self.url is Some),
    {
        self.url.is_some()
    }

    /// A command-style body.
    pub fn is_command_template(&self) -> (r: bool)
        ensures
            r == (self.command is Some),
    {
        self.command.is_some()
    }
}

// ---------------------------------------------------------------------------
// Variable validation
// ---------------------------------------------------------------------------

/// The supplied value satisfies one variable's contract: a required variable
/// must be present and non-null, and a required string-typed variable must
/// not be blank.  Values for variables not required pass unchecked.
pub open spec fn var_value_ok(v: TemplateVariable, val: Option<JsonV>) -> bool {
    !v.required || (match val {
        None => false,
        Some(jv) => !(jv is Null) && (!(v.var_type is String) || (match jv {
            JsonV::Str(s) => trim_spec(s).len() > 0,
            _ => true,
        })),
    })
}

/// Every declared variable's contract holds of the supplied values.
pub open spec fn vars_ok(
    vars: Seq<(String, TemplateVariable)>,
    values: Seq<(Seq<char>, JsonV)>,
) -> bool {
    forall|k: int|
        0 <= k < vars.len() ==> var_value_ok(#[trigger] vars[k].1, first_lookup(values, vars[k].0@))
}


/// The law of required string variables: under a template that declares one,
/// validation rejects a value set where it is absent, null, or blank, and a
/// non-blank string for it satisfies that variable's contract.
pub proof fn lemma_required_string_variable(
    vars: Seq<(String, TemplateVariable)>,
    values: Seq<(Seq<char>, JsonV)>,
    k: int,
)
    requires
        0 <= k < vars.len(),
        vars[k].1.required,
        vars[k].1.var_type is String,
    ensures
        first_lookup(values, vars[k].0@) is None ==> !vars_ok(vars, values),
        first_lookup(values, vars[k].0@) == Some(JsonV::Null) ==> !vars_ok(vars, values),
        forall|s: Seq<char>|
            first_lookup(values, vars[k].0@) == Some(JsonV::Str(s)) && crate::strutil::trim_spec(
                s,
            ).len() == 0 ==> !vars_ok(vars, values),
        forall|s: Seq<char>|
            crate::strutil::trim_spec(s).len() > 0 ==> var_value_ok(
                vars[k].1,
                Some(JsonV::Str(s)),
            ),
{
    if first_lookup(values, vars[k].0@) is None {
        assert(!var_value_ok(vars[k].1, first_lookup(values, vars[k].0@)));
    }
}

/// Checks every required variable against the supplied values, failing on the
/// first missing, null or blank one, naming it.
pub fn validate_variables(template: &Template, values: &Vec<(String, Json)>) -> (r: Result<
    (),
    ForgeError,
>)
    ensures
        (r is Ok) == vars_ok(template.variables@, jfields_view(values@)),
        r matches Err(e) ==> e is Validation,
{
    let ghost vals = jfields_view(values@);
    let mut k: usize = 0;
    while k < template.variables.len()
        invariant
            k <= template.variables@.len(),
            vals == jfields_view(values@),
            forall|m: int|
                0 <= m < k ==> var_value_ok(
                    #[trigger] template.variables@[m].1,
                    first_lookup(vals, template.variables@[m].0@),
                ),
        decreases template.variables@.len() - k,
    {
        let var = &template.variables[k].1;
        if var.required {
            let name = &template.variables[k].0;
            match lookup_value(values, name) {
                None => {
                    return Err(validation_err("Required variable is missing: ", name));
                },
                Some(jv) => {
                    match jv {
                        Json::Null => {
                            return Err(validation_err("Required variable cannot be null: ", name));
                        },
                        Json::Str(text) => {
                            let is_string_type = match var.var_type {
                                VariableType::String => true,
                                _ => false,
                            };
                            if is_string_type {
                                let trimmed = trim_chars(text);
                                if trimmed.len() == 0 {
                                    return Err(
                                        validation_err("Required variable cannot be empty: ", name),
                                    );
                                }
                            }
                        },
                        _ => {},
                    }
                },
            }
        }
        k = k + 1;
    }
    Ok(())
}

fn validation_err(prefix: &str, name: &String) -> (r: ForgeError)
    ensures
        r is Validation,
{
    let mut m = String::from_str(prefix);
    m.append(name.as_str());
    ForgeError::Validation(m)
}

/// First-match lookup of a supplied value by variable name.
fn lookup_value<'a>(values: &'a Vec<(String, Json)>, name: &String) -> (r: Option<&'a Json>)
    ensures
        (r is Some) == (first_lookup(jfields_view(values@), name@) is Some),
        r matches Some(j) ==> first_lookup(jfields_view(values@), name@) == Some(j@),
{
    let ghost vals = jfields_view(values@);
    proof {
        assert(vals.skip(0) =~= vals);
    }
    let mut i: usize = 0;
    while i < values.len()
        invariant
            i <= values@.len(),
            vals == jfields_view(values@),
            first_lookup(vals, name@) == first_lookup(vals.skip(i as int), name@),
        decreases values@.len() - i,
    {
        proof {
            assert(vals.skip(i as int)[0] == vals[i as int]);
            assert(vals.skip(i as int).drop_first() =~= vals.skip(i + 1));
        }
        let nv = string_to_chars(name);
        let kv = string_to_chars(&values[i].0);
        if chars_eq(&kv, &nv) {
            return Some(&values[i].1);
        }
        i = i + 1;
    }
    proof {
        assert(vals.skip(i as int).len() == 0);
    }
    None
}

// ---------------------------------------------------------------------------
// The restricted substitution language
// ---------------------------------------------------------------------------

/// A parsed template fragment: literal text, a variable reference, a
/// conditional block, or iteration over an array variable.
pub enum TplNode {
    Text(Vec<char>),
    Var(Vec<char>),
    If(Vec<char>, Vec<TplNode>),
    Each(Vec<char>, Vec<TplNode>),
}

/// Ghost model of a template fragment.
#[verifier::ext_equal]
pub enum TplNodeV {
    Text(Seq<char>),
    Var(Seq<char>),
    If(Seq<char>, Seq<TplNodeV>),
    Each(Seq<char>, Seq<TplNodeV>),
}

impl TplNode {
    pub open spec fn viewx(self) -> TplNodeV
        decreases self,
    {
        match self {
            TplNode::Text(t) => TplNodeV::Text(t@),
            TplNode::Var(n) => TplNodeV::Var(n@),
            TplNode::If(n, body) => TplNodeV::If(
                n@,
                Seq::new(
                    body@.len(),
                    |i: int|
                        if 0 <= i < body@.len() {
                            body@[i].viewx()
                        } else {
                            TplNodeV::Text(Seq::empty())
                        },
                ),
            ),
            TplNode::Each(n, body) => TplNodeV::Each(
                n@,
                Seq::new(
                    body@.len(),
                    |i: int|
                        if 0 <= i < body@.len() {
                            body@[i].viewx()
                        } else {
                            TplNodeV::Text(Seq::empty())
                        },
                ),
            ),
        }
    }
}

impl View for TplNode {
    type V = TplNodeV;

    open spec fn view(&self) -> TplNodeV {
        self.viewx()
    }
}

pub open spec fn nodes_view(s: Seq<TplNode>) -> Seq<TplNodeV> {
    s.map_values(|n: TplNode| n@)
}

/// What expression one `{{ ... }}` tag holds.
#[verifier::ext_equal]
pub enum TagV {
    TVar(Seq<char>),
    TIf(Seq<char>),
    TEach(Seq<char>),
    TEndIf,
    TEndEach,
    TBad,
}

pub open spec fn kw_this() -> Seq<char> {
    seq!['t', 'h', 'i', 's']
}

pub open spec fn kw_end_if() -> Seq<char> {
    seq!['/', 'i', 'f']
}

pub open spec fn kw_end_each() -> Seq<char> {
    seq!['/', 'e', 'a', 'c', 'h']
}

pub open spec fn kw_if_prefix() -> Seq<char> {
    seq!['#', 'i', 'f', ' ']
}

pub open spec fn kw_each_prefix() -> Seq<char> {
    seq!['#', 'e', 'a', 'c', 'h', ' ']
}

/// Classifies the trimmed text between `{{` and `}}`.
pub open spec fn tag_of(raw: Seq<char>) -> TagV {
    let t = trim_spec(raw);
    if t == kw_end_if() {
        TagV::TEndIf
    } else if t == kw_end_each() {
        TagV::TEndEach
    } else if t.len() > 4 && t.take(4) == kw_if_prefix() {
        let n = trim_spec(t.skip(4));
        if n.len() == 0 {
            TagV::TBad
        } else {
            TagV::TIf(n)
        }
    } else if t.len() > 6 && t.take(6) == kw_each_prefix() {
        let n = trim_spec(t.skip(6));
        if n.len() == 0 {
            TagV::TBad
        } else {
            TagV::TEach(n)
        }
    } else if t.len() == 0 || t[0] == '#' || t[0] == '/' {
        TagV::TBad
    } else {
        TagV::TVar(t)
    }
}

/// What the parser expects to close the region it is reading.
#[derive(PartialEq, Eq, Structural, Clone, Copy)]
pub enum CloseKind {
    Top,
    CloseIf,
    CloseEach,
}

/// First position at or after `i` where `{{` begins, or the text's length.
pub open spec fn find_open(s: Seq<char>, i: int) -> int
    decreases s.len() - i,
{
    if !(0 <= i < s.len()) {
        s.len() as int
    } else if i + 1 < s.len() && s[i] == '{' && s[i + 1] == '{' {
        i
    } else {
        find_open(s, i + 1)
    }
}

/// First position at or after `i` where `}}` begins, or the text's length.
pub open spec fn find_close(s: Seq<char>, i: int) -> int
    decreases s.len() - i,
{
    if !(0 <= i < s.len()) {
        s.len() as int
    } else if i + 1 < s.len() && s[i] == '}' && s[i + 1] == '}' {
        i
    } else {
        find_close(s, i + 1)
    }
}

pub proof fn lemma_find_open_bounds(s: Seq<char>, i: int)
    requires
        0 <= i <= s.len(),
    ensures
        i <= find_open(s, i) <= s.len(),
        find_open(s, i) < s.len() ==> find_open(s, i) + 1 < s.len(),
    decreases s.len() - i,
{
    if 0 <= i < s.len() && !(i + 1 < s.len() && s[i] == '{' && s[i + 1] == '{') {
        lemma_find_open_bounds(s, i + 1);
    }
}

pub proof fn lemma_find_close_bounds(s: Seq<char>, i: int)
    requires
        0 <= i <= s.len(),
    ensures
        i <= find_close(s, i) <= s.len(),
        find_close(s, i) < s.len() ==> find_close(s, i) + 1 < s.len(),
    decreases s.len() - i,
{
    if 0 <= i < s.len() && !(i + 1 < s.len() && s[i] == '}' && s[i + 1] == '}') {
        lemma_find_close_bounds(s, i + 1);
    }
}

pub open spec fn text_nodes(t: Seq<char>) -> Seq<TplNodeV> {
    if t.len() == 0 {
        Seq::empty()
    } else {
        seq![TplNodeV::Text(t)]
    }
}

/// Parses fragments starting at `i` until the expected closing tag (or, at
/// the top level, the end of the text).  Yields the fragments and the index
/// one past what was consumed.
pub open spec fn parse_nodes(s: Seq<char>, i: int, close: CloseKind) -> Option<
    (Seq<TplNodeV>, int),
>
    decreases s.len() - i,
{
    if !(0 <= i <= s.len()) {
        None
    } else {
        let fo = find_open(s, i);
        if !(i <= fo <= s.len()) {
            None
        } else {
            let text = s.subrange(i, fo);
            if fo == s.len() {
                if close is Top {
                    Some((text_nodes(text), s.len() as int))
                } else {
                    None
                }
            } else {
                let fc = find_close(s, fo + 2);
                if !(fo + 2 <= fc) {
                    None
                } else if fc + 2 > s.len() {
                    None
                } else {
                    let raw = s.subrange(fo + 2, fc);
                    let after = fc + 2;
                    match tag_of(raw) {
                        TagV::TVar(name) => match parse_nodes(s, after, close) {
                            Some((rest, e)) => Some(
                                (text_nodes(text) + seq![TplNodeV::Var(name)] + rest, e),
                            ),
                            None => None,
                        },
                        TagV::TIf(name) => match parse_nodes(s, after, CloseKind::CloseIf) {
                            Some((body, e1)) => if !(after < e1 && e1 <= s.len()) {
                                None
                            } else {
                                match parse_nodes(s, e1, close) {
                                    Some((rest, e)) => Some(
                                        (
                                            text_nodes(text) + seq![TplNodeV::If(name, body)]
                                                + rest,
                                            e,
                                        ),
                                    ),
                                    None => None,
                                }
                            },
                            None => None,
                        },
                        TagV::TEach(name) => match parse_nodes(s, after, CloseKind::CloseEach) {
                            Some((body, e1)) => if !(after < e1 && e1 <= s.len()) {
                                None
                            } else {
                                match parse_nodes(s, e1, close) {
                                    Some((rest, e)) => Some(
                                        (
                                            text_nodes(text) + seq![TplNodeV::Each(name, body)]
                                                + rest,
                                            e,
                                        ),
                                    ),
                                    None => None,
                                }
                            },
                            None => None,
                        },
                        TagV::TEndIf => if close is CloseIf {
                            Some((text_nodes(text), after))
                        } else {
                            None
                        },
                        TagV::TEndEach => if close is CloseEach {
                            Some((text_nodes(text), after))
                        } else {
                            None
                        },
                        TagV::TBad => None,
                    }
                }
            }
        }
    }
}

/// Parses a whole template string into fragments.
pub open spec fn parse_template(s: Seq<char>) -> Option<Seq<TplNodeV>> {
    match parse_nodes(s, 0, CloseKind::Top) {
        Some((ns, e)) => if e == s.len() {
            Some(ns)
        } else {
            None
        },
        None => None,
    }
}

pub proof fn lemma_parse_nodes_bounds(s: Seq<char>, i: int, close: CloseKind)
    ensures
        parse_nodes(s, i, close) matches Some((ns, e)) ==> i <= e <= s.len(),
    decreases s.len() - i,
{
    if 0 <= i <= s.len() {
        lemma_find_open_bounds(s, i);
        let fo = find_open(s, i);
        if fo < s.len() {
            lemma_find_close_bounds(s, fo + 2);
            let fc = find_close(s, fo + 2);
            if fo + 2 <= fc && fc + 2 <= s.len() {
                let after = fc + 2;
                let raw = s.subrange(fo + 2, fc);
                match tag_of(raw) {
                    TagV::TVar(name) => {
                        lemma_parse_nodes_bounds(s, after, close);
                    },
                    TagV::TIf(name) => {
                        lemma_parse_nodes_bounds(s, after, CloseKind::CloseIf);
                        match parse_nodes(s, after, CloseKind::CloseIf) {
                            Some((body, e1)) => {
                                if after < e1 && e1 <= s.len() {
                                    lemma_parse_nodes_bounds(s, e1, close);
                                }
                            },
                            None => {},
                        }
                    },
                    TagV::TEach(name) => {
                        lemma_parse_nodes_bounds(s, after, CloseKind::CloseEach);
                        match parse_nodes(s, after, CloseKind::CloseEach) {
                            Some((body, e1)) => {
                                if after < e1 && e1 <= s.len() {
                                    lemma_parse_nodes_bounds(s, e1, close);
                                }
                            },
                            None => {},
                        }
                    },
                    _ => {},
                }
            }
        }
    }
}

// ---------------------------------------------------------------------------
// Evaluation
// ---------------------------------------------------------------------------

/// The text of a scalar value: strings verbatim, numbers by their lexeme,
/// booleans as `true`/`false`, null as nothing.
pub open spec fn scalar_text(v: JsonV) -> Option<Seq<char>> {
    match v {
        JsonV::Str(t) => Some(t),
        JsonV::Num(x) => Some(x),
        JsonV::Bool(b) => Some(
            if b {
                seq!['t', 'r', 'u', 'e']
            } else {
                seq!['f', 'a', 'l', 's', 'e']
            },
        ),
        JsonV::Null => Some(Seq::empty()),
        _ => None,
    }
}

/// The text of an array's members, comma-separated; fails on a nested
/// array or object.
pub open spec fn arr_text(items: Seq<JsonV>) -> Option<Seq<char>>
    decreases items.len(),
{
    if items.len() == 0 {
        Some(Seq::empty())
    } else {
        match scalar_text(items[0]) {
            Some(t) => if items.len() == 1 {
                Some(t)
            } else {
                match arr_text(items.drop_first()) {
                    Some(rest) => Some(t + seq![','] + rest),
                    None => None,
                }
            },
            None => None,
        }
    }
}

/// The text a plain `{{name}}` substitution produces.
pub open spec fn json_text(v: JsonV) -> Option<Seq<char>> {
    match v {
        JsonV::Arr(items) => arr_text(items),
        JsonV::Obj(_) => None,
        _ => scalar_text(v),
    }
}

/// Truthiness for `{{#if name}}`.
pub open spec fn truthy(v: JsonV) -> bool {
    match v {
        JsonV::Bool(b) => b,
        JsonV::Null => false,
        JsonV::Str(t) => t.len() > 0,
        JsonV::Num(x) => x != seq!['0'],
        JsonV::Arr(items) => items.len() > 0,
        JsonV::Obj(_) => true,
    }
}

/// A name resolves to the current `{{#each}}` element for `this`, otherwise
/// to the first context entry with that name.
pub open spec fn resolve(
    ctx: Seq<(Seq<char>, JsonV)>,
    cur: Option<JsonV>,
    name: Seq<char>,
) -> Option<JsonV> {
    if name == kw_this() {
        cur
    } else {
        first_lookup(ctx, name)
    }
}

/// The text a fragment list renders to; `None` on any undefined variable or
/// unrenderable value.
pub open spec fn eval_nodes(
    nodes: Seq<TplNodeV>,
    ctx: Seq<(Seq<char>, JsonV)>,
    cur: Option<JsonV>,
) -> Option<Seq<char>>
    decreases nodes, 0int, 0int,
{
    if nodes.len() == 0 {
        Some(Seq::empty())
    } else {
        let head: Option<Seq<char>> = match nodes[0] {
            TplNodeV::Text(t) => Some(t),
            TplNodeV::Var(name) => match resolve(ctx, cur, name) {
                Some(v) => json_text(v),
                None => None,
            },
            TplNodeV::If(name, body) => match resolve(ctx, cur, name) {
                Some(v) => if truthy(v) {
                    eval_nodes(body, ctx, cur)
                } else {
                    Some(Seq::empty())
                },
                None => None,
            },
            TplNodeV::Each(name, body) => match resolve(ctx, cur, name) {
                Some(v) => match v {
                    JsonV::Arr(items) => eval_each(body, items, ctx),
                    _ => None,
                },
                None => None,
            },
        };
        match head {
            None => None,
            Some(t) => match eval_nodes(nodes.drop_first(), ctx, cur) {
                Some(rest) => Some(t + rest),
                None => None,
            },
        }
    }
}

/// Renders the body once per array member, with `this` bound to the member.
pub open spec fn eval_each(
    body: Seq<TplNodeV>,
    items: Seq<JsonV>,
    ctx: Seq<(Seq<char>, JsonV)>,
) -> Option<Seq<char>>
    decreases body, items.len(), 1int,
{
    if items.len() == 0 {
        Some(Seq::empty())
    } else {
        match eval_nodes(body, ctx, Some(items[0])) {
            Some(t) => match eval_each(body, items.drop_first(), ctx) {
                Some(rest) => Some(t + rest),
                None => None,
            },
            None => None,
        }
    }
}

/// One template string, parsed and rendered against a context.
pub open spec fn render_str_spec(s: Seq<char>, ctx: Seq<(Seq<char>, JsonV)>) -> Option<Seq<char>> {
    match parse_template(s) {
        Some(ns) => eval_nodes(ns, ctx, None),
        None => None,
    }
}


// ---------------------------------------------------------------------------
// Exec parsing
// ---------------------------------------------------------------------------

/// Exec counterpart of a classified tag.
pub enum Tag {
    TVar(Vec<char>),
    TIf(Vec<char>),
    TEach(Vec<char>),
    TEndIf,
    TEndEach,
    TBad,
}

impl View for Tag {
    type V = TagV;

    open spec fn view(&self) -> TagV {
        match self {
            Tag::TVar(n) => TagV::TVar(n@),
            Tag::TIf(n) => TagV::TIf(n@),
            Tag::TEach(n) => TagV::TEach(n@),
            Tag::TEndIf => TagV::TEndIf,
            Tag::TEndEach => TagV::TEndEach,
            Tag::TBad => TagV::TBad,
        }
    }
}

fn kw_end_if_chars() -> (r: Vec<char>)
    ensures
        r@ == kw_end_if(),
{
    let mut r: Vec<char> = Vec::new();
    r.push('/');
    r.push('i');
    r.push('f');
    proof {
        assert(r@ =~= kw_end_if());
    }
    r
}

fn kw_end_each_chars() -> (r: Vec<char>)
    ensures
        r@ == kw_end_each(),
{
    let mut r: Vec<char> = Vec::new();
    r.push('/');
    r.push('e');
    r.push('a');
    r.push('c');
    r.push('h');
    proof {
        assert(r@ =~= kw_end_each());
    }
    r
}

fn kw_if_prefix_chars() -> (r: Vec<char>)
    ensures
        r@ == kw_if_prefix(),
{
    let mut r: Vec<char> = Vec::new();
    r.push('#');
    r.push('i');
    r.push('f');
    r.push(' ');
    proof {
        assert(r@ =~= kw_if_prefix());
    }
    r
}

fn kw_each_prefix_chars() -> (r: Vec<char>)
    ensures
        r@ == kw_each_prefix(),
{
    let mut r: Vec<char> = Vec::new();
    r.push('#');
    r.push('e');
    r.push('a');
    r.push('c');
    r.push('h');
    r.push(' ');
    proof {
        assert(r@ =~= kw_each_prefix());
    }
    r
}

fn kw_this_chars() -> (r: Vec<char>)
    ensures
        r@ == kw_this(),
{
    let mut r: Vec<char> = Vec::new();
    r.push('t');
    r.push('h');
    r.push('i');
    r.push('s');
    proof {
        assert(r@ =~= kw_this());
    }
    r
}

/// Copies `v[from..to]` out as a fresh vector.
fn copy_range(v: &Vec<char>, from: usize, to: usize) -> (r: Vec<char>)
    requires
        from <= to <= v@.len(),
    ensures
        r@ == v@.subrange(from as int, to as int),
{
    let mut r: Vec<char> = Vec::new();
    let mut i: usize = from;
    while i < to
        invariant
            from <= i <= to <= v@.len(),
            r@ == v@.subrange(from as int, i as int),
        decreases to - i,
    {
        r.push(v[i]);
        proof {
            assert(v@.subrange(from as int, i as int).push(v@[i as int]) =~= v@.subrange(
                from as int,
                i + 1,
            ));
        }
        i = i + 1;
    }
    r
}

fn classify_tag(raw: &Vec<char>) -> (r: Tag)
    ensures
        r@ == tag_of(raw@),
{
    let t = trim_chars(raw);
    let end_if = kw_end_if_chars();
    let end_each = kw_end_each_chars();
    if chars_eq(&t, &end_if) {
        return Tag::TEndIf;
    }
    if chars_eq(&t, &end_each) {
        return Tag::TEndEach;
    }
    let if_prefix = kw_if_prefix_chars();
    if t.len() > 4 && crate::strutil::chars_starts_with(&t, &if_prefix) {
        proof {
            assert(t@.subrange(0, 4) =~= t@.take(4));
        }
        let rest = copy_range(&t, 4, t.len());
        proof {
            assert(t@.subrange(4, t@.len() as int) =~= t@.skip(4));
        }
        let n = trim_chars(&rest);
        if n.len() == 0 {
            return Tag::TBad;
        }
        return Tag::TIf(n);
    }
    let each_prefix = kw_each_prefix_chars();
    if t.len() > 6 && crate::strutil::chars_starts_with(&t, &each_prefix) {
        proof {
            assert(t@.subrange(0, 6) =~= t@.take(6));
        }
        let rest = copy_range(&t, 6, t.len());
        proof {
            assert(t@.subrange(6, t@.len() as int) =~= t@.skip(6));
        }
        let n = trim_chars(&rest);
        if n.len() == 0 {
            return Tag::TBad;
        }
        return Tag::TEach(n);
    }
    proof {
        if t@.len() > 4 && t@.take(4) == kw_if_prefix() {
            assert(t@.subrange(0, 4) =~= t@.take(4));
        }
        if t@.len() > 6 && t@.take(6) == kw_each_prefix() {
            assert(t@.subrange(0, 6) =~= t@.take(6));
        }
    }
    if t.len() == 0 || t[0] == '#' || t[0] == '/' {
        return Tag::TBad;
    }
    Tag::TVar(t)
}

fn find_open_exec(v: &Vec<char>, i: usize) -> (r: usize)
    requires
        i <= v@.len(),
    ensures
        r == find_open(v@, i as int),
        i <= r <= v@.len(),
        r < v@.len() ==> r + 1 < v@.len(),
{
    proof {
        lemma_find_open_bounds(v@, i as int);
    }
    let mut cur = i;
    while !(cur >= v.len() || (cur + 1 < v.len() && v[cur] == '{' && v[cur + 1] == '{'))
        invariant
            i <= cur <= v@.len(),
            find_open(v@, i as int) == find_open(v@, cur as int),
        decreases v@.len() - cur,
    {
        cur = cur + 1;
    }
    cur
}

fn find_close_exec(v: &Vec<char>, i: usize) -> (r: usize)
    requires
        i <= v@.len(),
    ensures
        r == find_close(v@, i as int),
        i <= r <= v@.len(),
        r < v@.len() ==> r + 1 < v@.len(),
{
    proof {
        lemma_find_close_bounds(v@, i as int);
    }
    let mut cur = i;
    while !(cur >= v.len() || (cur + 1 < v.len() && v[cur] == '}' && v[cur + 1] == '}'))
        invariant
            i <= cur <= v@.len(),
            find_close(v@, i as int) == find_close(v@, cur as int),
        decreases v@.len() - cur,
    {
        cur = cur + 1;
    }
    cur
}

/// Continuation view of a partially parsed fragment list.
spec fn nodes_cont(
    s: Seq<char>,
    i: int,
    cur: int,
    close: CloseKind,
    accv: Seq<TplNodeV>,
) -> bool {
    match parse_nodes(s, cur, close) {
        Some((ns, e)) => parse_nodes(s, i, close) == Some((accv + ns, e)),
        None => parse_nodes(s, i, close) is None,
    }
}

#[verifier::rlimit(100)]
#[verifier::spinoff_prover]
fn parse_nodes_exec(v: &Vec<char>, i: usize, close: CloseKind) -> (r: Option<(Vec<TplNode>, usize)>)
    requires
        i <= v@.len(),
    ensures
        (r is Some) == (parse_nodes(v@, i as int, close) is Some),
        r matches Some((ns, e)) ==> parse_nodes(v@, i as int, close) == Some(
            (nodes_view(ns@), e as int),
        ) && i <= e <= v@.len(),
    decreases v@.len() - i, 1int,
{
    let mut acc: Vec<TplNode> = Vec::new();
    let mut cur: usize = i;
    proof {
        lemma_parse_nodes_bounds(v@, i as int, close);
        assert(nodes_view(acc@) =~= Seq::<TplNodeV>::empty());
        match parse_nodes(v@, i as int, close) {
            Some((ns, e)) => {
                assert(Seq::<TplNodeV>::empty() + ns =~= ns);
            },
            None => {},
        }
    }
    loop
        invariant
            i <= cur <= v@.len(),
            nodes_cont(v@, i as int, cur as int, close, nodes_view(acc@)),
        decreases v@.len() - cur,
    {
        proof {
            lemma_parse_nodes_bounds(v@, cur as int, close);
        }
        let ghost acc0 = nodes_view(acc@);
        let fo = find_open_exec(v, cur);
        let ghost textv = v@.subrange(cur as int, fo as int);
        if fo == v.len() {
            match close {
                CloseKind::Top => {
                    if fo > cur {
                        let text = copy_range(v, cur, fo);
                        acc.push(TplNode::Text(text));
                        proof {
                            assert(nodes_view(acc@) =~= acc0 + text_nodes(textv));
                        }
                    } else {
                        proof {
                            assert(textv.len() == 0);
                            assert(nodes_view(acc@) =~= acc0 + text_nodes(textv));
                        }
                    }
                    proof {
                        assert(parse_nodes(v@, cur as int, close) == Some(
                            (text_nodes(textv), v@.len() as int),
                        ));
                    }
                    return Some((acc, v.len()));
                },
                _ => {
                    return None;
                },
            }
        }
        let fc = find_close_exec(v, fo + 2);
        if v.len() - fc < 2 {
            return None;
        }
        let raw = copy_range(v, fo + 2, fc);
        let after = fc + 2;
        let tag = classify_tag(&raw);
        let ghost tagv = tag_of(v@.subrange(fo + 2, fc as int));
        match tag {
            Tag::TVar(name) => {
                proof {
                    match parse_nodes(v@, after as int, close) {
                        Some((rest, e)) => {
                            assert(parse_nodes(v@, cur as int, close) == Some(
                                (text_nodes(textv) + seq![TplNodeV::Var(name@)] + rest, e),
                            ));
                        },
                        None => {},
                    }
                }
                if fo > cur {
                    let text = copy_range(v, cur, fo);
                    acc.push(TplNode::Text(text));
                }
                let ghost namev = name@;
                acc.push(TplNode::Var(name));
                proof {
                    assert(nodes_view(acc@) =~= acc0 + (text_nodes(textv) + seq![
                        TplNodeV::Var(namev),
                    ]));
                    match parse_nodes(v@, after as int, close) {
                        Some((rest, e)) => {
                            assert(acc0 + (text_nodes(textv) + seq![TplNodeV::Var(namev)] + rest)
                                =~= nodes_view(acc@) + rest);
                        },
                        None => {},
                    }
                }
                cur = after;
            },
            Tag::TIf(name) => {
                match parse_nodes_exec(v, after, CloseKind::CloseIf) {
                    None => {
                        return None;
                    },
                    Some((body, e1)) => {
                        if e1 <= after {
                            return None;
                        }
                        proof {
                            match parse_nodes(v@, e1 as int, close) {
                                Some((rest, e)) => {
                                    assert(parse_nodes(v@, cur as int, close) == Some(
                                        (
                                            text_nodes(textv) + seq![
                                                TplNodeV::If(name@, nodes_view(body@)),
                                            ] + rest,
                                            e,
                                        ),
                                    ));
                                },
                                None => {},
                            }
                        }
                        if fo > cur {
                            let text = copy_range(v, cur, fo);
                            acc.push(TplNode::Text(text));
                        }
                        let ghost namev = name@;
                        let ghost bodyv = nodes_view(body@);
                        let node = TplNode::If(name, body);
                        proof {
                            assert(node@->If_1 =~= bodyv);
                            assert(node@ =~~= TplNodeV::If(namev, bodyv));
                        }
                        acc.push(node);
                        proof {
                            assert(nodes_view(acc@) =~= acc0 + (text_nodes(textv) + seq![
                                TplNodeV::If(namev, bodyv),
                            ]));
                            match parse_nodes(v@, e1 as int, close) {
                                Some((rest, e)) => {
                                    assert(acc0 + (text_nodes(textv) + seq![
                                        TplNodeV::If(namev, bodyv),
                                    ] + rest) =~= nodes_view(acc@) + rest);
                                },
                                None => {},
                            }
                        }
                        cur = e1;
                    },
                }
            },
            Tag::TEach(name) => {
                match parse_nodes_exec(v, after, CloseKind::CloseEach) {
                    None => {
                        return None;
                    },
                    Some((body, e1)) => {
                        if e1 <= after {
                            return None;
                        }
                        proof {
                            match parse_nodes(v@, e1 as int, close) {
                                Some((rest, e)) => {
                                    assert(parse_nodes(v@, cur as int, close) == Some(
                                        (
                                            text_nodes(textv) + seq![
                                                TplNodeV::Each(name@, nodes_view(body@)),
                                            ] + rest,
                                            e,
                                        ),
                                    ));
                                },
                                None => {},
                            }
                        }
                        if fo > cur {
                            let text = copy_range(v, cur, fo);
                            acc.push(TplNode::Text(text));
                        }
                        let ghost namev = name@;
                        let ghost bodyv = nodes_view(body@);
                        let node = TplNode::Each(name, body);
                        proof {
                            assert(node@->Each_1 =~= bodyv);
                            assert(node@ =~~= TplNodeV::Each(namev, bodyv));
                        }
                        acc.push(node);
                        proof {
                            assert(nodes_view(acc@) =~= acc0 + (text_nodes(textv) + seq![
                                TplNodeV::Each(namev, bodyv),
                            ]));
                            match parse_nodes(v@, e1 as int, close) {
                                Some((rest, e)) => {
                                    assert(acc0 + (text_nodes(textv) + seq![
                                        TplNodeV::Each(namev, bodyv),
                                    ] + rest) =~= nodes_view(acc@) + rest);
                                },
                                None => {},
                            }
                        }
                        cur = e1;
                    },
                }
            },
            Tag::TEndIf => {
                match close {
                    CloseKind::CloseIf => {
                        if fo > cur {
                            let text = copy_range(v, cur, fo);
                            acc.push(TplNode::Text(text));
                        }
                        proof {
                            assert(nodes_view(acc@) =~= acc0 + text_nodes(textv));
                            assert(parse_nodes(v@, cur as int, close) == Some(
                                (text_nodes(textv), after as int),
                            ));
                        }
                        return Some((acc, after));
                    },
                    _ => {
                        return None;
                    },
                }
            },
            Tag::TEndEach => {
                match close {
                    CloseKind::CloseEach => {
                        if fo > cur {
                            let text = copy_range(v, cur, fo);
                            acc.push(TplNode::Text(text));
                        }
                        proof {
                            assert(nodes_view(acc@) =~= acc0 + text_nodes(textv));
                            assert(parse_nodes(v@, cur as int, close) == Some(
                                (text_nodes(textv), after as int),
                            ));
                        }
                        return Some((acc, after));
                    },
                    _ => {
                        return None;
                    },
                }
            },
            Tag::TBad => {
                return None;
            },
        }
    }
}


// ---------------------------------------------------------------------------
// Exec evaluation
// ---------------------------------------------------------------------------

pub open spec fn cur_view(c: Option<&Json>) -> Option<JsonV> {
    match c {
        Some(j) => Some(j@),
        None => None,
    }
}

fn push_all(out: &mut Vec<char>, t: &Vec<char>)
    ensures
        final(out)@ == old(out)@ + t@,
{
    let ghost orig = out@;
    let mut i: usize = 0;
    while i < t.len()
        invariant
            i <= t@.len(),
            out@ == orig + t@.take(i as int),
        decreases t@.len() - i,
    {
        out.push(t[i]);
        proof {
            assert((orig + t@.take(i as int)).push(t@[i as int]) =~= orig + t@.take(i + 1));
        }
        i = i + 1;
    }
    proof {
        assert(orig + t@.take(i as int) =~= orig + t@);
    }
}

/// Appends the text of a scalar value; fails (appending nothing) otherwise.
fn scalar_text_exec(j: &Json, out: &mut Vec<char>) -> (r: bool)
    ensures
        r == (scalar_text(j@) is Some),
        r ==> final(out)@ == old(out)@ + scalar_text(j@)->Some_0,
        !r ==> final(out)@ == old(out)@,
{
    match j {
        Json::Str(t) => {
            push_all(out, t);
            true
        },
        Json::Num(x) => {
            push_all(out, x);
            true
        },
        Json::Bool(b) => {
            let ghost orig = out@;
            if *b {
                out.push('t');
                out.push('r');
                out.push('u');
                out.push('e');
                proof {
                    assert(out@ =~= orig + scalar_text(j@)->Some_0);
                }
            } else {
                out.push('f');
                out.push('a');
                out.push('l');
                out.push('s');
                out.push('e');
                proof {
                    assert(out@ =~= orig + scalar_text(j@)->Some_0);
                }
            }
            true
        },
        Json::Null => {
            proof {
                assert(out@ =~= out@ + Seq::<char>::empty());
            }
            true
        },
        _ => false,
    }
}

/// Appends the comma-joined members of `items[idx..]`.
fn arr_text_exec(items: &Vec<Json>, idx: usize, out: &mut Vec<char>) -> (r: bool)
    requires
        idx <= items@.len(),
    ensures
        r == (arr_text(seq_view_local(items@).skip(idx as int)) is Some),
        r ==> final(out)@ == old(out)@ + arr_text(seq_view_local(items@).skip(idx as int))->Some_0,
    decreases items@.len() - idx,
{
    let ghost tail = seq_view_local(items@).skip(idx as int);
    if idx >= items.len() {
        proof {
            assert(tail.len() == 0);
            assert(out@ =~= out@ + Seq::<char>::empty());
        }
        return true;
    }
    proof {
        assert(tail[0] == items@[idx as int]@);
        assert(tail.drop_first() =~= seq_view_local(items@).skip(idx + 1));
    }
    let ok = scalar_text_exec(&items[idx], out);
    if !ok {
        return false;
    }
    if idx + 1 >= items.len() {
        proof {
            assert(tail.len() == 1);
        }
        return true;
    }
    out.push(',');
    let ghost mid = out@;
    let ok2 = arr_text_exec(items, idx + 1, out);
    if !ok2 {
        return false;
    }
    proof {
        assert(out@ =~= old(out)@ + arr_text(tail)->Some_0);
    }
    true
}

pub open spec fn seq_view_local(s: Seq<Json>) -> Seq<JsonV> {
    s.map_values(|e: Json| e@)
}

/// Appends the text a `{{name}}` substitution produces for this value.
fn json_text_exec(j: &Json, out: &mut Vec<char>) -> (r: bool)
    ensures
        r == (json_text(j@) is Some),
        r ==> final(out)@ == old(out)@ + json_text(j@)->Some_0,
{
    match j {
        Json::Arr(items) => {
            proof {
                assert(seq_view_local(items@).skip(0) =~= seq_view_local(items@));
                assert(j@->Arr_0 =~= seq_view_local(items@));
            }
            let r = arr_text_exec(items, 0, out);
            r
        },
        Json::Obj(_) => false,
        _ => scalar_text_exec(j, out),
    }
}

fn truthy_exec(j: &Json) -> (r: bool)
    ensures
        r == truthy(j@),
{
    match j {
        Json::Bool(b) => *b,
        Json::Null => false,
        Json::Str(t) => t.len() > 0,
        Json::Num(x) => {
            if x.len() == 1 && x[0] == '0' {
                proof {
                    assert(x@ =~= seq!['0']);
                }
                false
            } else {
                proof {
                    if x@ == seq!['0'] {
                        assert(x@.len() == 1 && x@[0] == '0');
                    }
                }
                true
            }
        },
        Json::Arr(items) => items.len() > 0,
        Json::Obj(_) => true,
    }
}

/// First context entry with the given name.
fn ctx_lookup<'a>(ctx: &'a Vec<(String, Json)>, name: &Vec<char>) -> (r: Option<&'a Json>)
    ensures
        (r is Some) == (first_lookup(jfields_view(ctx@), name@) is Some),
        r matches Some(j) ==> first_lookup(jfields_view(ctx@), name@) == Some(j@),
{
    let ghost vals = jfields_view(ctx@);
    proof {
        assert(vals.skip(0) =~= vals);
    }
    let mut i: usize = 0;
    while i < ctx.len()
        invariant
            i <= ctx@.len(),
            vals == jfields_view(ctx@),
            first_lookup(vals, name@) == first_lookup(vals.skip(i as int), name@),
        decreases ctx@.len() - i,
    {
        proof {
            assert(vals.skip(i as int)[0] == vals[i as int]);
            assert(vals.skip(i as int).drop_first() =~= vals.skip(i + 1));
        }
        let kv = string_to_chars(&ctx[i].0);
        if chars_eq(&kv, name) {
            return Some(&ctx[i].1);
        }
        i = i + 1;
    }
    proof {
        assert(vals.skip(i as int).len() == 0);
    }
    None
}

fn resolve_exec<'a>(ctx: &'a Vec<(String, Json)>, cur: Option<&'a Json>, name: &Vec<char>) -> (r:
    Option<&'a Json>)
    ensures
        (r is Some) == (resolve(jfields_view(ctx@), cur_view(cur), name@) is Some),
        r matches Some(j) ==> resolve(jfields_view(ctx@), cur_view(cur), name@) == Some(j@),
{
    let this_kw = kw_this_chars();
    if chars_eq(name, &this_kw) {
        cur
    } else {
        ctx_lookup(ctx, name)
    }
}

/// Renders `nodes[idx..]`, appending the output.
fn eval_nodes_exec(
    nodes: &Vec<TplNode>,
    idx: usize,
    ctx: &Vec<(String, Json)>,
    cur: Option<&Json>,
    out: &mut Vec<char>,
) -> (r: bool)
    requires
        idx <= nodes@.len(),
    ensures
        r == (eval_nodes(nodes_view(nodes@).skip(idx as int), jfields_view(ctx@), cur_view(cur))
            is Some),
        r ==> final(out)@ == old(out)@ + eval_nodes(
            nodes_view(nodes@).skip(idx as int),
            jfields_view(ctx@),
            cur_view(cur),
        )->Some_0,
    decreases nodes, 0int, nodes@.len() - idx,
{
    let ghost tail = nodes_view(nodes@).skip(idx as int);
    let ghost ctxv = jfields_view(ctx@);
    let ghost curv = cur_view(cur);
    if idx >= nodes.len() {
        proof {
            assert(tail.len() == 0);
            assert(out@ =~= out@ + Seq::<char>::empty());
        }
        return true;
    }
    proof {
        assert(tail[0] == nodes@[idx as int]@);
        assert(tail.drop_first() =~= nodes_view(nodes@).skip(idx + 1));
    }
    let head_ok: bool = match &nodes[idx] {
        TplNode::Text(t) => {
            push_all(out, t);
            true
        },
        TplNode::Var(name) => {
            match resolve_exec(ctx, cur, name) {
                Some(j) => json_text_exec(j, out),
                None => false,
            }
        },
        TplNode::If(name, body) => {
            match resolve_exec(ctx, cur, name) {
                Some(j) => {
                    if truthy_exec(j) {
                        proof {
                            assert(nodes@[idx as int]@->If_1 =~= nodes_view(body@));
                            assert(nodes_view(body@).skip(0) =~= nodes_view(body@));
                        }
                        eval_nodes_exec(body, 0, ctx, cur, out)
                    } else {
                        proof {
                            assert(out@ =~= out@ + Seq::<char>::empty());
                        }
                        true
                    }
                },
                None => false,
            }
        },
        TplNode::Each(name, body) => {
            match resolve_exec(ctx, cur, name) {
                Some(j) => {
                    match j {
                        Json::Arr(items) => {
                            proof {
                                assert(nodes@[idx as int]@->Each_1 =~= nodes_view(body@));
                                assert(j@->Arr_0 =~= seq_view_local(items@));
                                assert(seq_view_local(items@).skip(0) =~= seq_view_local(items@));
                            }
                            eval_each_exec(body, items, 0, ctx, out)
                        },
                        _ => false,
                    }
                },
                None => false,
            }
        },
    };
    if !head_ok {
        return false;
    }
    let ghost mid = out@;
    let r2 = eval_nodes_exec(nodes, idx + 1, ctx, cur, out);
    if !r2 {
        return false;
    }
    proof {
        assert(out@ =~= old(out)@ + eval_nodes(tail, ctxv, curv)->Some_0);
    }
    true
}

/// Renders the body once per member of `items[j..]`, appending the output.
fn eval_each_exec(
    body: &Vec<TplNode>,
    items: &Vec<Json>,
    j: usize,
    ctx: &Vec<(String, Json)>,
    out: &mut Vec<char>,
) -> (r: bool)
    requires
        j <= items@.len(),
    ensures
        r == (eval_each(nodes_view(body@), seq_view_local(items@).skip(j as int), jfields_view(ctx@))
            is Some),
        r ==> final(out)@ == old(out)@ + eval_each(
            nodes_view(body@),
            seq_view_local(items@).skip(j as int),
            jfields_view(ctx@),
        )->Some_0,
    decreases body, 1int, items@.len() - j,
{
    let ghost tail = seq_view_local(items@).skip(j as int);
    if j >= items.len() {
        proof {
            assert(tail.len() == 0);
            assert(out@ =~= out@ + Seq::<char>::empty());
        }
        return true;
    }
    proof {
        assert(tail[0] == items@[j as int]@);
        assert(tail.drop_first() =~= seq_view_local(items@).skip(j + 1));
        assert(nodes_view(body@).skip(0) =~= nodes_view(body@));
    }
    let ok = eval_nodes_exec(body, 0, ctx, Some(&items[j]), out);
    if !ok {
        return false;
    }
    let r2 = eval_each_exec(body, items, j + 1, ctx, out);
    if !r2 {
        return false;
    }
    proof {
        assert(out@ =~= old(out)@ + eval_each(nodes_view(body@), tail, jfields_view(ctx@))->Some_0);
    }
    true
}

/// Renders one template string against a context; any undefined placeholder
/// or malformed tag is a rendering error.
pub fn render_template_str(s: &String, ctx: &Vec<(String, Json)>) -> (r: Result<String, ForgeError>)
    ensures
        (r is Ok) == (render_str_spec(s@, jfields_view(ctx@)) is Some),
        r matches Ok(t) ==> render_str_spec(s@, jfields_view(ctx@)) == Some(t@),
        r matches Err(e) ==> e is Render,
{
    let chars = string_to_chars(s);
    match parse_nodes_exec(&chars, 0, CloseKind::Top) {
        None => Err(render_err("template has a malformed or unsupported tag: ", s)),
        Some((nodes, e)) => {
            if e != chars.len() {
                return Err(render_err("template has a malformed or unsupported tag: ", s));
            }
            proof {
                assert(nodes_view(nodes@).skip(0) =~= nodes_view(nodes@));
            }
            let mut out: Vec<char> = Vec::new();
            if eval_nodes_exec(&nodes, 0, ctx, None, &mut out) {
                Ok(chars_to_string(&out))
            } else {
                Err(render_err("template names an undefined variable: ", s))
            }
        },
    }
}

fn render_err(prefix: &str, tpl: &String) -> (r: ForgeError)
    ensures
        r is Render,
{
    let mut m = String::from_str(prefix);
    m.append(tpl.as_str());
    ForgeError::Render(m)
}


// ---------------------------------------------------------------------------
// Applying a template
// ---------------------------------------------------------------------------

/// The host facts the builtin helpers substitute: operating system name, CPU
/// architecture, home directory and application configuration directory.
pub struct HostInfo {
    pub os: String,
    pub arch: String,
    pub home_dir: String,
    pub config_dir: String,
}

pub open spec fn key_os() -> Seq<char> {
    seq!['o', 's']
}

pub open spec fn key_arch() -> Seq<char> {
    seq!['a', 'r', 'c', 'h']
}

pub open spec fn key_home_dir() -> Seq<char> {
    seq!['h', 'o', 'm', 'e', '_', 'd', 'i', 'r']
}

pub open spec fn key_config_dir() -> Seq<char> {
    seq!['c', 'o', 'n', 'f', 'i', 'g', '_', 'd', 'i', 'r']
}

/// The rendering context: the four helper entries first (so they are always
/// defined), then the supplied values.
pub open spec fn full_ctx(host: HostInfo, values: Seq<(Seq<char>, JsonV)>) -> Seq<
    (Seq<char>, JsonV),
> {
    seq![
        (key_os(), JsonV::Str(host.os@)),
        (key_arch(), JsonV::Str(host.arch@)),
        (key_home_dir(), JsonV::Str(host.home_dir@)),
        (key_config_dir(), JsonV::Str(host.config_dir@)),
    ] + values
}

/// Renders the environment entries, dropping any whose rendered key or value
/// is blank; an empty result stands for "no environment".
pub open spec fn render_env_entries(
    env: Seq<(Seq<char>, Seq<char>)>,
    ctx: Seq<(Seq<char>, JsonV)>,
) -> Option<Seq<(Seq<char>, Seq<char>)>>
    decreases env.len(),
{
    if env.len() == 0 {
        Some(Seq::empty())
    } else {
        match render_str_spec(env[0].0, ctx) {
            None => None,
            Some(k) => match render_str_spec(env[0].1, ctx) {
                None => None,
                Some(v) => match render_env_entries(env.drop_first(), ctx) {
                    None => None,
                    Some(rest) => if trim_spec(k).len() > 0 && trim_spec(v).len() > 0 {
                        Some(seq![(k, v)] + rest)
                    } else {
                        Some(rest)
                    },
                },
            },
        }
    }
}

pub open spec fn spec_render_env(
    env: Option<Seq<(Seq<char>, Seq<char>)>>,
    ctx: Seq<(Seq<char>, JsonV)>,
) -> Option<Option<Seq<(Seq<char>, Seq<char>)>>> {
    match env {
        None => Some(None),
        Some(es) => match render_env_entries(es, ctx) {
            None => None,
            Some(res) => if res.len() == 0 {
                Some(None)
            } else {
                Some(Some(res))
            },
        },
    }
}

pub open spec fn render_strs(ss: Seq<Seq<char>>, ctx: Seq<(Seq<char>, JsonV)>) -> Option<
    Seq<Seq<char>>,
>
    decreases ss.len(),
{
    if ss.len() == 0 {
        Some(Seq::empty())
    } else {
        match render_str_spec(ss[0], ctx) {
            None => None,
            Some(t) => match render_strs(ss.drop_first(), ctx) {
                None => None,
                Some(rest) => Some(seq![t] + rest),
            },
        }
    }
}

/// What applying a template yields: the rendered server entry, or nothing on
/// an invalid body, failed variable validation, or a rendering failure.
pub open spec fn spec_apply_template(
    t: Template,
    values: Seq<(Seq<char>, JsonV)>,
    host: HostInfo,
) -> Option<McpServerV> {
    if !t.config.valid_shape() {
        None
    } else if !vars_ok(t.variables@, values) {
        None
    } else {
        let ctx = full_ctx(host, values);
        match t.config.url {
            Some(u) => match render_str_spec(u@, ctx) {
                None => None,
                Some(ru) => match spec_render_env(env_view_opt(t.config.env), ctx) {
                    None => None,
                    Some(re) => Some(
                        McpServerV {
                            command: None,
                            args: None,
                            url: Some(ru),
                            env: re,
                            other: Seq::empty(),
                        },
                    ),
                },
            },
            None => match render_str_spec(t.config.command->0@, ctx) {
                None => None,
                Some(rc) => {
                    let args: Seq<Seq<char>> = match t.config.args {
                        Some(a) => strs_view(a@),
                        None => Seq::empty(),
                    };
                    match render_strs(args, ctx) {
                        None => None,
                        Some(ra) => match spec_render_env(env_view_opt(t.config.env), ctx) {
                            None => None,
                            Some(re) => Some(
                                McpServerV {
                                    command: Some(rc),
                                    args: Some(ra),
                                    url: None,
                                    env: re,
                                    other: Seq::empty(),
                                },
                            ),
                        },
                    }
                },
            },
        }
    }
}

pub open spec fn env_view_opt(e: Option<Vec<(String, String)>>) -> Option<
    Seq<(Seq<char>, Seq<char>)>,
> {
    match e {
        Some(v) => Some(pairs_view(v@)),
        None => None,
    }
}

/// Rendering is a function of the template, the supplied values and the host
/// facts alone: two successful renderings of the same inputs are identical,
/// byte for byte.
pub proof fn lemma_rendering_deterministic(
    t: Template,
    values: Seq<(Seq<char>, JsonV)>,
    host: HostInfo,
    r1: McpServerV,
    r2: McpServerV,
)
    requires
        spec_apply_template(t, values, host) == Some(r1),
        spec_apply_template(t, values, host) == Some(r2),
    ensures
        r1 == r2,
{
}

fn build_ctx(host: &HostInfo, values: &Vec<(String, Json)>) -> (r: Vec<(String, Json)>)
    ensures
        jfields_view(r@) == full_ctx(*host, jfields_view(values@)),
{
    let mut ctx: Vec<(String, Json)> = Vec::new();
    ctx.push((String::from_str("os"), Json::Str(string_to_chars(&host.os))));
    ctx.push((String::from_str("arch"), Json::Str(string_to_chars(&host.arch))));
    ctx.push((String::from_str("home_dir"), Json::Str(string_to_chars(&host.home_dir))));
    ctx.push((String::from_str("config_dir"), Json::Str(string_to_chars(&host.config_dir))));
    let mut i: usize = 0;
    proof {
        reveal_strlit("os");
        reveal_strlit("arch");
        reveal_strlit("home_dir");
        reveal_strlit("config_dir");
        assert("os"@ =~= key_os());
        assert("arch"@ =~= key_arch());
        assert("home_dir"@ =~= key_home_dir());
        assert("config_dir"@ =~= key_config_dir());
        assert(jfields_view(ctx@) =~= full_ctx(*host, jfields_view(values@)).take(4));
    }
    while i < values.len()
        invariant
            i <= values@.len(),
            ctx@.len() == 4 + i,
            jfields_view(ctx@) == full_ctx(*host, jfields_view(values@)).take(4 + i),
        decreases values@.len() - i,
    {
        let kk = crate::config::clone_string(&values[i].0);
        let vv = clone_json(&values[i].1);
        ctx.push((kk, vv));
        proof {
            assert(jfields_view(ctx@) =~= full_ctx(*host, jfields_view(values@)).take(4 + i + 1));
        }
        i = i + 1;
    }
    proof {
        assert(full_ctx(*host, jfields_view(values@)).take(4 + values@.len() as int) =~= full_ctx(
            *host,
            jfields_view(values@),
        ));
    }
    ctx
}

/// Renders an optional environment block against the context, dropping
/// entries whose rendered key or value is blank; an empty result is `None`.
fn render_env(env: &Option<Vec<(String, String)>>, ctx: &Vec<(String, Json)>) -> (r: Result<
    Option<Vec<(String, String)>>,
    ForgeError,
>)
    ensures
        (r is Ok) == (spec_render_env(env_view_opt_ref(env), jfields_view(ctx@)) is Some),
        r matches Ok(re) ==> spec_render_env(env_view_opt_ref(env), jfields_view(ctx@)) == Some(
            env_view_opt_ref(&re),
        ),
        r matches Err(e) ==> e is Render,
{
    let entries = match env {
        None => {
            return Ok(None);
        },
        Some(entries) => entries,
    };
    let ghost envv = pairs_view(entries@);
    let mut out: Vec<(String, String)> = Vec::new();
    let mut i: usize = 0;
    proof {
        assert(envv.skip(0) =~= envv);
        assert(pairs_view(out@) =~= Seq::<(Seq<char>, Seq<char>)>::empty());
        match render_env_entries(envv, jfields_view(ctx@)) {
            Some(res) => {
                assert(Seq::<(Seq<char>, Seq<char>)>::empty() + res =~= res);
            },
            None => {},
        }
    }
    while i < entries.len()
        invariant
            i <= entries@.len(),
            envv == pairs_view(entries@),
            env_view_opt_ref(env) == Some(envv),
            env_cont(envv, i as int, jfields_view(ctx@), pairs_view(out@)),
        decreases entries@.len() - i,
    {
        proof {
            assert(envv.skip(i as int)[0] == (entries@[i as int].0@, entries@[i as int].1@));
            assert(envv.skip(i as int).drop_first() =~= envv.skip(i + 1));
        }
        let rk = match render_template_str(&entries[i].0, ctx) {
            Ok(rk) => rk,
            Err(e) => {
                return Err(e);
            },
        };
        let rv = match render_template_str(&entries[i].1, ctx) {
            Ok(rv) => rv,
            Err(e) => {
                return Err(e);
            },
        };
        let rkc = string_to_chars(&rk);
        let rvc = string_to_chars(&rv);
        let ghost out0 = pairs_view(out@);
        if !crate::strutil::chars_all_ws(&rkc) && !crate::strutil::chars_all_ws(&rvc) {
            out.push((rk, rv));
            proof {
                assert(pairs_view(out@) =~= out0.push((rkc@, rvc@)));
                match render_env_entries(envv.skip(i + 1), jfields_view(ctx@)) {
                    Some(rest) => {
                        assert(out0 + (seq![(rkc@, rvc@)] + rest) =~= pairs_view(out@) + rest);
                    },
                    None => {},
                }
            }
        }
        i = i + 1;
    }
    proof {
        assert(envv.skip(i as int).len() == 0);
    }
    if out.len() == 0 {
        Ok(None)
    } else {
        Ok(Some(out))
    }
}

/// Continuation view of a partially rendered environment block.
spec fn env_cont(
    envv: Seq<(Seq<char>, Seq<char>)>,
    i: int,
    ctx: Seq<(Seq<char>, JsonV)>,
    outp: Seq<(Seq<char>, Seq<char>)>,
) -> bool {
    match render_env_entries(envv.skip(i), ctx) {
        Some(rest) => render_env_entries(envv, ctx) == Some(outp + rest),
        None => render_env_entries(envv, ctx) is None,
    }
}

pub open spec fn env_view_opt_ref(e: &Option<Vec<(String, String)>>) -> Option<
    Seq<(Seq<char>, Seq<char>)>,
> {
    match e {
        Some(v) => Some(pairs_view(v@)),
        None => None,
    }
}

/// Validates the body and the supplied values, then renders the template
/// into a concrete server entry against the host facts.
pub fn apply_template(
    template: &Template,
    values: &Vec<(String, Json)>,
    host: &HostInfo,
) -> (r: Result<McpServer, ForgeError>)
    ensures
        (r is Ok) == (spec_apply_template(*template, jfields_view(values@), *host) is Some),
        r matches Ok(s) ==> spec_apply_template(*template, jfields_view(values@), *host) == Some(
            s@,
        ),
        r matches Err(e) ==> e is Validation || e is Render,
{
    if let Err(e) = template.config.validate() {
        return Err(e);
    }
    if let Err(e) = validate_variables(template, values) {
        return Err(e);
    }
    let ctx = build_ctx(host, values);
    match &template.config.url {
        Some(u) => {
            let ru = match render_template_str(u, &ctx) {
                Ok(ru) => ru,
                Err(e) => {
                    return Err(e);
                },
            };
            let re = match render_env(&template.config.env, &ctx) {
                Ok(re) => re,
                Err(e) => {
                    return Err(e);
                },
            };
            let server = McpServer {
                command: None,
                args: None,
                url: Some(ru),
                env: re,
                other: Vec::new(),
            };
            proof {
                assert(server@ =~~= spec_apply_template(
                    *template,
                    jfields_view(values@),
                    *host,
                )->Some_0);
            }
            Ok(server)
        },
        None => {
            let command = match &template.config.command {
                Some(c) => c,
                None => {
                    proof {
                        assert(false);
                    }
                    return Err(render_err("template body is invalid: ", &template.name));
                },
            };
            let rc = match render_template_str(command, &ctx) {
                Ok(rc) => rc,
                Err(e) => {
                    return Err(e);
                },
            };
            let ghost argsv: Seq<Seq<char>> = match &template.config.args {
                Some(a) => strs_view(a@),
                None => Seq::empty(),
            };
            let mut ra: Vec<String> = Vec::new();
            match &template.config.args {
                Some(a) => {
                    let mut i: usize = 0;
                    proof {
                        assert(argsv.skip(0) =~= argsv);
                        assert(strs_view(ra@) =~= Seq::<Seq<char>>::empty());
                        match render_strs(argsv, jfields_view(ctx@)) {
                            Some(res) => {
                                assert(Seq::<Seq<char>>::empty() + res =~= res);
                            },
                            None => {},
                        }
                    }
                    while i < a.len()
                        invariant
                            i <= a@.len(),
                            argsv == strs_view(a@),
                            template.config.args matches Some(aa) && aa@ == a@,
                            template.config.valid_shape(),
                            template.config.url is None,
                            vars_ok(template.variables@, jfields_view(values@)),
                            jfields_view(ctx@) == full_ctx(*host, jfields_view(values@)),
                            render_str_spec(template.config.command->0@, jfields_view(ctx@))
                                == Some(rc@),
                            args_cont(argsv, i as int, jfields_view(ctx@), strs_view(ra@)),
                        decreases a@.len() - i,
                    {
                        proof {
                            assert(argsv.skip(i as int)[0] == a@[i as int]@);
                            assert(argsv.skip(i as int).drop_first() =~= argsv.skip(i + 1));
                        }
                        match render_template_str(&a[i], &ctx) {
                            Ok(t) => {
                                let ghost ra0 = strs_view(ra@);
                                let ghost tv = t@;
                                ra.push(t);
                                proof {
                                    assert(strs_view(ra@) =~= ra0.push(tv));
                                    match render_strs(argsv.skip(i + 1), jfields_view(ctx@)) {
                                        Some(rest) => {
                                            assert(ra0 + (seq![tv] + rest) =~= strs_view(ra@)
                                                + rest);
                                        },
                                        None => {},
                                    }
                                }
                            },
                            Err(e) => {
                                return Err(e);
                            },
                        }
                        i = i + 1;
                    }
                    proof {
                        assert(argsv.skip(i as int).len() == 0);
                    }
                },
                None => {
                    proof {
                        assert(argsv.len() == 0);
                        assert(strs_view(ra@) =~= Seq::<Seq<char>>::empty());
                    }
                },
            }
            let re = match render_env(&template.config.env, &ctx) {
                Ok(re) => re,
                Err(e) => {
                    return Err(e);
                },
            };
            let server = McpServer {
                command: Some(rc),
                args: Some(ra),
                url: None,
                env: re,
                other: Vec::new(),
            };
            proof {
                assert(server@ =~~= spec_apply_template(
                    *template,
                    jfields_view(values@),
                    *host,
                )->Some_0);
            }
            Ok(server)
        },
    }
}

/// Continuation view of partially rendered argument strings.
spec fn args_cont(
    argsv: Seq<Seq<char>>,
    i: int,
    ctx: Seq<(Seq<char>, JsonV)>,
    outp: Seq<Seq<char>>,
) -> bool {
    match render_strs(argsv.skip(i), ctx) {
        Some(rest) => render_strs(argsv, ctx) == Some(outp + rest),
        None => render_strs(argsv, ctx) is None,
    }
}


} // verus!
