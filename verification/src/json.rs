//! A JSON document model with a verified renderer and parser.
//!
//! Every document this library persists — the canonical configuration, profile
//! registry and snapshots, backups, cached templates — is JSON, so the file
//! format itself is part of the library's logic.  Numbers keep their source
//! lexeme, and object members keep their order, so that a parsed document can
//! be re-rendered without loss.

use vstd::prelude::*;
use crate::strutil::{
    is_ws_char, is_digit_char, digit_val, char_from_u32, is_ws_exec,
};

verus! {

// ---------------------------------------------------------------------------
// The model
// ---------------------------------------------------------------------------

/// The ghost model of a JSON value.
#[verifier::ext_equal]
pub enum JsonV {
    Null,
    Bool(bool),
    /// A number, kept as its decimal lexeme.
    Num(Seq<char>),
    /// A string, kept unescaped.
    Str(Seq<char>),
    Arr(Seq<JsonV>),
    /// Members in document order; keys may repeat only in ill-formed input.
    Obj(Seq<(Seq<char>, JsonV)>),
}

/// A JSON value.
pub enum Json {
    Null,
    Bool(bool),
    Num(Vec<char>),
    Str(Vec<char>),
    Arr(Vec<Json>),
    Obj(Vec<(Vec<char>, Json)>),
}

impl Json {
    pub open spec fn viewx(self) -> JsonV
        decreases self,
    {
        match self {
            Json::Null => JsonV::Null,
            Json::Bool(b) => JsonV::Bool(b),
            Json::Num(s) => JsonV::Num(s@),
            Json::Str(s) => JsonV::Str(s@),
            Json::Arr(items) => JsonV::Arr(
                Seq::new(
                    items@.len(),
                    |i: int|
                        if 0 <= i < items@.len() {
                            items@[i].viewx()
                        } else {
                            JsonV::Null
                        },
                ),
            ),
            Json::Obj(fields) => JsonV::Obj(
                Seq::new(
                    fields@.len(),
                    |i: int|
                        if 0 <= i < fields@.len() {
                            (fields@[i].0@, fields@[i].1.viewx())
                        } else {
                            (Seq::<char>::empty(), JsonV::Null)
                        },
                ),
            ),
        }
    }
}

impl View for Json {
    type V = JsonV;

    open spec fn view(&self) -> JsonV {
        self.viewx()
    }
}

// ---------------------------------------------------------------------------
// Number lexemes
// ---------------------------------------------------------------------------

/// First index at or after `i` that does not hold a decimal digit.
pub open spec fn skip_digits(s: Seq<char>, i: int) -> int
    decreases s.len() - i,
{
    if 0 <= i < s.len() && is_digit_char(s[i]) {
        skip_digits(s, i + 1)
    } else {
        i
    }
}

/// Scans a JSON number starting at `i`; yields the index one past its end.
/// Grammar: `-? (0 | [1-9][0-9]*) (\.[0-9]+)? ([eE][+-]?[0-9]+)?`.
pub open spec fn scan_num(s: Seq<char>, i: int) -> Option<int> {
    let i1: int = if i < s.len() && s[i] == '-' {
        i + 1
    } else {
        i
    };
    if !(i1 < s.len() && is_digit_char(s[i1])) {
        None
    } else {
        let i2: int = if s[i1] == '0' {
            i1 + 1
        } else {
            skip_digits(s, i1)
        };
        let o3: Option<int> = if i2 < s.len() && s[i2] == '.' {
            if i2 + 1 < s.len() && is_digit_char(s[i2 + 1]) {
                Some(skip_digits(s, i2 + 1))
            } else {
                None
            }
        } else {
            Some(i2)
        };
        match o3 {
            None => None,
            Some(i3) => if i3 < s.len() && (s[i3] == 'e' || s[i3] == 'E') {
                let i4: int = if i3 + 1 < s.len() && (s[i3 + 1] == '+' || s[i3 + 1] == '-') {
                    i3 + 2
                } else {
                    i3 + 1
                };
                if i4 < s.len() && is_digit_char(s[i4]) {
                    Some(skip_digits(s, i4))
                } else {
                    None
                }
            } else {
                Some(i3)
            },
        }
    }
}

/// A well-formed number lexeme: the scanner consumes it entirely.
pub open spec fn is_num_lexeme(s: Seq<char>) -> bool {
    scan_num(s, 0) == Some(s.len() as int)
}

/// Well-formedness of a document: every number holds a number lexeme.
pub open spec fn json_wf(j: JsonV) -> bool
    decreases j,
{
    match j {
        JsonV::Null => true,
        JsonV::Bool(_) => true,
        JsonV::Num(s) => is_num_lexeme(s),
        JsonV::Str(_) => true,
        JsonV::Arr(items) => forall|i: int|
            0 <= i < items.len() ==> json_wf(#[trigger] items[i]),
        JsonV::Obj(fields) => forall|i: int|
            0 <= i < fields.len() ==> json_wf(#[trigger] fields[i].1),
    }
}

// ---------------------------------------------------------------------------
// Rendering (spec)
// ---------------------------------------------------------------------------

pub open spec fn hex_digit_char(d: int) -> char {
    if d < 10 {
        (('0' as u32) + d) as char
    } else {
        (('a' as u32) + (d - 10)) as char
    }
}

/// How one character is written inside a JSON string.
pub open spec fn esc_char(c: char) -> Seq<char> {
    if c == '"' {
        seq!['\\', '"']
    } else if c == '\\' {
        seq!['\\', '\\']
    } else if (c as u32) < 32 {
        seq!['\\', 'u', '0', '0', hex_digit_char(((c as u32) / 16) as int), hex_digit_char(
            ((c as u32) % 16) as int,
        )]
    } else {
        seq![c]
    }
}

pub open spec fn escape_seq(s: Seq<char>) -> Seq<char>
    decreases s.len(),
{
    if s.len() == 0 {
        Seq::empty()
    } else {
        esc_char(s[0]) + escape_seq(s.drop_first())
    }
}

/// Indentation is capped at this depth; deeper values stay flat.
pub open spec fn next_depth(d: int) -> int {
    if d < 64 {
        d + 1
    } else {
        64
    }
}

pub open spec fn indent_seq(depth: int) -> Seq<char> {
    Seq::new(if 0 <= depth <= 64 { 2 * depth } else { 128 } as nat, |i: int| ' ')
}

pub open spec fn nl_indent(depth: int) -> Seq<char> {
    seq!['\n'] + indent_seq(depth)
}

/// The pretty-printed text of a value at nesting depth `depth`.
pub open spec fn render_json(j: JsonV, depth: int) -> Seq<char>
    decreases j, 1int,
{
    match j {
        JsonV::Null => seq!['n', 'u', 'l', 'l'],
        JsonV::Bool(b) => if b {
            seq!['t', 'r', 'u', 'e']
        } else {
            seq!['f', 'a', 'l', 's', 'e']
        },
        JsonV::Num(s) => s,
        JsonV::Str(s) => seq!['"'] + escape_seq(s) + seq!['"'],
        JsonV::Arr(items) => if items.len() == 0 {
            seq!['[', ']']
        } else {
            seq!['['] + render_items(items, depth) + nl_indent(depth) + seq![']']
        },
        JsonV::Obj(fields) => if fields.len() == 0 {
            seq!['{', '}']
        } else {
            seq!['{'] + render_fields(fields, depth) + nl_indent(depth) + seq!['}']
        },
    }
}

/// The members of a non-empty array, each on its own indented line.
pub open spec fn render_items(items: Seq<JsonV>, depth: int) -> Seq<char>
    decreases items, 0int,
{
    if items.len() == 0 {
        Seq::empty()
    } else {
        let head = nl_indent(next_depth(depth)) + render_json(items[0], next_depth(depth));
        if items.len() == 1 {
            head
        } else {
            head + seq![','] + render_items(items.drop_first(), depth)
        }
    }
}

/// The members of a non-empty object, each on its own indented line.
pub open spec fn render_fields(fields: Seq<(Seq<char>, JsonV)>, depth: int) -> Seq<char>
    decreases fields, 0int,
{
    if fields.len() == 0 {
        Seq::empty()
    } else {
        let head = nl_indent(next_depth(depth)) + seq!['"'] + escape_seq(fields[0].0) + seq![
            '"',
            ':',
            ' ',
        ] + render_json(fields[0].1, next_depth(depth));
        if fields.len() == 1 {
            head
        } else {
            head + seq![','] + render_fields(fields.drop_first(), depth)
        }
    }
}

/// The canonical text of a whole document.
pub open spec fn render_doc(j: JsonV) -> Seq<char> {
    render_json(j, 0)
}

// ---------------------------------------------------------------------------
// Rendering (exec)
// ---------------------------------------------------------------------------

fn hex_digit_exec(d: u32) -> (r: char)
    requires
        d < 16,
    ensures
        r == hex_digit_char(d as int),
{
    let u: u32 = if d < 10 {
        ('0' as u32) + d
    } else {
        ('a' as u32) + (d - 10)
    };
    proof {
        assert(u < 0xD800);
    }
    match char_from_u32(u) {
        Some(c) => c,
        None => {
            proof {
                assert(false);
            }
            '0'
        },
    }
}

fn emit_escaped(s: &Vec<char>, out: &mut Vec<char>)
    ensures
        final(out)@ == old(out)@ + escape_seq(s@),
{
    let ghost orig = out@;
    let mut i: usize = 0;
    while i < s.len()
        invariant
            i <= s@.len(),
            out@ == orig + escape_seq(s@.take(i as int)),
        decreases s@.len() - i,
    {
        let c = s[i];
        proof {
            lemma_escape_snoc(s@, i as int);
        }
        if c == '"' {
            out.push('\\');
            out.push('"');
            proof {
                assert(esc_char(c) =~= seq!['\\', '"']);
            }
        } else if c == '\\' {
            out.push('\\');
            out.push('\\');
            proof {
                assert(esc_char(c) =~= seq!['\\', '\\']);
            }
        } else if (c as u32) < 32 {
            let hi = hex_digit_exec((c as u32) / 16);
            let lo = hex_digit_exec((c as u32) % 16);
            out.push('\\');
            out.push('u');
            out.push('0');
            out.push('0');
            out.push(hi);
            out.push(lo);
            proof {
                assert(esc_char(c) =~= seq!['\\', 'u', '0', '0', hi, lo]);
            }
        } else {
            out.push(c);
            proof {
                assert(esc_char(c) =~= seq![c]);
            }
        }
        proof {
            assert(out@ =~= (orig + escape_seq(s@.take(i as int))) + esc_char(s@[i as int]));
            assert(out@ =~= orig + escape_seq(s@.take(i + 1)));
        }
        i = i + 1;
    }
    proof {
        assert(s@.take(i as int) =~= s@);
    }
}

/// Splitting the escape of a prefix one character later.
proof fn lemma_escape_snoc(s: Seq<char>, i: int)
    requires
        0 <= i < s.len(),
    ensures
        escape_seq(s.take(i + 1)) == escape_seq(s.take(i)) + esc_char(s[i]),
    decreases i,
{
    if i == 0 {
        assert(s.take(1)[0] == s[0]);
        assert(s.take(1).drop_first() =~= s.take(0));
        assert(escape_seq(s.take(0)) == Seq::<char>::empty());
        assert(escape_seq(s.take(1)) =~= esc_char(s[0]) + escape_seq(s.take(0)));
        assert(escape_seq(s.take(0)) + esc_char(s[0]) =~= esc_char(s[0]) + escape_seq(s.take(0)));
    } else {
        lemma_escape_snoc(s.drop_first(), i - 1);
        assert(s.take(i + 1)[0] == s[0]);
        assert(s.take(i + 1).drop_first() =~= s.drop_first().take(i));
        assert(s.take(i).drop_first() =~= s.drop_first().take(i - 1));
        assert(s.drop_first()[i - 1] == s[i]);
        assert(escape_seq(s.take(i + 1)) == esc_char(s[0]) + escape_seq(s.drop_first().take(i)));
        assert(escape_seq(s.take(i)) == esc_char(s[0]) + escape_seq(s.drop_first().take(i - 1)));
        assert(esc_char(s[0]) + (escape_seq(s.drop_first().take(i - 1)) + esc_char(s[i])) =~= (
        esc_char(s[0]) + escape_seq(s.drop_first().take(i - 1))) + esc_char(s[i]));
    }
}

fn emit_nl_indent(depth: usize, out: &mut Vec<char>)
    requires
        depth <= 64,
    ensures
        final(out)@ == old(out)@ + nl_indent(depth as int),
{
    let ghost orig = out@;
    out.push('\n');
    let mut k: usize = 0;
    while k < depth
        invariant
            depth <= 64,
            k <= depth,
            out@ == orig + seq!['\n'] + Seq::new((2 * k) as nat, |i: int| ' '),
        decreases depth - k,
    {
        out.push(' ');
        out.push(' ');
        proof {
            assert(out@ =~= orig + seq!['\n'] + Seq::new((2 * (k + 1)) as nat, |i: int| ' '));
        }
        k = k + 1;
    }
    proof {
        assert(out@ =~= orig + nl_indent(depth as int));
    }
}

fn next_depth_exec(depth: usize) -> (r: usize)
    requires
        depth <= 64,
    ensures
        r == next_depth(depth as int),
        r <= 64,
{
    if depth < 64 {
        depth + 1
    } else {
        64
    }
}

/// Appends the pretty-printed text of `j` to `out`.
pub fn render_json_into(j: &Json, depth: usize, out: &mut Vec<char>)
    requires
        depth <= 64,
    ensures
        final(out)@ == old(out)@ + render_json(j@, depth as int),
    decreases j, 1int,
{
    let ghost orig = out@;
    match j {
        Json::Null => {
            out.push('n');
            out.push('u');
            out.push('l');
            out.push('l');
            proof {
                assert(out@ =~= orig + render_json(j@, depth as int));
            }
        },
        Json::Bool(b) => {
            if *b {
                out.push('t');
                out.push('r');
                out.push('u');
                out.push('e');
            } else {
                out.push('f');
                out.push('a');
                out.push('l');
                out.push('s');
                out.push('e');
            }
            proof {
                assert(out@ =~= orig + render_json(j@, depth as int));
            }
        },
        Json::Num(s) => {
            let mut i: usize = 0;
            while i < s.len()
                invariant
                    i <= s@.len(),
                    out@ == orig + s@.take(i as int),
                decreases s@.len() - i,
            {
                out.push(s[i]);
                proof {
                    assert(out@ =~= orig + s@.take(i + 1));
                }
                i = i + 1;
            }
            proof {
                assert(s@.take(i as int) =~= s@);
                assert(render_json(j@, depth as int) == s@);
            }
        },
        Json::Str(s) => {
            out.push('"');
            emit_escaped(s, out);
            out.push('"');
            proof {
                assert(out@ =~= orig + render_json(j@, depth as int));
            }
        },
        Json::Arr(items) => {
            out.push('[');
            if items.len() == 0 {
                out.push(']');
                proof {
                    assert(j@->Arr_0.len() == 0);
                    assert(out@ =~= orig + render_json(j@, depth as int));
                }
            } else {
                render_items_into(items, 0, depth, out);
                emit_nl_indent(depth, out);
                out.push(']');
                proof {
                    assert(j@->Arr_0.len() == items@.len());
                    assert(items@.map_values(|e: Json| e@).skip(0) =~= j@->Arr_0);
                    assert(out@ =~= orig + render_json(j@, depth as int));
                }
            }
        },
        Json::Obj(fields) => {
            out.push('{');
            if fields.len() == 0 {
                out.push('}');
                proof {
                    assert(j@->Obj_0.len() == 0);
                    assert(out@ =~= orig + render_json(j@, depth as int));
                }
            } else {
                render_fields_into(fields, 0, depth, out);
                emit_nl_indent(depth, out);
                out.push('}');
                proof {
                    assert(fields@.map_values(|p: (Vec<char>, Json)| (p.0@, p.1@)).skip(0)
                        =~= j@->Obj_0);
                    assert(out@ =~= orig + render_json(j@, depth as int));
                }
            }
        },
    }
}

fn render_items_into(items: &Vec<Json>, idx: usize, depth: usize, out: &mut Vec<char>)
    requires
        depth <= 64,
        idx < items@.len(),
    ensures
        final(out)@ == old(out)@ + render_items(
            items@.map_values(|e: Json| e@).skip(idx as int),
            depth as int,
        ),
    decreases items, items@.len() - idx, 0int,
{
    let ghost orig = out@;
    let ghost tail = items@.map_values(|e: Json| e@).skip(idx as int);
    let d2 = next_depth_exec(depth);
    emit_nl_indent(d2, out);
    render_json_into(&items[idx], d2, out);
    proof {
        assert(tail[0] == items@[idx as int]@);
        assert(out@ =~= orig + (nl_indent(next_depth(depth as int)) + render_json(
            tail[0],
            next_depth(depth as int),
        )));
    }
    if idx < items.len() - 1 {
        out.push(',');
        render_items_into(items, idx + 1, depth, out);
        proof {
            assert(tail.drop_first() =~= items@.map_values(|e: Json| e@).skip(idx + 1));
            assert(out@ =~= orig + render_items(tail, depth as int));
        }
    } else {
        proof {
            assert(tail.len() == 1);
            assert(out@ =~= orig + render_items(tail, depth as int));
        }
    }
}

fn render_fields_into(
    fields: &Vec<(Vec<char>, Json)>,
    idx: usize,
    depth: usize,
    out: &mut Vec<char>,
)
    requires
        depth <= 64,
        idx < fields@.len(),
    ensures
        final(out)@ == old(out)@ + render_fields(
            fields@.map_values(|p: (Vec<char>, Json)| (p.0@, p.1@)).skip(idx as int),
            depth as int,
        ),
    decreases fields, fields@.len() - idx, 0int,
{
    let ghost orig = out@;
    let ghost tail = fields@.map_values(|p: (Vec<char>, Json)| (p.0@, p.1@)).skip(idx as int);
    let d2 = next_depth_exec(depth);
    emit_nl_indent(d2, out);
    out.push('"');
    emit_escaped(&fields[idx].0, out);
    out.push('"');
    out.push(':');
    out.push(' ');
    render_json_into(&fields[idx].1, d2, out);
    proof {
        assert(tail[0] == (fields@[idx as int].0@, fields@[idx as int].1@));
        assert(out@ =~= orig + (nl_indent(next_depth(depth as int)) + seq!['"'] + escape_seq(
            tail[0].0,
        ) + seq!['"', ':', ' '] + render_json(tail[0].1, next_depth(depth as int))));
    }
    if idx < fields.len() - 1 {
        out.push(',');
        render_fields_into(fields, idx + 1, depth, out);
        proof {
            assert(tail.drop_first() =~= fields@.map_values(|p: (Vec<char>, Json)| (p.0@, p.1@)).skip(
                idx + 1,
            ));
            assert(out@ =~= orig + render_fields(tail, depth as int));
        }
    } else {
        proof {
            assert(tail.len() == 1);
            assert(out@ =~= orig + render_fields(tail, depth as int));
        }
    }
}

/// The pretty-printed text of a whole document.
pub fn render_doc_chars(j: &Json) -> (r: Vec<char>)
    ensures
        r@ == render_doc(j@),
{
    let mut out: Vec<char> = Vec::new();
    render_json_into(j, 0, &mut out);
    out
}


// ---------------------------------------------------------------------------
// Parsing (spec)
// ---------------------------------------------------------------------------

/// First index at or after `i` that does not hold whitespace.
pub open spec fn skip_ws(s: Seq<char>, i: int) -> int
    decreases s.len() - i,
{
    if 0 <= i < s.len() && is_ws_char(s[i]) {
        skip_ws(s, i + 1)
    } else {
        i
    }
}

pub open spec fn is_hex_char(c: char) -> bool {
    is_digit_char(c) || ('a' <= c && c <= 'f') || ('A' <= c && c <= 'F')
}

pub open spec fn hex_char_val(c: char) -> int {
    if is_digit_char(c) {
        digit_val(c)
    } else if 'a' <= c && c <= 'f' {
        c as int - 'a' as int + 10
    } else {
        c as int - 'A' as int + 10
    }
}

pub open spec fn is_hex4(s: Seq<char>, i: int) -> bool {
    is_hex_char(s[i]) && is_hex_char(s[i + 1]) && is_hex_char(s[i + 2]) && is_hex_char(s[i + 3])
}

pub open spec fn hex4_val(s: Seq<char>, i: int) -> int {
    hex_char_val(s[i]) * 0x1000 + hex_char_val(s[i + 1]) * 0x100 + hex_char_val(s[i + 2]) * 0x10
        + hex_char_val(s[i + 3])
}

/// Decodes one backslash escape beginning at `i` (where `s[i] == '\\'`);
/// yields the character and the index one past the escape.
pub open spec fn parse_escape(s: Seq<char>, i: int) -> Option<(char, int)> {
    if !(0 <= i && i + 1 < s.len()) {
        None
    } else {
        let e = s[i + 1];
        if e == '"' {
            Some(('"', i + 2))
        } else if e == '\\' {
            Some(('\\', i + 2))
        } else if e == '/' {
            Some(('/', i + 2))
        } else if e == 'b' {
            Some(('\u{0008}', i + 2))
        } else if e == 'f' {
            Some(('\u{000C}', i + 2))
        } else if e == 'n' {
            Some(('\n', i + 2))
        } else if e == 'r' {
            Some(('\r', i + 2))
        } else if e == 't' {
            Some(('\t', i + 2))
        } else if e == 'u' {
            if i + 6 <= s.len() && is_hex4(s, i + 2) {
                let v = hex4_val(s, i + 2);
                if 0xD800 <= v <= 0xDBFF {
                    if i + 12 <= s.len() && s[i + 6] == '\\' && s[i + 7] == 'u' && is_hex4(s, i + 8) {
                        let w = hex4_val(s, i + 8);
                        if 0xDC00 <= w <= 0xDFFF {
                            Some(((0x10000 + (v - 0xD800) * 0x400 + (w - 0xDC00)) as char, i + 12))
                        } else {
                            None
                        }
                    } else {
                        None
                    }
                } else if 0xDC00 <= v <= 0xDFFF {
                    None
                } else {
                    Some((v as char, i + 6))
                }
            } else {
                None
            }
        } else {
            None
        }
    }
}

/// Parses the body of a string literal starting at `i` (just after the
/// opening quote) up to and including the closing quote.
pub open spec fn parse_str_body(s: Seq<char>, i: int) -> Option<(Seq<char>, int)>
    decreases s.len() - i,
{
    if !(0 <= i < s.len()) {
        None
    } else if s[i] == '"' {
        Some((Seq::empty(), i + 1))
    } else if s[i] == '\\' {
        match parse_escape(s, i) {
            None => None,
            Some((c, j)) => if j <= i {
                None
            } else {
                match parse_str_body(s, j) {
                    None => None,
                    Some((t, e)) => Some((seq![c] + t, e)),
                }
            },
        }
    } else if (s[i] as u32) < 32 {
        None
    } else {
        match parse_str_body(s, i + 1) {
            None => None,
            Some((t, e)) => Some((seq![s[i]] + t, e)),
        }
    }
}

/// Parses one JSON value whose first character stands at `i`.
pub open spec fn spec_parse_value(s: Seq<char>, i: int) -> Option<(JsonV, int)>
    decreases s.len() - i, 1int,
{
    if !(0 <= i < s.len()) {
        None
    } else {
        let c = s[i];
        if c == 'n' {
            if i + 4 <= s.len() && s[i + 1] == 'u' && s[i + 2] == 'l' && s[i + 3] == 'l' {
                Some((JsonV::Null, i + 4))
            } else {
                None
            }
        } else if c == 't' {
            if i + 4 <= s.len() && s[i + 1] == 'r' && s[i + 2] == 'u' && s[i + 3] == 'e' {
                Some((JsonV::Bool(true), i + 4))
            } else {
                None
            }
        } else if c == 'f' {
            if i + 5 <= s.len() && s[i + 1] == 'a' && s[i + 2] == 'l' && s[i + 3] == 's' && s[i + 4]
                == 'e' {
                Some((JsonV::Bool(false), i + 5))
            } else {
                None
            }
        } else if c == '"' {
            match parse_str_body(s, i + 1) {
                None => None,
                Some((t, e)) => Some((JsonV::Str(t), e)),
            }
        } else if c == '-' || is_digit_char(c) {
            match scan_num(s, i) {
                None => None,
                Some(e) => if i < e <= s.len() {
                    Some((JsonV::Num(s.subrange(i, e)), e))
                } else {
                    None
                },
            }
        } else if c == '[' {
            let i1 = skip_ws(s, i + 1);
            if i + 1 <= i1 < s.len() && s[i1] == ']' {
                Some((JsonV::Arr(Seq::empty()), i1 + 1))
            } else {
                match spec_parse_items(s, i + 1) {
                    None => None,
                    Some((vs, e)) => Some((JsonV::Arr(vs), e)),
                }
            }
        } else if c == '{' {
            let i1 = skip_ws(s, i + 1);
            if i + 1 <= i1 < s.len() && s[i1] == '}' {
                Some((JsonV::Obj(Seq::empty()), i1 + 1))
            } else {
                match spec_parse_fields(s, i + 1) {
                    None => None,
                    Some((fs, e)) => Some((JsonV::Obj(fs), e)),
                }
            }
        } else {
            None
        }
    }
}

/// Parses the members of a non-empty array; `i` stands just after `[` or `,`.
pub open spec fn spec_parse_items(s: Seq<char>, i: int) -> Option<(Seq<JsonV>, int)>
    decreases s.len() - i, 2int,
{
    if !(0 <= i <= s.len()) {
        None
    } else {
        let i0 = skip_ws(s, i);
        if !(i <= i0 <= s.len()) {
            None
        } else {
            match spec_parse_value(s, i0) {
                None => None,
                Some((v, i1)) => if !(i0 < i1 <= s.len()) {
                    None
                } else {
                    let i2 = skip_ws(s, i1);
                    if !(i1 <= i2) {
                        None
                    } else if i2 < s.len() && s[i2] == ',' {
                        match spec_parse_items(s, i2 + 1) {
                            None => None,
                            Some((vs, e)) => Some((seq![v] + vs, e)),
                        }
                    } else if i2 < s.len() && s[i2] == ']' {
                        Some((seq![v], i2 + 1))
                    } else {
                        None
                    }
                },
            }
        }
    }
}

/// Parses the members of a non-empty object; `i` stands just after `{` or `,`.
pub open spec fn spec_parse_fields(s: Seq<char>, i: int) -> Option<(Seq<(Seq<char>, JsonV)>, int)>
    decreases s.len() - i, 2int,
{
    if !(0 <= i <= s.len()) {
        None
    } else {
        let i0 = skip_ws(s, i);
        if !(i <= i0) {
            None
        } else if !(i0 < s.len() && s[i0] == '"') {
            None
        } else {
            match parse_str_body(s, i0 + 1) {
                None => None,
                Some((key, ik)) => if !(i0 < ik <= s.len()) {
                    None
                } else {
                    let ic = skip_ws(s, ik);
                    if !(ik <= ic) {
                        None
                    } else if !(ic < s.len() && s[ic] == ':') {
                        None
                    } else {
                        let iv = skip_ws(s, ic + 1);
                        if !(ic + 1 <= iv <= s.len()) {
                            None
                        } else {
                            match spec_parse_value(s, iv) {
                                None => None,
                                Some((v, i1)) => if !(iv < i1 <= s.len()) {
                                    None
                                } else {
                                    let i2 = skip_ws(s, i1);
                                    if !(i1 <= i2) {
                                        None
                                    } else if i2 < s.len() && s[i2] == ',' {
                                        match spec_parse_fields(s, i2 + 1) {
                                            None => None,
                                            Some((fs, e)) => Some((seq![(key, v)] + fs, e)),
                                        }
                                    } else if i2 < s.len() && s[i2] == '}' {
                                        Some((seq![(key, v)], i2 + 1))
                                    } else {
                                        None
                                    }
                                },
                            }
                        }
                    }
                },
            }
        }
    }
}

/// Parses a whole document: one value, with whitespace around it.
pub open spec fn spec_parse_doc(s: Seq<char>) -> Option<JsonV> {
    let i0 = skip_ws(s, 0);
    match spec_parse_value(s, i0) {
        None => None,
        Some((v, e)) => if 0 <= e <= s.len() && skip_ws(s, e) == s.len() {
            Some(v)
        } else {
            None
        },
    }
}

// ---------------------------------------------------------------------------
// Bounds of the spec parser
// ---------------------------------------------------------------------------

pub proof fn lemma_skip_ws_bounds(s: Seq<char>, i: int)
    requires
        0 <= i <= s.len(),
    ensures
        i <= skip_ws(s, i) <= s.len(),
        forall|k: int| i <= k < skip_ws(s, i) ==> is_ws_char(s[k]),
        skip_ws(s, i) < s.len() ==> !is_ws_char(s[skip_ws(s, i)]),
    decreases s.len() - i,
{
    if i < s.len() && is_ws_char(s[i]) {
        lemma_skip_ws_bounds(s, i + 1);
    }
}

pub proof fn lemma_skip_digits_bounds(s: Seq<char>, i: int)
    requires
        0 <= i <= s.len(),
    ensures
        i <= skip_digits(s, i) <= s.len(),
        forall|k: int| i <= k < skip_digits(s, i) ==> is_digit_char(s[k]),
        skip_digits(s, i) < s.len() ==> !is_digit_char(s[skip_digits(s, i)]),
    decreases s.len() - i,
{
    if i < s.len() && is_digit_char(s[i]) {
        lemma_skip_digits_bounds(s, i + 1);
    }
}

pub proof fn lemma_scan_num_bounds(s: Seq<char>, i: int)
    requires
        0 <= i < s.len(),
    ensures
        scan_num(s, i) matches Some(e) ==> i < e <= s.len(),
{
    lemma_skip_digits_bounds(s, i);
    if i + 1 <= s.len() {
        lemma_skip_digits_bounds(s, i + 1);
    }
    if scan_num(s, i) is Some {
        let i1: int = if s[i] == '-' { i + 1 } else { i };
        lemma_skip_digits_bounds(s, i1);
        let i2: int = if s[i1] == '0' { i1 + 1 } else { skip_digits(s, i1) };
        if i2 + 1 <= s.len() {
            lemma_skip_digits_bounds(s, i2 + 1);
        }
        let o3: Option<int> = if i2 < s.len() && s[i2] == '.' {
            if i2 + 1 < s.len() && is_digit_char(s[i2 + 1]) {
                Some(skip_digits(s, i2 + 1))
            } else {
                None
            }
        } else {
            Some(i2)
        };
        match o3 {
            Some(i3) => {
                if i3 < s.len() && (s[i3] == 'e' || s[i3] == 'E') {
                    let i4: int = if i3 + 1 < s.len() && (s[i3 + 1] == '+' || s[i3 + 1] == '-') {
                        i3 + 2
                    } else {
                        i3 + 1
                    };
                    if 0 <= i4 <= s.len() {
                        lemma_skip_digits_bounds(s, i4);
                    }
                }
            },
            None => {},
        }
    }
}

pub proof fn lemma_parse_str_body_bounds(s: Seq<char>, i: int)
    requires
        0 <= i,
    ensures
        parse_str_body(s, i) matches Some((t, e)) ==> i < e <= s.len(),
    decreases s.len() - i,
{
    if 0 <= i < s.len() {
        if s[i] == '"' {
        } else if s[i] == '\\' {
            match parse_escape(s, i) {
                Some((c, j)) => if i < j {
                    lemma_parse_str_body_bounds(s, j);
                },
                None => {},
            }
        } else {
            lemma_parse_str_body_bounds(s, i + 1);
        }
    }
}

pub proof fn lemma_parse_value_bounds(s: Seq<char>, i: int)
    ensures
        spec_parse_value(s, i) matches Some((v, e)) ==> i < e <= s.len(),
    decreases s.len() - i, 1int,
{
    if 0 <= i < s.len() {
        let c = s[i];
        if c == '"' {
            lemma_parse_str_body_bounds(s, i + 1);
        } else if c == '-' || is_digit_char(c) {
            lemma_scan_num_bounds(s, i);
        } else if c == '[' {
            lemma_skip_ws_bounds(s, i + 1);
            lemma_parse_items_bounds(s, i + 1);
        } else if c == '{' {
            lemma_skip_ws_bounds(s, i + 1);
            lemma_parse_fields_bounds(s, i + 1);
        }
    }
}

pub proof fn lemma_parse_items_bounds(s: Seq<char>, i: int)
    ensures
        spec_parse_items(s, i) matches Some((vs, e)) ==> i < e <= s.len(),
    decreases s.len() - i, 2int,
{
    if 0 <= i <= s.len() {
        lemma_skip_ws_bounds(s, i);
        let i0 = skip_ws(s, i);
        lemma_parse_value_bounds(s, i0);
        match spec_parse_value(s, i0) {
            Some((v, i1)) => if i0 < i1 <= s.len() {
                lemma_skip_ws_bounds(s, i1);
                let i2 = skip_ws(s, i1);
                if i2 < s.len() && s[i2] == ',' {
                    lemma_parse_items_bounds(s, i2 + 1);
                }
            },
            None => {},
        }
    }
}

pub proof fn lemma_parse_fields_bounds(s: Seq<char>, i: int)
    ensures
        spec_parse_fields(s, i) matches Some((fs, e)) ==> i < e <= s.len(),
    decreases s.len() - i, 2int,
{
    if 0 <= i <= s.len() {
        lemma_skip_ws_bounds(s, i);
        let i0 = skip_ws(s, i);
        if i0 < s.len() && s[i0] == '"' {
            lemma_parse_str_body_bounds(s, i0 + 1);
            match parse_str_body(s, i0 + 1) {
                Some((key, ik)) => if i0 < ik <= s.len() {
                    lemma_skip_ws_bounds(s, ik);
                    let ic = skip_ws(s, ik);
                    if ic < s.len() && s[ic] == ':' {
                        lemma_skip_ws_bounds(s, ic + 1);
                        let iv = skip_ws(s, ic + 1);
                        lemma_parse_value_bounds(s, iv);
                        match spec_parse_value(s, iv) {
                            Some((v, i1)) => if iv < i1 <= s.len() {
                                lemma_skip_ws_bounds(s, i1);
                                let i2 = skip_ws(s, i1);
                                if i2 < s.len() && s[i2] == ',' {
                                    lemma_parse_fields_bounds(s, i2 + 1);
                                }
                            },
                            None => {},
                        }
                    }
                },
                None => {},
            }
        }
    }
}

// ---------------------------------------------------------------------------
// Parsing (exec)
// ---------------------------------------------------------------------------

fn skip_ws_exec(v: &Vec<char>, i: usize) -> (r: usize)
    requires
        i <= v@.len(),
    ensures
        r == skip_ws(v@, i as int),
        i <= r <= v@.len(),
{
    let mut cur = i;
    while cur < v.len() && is_ws_exec(v[cur])
        invariant
            i <= cur <= v@.len(),
            skip_ws(v@, i as int) == skip_ws(v@, cur as int),
        decreases v@.len() - cur,
    {
        cur = cur + 1;
    }
    cur
}

fn skip_digits_exec(v: &Vec<char>, i: usize) -> (r: usize)
    requires
        i <= v@.len(),
    ensures
        r == skip_digits(v@, i as int),
        i <= r <= v@.len(),
{
    let mut cur = i;
    while cur < v.len() && '0' <= v[cur] && v[cur] <= '9'
        invariant
            i <= cur <= v@.len(),
            skip_digits(v@, i as int) == skip_digits(v@, cur as int),
        decreases v@.len() - cur,
    {
        cur = cur + 1;
    }
    cur
}

fn scan_num_exec(v: &Vec<char>, i: usize) -> (r: Option<usize>)
    requires
        i < v@.len(),
    ensures
        (r is Some) == (scan_num(v@, i as int) is Some),
        r matches Some(e) ==> scan_num(v@, i as int) == Some(e as int) && i < e <= v@.len(),
{
    let n = v.len();
    proof {
        lemma_scan_num_bounds(v@, i as int);
    }
    let i1: usize = if v[i] == '-' {
        i + 1
    } else {
        i
    };
    if !(i1 < v.len() && '0' <= v[i1] && v[i1] <= '9') {
        return None;
    }
    let i2: usize = if v[i1] == '0' {
        i1 + 1
    } else {
        skip_digits_exec(v, i1)
    };
    let o3: Option<usize> = if i2 < v.len() && v[i2] == '.' {
        if i2 + 1 < v.len() && '0' <= v[i2 + 1] && v[i2 + 1] <= '9' {
            Some(skip_digits_exec(v, i2 + 1))
        } else {
            None
        }
    } else {
        Some(i2)
    };
    match o3 {
        None => None,
        Some(i3) => if i3 < v.len() && (v[i3] == 'e' || v[i3] == 'E') {
            let i4: usize = if i3 + 1 < v.len() && (v[i3 + 1] == '+' || v[i3 + 1] == '-') {
                i3 + 2
            } else {
                i3 + 1
            };
            if i4 < v.len() && '0' <= v[i4] && v[i4] <= '9' {
                Some(skip_digits_exec(v, i4))
            } else {
                None
            }
        } else {
            Some(i3)
        },
    }
}

fn hex_val_exec(c: char) -> (r: Option<u32>)
    ensures
        (r is Some) == is_hex_char(c),
        r matches Some(x) ==> x == hex_char_val(c) && x < 16,
{
    if '0' <= c && c <= '9' {
        Some((c as u32) - ('0' as u32))
    } else if 'a' <= c && c <= 'f' {
        Some((c as u32) - ('a' as u32) + 10)
    } else if 'A' <= c && c <= 'F' {
        Some((c as u32) - ('A' as u32) + 10)
    } else {
        None
    }
}

fn hex4_exec(v: &Vec<char>, i: usize) -> (r: Option<u32>)
    requires
        i + 4 <= v@.len(),
    ensures
        (r is Some) == is_hex4(v@, i as int),
        r matches Some(x) ==> x == hex4_val(v@, i as int) && x <= 0xFFFF,
{
    let n = v.len();
    let a = hex_val_exec(v[i]);
    let b = hex_val_exec(v[i + 1]);
    let c = hex_val_exec(v[i + 2]);
    let d = hex_val_exec(v[i + 3]);
    match (a, b, c, d) {
        (Some(x), Some(y), Some(z), Some(w)) => Some(x * 0x1000 + y * 0x100 + z * 0x10 + w),
        _ => None,
    }
}

fn parse_escape_exec(v: &Vec<char>, i: usize) -> (r: Option<(char, usize)>)
    requires
        i < v@.len(),
        v@[i as int] == '\\',
    ensures
        (r is Some) == (parse_escape(v@, i as int) is Some),
        r matches Some((c, j)) ==> parse_escape(v@, i as int) == Some((c, j as int)) && i < j
            <= v@.len(),
{
    let n = v.len();
    if !(i + 1 < n) {
        return None;
    }
    let e = v[i + 1];
    if e == '"' {
        Some(('"', i + 2))
    } else if e == '\\' {
        Some(('\\', i + 2))
    } else if e == '/' {
        Some(('/', i + 2))
    } else if e == 'b' {
        Some(('\u{0008}', i + 2))
    } else if e == 'f' {
        Some(('\u{000C}', i + 2))
    } else if e == 'n' {
        Some(('\n', i + 2))
    } else if e == 'r' {
        Some(('\r', i + 2))
    } else if e == 't' {
        Some(('\t', i + 2))
    } else if e == 'u' {
        if n - i >= 6 {
            match hex4_exec(v, i + 2) {
                None => None,
                Some(hv) => {
                    if 0xD800 <= hv && hv <= 0xDBFF {
                        if n - i >= 12 && v[i + 6] == '\\' && v[i + 7] == 'u' {
                            match hex4_exec(v, i + 8) {
                                None => None,
                                Some(lv) => {
                                    if 0xDC00 <= lv && lv <= 0xDFFF {
                                        let code: u32 = 0x10000 + (hv - 0xD800) * 0x400 + (lv
                                            - 0xDC00);
                                        proof {
                                            assert(0x10000 <= code <= 0x10FFFF);
                                        }
                                        match char_from_u32(code) {
                                            Some(c) => {
                                                proof {
                                                    assert(c == code as char);
                                                }
                                                Some((c, i + 12))
                                            },
                                            None => {
                                                proof {
                                                    assert(false);
                                                }
                                                None
                                            },
                                        }
                                    } else {
                                        None
                                    }
                                },
                            }
                        } else {
                            None
                        }
                    } else if 0xDC00 <= hv && hv <= 0xDFFF {
                        None
                    } else {
                        match char_from_u32(hv) {
                            Some(c) => Some((c, i + 6)),
                            None => {
                                proof {
                                    assert(false);
                                }
                                None
                            },
                        }
                    }
                },
            }
        } else {
            None
        }
    } else {
        None
    }
}

/// Continuation view of a partially parsed string body.
spec fn str_body_cont(s: Seq<char>, i: int, cur: int, accp: Seq<char>) -> bool {
    match parse_str_body(s, cur) {
        Some((t, e)) => parse_str_body(s, i) == Some((accp + t, e)),
        None => parse_str_body(s, i) is None,
    }
}

fn parse_string_exec(v: &Vec<char>, i: usize) -> (r: Option<(Vec<char>, usize)>)
    requires
        i <= v@.len(),
    ensures
        (r is Some) == (parse_str_body(v@, i as int) is Some),
        r matches Some((t, e)) ==> parse_str_body(v@, i as int) == Some((t@, e as int)) && i < e
            <= v@.len(),
{
    let mut acc: Vec<char> = Vec::new();
    let mut cur: usize = i;
    proof {
        assert(acc@ + parse_str_body(v@, i as int)->Some_0.0 =~= parse_str_body(
            v@,
            i as int,
        )->Some_0.0) by {
            if parse_str_body(v@, i as int) is Some {
            }
        }
        lemma_parse_str_body_bounds(v@, i as int);
    }
    loop
        invariant
            i <= cur <= v@.len(),
            str_body_cont(v@, i as int, cur as int, acc@),
        decreases v@.len() - cur,
    {
        proof {
            lemma_parse_str_body_bounds(v@, cur as int);
        }
        if cur >= v.len() {
            return None;
        }
        let c = v[cur];
        if c == '"' {
            proof {
                assert(parse_str_body(v@, cur as int) == Some((Seq::<char>::empty(), cur + 1)));
                assert(acc@ + Seq::<char>::empty() =~= acc@);
            }
            return Some((acc, cur + 1));
        } else if c == '\\' {
            match parse_escape_exec(v, cur) {
                None => {
                    return None;
                },
                Some((c2, j)) => {
                    proof {
                        lemma_parse_str_body_bounds(v@, j as int);
                        match parse_str_body(v@, j as int) {
                            Some((t, e)) => {
                                assert(parse_str_body(v@, cur as int) == Some((seq![c2] + t, e)));
                                assert(acc@ + (seq![c2] + t) =~= acc@.push(c2) + t);
                            },
                            None => {},
                        }
                    }
                    acc.push(c2);
                    cur = j;
                },
            }
        } else if (c as u32) < 32 {
            return None;
        } else {
            proof {
                lemma_parse_str_body_bounds(v@, cur + 1);
                match parse_str_body(v@, cur + 1) {
                    Some((t, e)) => {
                        assert(parse_str_body(v@, cur as int) == Some((seq![c] + t, e)));
                        assert(acc@ + (seq![c] + t) =~= acc@.push(c) + t);
                    },
                    None => {},
                }
            }
            acc.push(c);
            cur = cur + 1;
        }
    }
}

/// Continuation view of a partially parsed array member list.
spec fn items_cont(s: Seq<char>, i: int, cur: int, accv: Seq<JsonV>) -> bool {
    match spec_parse_items(s, cur) {
        Some((vs, e)) => spec_parse_items(s, i) == Some((accv + vs, e)),
        None => spec_parse_items(s, i) is None,
    }
}

/// Continuation view of a partially parsed object member list.
spec fn fields_cont(s: Seq<char>, i: int, cur: int, accv: Seq<(Seq<char>, JsonV)>) -> bool {
    match spec_parse_fields(s, cur) {
        Some((fs, e)) => spec_parse_fields(s, i) == Some((accv + fs, e)),
        None => spec_parse_fields(s, i) is None,
    }
}

pub open spec fn seq_view(s: Seq<Json>) -> Seq<JsonV> {
    s.map_values(|e: Json| e@)
}

pub open spec fn fields_view(s: Seq<(Vec<char>, Json)>) -> Seq<(Seq<char>, JsonV)> {
    s.map_values(|p: (Vec<char>, Json)| (p.0@, p.1@))
}

fn parse_value_exec(v: &Vec<char>, i: usize) -> (r: Option<(Json, usize)>)
    requires
        i <= v@.len(),
    ensures
        (r is Some) == (spec_parse_value(v@, i as int) is Some),
        r matches Some((j, e)) ==> spec_parse_value(v@, i as int) == Some((j@, e as int)) && i < e
            <= v@.len(),
    decreases v@.len() - i, 1int,
{
    let n = v.len();
    proof {
        lemma_parse_value_bounds(v@, i as int);
    }
    if i >= n {
        return None;
    }
    let c = v[i];
    if c == 'n' {
        if n - i >= 4 && v[i + 1] == 'u' && v[i + 2] == 'l' && v[i + 3] == 'l' {
            Some((Json::Null, i + 4))
        } else {
            None
        }
    } else if c == 't' {
        if n - i >= 4 && v[i + 1] == 'r' && v[i + 2] == 'u' && v[i + 3] == 'e' {
            Some((Json::Bool(true), i + 4))
        } else {
            None
        }
    } else if c == 'f' {
        if n - i >= 5 && v[i + 1] == 'a' && v[i + 2] == 'l' && v[i + 3] == 's' && v[i + 4]
            == 'e' {
            Some((Json::Bool(false), i + 5))
        } else {
            None
        }
    } else if c == '"' {
        match parse_string_exec(v, i + 1) {
            None => None,
            Some((t, e)) => Some((Json::Str(t), e)),
        }
    } else if c == '-' || ('0' <= c && c <= '9') {
        match scan_num_exec(v, i) {
            None => None,
            Some(e) => {
                let mut lex: Vec<char> = Vec::new();
                let mut k: usize = i;
                while k < e
                    invariant
                        i <= k <= e <= v@.len(),
                        lex@ == v@.subrange(i as int, k as int),
                    decreases e - k,
                {
                    lex.push(v[k]);
                    proof {
                        assert(v@.subrange(i as int, k as int).push(v@[k as int]) =~= v@.subrange(
                            i as int,
                            k + 1,
                        ));
                    }
                    k = k + 1;
                }
                Some((Json::Num(lex), e))
            },
        }
    } else if c == '[' {
        let i1 = skip_ws_exec(v, i + 1);
        if i1 < v.len() && v[i1] == ']' {
            let empty_items: Vec<Json> = Vec::new();
            proof {
                assert(empty_items@.len() == 0);
            }
            let res = Json::Arr(empty_items);
            proof {
                assert(res->Arr_0@.len() == 0);
                assert(res@ matches JsonV::Arr(x) && x.len() == 0);
                assert(res@->Arr_0 =~= Seq::<JsonV>::empty());
                assert(res@ =~~= JsonV::Arr(Seq::<JsonV>::empty()));
            }
            Some((res, i1 + 1))
        } else {
            match parse_items_exec(v, i + 1) {
                None => None,
                Some((items, e)) => {
                    let res = Json::Arr(items);
                    proof {
                        let a = res@->Arr_0;
                        let b = seq_view(res->Arr_0@);
                        assert(a.len() == b.len());
                        assert forall|k: int| 0 <= k < a.len() implies a[k] == b[k] by {
                            assert(a[k] == res->Arr_0@[k]@);
                            assert(b[k] == res->Arr_0@[k]@);
                        }
                        assert(a =~= b);
                        assert(res@ == JsonV::Arr(b));
                    }
                    Some((res, e))
                },
            }
        }
    } else if c == '{' {
        let i1 = skip_ws_exec(v, i + 1);
        if i1 < v.len() && v[i1] == '}' {
            let empty_fields: Vec<(Vec<char>, Json)> = Vec::new();
            proof {
                assert(empty_fields@.len() == 0);
            }
            let res = Json::Obj(empty_fields);
            proof {
                assert(res->Obj_0@.len() == 0);
                assert(res@ matches JsonV::Obj(x) && x.len() == 0);
                assert(res@->Obj_0 =~= Seq::<(Seq<char>, JsonV)>::empty());
                assert(res@ =~~= JsonV::Obj(Seq::<(Seq<char>, JsonV)>::empty()));
            }
            Some((res, i1 + 1))
        } else {
            match parse_fields_exec(v, i + 1) {
                None => None,
                Some((fields, e)) => {
                    let res = Json::Obj(fields);
                    proof {
                        let a = res@->Obj_0;
                        let b = fields_view(res->Obj_0@);
                        assert(a.len() == b.len());
                        assert forall|k: int| 0 <= k < a.len() implies a[k] == b[k] by {
                            assert(a[k] == (res->Obj_0@[k].0@, res->Obj_0@[k].1@));
                            assert(b[k] == (res->Obj_0@[k].0@, res->Obj_0@[k].1@));
                        }
                        assert(a =~= b);
                        assert(res@ == JsonV::Obj(b));
                    }
                    Some((res, e))
                },
            }
        }
    } else {
        None
    }
}

fn parse_items_exec(v: &Vec<char>, i: usize) -> (r: Option<(Vec<Json>, usize)>)
    requires
        i <= v@.len(),
    ensures
        (r is Some) == (spec_parse_items(v@, i as int) is Some),
        r matches Some((items, e)) ==> spec_parse_items(v@, i as int) == Some((
            seq_view(items@),
            e as int,
        )) && i < e <= v@.len(),
    decreases v@.len() - i, 2int,
{
    let mut acc: Vec<Json> = Vec::new();
    let mut cur: usize = i;
    proof {
        lemma_parse_items_bounds(v@, i as int);
        assert(seq_view(acc@) =~= Seq::<JsonV>::empty());
        match spec_parse_items(v@, i as int) {
            Some((vs, e)) => {
                assert(Seq::<JsonV>::empty() + vs =~= vs);
            },
            None => {},
        }
    }
    loop
        invariant
            i <= cur <= v@.len(),
            items_cont(v@, i as int, cur as int, seq_view(acc@)),
        decreases v@.len() - cur,
    {
        proof {
            lemma_parse_items_bounds(v@, cur as int);
        }
        let i0 = skip_ws_exec(v, cur);
        match parse_value_exec(v, i0) {
            None => {
                return None;
            },
            Some((jv, i1)) => {
                let i2 = skip_ws_exec(v, i1);
                if i2 < v.len() && v[i2] == ',' {
                    proof {
                        lemma_parse_items_bounds(v@, i2 + 1);
                        match spec_parse_items(v@, i2 + 1) {
                            Some((vs, e)) => {
                                assert(spec_parse_items(v@, cur as int) == Some((
                                    seq![jv@] + vs,
                                    e,
                                )));
                                assert(seq_view(acc@) + (seq![jv@] + vs) =~= seq_view(
                                    acc@.push(jv),
                                ) + vs);
                            },
                            None => {},
                        }
                    }
                    acc.push(jv);
                    cur = i2 + 1;
                } else if i2 < v.len() && v[i2] == ']' {
                    proof {
                        assert(spec_parse_items(v@, cur as int) == Some((seq![jv@], i2 + 1)));
                        assert(seq_view(acc@) + seq![jv@] =~= seq_view(acc@.push(jv)));
                    }
                    acc.push(jv);
                    return Some((acc, i2 + 1));
                } else {
                    proof {
                        assert(spec_parse_items(v@, cur as int) is None);
                    }
                    return None;
                }
            },
        }
    }
}

fn parse_fields_exec(v: &Vec<char>, i: usize) -> (r: Option<(Vec<(Vec<char>, Json)>, usize)>)
    requires
        i <= v@.len(),
    ensures
        (r is Some) == (spec_parse_fields(v@, i as int) is Some),
        r matches Some((fields, e)) ==> spec_parse_fields(v@, i as int) == Some((
            fields_view(fields@),
            e as int,
        )) && i < e <= v@.len(),
    decreases v@.len() - i, 2int,
{
    let mut acc: Vec<(Vec<char>, Json)> = Vec::new();
    let mut cur: usize = i;
    proof {
        lemma_parse_fields_bounds(v@, i as int);
        assert(fields_view(acc@) =~= Seq::<(Seq<char>, JsonV)>::empty());
        match spec_parse_fields(v@, i as int) {
            Some((fs, e)) => {
                assert(Seq::<(Seq<char>, JsonV)>::empty() + fs =~= fs);
            },
            None => {},
        }
    }
    loop
        invariant
            i <= cur <= v@.len(),
            fields_cont(v@, i as int, cur as int, fields_view(acc@)),
        decreases v@.len() - cur,
    {
        proof {
            lemma_parse_fields_bounds(v@, cur as int);
        }
        let i0 = skip_ws_exec(v, cur);
        if !(i0 < v.len() && v[i0] == '"') {
            return None;
        }
        match parse_string_exec(v, i0 + 1) {
            None => {
                return None;
            },
            Some((key, ik)) => {
                let ic = skip_ws_exec(v, ik);
                if !(ic < v.len() && v[ic] == ':') {
                    return None;
                }
                let iv = skip_ws_exec(v, ic + 1);
                match parse_value_exec(v, iv) {
                    None => {
                        return None;
                    },
                    Some((jv, i1)) => {
                        let i2 = skip_ws_exec(v, i1);
                        if i2 < v.len() && v[i2] == ',' {
                            proof {
                                lemma_parse_fields_bounds(v@, i2 + 1);
                                match spec_parse_fields(v@, i2 + 1) {
                                    Some((fs, e)) => {
                                        assert(spec_parse_fields(v@, cur as int) == Some((
                                            seq![(key@, jv@)] + fs,
                                            e,
                                        )));
                                        assert(fields_view(acc@) + (seq![(key@, jv@)] + fs)
                                            =~= fields_view(acc@.push((key, jv))) + fs);
                                    },
                                    None => {},
                                }
                            }
                            acc.push((key, jv));
                            cur = i2 + 1;
                        } else if i2 < v.len() && v[i2] == '}' {
                            proof {
                                assert(spec_parse_fields(v@, cur as int) == Some((
                                    seq![(key@, jv@)],
                                    i2 + 1,
                                )));
                                assert(fields_view(acc@) + seq![(key@, jv@)] =~= fields_view(
                                    acc@.push((key, jv)),
                                ));
                            }
                            acc.push((key, jv));
                            return Some((acc, i2 + 1));
                        } else {
                            proof {
                                assert(spec_parse_fields(v@, cur as int) is None);
                            }
                            return None;
                        }
                    },
                }
            },
        }
    }
}

/// Parses a whole JSON document.
pub fn parse_doc_chars(v: &Vec<char>) -> (r: Option<Json>)
    ensures
        (r is Some) == (spec_parse_doc(v@) is Some),
        r matches Some(j) ==> spec_parse_doc(v@) == Some(j@),
{
    let i0 = skip_ws_exec(v, 0);
    match parse_value_exec(v, i0) {
        None => None,
        Some((j, e)) => {
            let e2 = skip_ws_exec(v, e);
            if e2 == v.len() {
                Some(j)
            } else {
                None
            }
        },
    }
}


// ---------------------------------------------------------------------------
// Round trip: rendered text parses back to the same value
// ---------------------------------------------------------------------------

/// A character that cannot extend a number lexeme.
pub open spec fn not_num_cont(c: char) -> bool {
    !(is_digit_char(c) || c == '.' || c == 'e' || c == 'E' || c == '+' || c == '-')
}

/// Skipping whitespace over a known whitespace run lands just past it.
proof fn lemma_skip_ws_run(s: Seq<char>, a: int, b: int)
    requires
        0 <= a <= b <= s.len(),
        forall|p: int| a <= p < b ==> is_ws_char(#[trigger] s[p]),
        b < s.len() ==> !is_ws_char(s[b]),
    ensures
        skip_ws(s, a) == b,
    decreases b - a,
{
    if a < b {
        lemma_skip_ws_run(s, a + 1, b);
    }
}

/// Skipping digits over an embedded region mirrors skipping digits in the
/// region itself, when a non-digit (or the end) follows the region.
proof fn lemma_skip_digits_embed(s: Seq<char>, i: int, x: Seq<char>, k: int)
    requires
        0 <= i,
        0 <= k <= x.len(),
        i + x.len() <= s.len(),
        s.subrange(i, i + x.len()) == x,
        i + x.len() < s.len() ==> !is_digit_char(s[i + x.len()]),
    ensures
        skip_digits(s, i + k) == i + skip_digits(x, k),
    decreases x.len() - k,
{
    if k < x.len() {
        assert(s[i + k] == s.subrange(i, i + x.len())[k]);
        if is_digit_char(x[k]) {
            lemma_skip_digits_embed(s, i, x, k + 1);
        }
    }
}

/// A well-formed number lexeme embedded in a larger text scans to exactly its
/// own end, when what follows cannot extend a number.
proof fn lemma_scan_num_embed(s: Seq<char>, i: int, x: Seq<char>)
    requires
        0 <= i,
        i + x.len() <= s.len(),
        s.subrange(i, i + x.len()) == x,
        is_num_lexeme(x),
        i + x.len() < s.len() ==> not_num_cont(s[i + x.len()]),
    ensures
        scan_num(s, i) == Some(i + x.len() as int),
        x.len() > 0,
        x[0] == '-' || is_digit_char(x[0]),
    decreases 0int,
{
    let e = i + x.len() as int;
    assert(forall|p: int| 0 <= p < x.len() ==> #[trigger] x[p] == s.subrange(i, e)[p]);
    assert(forall|p: int| i <= p < e ==> #[trigger] s[p] == x[p - i]);
    lemma_skip_digits_bounds(x, 0);
    let xi1: int = if 0 < x.len() && x[0] == '-' {
        1
    } else {
        0
    };
    assert(xi1 < x.len() && is_digit_char(x[xi1]));
    let si1: int = if i < s.len() && s[i] == '-' {
        i + 1
    } else {
        i
    };
    assert(s[i] == x[0]);
    assert(si1 == i + xi1);
    assert(s[si1] == x[xi1]);
    let xi2: int = if x[xi1] == '0' {
        xi1 + 1
    } else {
        skip_digits(x, xi1)
    };
    lemma_skip_digits_bounds(x, xi1);
    lemma_skip_digits_embed(s, i, x, xi1);
    let si2: int = if s[si1] == '0' {
        si1 + 1
    } else {
        skip_digits(s, si1)
    };
    assert(si2 == i + xi2);
    lemma_skip_digits_bounds(x, xi2);
    assert(xi2 <= x.len());
    if xi2 < x.len() {
        assert(s[i + xi2] == x[xi2]);
    }
    let xo3: Option<int> = if xi2 < x.len() && x[xi2] == '.' {
        if xi2 + 1 < x.len() && is_digit_char(x[xi2 + 1]) {
            Some(skip_digits(x, xi2 + 1))
        } else {
            None
        }
    } else {
        Some(xi2)
    };
    assert(xo3 is Some);
    let xi3 = xo3->Some_0;
    if xi2 < x.len() && x[xi2] == '.' {
        assert(xi2 + 1 < x.len() && is_digit_char(x[xi2 + 1]));
        assert(s[i + xi2 + 1] == x[xi2 + 1]);
        lemma_skip_digits_embed(s, i, x, xi2 + 1);
        lemma_skip_digits_bounds(x, xi2 + 1);
    } else {
        if xi2 == x.len() {
        } else {
            assert(x[xi2] != '.');
        }
    }
    let so3: Option<int> = if si2 < s.len() && s[si2] == '.' {
        if si2 + 1 < s.len() && is_digit_char(s[si2 + 1]) {
            Some(skip_digits(s, si2 + 1))
        } else {
            None
        }
    } else {
        Some(si2)
    };
    assert(so3 == Some(i + xi3)) by {
        if xi2 == x.len() {
            if si2 < s.len() {
                assert(s[si2] == s[e]);
                assert(!(s[si2] == '.'));
            }
        }
    }
    lemma_skip_digits_bounds(x, xi3);
    if xi3 < x.len() && (x[xi3] == 'e' || x[xi3] == 'E') {
        let xi4: int = if xi3 + 1 < x.len() && (x[xi3 + 1] == '+' || x[xi3 + 1] == '-') {
            xi3 + 2
        } else {
            xi3 + 1
        };
        assert(xi4 < x.len() && is_digit_char(x[xi4]));
        assert(s[i + xi3] == x[xi3]);
        if xi3 + 1 < x.len() {
            assert(s[i + xi3 + 1] == x[xi3 + 1]);
        }
        lemma_skip_digits_embed(s, i, x, xi4);
        lemma_skip_digits_bounds(x, xi4);
        assert(skip_digits(x, xi4) == x.len());
    } else {
        assert(xi3 == x.len());
        if i + xi3 < s.len() {
            assert(s[i + xi3] == s[e]);
            assert(!(s[i + xi3] == 'e' || s[i + xi3] == 'E'));
        }
    }
}

/// The first character a value renders to: never whitespace, a comma, or a
/// closing bracket, and it identifies the variant.
proof fn lemma_render_first(j: JsonV, depth: int)
    requires
        json_wf(j),
    ensures
        render_json(j, depth).len() > 0,
        !is_ws_char(render_json(j, depth)[0]),
        render_json(j, depth)[0] != ']' && render_json(j, depth)[0] != ',' && render_json(
            j,
            depth,
        )[0] != '}' && render_json(j, depth)[0] != ':',
        j is Null ==> render_json(j, depth)[0] == 'n',
        j is Bool ==> (render_json(j, depth)[0] == 't' || render_json(j, depth)[0] == 'f'),
        j is Num ==> (render_json(j, depth)[0] == '-' || is_digit_char(render_json(j, depth)[0])),
        j is Str ==> render_json(j, depth)[0] == '"',
        j is Arr ==> render_json(j, depth)[0] == '[',
        j is Obj ==> render_json(j, depth)[0] == '{',
{
    match j {
        JsonV::Num(x) => {
            assert(x.subrange(0, x.len() as int) =~= x);
            lemma_scan_num_embed(x, 0, x);
        },
        _ => {},
    }
}


/// Hex digits read back as their value.
proof fn lemma_hex_digit_val(d: int)
    requires
        0 <= d < 16,
    ensures
        is_hex_char(hex_digit_char(d)),
        hex_char_val(hex_digit_char(d)) == d,
{
}

/// One escaped character reads back as itself.
proof fn lemma_parse_escape_rt(s: Seq<char>, i: int, c: char)
    requires
        0 <= i,
        i + esc_char(c).len() <= s.len(),
        s.subrange(i, i + esc_char(c).len()) == esc_char(c),
        c == '"' || c == '\\' || (c as u32) < 32,
    ensures
        parse_escape(s, i) == Some((c, i + esc_char(c).len() as int)),
{
    let ec = esc_char(c);
    assert(forall|p: int| i <= p < i + ec.len() ==> #[trigger] s[p] == ec[p - i]);
    if c == '"' {
        assert(s[i] == '\\' && s[i + 1] == '"');
    } else if c == '\\' {
        assert(s[i] == '\\' && s[i + 1] == '\\');
    } else {
        let hi = ((c as u32) / 16) as int;
        let lo = ((c as u32) % 16) as int;
        assert(s[i] == '\\' && s[i + 1] == 'u' && s[i + 2] == '0' && s[i + 3] == '0');
        assert(s[i + 4] == hex_digit_char(hi));
        assert(s[i + 5] == hex_digit_char(lo));
        lemma_hex_digit_val(hi);
        lemma_hex_digit_val(lo);
        assert(is_hex4(s, i + 2)) by {
            assert(is_hex_char(s[i + 2]));
            assert(is_hex_char(s[i + 3]));
        }
        assert(hex4_val(s, i + 2) == hi * 0x10 + lo) by {
            assert(hex_char_val(s[i + 2]) == 0);
            assert(hex_char_val(s[i + 3]) == 0);
        }
        assert(hi * 0x10 + lo == c as u32) by {
            assert((c as u32) / 16 * 16 + (c as u32) % 16 == (c as u32));
        }
        let v = hex4_val(s, i + 2);
        assert(v < 32);
        assert(!(0xD800 <= v <= 0xDBFF));
        assert(!(0xDC00 <= v <= 0xDFFF));
        assert(parse_escape(s, i) == Some((v as char, i + 6)));
        assert((v as char) == c) by {
            assert(v == (c as u32) as int);
            assert((c as u32) < 0xD800);
            assert((c as u32) as char == c);
        }
    }
}

/// The escaped form of a text, followed by a closing quote, reads back as
/// the text itself.
proof fn lemma_parse_str_rt(s: Seq<char>, i: int, t: Seq<char>)
    requires
        0 <= i,
        i + escape_seq(t).len() < s.len(),
        s.subrange(i, i + escape_seq(t).len()) == escape_seq(t),
        s[i + escape_seq(t).len()] == '"',
    ensures
        parse_str_body(s, i) == Some((t, i + escape_seq(t).len() + 1)),
    decreases t.len(),
{
    let et = escape_seq(t);
    assert(forall|p: int| i <= p < i + et.len() ==> #[trigger] s[p] == et[p - i]);
    if t.len() == 0 {
        assert(et.len() == 0);
        assert(s[i] == '"');
    } else {
        let c = t[0];
        let ec = esc_char(c);
        let rest = escape_seq(t.drop_first());
        assert(et == ec + rest);
        assert(forall|p: int| 0 <= p < ec.len() ==> #[trigger] ec[p] == et[p]);
        assert(s.subrange(i, i + ec.len()) =~= ec);
        assert(s.subrange(i + ec.len(), i + ec.len() + rest.len()) =~= rest);
        lemma_parse_str_rt(s, i + ec.len(), t.drop_first());
        if c == '"' || c == '\\' || (c as u32) < 32 {
            lemma_parse_escape_rt(s, i, c);
            assert(s[i] == '\\');
            assert(parse_str_body(s, i) == Some(
                (seq![c] + t.drop_first(), i + et.len() + 1),
            ));
            assert(seq![c] + t.drop_first() =~= t);
        } else {
            assert(ec =~= seq![c]);
            assert(s[i] == c);
            assert(s[i] != '"' && s[i] != '\\');
            assert(!((s[i] as u32) < 32));
            assert(parse_str_body(s, i) == Some(
                (seq![c] + t.drop_first(), i + et.len() + 1),
            ));
            assert(seq![c] + t.drop_first() =~= t);
        }
    }
}


/// Every character of an indentation run is whitespace.
proof fn lemma_nl_indent_ws(depth: int)
    ensures
        nl_indent(depth).len() >= 1,
        forall|q: int| 0 <= q < nl_indent(depth).len() ==> is_ws_char(#[trigger] nl_indent(depth)[q]),
{
}

/// A rendered value, embedded in a larger text and not followed by anything
/// that could extend a number, parses back to exactly that value.
#[verifier::rlimit(100)]
#[verifier::spinoff_prover]
proof fn lemma_parse_render_value(j: JsonV, depth: int, s: Seq<char>, i: int)
    requires
        json_wf(j),
        0 <= i,
        i + render_json(j, depth).len() <= s.len(),
        s.subrange(i, i + render_json(j, depth).len()) == render_json(j, depth),
        (j is Num && i + render_json(j, depth).len() < s.len()) ==> not_num_cont(
            s[i + render_json(j, depth).len()],
        ),
    ensures
        spec_parse_value(s, i) == Some((j, i + render_json(j, depth).len() as int)),
    decreases j, 2int,
{
    let r = render_json(j, depth);
    let e = i + r.len() as int;
    lemma_render_first(j, depth);
    assert(forall|p: int| i <= p < e ==> #[trigger] s[p] == r[p - i]);
    match j {
        JsonV::Null => {
            assert(s[i] == 'n' && s[i + 1] == 'u' && s[i + 2] == 'l' && s[i + 3] == 'l');
        },
        JsonV::Bool(b) => {
            if b {
                assert(s[i] == 't' && s[i + 1] == 'r' && s[i + 2] == 'u' && s[i + 3] == 'e');
            } else {
                assert(s[i] == 'f' && s[i + 1] == 'a' && s[i + 2] == 'l' && s[i + 3] == 's' && s[i
                    + 4] == 'e');
            }
        },
        JsonV::Num(x) => {
            assert(s.subrange(i, i + x.len()) =~= x);
            lemma_scan_num_embed(s, i, x);
            assert(s[i] == '-' || is_digit_char(s[i]));
            assert(s[i] != 'n' && s[i] != 't' && s[i] != 'f' && s[i] != '"');
            assert(s.subrange(i, e) =~= x);
        },
        JsonV::Str(t) => {
            assert(s[i] == '"');
            let et = escape_seq(t);
            assert(r == seq!['"'] + et + seq!['"']);
            assert(s.subrange(i + 1, i + 1 + et.len()) =~= et);
            assert(s[i + 1 + et.len()] == '"');
            lemma_parse_str_rt(s, i + 1, t);
        },
        JsonV::Arr(items) => {
            assert(s[i] == '[');
            if items.len() == 0 {
                assert(s[i + 1] == ']');
                lemma_skip_ws_run(s, i + 1, i + 1);
                assert(skip_ws(s, i + 1) == i + 1);
                assert(items =~= Seq::<JsonV>::empty());
            } else {
                let ri = render_items(items, depth);
                let nld = nl_indent(depth);
                assert(r == seq!['['] + ri + nld + seq![']']);
                assert(s.subrange(i + 1, i + 1 + ri.len()) =~= ri);
                assert(s.subrange(i + 1 + ri.len(), i + 1 + ri.len() + nld.len()) =~= nld);
                assert(s[i + 1 + ri.len() + nld.len()] == ']');
                lemma_value_arr_ne(items, depth, s, i + 1);
            }
        },
        JsonV::Obj(fields) => {
            assert(s[i] == '{');
            if fields.len() == 0 {
                assert(s[i + 1] == '}');
                lemma_skip_ws_run(s, i + 1, i + 1);
                assert(skip_ws(s, i + 1) == i + 1);
                assert(fields =~= Seq::<(Seq<char>, JsonV)>::empty());
            } else {
                let rf = render_fields(fields, depth);
                let nld = nl_indent(depth);
                assert(r == seq!['{'] + rf + nld + seq!['}']);
                assert(s.subrange(i + 1, i + 1 + rf.len()) =~= rf);
                assert(s.subrange(i + 1 + rf.len(), i + 1 + rf.len() + nld.len()) =~= nld);
                assert(s[i + 1 + rf.len() + nld.len()] == '}');
                lemma_value_obj_ne(fields, depth, s, i + 1);
            }
        },
    }
}

/// After `[`, the skip to the first member misses the closing bracket, and
/// the member list parses back.
#[verifier::rlimit(100)]
#[verifier::spinoff_prover]
proof fn lemma_value_arr_ne(items: Seq<JsonV>, depth: int, s: Seq<char>, a: int)
    requires
        items.len() > 0,
        forall|k: int| 0 <= k < items.len() ==> json_wf(#[trigger] items[k]),
        0 <= a,
        a + render_items(items, depth).len() + nl_indent(depth).len() + 1 <= s.len(),
        s.subrange(a, a + render_items(items, depth).len()) == render_items(items, depth),
        s.subrange(
            a + render_items(items, depth).len(),
            a + render_items(items, depth).len() + nl_indent(depth).len(),
        ) == nl_indent(depth),
        s[a + render_items(items, depth).len() + nl_indent(depth).len()] == ']',
    ensures
        spec_parse_items(s, a) == Some(
            (items, a + render_items(items, depth).len() + nl_indent(depth).len() + 1),
        ),
        a <= skip_ws(s, a) < s.len(),
        s[skip_ws(s, a)] != ']',
        s[skip_ws(s, a)] != '}',
    decreases items, 3int,
{
    lemma_parse_render_items(items, depth, s, a);
    let ri = render_items(items, depth);
    let d2 = next_depth(depth);
    let rv = render_json(items[0], d2);
    let nld2 = nl_indent(d2);
    assert(forall|p: int| a <= p < a + ri.len() ==> #[trigger] s[p] == ri[p - a]);
    let head = nld2 + rv;
    assert(forall|q: int| 0 <= q < head.len() ==> #[trigger] ri[q] == head[q]) by {
        if items.len() == 1 {
            assert(ri == head);
        } else {
            assert(ri == head + seq![','] + render_items(items.drop_first(), depth));
        }
    }
    lemma_nl_indent_ws(d2);
    lemma_render_first(items[0], d2);
    assert(forall|q: int| 0 <= q < nld2.len() ==> is_ws_char(#[trigger] ri[q]));
    assert(forall|p: int| a <= p < a + nld2.len() ==> is_ws_char(#[trigger] s[p]));
    assert(ri[nld2.len() as int] == rv[0]);
    assert(s[a + nld2.len()] == rv[0]);
    assert(!is_ws_char(s[a + nld2.len()]));
    lemma_skip_ws_run(s, a, a + nld2.len());
    assert(skip_ws(s, a) == a + nld2.len());
}

/// After `{`, the skip to the first member misses the closing brace, and the
/// member list parses back.
#[verifier::rlimit(100)]
#[verifier::spinoff_prover]
proof fn lemma_value_obj_ne(fields: Seq<(Seq<char>, JsonV)>, depth: int, s: Seq<char>, a: int)
    requires
        fields.len() > 0,
        forall|k: int| 0 <= k < fields.len() ==> json_wf(#[trigger] fields[k].1),
        0 <= a,
        a + render_fields(fields, depth).len() + nl_indent(depth).len() + 1 <= s.len(),
        s.subrange(a, a + render_fields(fields, depth).len()) == render_fields(fields, depth),
        s.subrange(
            a + render_fields(fields, depth).len(),
            a + render_fields(fields, depth).len() + nl_indent(depth).len(),
        ) == nl_indent(depth),
        s[a + render_fields(fields, depth).len() + nl_indent(depth).len()] == '}',
    ensures
        spec_parse_fields(s, a) == Some(
            (fields, a + render_fields(fields, depth).len() + nl_indent(depth).len() + 1),
        ),
        a <= skip_ws(s, a) < s.len(),
        s[skip_ws(s, a)] == '"',
    decreases fields, 3int,
{
    lemma_parse_render_fields(fields, depth, s, a);
    let rf = render_fields(fields, depth);
    let d2 = next_depth(depth);
    let nld2 = nl_indent(d2);
    assert(forall|p: int| a <= p < a + rf.len() ==> #[trigger] s[p] == rf[p - a]);
    let key = fields[0].0;
    let head = nld2 + seq!['"'] + escape_seq(key) + seq!['"', ':', ' '] + render_json(
        fields[0].1,
        d2,
    );
    assert(forall|q: int| 0 <= q < head.len() ==> #[trigger] rf[q] == head[q]) by {
        if fields.len() == 1 {
            assert(rf == head);
        } else {
            assert(rf == head + seq![','] + render_fields(fields.drop_first(), depth));
        }
    }
    lemma_nl_indent_ws(d2);
    assert(forall|q: int| 0 <= q < nld2.len() ==> is_ws_char(#[trigger] rf[q]));
    assert(forall|p: int| a <= p < a + nld2.len() ==> is_ws_char(#[trigger] s[p]));
    assert(rf[nld2.len() as int] == '"');
    assert(s[a + nld2.len()] == '"');
    assert(!is_ws_char(s[a + nld2.len()]));
    lemma_skip_ws_run(s, a, a + nld2.len());
    assert(skip_ws(s, a) == a + nld2.len());
}

/// Rendered array members followed by the closing line parse back to exactly
/// those members.
#[verifier::rlimit(100)]
#[verifier::spinoff_prover]
proof fn lemma_parse_render_items(items: Seq<JsonV>, depth: int, s: Seq<char>, i: int)
    requires
        items.len() > 0,
        forall|k: int| 0 <= k < items.len() ==> json_wf(#[trigger] items[k]),
        0 <= i,
        i + render_items(items, depth).len() + nl_indent(depth).len() + 1 <= s.len(),
        s.subrange(i, i + render_items(items, depth).len()) == render_items(items, depth),
        s.subrange(
            i + render_items(items, depth).len(),
            i + render_items(items, depth).len() + nl_indent(depth).len(),
        ) == nl_indent(depth),
        s[i + render_items(items, depth).len() + nl_indent(depth).len()] == ']',
    ensures
        spec_parse_items(s, i) == Some(
            (items, i + render_items(items, depth).len() + nl_indent(depth).len() + 1),
        ),
    decreases items, 1int,
{
    let ri = render_items(items, depth);
    let nld = nl_indent(depth);
    let d2 = next_depth(depth);
    let rv = render_json(items[0], d2);
    let nld2 = nl_indent(d2);
    let close = i + ri.len() + nld.len() as int;
    assert(forall|p: int| i <= p < i + ri.len() ==> #[trigger] s[p] == ri[p - i]);
    assert(forall|p: int| i + ri.len() <= p < close ==> #[trigger] s[p] == nld[p - i - ri.len()]);
    lemma_nl_indent_ws(depth);
    lemma_nl_indent_ws(d2);
    lemma_render_first(items[0], d2);
    let head = nld2 + rv;
    assert(ri == if items.len() == 1 {
        head
    } else {
        head + seq![','] + render_items(items.drop_first(), depth)
    });
    assert(forall|q: int| 0 <= q < head.len() ==> #[trigger] ri[q] == head[q]);
    assert(forall|q: int| 0 <= q < nld2.len() ==> is_ws_char(#[trigger] ri[q]));
    assert(forall|p: int| i <= p < i + nld2.len() ==> is_ws_char(#[trigger] s[p]));
    let i0 = i + nld2.len() as int;
    assert(s[i0] == rv[0]);
    lemma_skip_ws_run(s, i, i0);
    assert(skip_ws(s, i) == i0);
    assert(s.subrange(i0, i0 + rv.len()) =~= rv);
    let e1 = i0 + rv.len() as int;
    if items.len() == 1 {
        assert(e1 == i + ri.len());
        assert(s[e1] == nld[0]);
        assert(items[0] is Num && e1 < s.len() ==> not_num_cont(s[e1])) by {
            assert(nld[0] == '\n');
        }
        lemma_parse_render_value(items[0], d2, s, i0);
        assert(spec_parse_value(s, i0) == Some((items[0], e1)));
        assert(forall|p: int| e1 <= p < close ==> is_ws_char(#[trigger] s[p]));
        assert(!is_ws_char(s[close]));
        lemma_skip_ws_run(s, e1, close);
        assert(skip_ws(s, e1) == close);
        assert(s[close] == ']');
        assert(seq![items[0]] =~= items);
    } else {
        let rest = items.drop_first();
        let rr = render_items(rest, depth);
        assert(ri == head + seq![','] + rr);
        assert(ri[head.len() as int] == ',');
        assert(s[e1] == ',');
        assert(items[0] is Num ==> not_num_cont(s[e1]));
        lemma_parse_render_value(items[0], d2, s, i0);
        assert(spec_parse_value(s, i0) == Some((items[0], e1)));
        lemma_skip_ws_run(s, e1, e1);
        assert(skip_ws(s, e1) == e1);
        let inext = e1 + 1;
        assert(s.subrange(inext, inext + rr.len()) =~= rr);
        assert(inext + rr.len() == i + ri.len());
        assert(s.subrange(inext + rr.len(), inext + rr.len() + nld.len()) =~= nld);
        assert(forall|k: int| 0 <= k < rest.len() ==> json_wf(#[trigger] rest[k]));
        lemma_parse_render_items(rest, depth, s, inext);
        assert(spec_parse_items(s, inext) == Some((rest, close + 1)));
        assert(seq![items[0]] + rest =~= items);
    }
}

/// The first member of a rendered object: the skip lands on its key, the key
/// and the value parse back, and the given index arithmetic holds.
#[verifier::rlimit(100)]
#[verifier::spinoff_prover]
proof fn lemma_fields_header(fields: Seq<(Seq<char>, JsonV)>, depth: int, s: Seq<char>, i: int)
    requires
        fields.len() > 0,
        forall|k: int| 0 <= k < fields.len() ==> json_wf(#[trigger] fields[k].1),
        0 <= i,
        i + render_fields(fields, depth).len() + nl_indent(depth).len() + 1 <= s.len(),
        s.subrange(i, i + render_fields(fields, depth).len()) == render_fields(fields, depth),
        s.subrange(
            i + render_fields(fields, depth).len(),
            i + render_fields(fields, depth).len() + nl_indent(depth).len(),
        ) == nl_indent(depth),
    ensures
        ({
            let d2 = next_depth(depth);
            let i0 = i + nl_indent(d2).len() as int;
            let ik = i0 + 1 + escape_seq(fields[0].0).len() + 1;
            let iv = ik + 2;
            let e1 = iv + render_json(fields[0].1, d2).len() as int;
            &&& skip_ws(s, i) == i0
            &&& i0 < s.len()
            &&& s[i0] == '"'
            &&& parse_str_body(s, i0 + 1) == Some((fields[0].0, ik))
            &&& ik < s.len()
            &&& s[ik] == ':'
            &&& skip_ws(s, ik) == ik
            &&& skip_ws(s, ik + 1) == iv
            &&& spec_parse_value(s, iv) == Some((fields[0].1, e1))
            &&& e1 <= s.len()
            &&& (fields.len() == 1 ==> e1 == i + render_fields(fields, depth).len())
            &&& (fields.len() > 1 ==> e1 < s.len() && s[e1] == ',' && e1 + 1 + render_fields(
                fields.drop_first(),
                depth,
            ).len() == i + render_fields(fields, depth).len())
        }),
    decreases fields, 0int,
{
    let rf = render_fields(fields, depth);
    let d2 = next_depth(depth);
    let key = fields[0].0;
    let ek = escape_seq(key);
    let rv = render_json(fields[0].1, d2);
    let nld2 = nl_indent(d2);
    assert(forall|p: int| i <= p < i + rf.len() ==> #[trigger] s[p] == rf[p - i]);
    lemma_nl_indent_ws(d2);
    lemma_render_first(fields[0].1, d2);
    let head = nld2 + seq!['"'] + ek + seq!['"', ':', ' '] + rv;
    assert(rf == if fields.len() == 1 {
        head
    } else {
        head + seq![','] + render_fields(fields.drop_first(), depth)
    });
    assert(forall|q: int| 0 <= q < head.len() ==> #[trigger] rf[q] == head[q]);
    assert(forall|q: int| 0 <= q < nld2.len() ==> is_ws_char(#[trigger] rf[q]));
    assert(forall|p: int| i <= p < i + nld2.len() ==> is_ws_char(#[trigger] s[p]));
    let i0 = i + nld2.len() as int;
    assert(s[i0] == '"');
    lemma_skip_ws_run(s, i, i0);
    assert(s.subrange(i0 + 1, i0 + 1 + ek.len()) =~= ek);
    assert(s[i0 + 1 + ek.len()] == '"');
    lemma_parse_str_rt(s, i0 + 1, key);
    let ik = i0 + 1 + ek.len() + 1;
    assert(s[ik] == ':');
    lemma_skip_ws_run(s, ik, ik);
    assert(s[ik + 1] == ' ');
    let iv = ik + 2;
    assert(s[iv] == rv[0]);
    assert(!is_ws_char(s[iv]));
    lemma_skip_ws_run(s, ik + 1, iv);
    assert(s.subrange(iv, iv + rv.len()) =~= rv);
    let e1 = iv + rv.len() as int;
    if fields.len() == 1 {
        assert(e1 == i + rf.len());
        assert(s[e1] == nl_indent(depth)[0]) by {
            assert(s.subrange(
                i + rf.len(),
                i + rf.len() + nl_indent(depth).len(),
            )[0] == nl_indent(depth)[0]);
        }
        assert(fields[0].1 is Num && e1 < s.len() ==> not_num_cont(s[e1])) by {
            assert(nl_indent(depth)[0] == '\n');
        }
        lemma_parse_render_value(fields[0].1, d2, s, iv);
    } else {
        assert(rf[head.len() as int] == ',');
        assert(s[e1] == ',');
        assert(fields[0].1 is Num ==> not_num_cont(s[e1]));
        lemma_parse_render_value(fields[0].1, d2, s, iv);
    }
}

/// Rendered object members followed by the closing line parse back to exactly
/// those members.
#[verifier::rlimit(100)]
#[verifier::spinoff_prover]
proof fn lemma_parse_render_fields(
    fields: Seq<(Seq<char>, JsonV)>,
    depth: int,
    s: Seq<char>,
    i: int,
)
    requires
        fields.len() > 0,
        forall|k: int| 0 <= k < fields.len() ==> json_wf(#[trigger] fields[k].1),
        0 <= i,
        i + render_fields(fields, depth).len() + nl_indent(depth).len() + 1 <= s.len(),
        s.subrange(i, i + render_fields(fields, depth).len()) == render_fields(fields, depth),
        s.subrange(
            i + render_fields(fields, depth).len(),
            i + render_fields(fields, depth).len() + nl_indent(depth).len(),
        ) == nl_indent(depth),
        s[i + render_fields(fields, depth).len() + nl_indent(depth).len()] == '}',
    ensures
        spec_parse_fields(s, i) == Some(
            (fields, i + render_fields(fields, depth).len() + nl_indent(depth).len() + 1),
        ),
    decreases fields, 1int,
{
    let rf = render_fields(fields, depth);
    let nld = nl_indent(depth);
    let d2 = next_depth(depth);
    let key = fields[0].0;
    let ek = escape_seq(key);
    let rv = render_json(fields[0].1, d2);
    let nld2 = nl_indent(d2);
    let close = i + rf.len() + nld.len() as int;
    lemma_fields_header(fields, depth, s, i);
    lemma_nl_indent_ws(depth);
    assert(forall|p: int| i + rf.len() <= p < close ==> #[trigger] s[p] == nld[p - i - rf.len()]);
    let i0 = i + nld2.len() as int;
    let ik = i0 + 1 + ek.len() + 1;
    let iv = ik + 2;
    let e1 = iv + rv.len() as int;
    if fields.len() == 1 {
        assert(forall|p: int| e1 <= p < close ==> is_ws_char(#[trigger] s[p]));
        assert(!is_ws_char(s[close]));
        lemma_skip_ws_run(s, e1, close);
        assert(skip_ws(s, e1) == close);
        assert(s[close] == '}');
        assert(seq![(key, fields[0].1)] =~= fields);
        assert(fields[0] == (key, fields[0].1));
    } else {
        let rest = fields.drop_first();
        let rr = render_fields(rest, depth);
        assert(s[e1] == ',');
        lemma_skip_ws_run(s, e1, e1);
        assert(skip_ws(s, e1) == e1);
        let inext = e1 + 1;
        assert(inext + rr.len() == i + rf.len());
        assert(s.subrange(inext, inext + rr.len()) =~= rr) by {
            assert(rf == nld2 + seq!['"'] + ek + seq!['"', ':', ' '] + rv + seq![','] + rr);
            assert(forall|p: int| i <= p < i + rf.len() ==> #[trigger] s[p] == rf[p - i]);
        }
        assert(s.subrange(inext + rr.len(), inext + rr.len() + nld.len()) =~= nld);
        assert(forall|k: int| 0 <= k < rest.len() ==> json_wf(#[trigger] rest[k].1));
        lemma_parse_render_fields(rest, depth, s, inext);
        assert(spec_parse_fields(s, inext) == Some((rest, close + 1)));
        assert(seq![(key, fields[0].1)] + rest =~= fields);
        assert(fields[0] == (key, fields[0].1));
    }
}

/// The text a well-formed document renders to parses back to the document.
pub proof fn lemma_doc_round_trip(j: JsonV)
    requires
        json_wf(j),
    ensures
        spec_parse_doc(render_doc(j)) == Some(j),
{
    let s = render_doc(j);
    assert(s.subrange(0, s.len() as int) =~= s);
    lemma_render_first(j, 0);
    lemma_skip_ws_run(s, 0, 0);
    assert(skip_ws(s, 0) == 0);
    lemma_parse_render_value(j, 0, s, 0);
    assert(spec_parse_value(s, 0) == Some((j, s.len() as int)));
    lemma_skip_ws_run(s, s.len() as int, s.len() as int);
    assert(skip_ws(s, s.len() as int) == s.len());
}


} // verus!
