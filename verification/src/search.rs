//! Filtering, sorting and formatting of server listings.

use vstd::prelude::*;
use vstd::multiset::Multiset;
use crate::strutil::{
    str_to_chars, string_to_chars, chars_to_string, chars_contains, chars_eq, chars_to_lower,
    lower_seq, seq_has,
};
use crate::config::{first_lookup, pairs_view, strs_view};

verus! {

// ---------------------------------------------------------------------------
// Data model
// ---------------------------------------------------------------------------

/// What a listing is filtered by.
pub struct SearchCriteria {
    pub text: Option<String>,
    pub tags: Vec<String>,
    pub platform: Option<String>,
    pub author: Option<String>,
    pub requires: Option<String>,
}

/// How a listing is sorted and shown.
pub struct ListOptions {
    pub sort: Option<String>,
    pub desc: bool,
    pub format: Option<String>,
    pub show_requirements: bool,
    pub json: bool,
}

/// One row of a server listing.
pub struct ServerInfo {
    pub name: String,
    pub command: String,
    pub args: Vec<String>,
    pub env: Option<Vec<(String, String)>>,
    pub template: Option<String>,
    pub tags: Vec<String>,
    pub platform: String,
    pub author: Option<String>,
    pub requirements: Option<Vec<(String, String)>>,
}

impl ServerInfo {
    /// A listing row for one configured server; URL-style entries show their
    /// URL in the command column.
    pub fn from_server(name: String, server: &crate::config::McpServer, platform: String) -> (r:
        ServerInfo)
        ensures
            r.name@ == name@,
            r.platform@ == platform@,
            server@.command matches Some(c) ==> r.command@ == c,
            server@.command is None ==> (server@.url matches Some(u) ==> r.command@ == u),
            server@.command is None && server@.url is None ==> r.command@.len() == 0,
    {
        let command = match &server.command {
            Some(c) => crate::config::clone_string(c),
            None => match &server.url {
                Some(u) => crate::config::clone_string(u),
                None => String::new(),
            },
        };
        let args = match &server.args {
            Some(a) => {
                let mut out: Vec<String> = Vec::new();
                let mut i: usize = 0;
                while i < a.len()
                    invariant
                        i <= a@.len(),
                    decreases a@.len() - i,
                {
                    out.push(crate::config::clone_string(&a[i]));
                    i = i + 1;
                }
                out
            },
            None => Vec::new(),
        };
        let env = match &server.env {
            Some(e) => {
                let mut out: Vec<(String, String)> = Vec::new();
                let mut i: usize = 0;
                while i < e.len()
                    invariant
                        i <= e@.len(),
                    decreases e@.len() - i,
                {
                    out.push(
                        (
                            crate::config::clone_string(&e[i].0),
                            crate::config::clone_string(&e[i].1),
                        ),
                    );
                    i = i + 1;
                }
                Some(out)
            },
            None => None,
        };
        ServerInfo {
            name,
            command,
            args,
            env,
            template: None,
            tags: Vec::new(),
            platform,
            author: None,
            requirements: None,
        }
    }
}

// ---------------------------------------------------------------------------
// Filtering
// ---------------------------------------------------------------------------

/// Whether a row passes the platform, author, requirement and tag filters.
pub open spec fn matches_criteria_spec(s: ServerInfo, c: SearchCriteria) -> bool {
    &&& (match c.platform {
        Some(p) => s.platform@ == p@,
        None => true,
    })
    &&& (match c.author {
        Some(a) => match s.author {
            Some(sa) => sa@ == a@,
            None => false,
        },
        None => true,
    })
    &&& (match c.requires {
        Some(q) => match s.requirements {
            Some(reqs) => first_lookup(pairs_view(reqs@), q@) is Some,
            None => false,
        },
        None => true,
    })
    &&& (c.tags@.len() == 0 || exists|i: int|
        0 <= i < c.tags@.len() && strs_view(s.tags@).contains(#[trigger] c.tags@[i]@))
}

/// The platform, author and requirement filters alone.
pub open spec fn passes_pre_tags(s: ServerInfo, c: SearchCriteria) -> bool {
    &&& (match c.platform {
        Some(p) => s.platform@ == p@,
        None => true,
    })
    &&& (match c.author {
        Some(a) => match s.author {
            Some(sa) => sa@ == a@,
            None => false,
        },
        None => true,
    })
    &&& (match c.requires {
        Some(q) => match s.requirements {
            Some(reqs) => first_lookup(pairs_view(reqs@), q@) is Some,
            None => false,
        },
        None => true,
    })
}

/// Checks a row against the platform, author, requirement and tag filters.
pub fn matches_criteria(server: &ServerInfo, criteria: &SearchCriteria) -> (r: bool)
    ensures
        r == matches_criteria_spec(*server, *criteria),
{
    match &criteria.platform {
        Some(p) => {
            let pv = string_to_chars(p);
            let sv = string_to_chars(&server.platform);
            if !chars_eq(&sv, &pv) {
                return false;
            }
        },
        None => {},
    }
    match &criteria.author {
        Some(a) => {
            match &server.author {
                Some(sa) => {
                    let av = string_to_chars(a);
                    let sav = string_to_chars(sa);
                    if !chars_eq(&sav, &av) {
                        return false;
                    }
                },
                None => {
                    return false;
                },
            }
        },
        None => {},
    }
    match &criteria.requires {
        Some(q) => {
            match &server.requirements {
                Some(reqs) => {
                    let qv = string_to_chars(q);
                    let mut i: usize = 0;
                    let ghost rv = pairs_view(reqs@);
                    proof {
                        assert(rv.skip(0) =~= rv);
                    }
                    let mut found = false;
                    while i < reqs.len()
                        invariant
                            i <= reqs@.len(),
                            rv == pairs_view(reqs@),
                            qv@ == q@,
                            !found ==> first_lookup(rv, q@) == first_lookup(
                                rv.skip(i as int),
                                q@,
                            ),
                            found ==> first_lookup(rv, q@) is Some,
                        decreases reqs@.len() - i,
                    {
                        proof {
                            assert(rv.skip(i as int)[0] == rv[i as int]);
                            assert(rv.skip(i as int).drop_first() =~= rv.skip(i + 1));
                        }
                        let kv = string_to_chars(&reqs[i].0);
                        if !found && chars_eq(&kv, &qv) {
                            found = true;
                        }
                        i = i + 1;
                    }
                    proof {
                        if !found {
                            assert(rv.skip(i as int).len() == 0);
                        }
                    }
                    if !found {
                        return false;
                    }
                },
                None => {
                    return false;
                },
            }
        },
        None => {},
    }
    if criteria.tags.len() == 0 {
        return true;
    }
    proof {
        assert(passes_pre_tags(*server, *criteria));
    }
    let mut i: usize = 0;
    while i < criteria.tags.len()
        invariant
            i <= criteria.tags@.len(),
            passes_pre_tags(*server, *criteria),
            criteria.tags@.len() > 0,
            forall|k: int|
                0 <= k < i ==> !strs_view(server.tags@).contains(#[trigger] criteria.tags@[k]@),
        decreases criteria.tags@.len() - i,
    {
        let tv = string_to_chars(&criteria.tags[i]);
        let mut j: usize = 0;
        while j < server.tags.len()
            invariant
                j <= server.tags@.len(),
                passes_pre_tags(*server, *criteria),
                criteria.tags@.len() > 0,
                i < criteria.tags@.len(),
                tv@ == criteria.tags@[i as int]@,
                forall|m: int| 0 <= m < j ==> #[trigger] strs_view(server.tags@)[m] != tv@,
            decreases server.tags@.len() - j,
        {
            let sv = string_to_chars(&server.tags[j]);
            if chars_eq(&sv, &tv) {
                proof {
                    assert(strs_view(server.tags@)[j as int] == tv@);
                    assert(strs_view(server.tags@).contains(criteria.tags@[i as int]@));
                }
                return true;
            }
            j = j + 1;
        }
        proof {
            assert forall|m: int|
                0 <= m < strs_view(server.tags@).len() implies #[trigger] strs_view(
                server.tags@,
            )[m] != tv@ by {}
            assert(!strs_view(server.tags@).contains(criteria.tags@[i as int]@));
        }
        i = i + 1;
    }
    false
}

/// A row passes the free-text filter when its name, command or any argument
/// contains the lowercased query.
pub open spec fn matches_text_spec(s: ServerInfo, q: Seq<char>) -> bool {
    seq_has(lower_seq(s.name@), q) || seq_has(lower_seq(s.command@), q) || exists|i: int|
        0 <= i < s.args@.len() && seq_has(lower_seq(#[trigger] s.args@[i]@), q)
}

/// A row passes the whole filter.
pub open spec fn passes_filter(s: ServerInfo, c: SearchCriteria) -> bool {
    matches_criteria_spec(s, c) && (match c.text {
        Some(t) => matches_text_spec(s, lower_seq(t@)),
        None => true,
    })
}

fn matches_text(server: &ServerInfo, q: &Vec<char>) -> (r: bool)
    ensures
        r == matches_text_spec(*server, q@),
{
    let nv = string_to_chars(&server.name);
    let nl = chars_to_lower(&nv);
    if chars_contains(&nl, q) {
        return true;
    }
    let cv = string_to_chars(&server.command);
    let cl = chars_to_lower(&cv);
    if chars_contains(&cl, q) {
        return true;
    }
    let mut i: usize = 0;
    while i < server.args.len()
        invariant
            i <= server.args@.len(),
            forall|k: int| 0 <= k < i ==> !seq_has(lower_seq(#[trigger] server.args@[k]@), q@),
        decreases server.args@.len() - i,
    {
        let av = string_to_chars(&server.args[i]);
        let al = chars_to_lower(&av);
        if chars_contains(&al, q) {
            return true;
        }
        i = i + 1;
    }
    false
}

/// Turns configured servers into listing rows and keeps those that pass the
/// criteria, preserving order.
pub fn filter_servers(
    servers: Vec<(String, crate::config::McpServer)>,
    criteria: &SearchCriteria,
    platform: &String,
) -> (r: Vec<ServerInfo>)
    ensures
        forall|k: int| 0 <= k < r@.len() ==> passes_filter(#[trigger] r@[k], *criteria),
{
    let mut out: Vec<ServerInfo> = Vec::new();
    let qv: Option<Vec<char>> = match &criteria.text {
        Some(t) => {
            let tv = string_to_chars(t);
            Some(chars_to_lower(&tv))
        },
        None => None,
    };
    let mut i: usize = 0;
    while i < servers.len()
        invariant
            i <= servers@.len(),
            forall|k: int| 0 <= k < out@.len() ==> passes_filter(#[trigger] out@[k], *criteria),
            criteria.text matches Some(t) ==> (qv matches Some(qq) && qq@ == lower_seq(t@)),
            criteria.text is None ==> qv is None,
        decreases servers@.len() - i,
    {
        let name = crate::config::clone_string(&servers[i].0);
        let info = ServerInfo::from_server(
            name,
            &servers[i].1,
            crate::config::clone_string(platform),
        );
        if matches_criteria(&info, criteria) {
            let keep = match &qv {
                Some(q) => matches_text(&info, q),
                None => true,
            };
            if keep {
                out.push(info);
            }
        }
        i = i + 1;
    }
    out
}

// ---------------------------------------------------------------------------
// Sorting
// ---------------------------------------------------------------------------

/// Lexicographic order on texts, by character code.
pub open spec fn lex_leq(a: Seq<char>, b: Seq<char>) -> bool
    decreases a.len(),
{
    if a.len() == 0 {
        true
    } else if b.len() == 0 {
        false
    } else if a[0] != b[0] {
        a[0] < b[0]
    } else {
        lex_leq(a.drop_first(), b.drop_first())
    }
}

pub proof fn lemma_lex_total(a: Seq<char>, b: Seq<char>)
    ensures
        lex_leq(a, b) || lex_leq(b, a),
    decreases a.len(),
{
    if a.len() > 0 && b.len() > 0 && a[0] == b[0] {
        lemma_lex_total(a.drop_first(), b.drop_first());
    }
}

pub proof fn lemma_lex_refl(a: Seq<char>)
    ensures
        lex_leq(a, a),
    decreases a.len(),
{
    if a.len() > 0 {
        lemma_lex_refl(a.drop_first());
    }
}

pub proof fn lemma_lex_trans(a: Seq<char>, b: Seq<char>, c: Seq<char>)
    requires
        lex_leq(a, b),
        lex_leq(b, c),
    ensures
        lex_leq(a, c),
    decreases a.len(),
{
    if a.len() > 0 && b.len() > 0 && c.len() > 0 {
        if a[0] == b[0] && b[0] == c[0] {
            lemma_lex_trans(a.drop_first(), b.drop_first(), c.drop_first());
        }
    }
}

fn lex_leq_exec(a: &Vec<char>, b: &Vec<char>) -> (r: bool)
    ensures
        r == lex_leq(a@, b@),
{
    proof {
        assert(a@.skip(0) =~= a@);
        assert(b@.skip(0) =~= b@);
    }
    let mut i: usize = 0;
    while i < a.len() && i < b.len()
        invariant
            i <= a@.len(),
            i <= b@.len(),
            forall|k: int| 0 <= k < i ==> a@[k] == b@[k],
            lex_leq(a@, b@) == lex_leq(a@.skip(i as int), b@.skip(i as int)),
        decreases a@.len() - i,
    {
        proof {
            assert(a@.skip(i as int)[0] == a@[i as int]);
            assert(b@.skip(i as int)[0] == b@[i as int]);
            assert(a@.skip(i as int).drop_first() =~= a@.skip(i + 1));
            assert(b@.skip(i as int).drop_first() =~= b@.skip(i + 1));
        }
        if a[i] != b[i] {
            return a[i] < b[i];
        }
        i = i + 1;
    }
    proof {
        if i >= a@.len() {
            assert(a@.skip(i as int).len() == 0);
        } else {
            assert(b@.skip(i as int).len() == 0);
            assert(a@.skip(i as int).len() > 0);
        }
    }
    i >= a.len()
}

/// Which column a listing is sorted by.
pub open spec fn sort_key(s: ServerInfo, field: Seq<char>) -> Seq<char> {
    if field == "command"@ {
        s.command@
    } else if field == "author"@ {
        match s.author {
            Some(a) => a@,
            None => Seq::empty(),
        }
    } else {
        s.name@
    }
}

/// Rows in weakly ascending key order.
pub open spec fn sorted_by_key(rows: Seq<ServerInfo>, field: Seq<char>) -> bool {
    forall|i: int, j: int|
        0 <= i < j < rows.len() ==> lex_leq(
            sort_key(#[trigger] rows[i], field),
            sort_key(#[trigger] rows[j], field),
        )
}

fn key_of(s: &ServerInfo, field: &Vec<char>) -> (r: Vec<char>)
    ensures
        r@ == sort_key(*s, field@),
{
    let cmd = str_to_chars("command");
    let auth = str_to_chars("author");
    proof {
        reveal_strlit("command");
        reveal_strlit("author");
    }
    if chars_eq(field, &cmd) {
        string_to_chars(&s.command)
    } else if chars_eq(field, &auth) {
        match &s.author {
            Some(a) => string_to_chars(a),
            None => Vec::new(),
        }
    } else {
        string_to_chars(&s.name)
    }
}

/// Sorts listing rows by the requested column — `name`, `command` or
/// `author`, anything else meaning `name` — reversing for a descending
/// listing.  Without a sort column the rows stay as given.  The result holds
/// exactly the given rows.
pub fn sort_servers(servers: Vec<ServerInfo>, options: &ListOptions) -> (r: Vec<ServerInfo>)
    ensures
        r@.to_multiset() == servers@.to_multiset(),
        !options.desc ==> (options.sort matches Some(f) ==> sorted_by_key(
            r@,
            sort_field_spec(f@),
        )),
        options.desc ==> (options.sort matches Some(f) ==> sorted_by_key(
            r@.reverse(),
            sort_field_spec(f@),
        )),
        options.sort is None ==> r@ == servers@,
{
    let field: Vec<char> = match &options.sort {
        Some(f) => {
            let fv = string_to_chars(f);
            let cmd = str_to_chars("command");
            let auth = str_to_chars("author");
            proof {
                reveal_strlit("command");
                reveal_strlit("author");
                reveal_strlit("name");
            }
            if chars_eq(&fv, &cmd) {
                fv
            } else if chars_eq(&fv, &auth) {
                fv
            } else {
                str_to_chars("name")
            }
        },
        None => {
            return servers;
        },
    };
    let ghost ff: Seq<char> = match &options.sort {
        Some(f) => sort_field_spec(f@),
        None => "name"@,
    };
    proof {
        assert(field@ == ff);
    }
    let ghost orig = servers@;
    let mut rest = servers;
    let mut sorted: Vec<ServerInfo> = Vec::new();
    proof {
        broadcast use vstd::seq_lib::group_to_multiset_ensures;

        assert(sorted@.to_multiset() =~= Multiset::<ServerInfo>::empty());
        assert(sorted@.to_multiset().add(rest@.to_multiset()) =~= orig.to_multiset());
    }
    while rest.len() > 0
        invariant
            field@ == ff,
            sorted@.to_multiset().add(rest@.to_multiset()) == orig.to_multiset(),
            sorted_by_key(sorted@, ff),
        decreases rest@.len(),
    {
        let ghost rest0 = rest@;
        let row = rest.remove(0);
        proof {
            broadcast use vstd::seq_lib::group_to_multiset_ensures;

            assert(rest@ =~= rest0.remove(0));
            assert(rest@.to_multiset() == rest0.to_multiset().remove(rest0[0]));
            assert(rest0.to_multiset().count(rest0[0]) > 0);
        }
        let rk = key_of(&row, &field);
        let mut p: usize = 0;
        while p < sorted.len() && lex_leq_precheck(&sorted, p, &rk, &field)
            invariant
                p <= sorted@.len(),
                rk@ == sort_key(row, ff),
                field@ == ff,
                forall|k: int| 0 <= k < p ==> lex_leq(sort_key(#[trigger] sorted@[k], ff), rk@),
            decreases sorted@.len() - p,
        {
            p = p + 1;
        }
        let ghost before = sorted@;
        proof {
            if p < sorted@.len() {
                lemma_lex_total(sort_key(sorted@[p as int], ff), rk@);
            }
        }
        sorted.insert(p, row);
        proof {
            broadcast use vstd::seq_lib::group_to_multiset_ensures;

            assert(sorted@ =~= before.insert(p as int, row));
            vstd::seq_lib::to_multiset_insert(before, p as int, row);
            assert(sorted@.to_multiset().add(rest@.to_multiset()) =~= orig.to_multiset());
            assert forall|x: int, y: int| 0 <= x < y < sorted@.len() implies lex_leq(
                sort_key(#[trigger] sorted@[x], ff),
                sort_key(#[trigger] sorted@[y], ff),
            ) by {
                assert(sorted@[p as int] == row);
                if x < p {
                    assert(sorted@[x] == before[x]);
                }
                if x > p {
                    assert(sorted@[x] == before[x - 1]);
                }
                if y < p {
                    assert(sorted@[y] == before[y]);
                }
                if y > p {
                    assert(sorted@[y] == before[y - 1]);
                }
                if y == p {
                    assert(lex_leq(sort_key(before[x], ff), rk@));
                } else if x == p {
                    if y == p + 1 {
                        assert(lex_leq(rk@, sort_key(before[y - 1], ff)));
                    } else {
                        assert(lex_leq(sort_key(before[p as int], ff), sort_key(
                            before[y - 1],
                            ff,
                        )));
                        lemma_lex_trans(rk@, sort_key(before[p as int], ff), sort_key(
                            before[y - 1],
                            ff,
                        ));
                    }
                }
            }
        }
    }
    proof {
        broadcast use vstd::seq_lib::group_to_multiset_ensures;

        assert(rest@.to_multiset() =~= Multiset::<ServerInfo>::empty());
        assert(sorted@.to_multiset() =~= orig.to_multiset());
    }
    if options.desc {
        let ghost sm = sorted@;
        let rev = reverse_rows(sorted);
        proof {
            broadcast use vstd::seq_lib::group_to_multiset_ensures;

            sm.lemma_reverse_to_multiset();
            assert(rev@.reverse() =~= sm);
            assert(rev@.to_multiset() =~= orig.to_multiset());
        }
        rev
    } else {
        sorted
    }
}

/// The effective sort column: `command` and `author` as given, anything else
/// meaning `name`.
pub open spec fn sort_field_spec(f: Seq<char>) -> Seq<char> {
    if f == "command"@ || f == "author"@ {
        f
    } else {
        "name"@
    }
}

fn lex_leq_precheck(sorted: &Vec<ServerInfo>, p: usize, rk: &Vec<char>, field: &Vec<char>) -> (r:
    bool)
    requires
        p < sorted@.len(),
    ensures
        r == lex_leq(sort_key(sorted@[p as int], field@), rk@),
{
    let pk = key_of(&sorted[p], field);
    lex_leq_exec(&pk, rk)
}

fn reverse_rows(v: Vec<ServerInfo>) -> (r: Vec<ServerInfo>)
    ensures
        r@ == v@.reverse(),
{
    let ghost orig = v@;
    let mut src = v;
    let mut r: Vec<ServerInfo> = Vec::new();
    while src.len() > 0
        invariant
            src@ == orig.take(src@.len() as int),
            r@.len() == orig.len() - src@.len(),
            forall|k: int| 0 <= k < r@.len() ==> r@[k] == orig[orig.len() - 1 - k],
        decreases src@.len(),
    {
        let ghost src0 = src@;
        match src.pop() {
            Some(x) => {
                proof {
                    assert(src0[src0.len() - 1] == orig[src0.len() - 1]);
                    assert(src@ =~= orig.take(src@.len() as int));
                }
                r.push(x);
            },
            None => {
                proof {
                    assert(false);
                }
            },
        }
    }
    proof {
        assert(r@ =~= orig.reverse());
    }
    r
}

// ---------------------------------------------------------------------------
// Truncation
// ---------------------------------------------------------------------------

/// A cell of fixed width: short text padded with spaces, long text cut to
/// width with a trailing ellipsis.
pub open spec fn truncate_spec(s: Seq<char>, width: int) -> Seq<char> {
    if s.len() <= width {
        s + Seq::new((width - s.len()) as nat, |i: int| ' ')
    } else {
        s.take(if width >= 3 {
            width - 3
        } else {
            0
        }) + "..."@
    }
}

/// Pads or truncates a text to exactly the asked width (plus the ellipsis
/// when cut with a width under three).
pub fn truncate_string(s: &str, max_length: usize) -> (r: String)
    ensures
        r@ == truncate_spec(s@, max_length as int),
{
    let chars = str_to_chars(s);
    if chars.len() <= max_length {
        let mut out = chars_to_string(&chars);
        let pad = max_length - chars.len();
        let mut k: usize = 0;
        while k < pad
            invariant
                k <= pad,
                out@ == s@ + Seq::new(k as nat, |i: int| ' '),
            decreases pad - k,
        {
            crate::strutil::push_char(&mut out, ' ');
            proof {
                assert(s@ + Seq::new((k + 1) as nat, |i: int| ' ') =~= (s@ + Seq::new(
                    k as nat,
                    |i: int| ' ',
                )).push(' '));
            }
            k = k + 1;
        }
        out
    } else {
        let keep = if max_length >= 3 {
            max_length - 3
        } else {
            0
        };
        let head = crate::strutil::chars_take(&chars, keep);
        let mut out = chars_to_string(&head);
        out.append("...");
        out
    }
}

} // verus!
