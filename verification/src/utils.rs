//! Host facts, well-known file locations, and masking of secrets in output.
//!
//! The library never asks the machine which platform it runs on or where the
//! home directory is; the embedding program passes those facts in as plain
//! values, and everything derived from them here is verified.

use vstd::prelude::*;
use crate::strutil::{
    lower_seq, chars_to_lower, chars_contains, chars_to_string, string_to_chars, str_to_chars,
    seq_has,
};
use crate::errors::ForgeError;

verus! {

// ---------------------------------------------------------------------------
// Platform names
// ---------------------------------------------------------------------------

/// The operating systems the tool distinguishes.
#[derive(PartialEq, Eq, Structural, Clone, Copy)]
pub enum OsKind {
    Windows,
    MacOs,
    Linux,
    Unknown,
}

/// The processor architectures the tool distinguishes.
#[derive(PartialEq, Eq, Structural, Clone, Copy)]
pub enum ArchKind {
    X64,
    Arm64,
    Unknown,
}

pub open spec fn os_name_spec(os: OsKind) -> Seq<char> {
    match os {
        OsKind::Windows => "windows"@,
        OsKind::MacOs => "macos"@,
        OsKind::Linux => "linux"@,
        OsKind::Unknown => "unknown"@,
    }
}

pub open spec fn arch_name_spec(arch: ArchKind) -> Seq<char> {
    match arch {
        ArchKind::X64 => "x64"@,
        ArchKind::Arm64 => "arm64"@,
        ArchKind::Unknown => "unknown"@,
    }
}

/// The fixed name of an operating system, as templates see it.
pub fn get_os_name(os: OsKind) -> (r: String)
    ensures
        r@ == os_name_spec(os),
        r@.len() > 0,
{
    proof {
        reveal_strlit("windows");
        reveal_strlit("macos");
        reveal_strlit("linux");
        reveal_strlit("unknown");
    }
    match os {
        OsKind::Windows => String::from_str("windows"),
        OsKind::MacOs => String::from_str("macos"),
        OsKind::Linux => String::from_str("linux"),
        OsKind::Unknown => String::from_str("unknown"),
    }
}

/// The fixed name of a processor architecture, as templates see it.
pub fn get_arch_name(arch: ArchKind) -> (r: String)
    ensures
        r@ == arch_name_spec(arch),
        r@.len() > 0,
{
    proof {
        reveal_strlit("x64");
        reveal_strlit("arm64");
        reveal_strlit("unknown");
    }
    match arch {
        ArchKind::X64 => String::from_str("x64"),
        ArchKind::Arm64 => String::from_str("arm64"),
        ArchKind::Unknown => String::from_str("unknown"),
    }
}

/// The platform name used when filtering server listings.
pub fn get_current_platform(os: OsKind) -> (r: String)
    ensures
        r@ == os_name_spec(os),
{
    get_os_name(os)
}

// ---------------------------------------------------------------------------
// Well-known locations
// ---------------------------------------------------------------------------

pub open spec fn config_dir_spec(os: OsKind, home: Seq<char>) -> Seq<char> {
    match os {
        OsKind::Windows => home + "/AppData/Roaming/mcp-forge"@,
        OsKind::MacOs => home + "/Library/Application Support/mcp-forge"@,
        _ => home + "/.config/mcp-forge"@,
    }
}

/// The per-platform configuration directory under the given home directory.
pub fn get_config_dir(os: OsKind, home: &str) -> (r: String)
    ensures
        r@ == config_dir_spec(os, home@),
{
    let mut p = String::from_str(home);
    match os {
        OsKind::Windows => {
            p.append("/AppData/Roaming/mcp-forge");
        },
        OsKind::MacOs => {
            p.append("/Library/Application Support/mcp-forge");
        },
        _ => {
            p.append("/.config/mcp-forge");
        },
    }
    p
}

/// The canonical configuration file inside the configuration directory.
pub fn get_claude_config_path(os: OsKind, home: &str) -> (r: String)
    ensures
        r@ == config_dir_spec(os, home@) + "/desktop_config.json"@,
{
    let mut p = get_config_dir(os, home);
    p.append("/desktop_config.json");
    p
}

/// The backup directory inside the configuration directory.
pub fn get_backup_dir(os: OsKind, home: &str) -> (r: String)
    ensures
        r@ == config_dir_spec(os, home@) + "/backups"@,
{
    let mut p = get_config_dir(os, home);
    p.append("/backups");
    p
}

// ---------------------------------------------------------------------------
// Masking secrets
// ---------------------------------------------------------------------------

/// The key, lowercased and with `_`, `-` and `.` removed — the form the
/// sensitivity patterns are matched against.
pub open spec fn normalize_key(key: Seq<char>) -> Seq<char> {
    lower_seq(key).filter(|c: char| c != '_' && c != '-' && c != '.')
}

/// A key is sensitive when its normalized form contains any of the secret
/// patterns; `key` alone subsumes the more specific ones.
pub open spec fn is_sensitive_key(key: Seq<char>) -> bool {
    let n = normalize_key(key);
    seq_has(n, "clientid"@) || seq_has(n, "clientsecret"@) || seq_has(n, "apikey"@) || seq_has(
        n,
        "accesstoken"@,
    ) || seq_has(n, "secretkey"@) || seq_has(n, "privatekey"@) || seq_has(n, "password"@)
        || seq_has(n, "passwd"@) || seq_has(n, "token"@) || seq_has(n, "secret"@) || seq_has(
        n,
        "key"@,
    )
}

/// What a masked value looks like: long values keep their first and last
/// three characters around at least four asterisks; short ones become eight
/// asterisks.
pub open spec fn masked_value_spec(value: Seq<char>) -> Seq<char> {
    if value.len() > 6 {
        let stars = if value.len() - 6 >= 4 {
            value.len() - 6
        } else {
            4
        };
        value.take(3) + Seq::new(stars as nat, |i: int| '*') + value.skip(value.len() - 3)
    } else {
        Seq::new(
            if value.len() >= 8 {
                value.len()
            } else {
                8
            } as nat,
            |i: int| '*',
        )
    }
}

fn filter_separators(v: &Vec<char>) -> (r: Vec<char>)
    ensures
        r@ == v@.filter(|c: char| c != '_' && c != '-' && c != '.'),
{
    let mut r: Vec<char> = Vec::new();
    let mut i: usize = 0;
    proof {
        assert(v@.take(0) =~= Seq::<char>::empty());
        assert(v@.take(0).filter(|c: char| c != '_' && c != '-' && c != '.')
            =~= Seq::<char>::empty());
    }
    while i < v.len()
        invariant
            i <= v@.len(),
            r@ == v@.take(i as int).filter(|c: char| c != '_' && c != '-' && c != '.'),
        decreases v@.len() - i,
    {
        let c = v[i];
        let ghost f = |c: char| c != '_' && c != '-' && c != '.';
        proof {
            assert(v@.take(i + 1) =~= v@.take(i as int).push(v@[i as int]));
            lemma_filter_push(v@.take(i as int), v@[i as int], f);
        }
        if !(c == '_' || c == '-' || c == '.') {
            r.push(c);
        }
        i = i + 1;
    }
    proof {
        assert(v@.take(v@.len() as int) =~= v@);
    }
    r
}

/// Filtering distributes over push.
proof fn lemma_filter_push(s: Seq<char>, x: char, f: spec_fn(char) -> bool)
    ensures
        s.push(x).filter(f) == if f(x) {
            s.filter(f).push(x)
        } else {
            s.filter(f)
        },
    decreases s.len(),
{
    reveal(Seq::filter);
    assert(s.push(x).drop_last() =~= s);
}

fn stars(n: usize) -> (r: Vec<char>)
    ensures
        r@ == Seq::new(n as nat, |i: int| '*'),
{
    let mut r: Vec<char> = Vec::new();
    let mut i: usize = 0;
    while i < n
        invariant
            i <= n,
            r@ == Seq::new(i as nat, |k: int| '*'),
        decreases n - i,
    {
        r.push('*');
        proof {
            assert(r@ =~= Seq::new((i + 1) as nat, |k: int| '*'));
        }
        i = i + 1;
    }
    r
}

/// Masks an environment value when its key looks like a credential: long
/// values keep only their first and last three characters, short ones become
/// asterisks; values under non-sensitive keys pass through unchanged.
pub fn mask_sensitive_env_value(key: &str, value: &str) -> (r: String)
    ensures
        is_sensitive_key(key@) ==> r@ == masked_value_spec(value@),
        !is_sensitive_key(key@) ==> r@ == value@,
{
    let kc = str_to_chars(key);
    let lowered = chars_to_lower(&kc);
    let normalized = filter_separators(&lowered);
    proof {
        reveal_strlit("clientid");
        reveal_strlit("clientsecret");
        reveal_strlit("apikey");
        reveal_strlit("accesstoken");
        reveal_strlit("secretkey");
        reveal_strlit("privatekey");
        reveal_strlit("password");
        reveal_strlit("passwd");
        reveal_strlit("token");
        reveal_strlit("secret");
        reveal_strlit("key");
    }
    let pats = [
        "clientid",
        "clientsecret",
        "apikey",
        "accesstoken",
        "secretkey",
        "privatekey",
        "password",
        "passwd",
        "token",
        "secret",
        "key",
    ];
    let mut sensitive = false;
    let p0 = str_to_chars("clientid");
    let p1 = str_to_chars("clientsecret");
    let p2 = str_to_chars("apikey");
    let p3 = str_to_chars("accesstoken");
    let p4 = str_to_chars("secretkey");
    let p5 = str_to_chars("privatekey");
    let p6 = str_to_chars("password");
    let p7 = str_to_chars("passwd");
    let p8 = str_to_chars("token");
    let p9 = str_to_chars("secret");
    let p10 = str_to_chars("key");
    sensitive = chars_contains(&normalized, &p0) || chars_contains(&normalized, &p1)
        || chars_contains(&normalized, &p2) || chars_contains(&normalized, &p3) || chars_contains(
        &normalized,
        &p4,
    ) || chars_contains(&normalized, &p5) || chars_contains(&normalized, &p6) || chars_contains(
        &normalized,
        &p7,
    ) || chars_contains(&normalized, &p8) || chars_contains(&normalized, &p9) || chars_contains(
        &normalized,
        &p10,
    );
    let vc = str_to_chars(value);
    if !sensitive {
        return chars_to_string(&vc);
    }
    if vc.len() > 6 {
        let n = vc.len();
        let star_count = if n - 6 >= 4 {
            n - 6
        } else {
            4
        };
        let mut out = crate::strutil::chars_take(&vc, 3);
        let mid = stars(star_count);
        let mut k: usize = 0;
        while k < mid.len()
            invariant
                k <= mid@.len(),
                out@ == vc@.take(3) + mid@.take(k as int),
            decreases mid@.len() - k,
        {
            out.push(mid[k]);
            proof {
                assert(vc@.take(3) + mid@.take(k + 1) =~= (vc@.take(3) + mid@.take(k as int)).push(
                    mid@[k as int],
                ));
            }
            k = k + 1;
        }
        proof {
            assert(mid@.take(mid@.len() as int) =~= mid@);
            assert(vc@.subrange(n - 3, n - 3) =~= Seq::<char>::empty());
            assert(out@ =~= vc@.take(3) + mid@ + vc@.subrange(n - 3, n - 3));
        }
        let mut t: usize = n - 3;
        while t < n
            invariant
                n == vc@.len(),
                6 < n,
                n - 3 <= t <= n,
                out@ == vc@.take(3) + mid@ + vc@.subrange(n - 3, t as int),
            decreases n - t,
        {
            out.push(vc[t]);
            proof {
                assert(vc@.subrange(n - 3, t + 1) =~= vc@.subrange(n - 3, t as int).push(
                    vc@[t as int],
                ));
                assert(vc@.take(3) + mid@ + vc@.subrange(n - 3, t + 1) =~= (vc@.take(3) + mid@
                    + vc@.subrange(n - 3, t as int)).push(vc@[t as int]));
            }
            t = t + 1;
        }
        proof {
            assert(vc@.subrange(n - 3, n as int) =~= vc@.skip(n - 3));
            assert(out@ =~= masked_value_spec(value@));
        }
        chars_to_string(&out)
    } else {
        let count = if vc.len() >= 8 {
            vc.len()
        } else {
            8
        };
        let out = stars(count);
        proof {
            assert(out@ =~= masked_value_spec(value@));
        }
        chars_to_string(&out)
    }
}

// ---------------------------------------------------------------------------
// Masking secrets in URLs
// ---------------------------------------------------------------------------

/// The components of a parsed URL, as plain values.
pub struct UrlParts {
    pub scheme: String,
    pub host: Option<String>,
    pub port: Option<u16>,
    pub path: String,
    pub query: Option<String>,
    pub fragment: Option<String>,
}

/// Ghost model of the components of a parsed URL.
#[verifier::ext_equal]
pub struct UrlPartsV {
    pub scheme: Seq<char>,
    pub host: Option<Seq<char>>,
    pub port: Option<int>,
    pub path: Seq<char>,
    pub query: Option<Seq<char>>,
    pub fragment: Option<Seq<char>>,
}

impl View for UrlParts {
    type V = UrlPartsV;

    open spec fn view(&self) -> UrlPartsV {
        UrlPartsV {
            scheme: self.scheme@,
            host: match self.host {
                Some(h) => Some(h@),
                None => None,
            },
            port: match self.port {
                Some(p) => Some(p as int),
                None => None,
            },
            path: self.path@,
            query: match self.query {
                Some(q) => Some(q@),
                None => None,
            },
            fragment: match self.fragment {
                Some(f) => Some(f@),
                None => None,
            },
        }
    }
}

/// What parsing a URL yields; a function of the text alone.
pub uninterp spec fn url_parse_of(s: Seq<char>) -> Option<UrlPartsV>;

/// Relies on url::Url::parse and its accessors scheme, host_str, port, path,
/// query and fragment: parses the text into its components, refusing text
/// that is not a URL.
#[verifier::external_body]
fn parse_url_parts(s: &str) -> (r: Option<UrlParts>)
    ensures
        (r is Some) == (url_parse_of(s@) is Some),
        r matches Some(p) ==> url_parse_of(s@) == Some(p@),
{
    match url::Url::parse(s) {
        Ok(u) => Some(UrlParts {
            scheme: u.scheme().to_string(),
            host: u.host_str().map(|h| h.to_string()),
            port: u.port(),
            path: u.path().to_string(),
            query: u.query().map(|q| q.to_string()),
            fragment: u.fragment().map(|f| f.to_string()),
        }),
        Err(_) => None,
    }
}

/// A query parameter looks like a credential when its lowercased name holds
/// `key`, `token`, `secret` or `password` (`key` also covers the common
/// `apikey` spellings).
pub open spec fn is_sensitive_param(key: Seq<char>) -> bool {
    let n = lower_seq(key);
    seq_has(n, "key"@) || seq_has(n, "token"@) || seq_has(n, "secret"@) || seq_has(n, "password"@)
}

/// A masked parameter value: long values keep their first and last three
/// characters, short ones vanish entirely.
pub open spec fn masked_param_value(v: Seq<char>) -> Seq<char> {
    if v.len() > 6 {
        v.take(3) + seq!['*', '*', '*'] + v.skip(v.len() - 3)
    } else {
        seq!['*', '*', '*']
    }
}

/// One `key=value` query pair, its value masked when the key is sensitive;
/// a pair without an equals sign passes through.
pub open spec fn masked_pair(seg: Seq<char>) -> Seq<char> {
    match crate::bulk::split_assignment(seg) {
        Some((k, v)) => if is_sensitive_param(k) {
            k + seq!['='] + masked_param_value(v)
        } else {
            seg
        },
        None => seg,
    }
}

/// First position at or after `i` holding `&`, or the text's length.
pub open spec fn find_amp(s: Seq<char>, i: int) -> int
    decreases s.len() - i,
{
    if !(0 <= i < s.len()) {
        s.len() as int
    } else if s[i] == '&' {
        i
    } else {
        find_amp(s, i + 1)
    }
}

/// The query from position `i` on, each pair masked.
pub open spec fn masked_query(q: Seq<char>, i: int) -> Seq<char>
    decreases q.len() - i,
{
    if !(0 <= i <= q.len()) {
        Seq::empty()
    } else {
        let a = find_amp(q, i);
        if !(i <= a <= q.len()) {
            Seq::empty()
        } else {
            let seg = masked_pair(q.subrange(i, a));
            if a == q.len() {
                seg
            } else {
                seg + seq!['&'] + masked_query(q, a + 1)
            }
        }
    }
}

/// What masking a URL yields: the URL rebuilt from its components with every
/// sensitive query value hidden; text that is not a URL passes unchanged.
pub open spec fn masked_url_spec(s: Seq<char>) -> Seq<char> {
    match url_parse_of(s) {
        None => s,
        Some(p) => {
            p.scheme + "://"@ + (match p.host {
                Some(h) => h,
                None => Seq::empty(),
            }) + (match p.port {
                Some(pt) => seq![':'] + crate::strutil::dec_digits(pt),
                None => Seq::empty(),
            }) + p.path + (match p.query {
                Some(q) => seq!['?'] + masked_query(q, 0),
                None => Seq::empty(),
            }) + (match p.fragment {
                Some(f) => seq!['#'] + f,
                None => Seq::empty(),
            })
        },
    }
}

proof fn lemma_find_amp_bounds(s: Seq<char>, i: int)
    requires
        0 <= i <= s.len(),
    ensures
        i <= find_amp(s, i) <= s.len(),
        forall|p: int| i <= p < find_amp(s, i) ==> #[trigger] s[p] != '&',
        find_amp(s, i) < s.len() ==> s[find_amp(s, i)] == '&',
    decreases s.len() - i,
{
    if i < s.len() && s[i] != '&' {
        lemma_find_amp_bounds(s, i + 1);
    }
}

fn find_amp_exec(v: &Vec<char>, i: usize) -> (r: usize)
    requires
        i <= v@.len(),
    ensures
        r == find_amp(v@, i as int),
        i <= r <= v@.len(),
{
    proof {
        lemma_find_amp_bounds(v@, i as int);
    }
    let mut cur = i;
    while cur < v.len() && v[cur] != '&'
        invariant
            i <= cur <= v@.len(),
            find_amp(v@, i as int) == find_amp(v@, cur as int),
        decreases v@.len() - cur,
    {
        cur = cur + 1;
    }
    cur
}

fn push_range(out: &mut Vec<char>, v: &Vec<char>, from: usize, to: usize)
    requires
        from <= to <= v@.len(),
    ensures
        final(out)@ == old(out)@ + v@.subrange(from as int, to as int),
{
    let ghost orig = out@;
    let mut i = from;
    while i < to
        invariant
            from <= i <= to <= v@.len(),
            out@ == orig + v@.subrange(from as int, i as int),
        decreases to - i,
    {
        out.push(v[i]);
        proof {
            assert(orig + v@.subrange(from as int, i + 1) =~= (orig + v@.subrange(
                from as int,
                i as int,
            )).push(v@[i as int]));
        }
        i = i + 1;
    }
}

/// Appends one masked query pair.
fn emit_masked_pair(seg: &Vec<char>, out: &mut Vec<char>)
    ensures
        final(out)@ == old(out)@ + masked_pair(seg@),
{
    let ghost orig = out@;
    let mut eq: usize = 0;
    while eq < seg.len() && seg[eq] != '='
        invariant
            eq <= seg@.len(),
            forall|j: int| 0 <= j < eq ==> seg@[j] != '=',
        decreases seg@.len() - eq,
    {
        eq = eq + 1;
    }
    if eq == seg.len() {
        proof {
            assert(crate::bulk::split_assignment(seg@) is None);
        }
        push_range(out, seg, 0, seg.len());
        proof {
            assert(seg@.subrange(0, seg@.len() as int) =~= seg@);
        }
        return;
    }
    proof {
        assert(seg@[eq as int] == '=');
        crate::bulk::lemma_split_unique(seg@, seg@.take(eq as int), seg@.skip(eq + 1));
    }
    let key = crate::strutil::chars_take(seg, eq);
    let lowered = chars_to_lower(&key);
    let p0 = str_to_chars("key");
    let p1 = str_to_chars("token");
    let p2 = str_to_chars("secret");
    let p3 = str_to_chars("password");
    proof {
        reveal_strlit("key");
        reveal_strlit("token");
        reveal_strlit("secret");
        reveal_strlit("password");
    }
    let sensitive = chars_contains(&lowered, &p0) || chars_contains(&lowered, &p1)
        || chars_contains(&lowered, &p2) || chars_contains(&lowered, &p3);
    if !sensitive {
        push_range(out, seg, 0, seg.len());
        proof {
            assert(seg@.subrange(0, seg@.len() as int) =~= seg@);
        }
        return;
    }
    push_range(out, seg, 0, eq);
    out.push('=');
    let ghost v = seg@.skip(eq + 1);
    let vlen = seg.len() - (eq + 1);
    if vlen > 6 {
        push_range(out, seg, eq + 1, eq + 1 + 3);
        out.push('*');
        out.push('*');
        out.push('*');
        push_range(out, seg, seg.len() - 3, seg.len());
        proof {
            assert(seg@.subrange(eq + 1, eq + 1 + 3) =~= v.take(3));
            assert(seg@.subrange(seg@.len() - 3, seg@.len() as int) =~= v.skip(v.len() - 3));
            assert(out@ =~= orig + (seg@.take(eq as int) + seq!['='] + masked_param_value(v)));
        }
    } else {
        out.push('*');
        out.push('*');
        out.push('*');
        proof {
            assert(out@ =~= orig + (seg@.take(eq as int) + seq!['='] + masked_param_value(v)));
        }
    }
}

/// Appends the query from position `i` on, each pair masked.
#[verifier::rlimit(100)]
#[verifier::spinoff_prover]
fn emit_masked_query(q: &Vec<char>, i: usize, out: &mut Vec<char>)
    requires
        i <= q@.len(),
    ensures
        final(out)@ == old(out)@ + masked_query(q@, i as int),
    decreases q@.len() - i,
{
    let ghost orig = out@;
    proof {
        lemma_find_amp_bounds(q@, i as int);
    }
    let a = find_amp_exec(q, i);
    let seg = crate::strutil::chars_take(&copy_from(q, i), a - i);
    proof {
        assert(seg@ =~= q@.subrange(i as int, a as int));
    }
    emit_masked_pair(&seg, out);
    if a == q.len() {
        return;
    }
    out.push('&');
    emit_masked_query(q, a + 1, out);
    proof {
        assert(out@ =~= orig + masked_query(q@, i as int));
    }
}

fn copy_from(v: &Vec<char>, from: usize) -> (r: Vec<char>)
    requires
        from <= v@.len(),
    ensures
        r@ == v@.skip(from as int),
{
    let mut r: Vec<char> = Vec::new();
    push_range(&mut r, v, from, v.len());
    proof {
        assert(v@.subrange(from as int, v@.len() as int) =~= v@.skip(from as int));
    }
    r
}

/// Masks credential-looking query parameters of a URL so it can be shown;
/// text that does not parse as a URL passes through unchanged.
#[verifier::rlimit(100)]
#[verifier::spinoff_prover]
pub fn mask_sensitive_url(url: &str) -> (r: String)
    ensures
        r@ == masked_url_spec(url@),
{
    let parts = match parse_url_parts(url) {
        None => {
            let chars = str_to_chars(url);
            return chars_to_string(&chars);
        },
        Some(parts) => parts,
    };
    let mut out: Vec<char> = Vec::new();
    let scheme = string_to_chars(&parts.scheme);
    push_range(&mut out, &scheme, 0, scheme.len());
    out.push(':');
    out.push('/');
    out.push('/');
    proof {
        reveal_strlit("://");
        assert(scheme@.subrange(0, scheme@.len() as int) =~= scheme@);
        assert(out@ =~= parts@.scheme + "://"@);
    }
    match &parts.host {
        Some(h) => {
            let hv = string_to_chars(h);
            push_range(&mut out, &hv, 0, hv.len());
            proof {
                assert(hv@.subrange(0, hv@.len() as int) =~= hv@);
            }
        },
        None => {},
    }
    let ghost after_host = out@;
    match parts.port {
        Some(pt) => {
            out.push(':');
            let digits = crate::strutil::u64_to_dec_chars(pt as u64);
            push_range(&mut out, &digits, 0, digits.len());
            proof {
                assert(digits@.subrange(0, digits@.len() as int) =~= digits@);
                assert(out@ =~= after_host + (seq![':'] + crate::strutil::dec_digits(pt as int)));
            }
        },
        None => {},
    }
    let path = string_to_chars(&parts.path);
    push_range(&mut out, &path, 0, path.len());
    proof {
        assert(path@.subrange(0, path@.len() as int) =~= path@);
    }
    let ghost after_path = out@;
    match &parts.query {
        Some(q) => {
            out.push('?');
            let qv = string_to_chars(q);
            emit_masked_query(&qv, 0, &mut out);
            proof {
                assert(out@ =~= after_path + (seq!['?'] + masked_query(qv@, 0)));
            }
        },
        None => {},
    }
    let ghost after_query = out@;
    match &parts.fragment {
        Some(f) => {
            out.push('#');
            let fv = string_to_chars(f);
            push_range(&mut out, &fv, 0, fv.len());
            proof {
                assert(fv@.subrange(0, fv@.len() as int) =~= fv@);
                assert(out@ =~= after_query + (seq!['#'] + fv@));
            }
        },
        None => {},
    }
    proof {
        assert(out@ =~= masked_url_spec(url@));
    }
    chars_to_string(&out)
}


} // verus!
