//! Backups: metadata, name sanitization, age parsing, lookup by name, and
//! selection of stale backups for cleanup.  All timestamps are Unix seconds;
//! reading and deleting files is the caller's job.

use vstd::prelude::*;
use crate::strutil::{
    trim_spec, trim_chars, lower_seq, chars_to_lower, chars_eq, chars_contains, seq_has,
    is_int_lexeme, int_lexeme_val, parse_i64_chars, chars_to_string, string_to_chars, str_to_chars,
    dec_digits, u64_to_dec_chars, lemma_contains_push,
};
use crate::errors::ForgeError;

verus! {

// ---------------------------------------------------------------------------
// Data model
// ---------------------------------------------------------------------------

/// What a backup records about itself.
pub struct BackupMetadata {
    pub name: String,
    pub created_at: i64,
    pub servers_count: usize,
    pub description: Option<String>,
    pub git_branch: Option<String>,
    pub git_commit: Option<String>,
}

/// A backup found on disk: its metadata and the file it lives in.
pub struct BackupEntry {
    pub metadata: BackupMetadata,
    pub file_path: String,
}

/// Ghost model of backup metadata.
#[verifier::ext_equal]
pub struct BackupMetadataV {
    pub name: Seq<char>,
    pub created_at: int,
    pub servers_count: int,
    pub description: Option<Seq<char>>,
    pub git_branch: Option<Seq<char>>,
    pub git_commit: Option<Seq<char>>,
}

impl View for BackupMetadata {
    type V = BackupMetadataV;

    open spec fn view(&self) -> BackupMetadataV {
        BackupMetadataV {
            name: self.name@,
            created_at: self.created_at as int,
            servers_count: self.servers_count as int,
            description: match self.description {
                Some(d) => Some(d@),
                None => None,
            },
            git_branch: match self.git_branch {
                Some(b) => Some(b@),
                None => None,
            },
            git_commit: match self.git_commit {
                Some(c) => Some(c@),
                None => None,
            },
        }
    }
}

/// The backup subcommands the tool accepts.
pub enum BackupCommands {
    Create { name: Option<String>, auto_name: bool },
    List,
    Restore { backup: String, preview: bool, server: Option<String> },
    Clean { older_than: Option<String>, force: bool },
}

// ---------------------------------------------------------------------------
// Name sanitization
// ---------------------------------------------------------------------------

pub open spec fn is_filename_unsafe_char(c: char) -> bool {
    c == '/' || c == '\\' || c == ':' || c == '*' || c == '?' || c == '"' || c == '<' || c == '>'
        || c == '|'
}

/// Each character a filesystem may refuse becomes an underscore.
pub open spec fn sanitize_spec(s: Seq<char>) -> Seq<char> {
    s.map_values(
        |c: char|
            if is_filename_unsafe_char(c) {
                '_'
            } else {
                c
            },
    )
}

/// Replaces `/ \ : * ? " < > |` with underscores so a backup name can be a
/// file name.
pub fn sanitize_filename(name: &str) -> (r: String)
    ensures
        r@ == sanitize_spec(name@),
{
    let chars = str_to_chars(name);
    let mut out: Vec<char> = Vec::new();
    let mut i: usize = 0;
    while i < chars.len()
        invariant
            i <= chars@.len(),
            chars@ == name@,
            out@.len() == i,
            forall|k: int|
                0 <= k < i ==> out@[k] == (if is_filename_unsafe_char(chars@[k]) {
                    '_'
                } else {
                    chars@[k]
                }),
        decreases chars@.len() - i,
    {
        let c = chars[i];
        if c == '/' || c == '\\' || c == ':' || c == '*' || c == '?' || c == '"' || c == '<' || c
            == '>' || c == '|' {
            out.push('_');
        } else {
            out.push(c);
        }
        i = i + 1;
    }
    proof {
        assert(out@ =~= sanitize_spec(name@));
    }
    chars_to_string(&out)
}

// ---------------------------------------------------------------------------
// Duration parsing
// ---------------------------------------------------------------------------

/// The value of the digits before a unit suffix, scaled to seconds, when the
/// digits form an integer and both it and the product fit in an `i64`.
pub open spec fn scaled_secs(num: Seq<char>, factor: int) -> Option<int> {
    if is_int_lexeme(num) && i64::MIN <= int_lexeme_val(num) <= i64::MAX {
        let v = int_lexeme_val(num) * factor;
        if i64::MIN <= v <= i64::MAX {
            Some(v)
        } else {
            None
        }
    } else {
        None
    }
}

/// What a duration string denotes in seconds: a number with a `d`, `w`, `h`
/// or `m` suffix (days, weeks, hours, minutes), or a bare number of days.
/// Case and surrounding whitespace are ignored.
pub open spec fn parse_duration_spec(s: Seq<char>) -> Option<int> {
    let t = lower_seq(trim_spec(s));
    if t.len() > 0 && t.last() == 'd' {
        scaled_secs(t.drop_last(), 86400)
    } else if t.len() > 0 && t.last() == 'w' {
        scaled_secs(t.drop_last(), 604800)
    } else if t.len() > 0 && t.last() == 'h' {
        scaled_secs(t.drop_last(), 3600)
    } else if t.len() > 0 && t.last() == 'm' {
        scaled_secs(t.drop_last(), 60)
    } else {
        scaled_secs(t, 86400)
    }
}

/// Parses a duration such as `30d`, `2w`, `24h`, `60m` or a bare number of
/// days, into seconds.
pub fn parse_duration(s: &str) -> (r: Result<i64, ForgeError>)
    ensures
        (r is Ok) == (parse_duration_spec(s@) is Some),
        r matches Ok(x) ==> parse_duration_spec(s@) == Some(x as int),
        r matches Err(e) ==> e is Validation,
{
    let chars = str_to_chars(s);
    let trimmed = trim_chars(&chars);
    let t = chars_to_lower(&trimmed);
    let n = t.len();
    if n > 0 {
        let last = t[n - 1];
        if last == 'd' || last == 'w' || last == 'h' || last == 'm' {
            let num = crate::strutil::chars_take(&t, n - 1);
            proof {
                assert(t@.take(n - 1) =~= t@.drop_last());
            }
            let factor: i64 = if last == 'd' {
                86400
            } else if last == 'w' {
                604800
            } else if last == 'h' {
                3600
            } else {
                60
            };
            return scale_checked(&num, factor);
        }
    }
    proof {
        if t@.len() > 0 {
            assert(!(t@.last() == 'd' || t@.last() == 'w' || t@.last() == 'h' || t@.last() == 'm'));
        }
    }
    scale_checked(&t, 86400)
}

fn scale_checked(num: &Vec<char>, factor: i64) -> (r: Result<i64, ForgeError>)
    requires
        factor == 86400 || factor == 604800 || factor == 3600 || factor == 60,
    ensures
        (r is Ok) == (scaled_secs(num@, factor as int) is Some),
        r matches Ok(x) ==> scaled_secs(num@, factor as int) == Some(x as int),
        r matches Err(e) ==> e is Validation,
{
    match parse_i64_chars(num) {
        None => Err(
            ForgeError::Validation(
                String::from_str("Invalid duration format. Use a number with d, w, h or m"),
            ),
        ),
        Some(v) => {
            proof {
                let vi = v as int;
                let fi = factor as int;
                assert((-0x8000_0000_0000_0000) * 604800 <= vi * fi <= 0x7fff_ffff_ffff_ffff
                    * 604800) by (nonlinear_arith)
                    requires
                        -0x8000_0000_0000_0000 <= vi <= 0x7fff_ffff_ffff_ffff,
                        60 <= fi <= 604800,
                ;
            }
            let wide: i128 = (v as i128) * (factor as i128);
            if wide > (i64::MAX as i128) || wide < (i64::MIN as i128) {
                Err(
                    ForgeError::Validation(
                        String::from_str("Duration is too large to represent"),
                    ),
                )
            } else {
                Ok(wide as i64)
            }
        },
    }
}

// ---------------------------------------------------------------------------
// Age display
// ---------------------------------------------------------------------------

/// The age text shown next to a backup: whole days, else whole hours, else
/// whole minutes, else "Just now".
pub open spec fn format_since_spec(now: int, ts: int) -> Seq<char> {
    let secs = now - ts;
    if secs >= 86400 {
        dec_digits(secs / 86400) + " day(s) ago"@
    } else if secs >= 3600 {
        dec_digits(secs / 3600) + " hour(s) ago"@
    } else if secs >= 60 {
        dec_digits(secs / 60) + " minute(s) ago"@
    } else {
        "Just now"@
    }
}

/// Formats how long ago the instant `ts` was, seen from `now`.
pub fn format_duration_since(now: i64, ts: i64) -> (r: String)
    ensures
        r@ == format_since_spec(now as int, ts as int),
{
    let secs: i128 = (now as i128) - (ts as i128);
    if secs >= 86400 {
        let days = (secs / 86400) as u64;
        proof {
            assert(days as int == (now - ts) / 86400);
        }
        let digits = u64_to_dec_chars(days);
        let mut out = chars_to_string(&digits);
        out.append(" day(s) ago");
        out
    } else if secs >= 3600 {
        let hours = (secs / 3600) as u64;
        proof {
            assert(hours as int == (now - ts) / 3600);
        }
        let digits = u64_to_dec_chars(hours);
        let mut out = chars_to_string(&digits);
        out.append(" hour(s) ago");
        out
    } else if secs >= 60 {
        let minutes = (secs / 60) as u64;
        proof {
            assert(minutes as int == (now - ts) / 60);
        }
        let digits = u64_to_dec_chars(minutes);
        let mut out = chars_to_string(&digits);
        out.append(" minute(s) ago");
        out
    } else {
        String::from_str("Just now")
    }
}

// ---------------------------------------------------------------------------
// Lookup and cleanup selection
// ---------------------------------------------------------------------------

pub open spec fn backup_names(entries: Seq<BackupEntry>) -> Seq<Seq<char>> {
    entries.map_values(|e: BackupEntry| e.metadata.name@)
}

/// First index whose name equals the query.
pub open spec fn first_exact(names: Seq<Seq<char>>, q: Seq<char>) -> Option<int>
    decreases names.len(),
{
    if names.len() == 0 {
        None
    } else if names[0] == q {
        Some(0)
    } else {
        match first_exact(names.drop_first(), q) {
            Some(i) => Some(i + 1),
            None => None,
        }
    }
}

/// First index whose name contains the query.
pub open spec fn first_containing(names: Seq<Seq<char>>, q: Seq<char>) -> Option<int>
    decreases names.len(),
{
    if names.len() == 0 {
        None
    } else if seq_has(names[0], q) {
        Some(0)
    } else {
        match first_containing(names.drop_first(), q) {
            Some(i) => Some(i + 1),
            None => None,
        }
    }
}

/// Which backup a query names: the first exact name match, otherwise the
/// first whose name contains the query as a substring.
pub open spec fn find_backup_spec(names: Seq<Seq<char>>, q: Seq<char>) -> Option<int> {
    match first_exact(names, q) {
        Some(i) => Some(i),
        None => first_containing(names, q),
    }
}

proof fn lemma_first_exact_bounds(names: Seq<Seq<char>>, q: Seq<char>)
    ensures
        first_exact(names, q) matches Some(i) ==> 0 <= i < names.len() && names[i] == q,
        first_containing(names, q) matches Some(i) ==> 0 <= i < names.len() && seq_has(
            names[i],
            q,
        ),
    decreases names.len(),
{
    if names.len() > 0 {
        lemma_first_exact_bounds(names.drop_first(), q);
    }
}

/// Finds a backup by exact name, falling back to the first whose name
/// contains the query.
pub fn find_backup<'a>(entries: &'a Vec<BackupEntry>, q: &String) -> (r: Option<&'a BackupEntry>)
    ensures
        (r is Some) == (find_backup_spec(backup_names(entries@), q@) is Some),
        r matches Some(b) ==> (find_backup_spec(backup_names(entries@), q@) matches Some(ix)
            && 0 <= ix < entries@.len() && b == entries@[ix]),
{
    let ghost names = backup_names(entries@);
    let qv = string_to_chars(q);
    proof {
        lemma_first_exact_bounds(names, q@);
    }
    let mut i: usize = 0;
    while i < entries.len()
        invariant
            i <= entries@.len(),
            names == backup_names(entries@),
            qv@ == q@,
            forall|k: int| 0 <= k < i ==> #[trigger] names[k] != q@,
        decreases entries@.len() - i,
    {
        let nv = string_to_chars(&entries[i].metadata.name);
        if chars_eq(&nv, &qv) {
            proof {
                lemma_first_exact_at(names, q@, i as int);
            }
            return Some(&entries[i]);
        }
        i = i + 1;
    }
    proof {
        lemma_first_exact_none(names, q@);
    }
    let mut j: usize = 0;
    while j < entries.len()
        invariant
            j <= entries@.len(),
            names == backup_names(entries@),
            qv@ == q@,
            first_exact(names, q@) is None,
            forall|k: int| 0 <= k < j ==> !seq_has(#[trigger] names[k], q@),
        decreases entries@.len() - j,
    {
        let nv = string_to_chars(&entries[j].metadata.name);
        if chars_contains(&nv, &qv) {
            proof {
                lemma_first_containing_at(names, q@, j as int);
            }
            return Some(&entries[j]);
        }
        j = j + 1;
    }
    proof {
        lemma_first_containing_none(names, q@);
    }
    None
}

proof fn lemma_first_exact_at(names: Seq<Seq<char>>, q: Seq<char>, i: int)
    requires
        0 <= i < names.len(),
        names[i] == q,
        forall|k: int| 0 <= k < i ==> #[trigger] names[k] != q,
    ensures
        first_exact(names, q) == Some(i),
    decreases i,
{
    if i > 0 {
        assert(forall|k: int| 0 <= k < i - 1 ==> #[trigger] names.drop_first()[k] != q);
        assert(names.drop_first()[i - 1] == q);
        lemma_first_exact_at(names.drop_first(), q, i - 1);
    }
}

proof fn lemma_first_exact_none(names: Seq<Seq<char>>, q: Seq<char>)
    requires
        forall|k: int| 0 <= k < names.len() ==> #[trigger] names[k] != q,
    ensures
        first_exact(names, q) is None,
    decreases names.len(),
{
    if names.len() > 0 {
        lemma_first_exact_none(names.drop_first(), q);
    }
}

proof fn lemma_first_containing_at(names: Seq<Seq<char>>, q: Seq<char>, i: int)
    requires
        0 <= i < names.len(),
        seq_has(names[i], q),
        forall|k: int| 0 <= k < i ==> !seq_has(#[trigger] names[k], q),
    ensures
        first_containing(names, q) == Some(i),
    decreases i,
{
    if i > 0 {
        assert(forall|k: int| 0 <= k < i - 1 ==> !seq_has(#[trigger] names.drop_first()[k], q));
        assert(names.drop_first()[i - 1] == names[i]);
        lemma_first_containing_at(names.drop_first(), q, i - 1);
    }
}

proof fn lemma_first_containing_none(names: Seq<Seq<char>>, q: Seq<char>)
    requires
        forall|k: int| 0 <= k < names.len() ==> !seq_has(#[trigger] names[k], q),
    ensures
        first_containing(names, q) is None,
    decreases names.len(),
{
    if names.len() > 0 {
        lemma_first_containing_none(names.drop_first(), q);
    }
}

/// Picks the indices of all backups created strictly before the cutoff
/// instant — those a cleanup deletes.
pub fn select_old_backups(entries: &Vec<BackupEntry>, cutoff: i64) -> (r: Vec<usize>)
    ensures
        forall|ix: usize|
            r@.contains(ix) == (0 <= ix < entries@.len()
                && #[trigger] entries@[ix as int].metadata@.created_at < cutoff as int),
        forall|k: int| 0 <= k < r@.len() ==> #[trigger] r@[k] < entries@.len(),
{
    let mut out: Vec<usize> = Vec::new();
    let mut i: usize = 0;
    proof {
        assert(out@ =~= Seq::<usize>::empty());
    }
    while i < entries.len()
        invariant
            i <= entries@.len(),
            forall|ix: usize|
                out@.contains(ix) == (0 <= ix < i
                    && #[trigger] entries@[ix as int].metadata@.created_at < cutoff as int),
            forall|k: int| 0 <= k < out@.len() ==> #[trigger] out@[k] < i,
        decreases entries@.len() - i,
    {
        let ghost out0 = out@;
        if entries[i].metadata.created_at < cutoff {
            out.push(i);
            proof {
                assert forall|ix: usize| true implies out@.contains(ix) == (0 <= ix < i + 1
                    && #[trigger] entries@[ix as int].metadata@.created_at < cutoff as int) by {
                    lemma_contains_push(out0, i, ix);
                }
            }
        } else {
            proof {
                assert forall|ix: usize| true implies out@.contains(ix) == (0 <= ix < i + 1
                    && #[trigger] entries@[ix as int].metadata@.created_at < cutoff as int) by {
                    if ix == i {
                        assert(!(entries@[ix as int].metadata@.created_at < cutoff as int));
                    }
                }
            }
        }
        i = i + 1;
    }
    out
}

/// The file name a backup is stored under: its sanitized name plus `.json`.
pub fn backup_file_name(name: &str) -> (r: String)
    ensures
        r@ == sanitize_spec(name@) + ".json"@,
{
    let mut base = sanitize_filename(name);
    base.append(".json");
    base
}

} // verus!
