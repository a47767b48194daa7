//! Bulk operations over many servers: environment-variable assignments,
//! pattern matching of server names, and batch updates.

use vstd::prelude::*;
use crate::strutil::{
    str_to_chars, string_to_chars, chars_to_string, chars_contains, seq_has, lemma_contains_push,
};
use crate::config::{Config, McpServer, first_lookup, strs_view};
use crate::errors::ForgeError;

verus! {

/// One server to create from a template, with its variable values.
pub struct BatchServerConfig {
    pub name: String,
    pub template: String,
    pub vars: Vec<(String, String)>,
}

/// A batch file: the servers to create.
pub struct BatchConfig {
    pub servers: Vec<BatchServerConfig>,
}

/// What one bulk step did.
pub struct BulkOperationResult {
    pub server_name: String,
    pub operation: String,
    pub success: bool,
    pub message: String,
}

/// The bulk subcommands the tool accepts.
pub enum BulkCommands {
    Add { file: String, dry_run: bool },
    Update { pattern: Option<String>, tag: Option<String>, set: Vec<String>, dry_run: bool },
    Remove { pattern: String, force: bool, dry_run: bool },
}

/// One `KEY=VALUE` assignment, split at the first equals sign.
pub open spec fn split_assignment(s: Seq<char>) -> Option<(Seq<char>, Seq<char>)> {
    if exists|i: int| 0 <= i < s.len() && s[i] == '='
        {
        let i = choose|i: int|
            0 <= i < s.len() && #[trigger] s[i] == '=' && forall|j: int|
                0 <= j < i ==> s[j] != '=';
        Some((s.take(i), s.skip(i + 1)))
    } else {
        None
    }
}

/// Splits at the first equals sign.
fn split_once_eq(s: &String) -> (r: Option<(Vec<char>, Vec<char>)>)
    ensures
        (r is Some) == (exists|i: int| 0 <= i < s@.len() && s@[i] == '='),
        r matches Some((k, v)) ==> exists|i: int|
            0 <= i < s@.len() && #[trigger] s@[i] == '=' && (forall|j: int|
                0 <= j < i ==> s@[j] != '=') && k@ == s@.take(i) && v@ == s@.skip(i + 1),
{
    let chars = string_to_chars(s);
    let mut i: usize = 0;
    while i < chars.len()
        invariant
            i <= chars@.len(),
            chars@ == s@,
            forall|j: int| 0 <= j < i ==> s@[j] != '=',
        decreases chars@.len() - i,
    {
        if chars[i] == '=' {
            let k = crate::strutil::chars_take(&chars, i);
            let mut v: Vec<char> = Vec::new();
            let mut j: usize = i + 1;
            while j < chars.len()
                invariant
                    i + 1 <= j <= chars@.len(),
                    chars@ == s@,
                    v@ == s@.subrange(i + 1, j as int),
                decreases chars@.len() - j,
            {
                v.push(chars[j]);
                proof {
                    assert(s@.subrange(i + 1, j as int).push(s@[j as int]) =~= s@.subrange(
                        i + 1,
                        j + 1,
                    ));
                }
                j = j + 1;
            }
            proof {
                assert(s@.subrange(i + 1, s@.len() as int) =~= s@.skip(i + 1));
            }
            return Some((k, v));
        }
        i = i + 1;
    }
    None
}

/// Parses `KEY=VALUE` assignments; any entry without an equals sign is an
/// error naming it.
pub fn parse_env_vars(set_vars: &Vec<String>) -> (r: Result<Vec<(String, String)>, ForgeError>)
    ensures
        (r is Ok) == (forall|k: int|
            0 <= k < set_vars@.len() ==> split_assignment(#[trigger] set_vars@[k]@) is Some),
        r matches Ok(out) ==> out@.len() == set_vars@.len() && (forall|k: int|
            0 <= k < out@.len() ==> split_assignment(#[trigger] set_vars@[k]@) == Some(
                (out@[k].0@, out@[k].1@),
            )),
        r matches Err(e) ==> e is Validation,
{
    let mut out: Vec<(String, String)> = Vec::new();
    let mut i: usize = 0;
    while i < set_vars.len()
        invariant
            i <= set_vars@.len(),
            out@.len() == i,
            forall|k: int|
                0 <= k < i ==> split_assignment(#[trigger] set_vars@[k]@) == Some(
                    (out@[k].0@, out@[k].1@),
                ),
        decreases set_vars@.len() - i,
    {
        match split_once_eq(&set_vars[i]) {
            Some((k, v)) => {
                proof {
                    lemma_split_unique(set_vars@[i as int]@, k@, v@);
                }
                out.push((chars_to_string(&k), chars_to_string(&v)));
            },
            None => {
                let mut m = String::from_str(
                    "Invalid environment variable assignment; use KEY=VALUE: ",
                );
                m.append(set_vars[i].as_str());
                return Err(ForgeError::Validation(m));
            },
        }
        i = i + 1;
    }
    Ok(out)
}

/// The witness in `split_once_eq`'s contract is the one `split_assignment`
/// chooses: the first equals sign.
pub proof fn lemma_split_unique(s: Seq<char>, k: Seq<char>, v: Seq<char>)
    requires
        exists|i: int|
            0 <= i < s.len() && #[trigger] s[i] == '=' && (forall|j: int|
                0 <= j < i ==> s[j] != '=') && k == s.take(i) && v == s.skip(i + 1),
    ensures
        split_assignment(s) == Some((k, v)),
{
    let i = choose|i: int|
        0 <= i < s.len() && #[trigger] s[i] == '=' && (forall|j: int| 0 <= j < i ==> s[j] != '=')
            && k == s.take(i) && v == s.skip(i + 1);
    let c = choose|c: int|
        0 <= c < s.len() && #[trigger] s[c] == '=' && forall|j: int| 0 <= j < c ==> s[j] != '=';
    assert(s[i] == '=');
    if c < i {
        assert(s[c] != '=');
    }
    if i < c {
        assert(s[i] != '=');
    }
    assert(c == i);
}

/// The names of the servers whose name contains the pattern; with no pattern,
/// all of them.  An empty match with a pattern is an error naming it.
pub fn find_matching_servers(config: &Config, pattern: Option<&String>) -> (r: Result<
    Vec<String>,
    ForgeError,
>)
    ensures
        r matches Ok(names) ==> (forall|k: Seq<char>|
            strs_view(names@).contains(k) == (first_lookup(config@.mcp_servers, k) is Some
                && (pattern matches Some(p) ==> seq_has(k, p@)))),
        (r is Err) == (pattern matches Some(p) && (forall|m: int|
            0 <= m < config@.mcp_servers.len() ==> !seq_has(
                #[trigger] config@.mcp_servers[m].0,
                p@,
            ))),
        r matches Err(e) ==> e is NotFound,
{
    let mut out: Vec<String> = Vec::new();
    let pv: Option<Vec<char>> = match pattern {
        Some(p) => Some(string_to_chars(p)),
        None => None,
    };
    let mut i: usize = 0;
    proof {
        assert(strs_view(out@) =~= Seq::<Seq<char>>::empty());
    }
    while i < config.mcp_servers.len()
        invariant
            i <= config.mcp_servers@.len(),
            pattern matches Some(p) ==> (pv matches Some(pp) && pp@ == p@),
            pattern is None ==> pv is None,
            forall|k: Seq<char>|
                strs_view(out@).contains(k) == (exists|m: int|
                    0 <= m < i && #[trigger] config@.mcp_servers[m].0 == k && (pattern matches Some(
                        p,
                    ) ==> seq_has(k, p@))),
        decreases config.mcp_servers@.len() - i,
    {
        let nv = string_to_chars(&config.mcp_servers[i].0);
        let keep = match &pv {
            Some(pp) => chars_contains(&nv, pp),
            None => true,
        };
        let ghost out0 = strs_view(out@);
        proof {
            assert(config@.mcp_servers[i as int].0 == nv@);
        }
        if keep {
            out.push(crate::config::clone_string(&config.mcp_servers[i].0));
            proof {
                assert(strs_view(out@) =~= out0.push(nv@));
                assert forall|k: Seq<char>| true implies strs_view(out@).contains(k) == (exists|
                    m: int,
                |
                    0 <= m < i + 1 && #[trigger] config@.mcp_servers[m].0 == k && (
                    pattern matches Some(p) ==> seq_has(k, p@))) by {
                    lemma_contains_push(out0, nv@, k);
                    if k == nv@ {
                        assert(config@.mcp_servers[i as int].0 == k);
                    }
                    if exists|m: int|
                        0 <= m < i + 1 && #[trigger] config@.mcp_servers[m].0 == k && (
                        pattern matches Some(p) ==> seq_has(k, p@)) {
                        let m = choose|m: int|
                            0 <= m < i + 1 && #[trigger] config@.mcp_servers[m].0 == k && (
                            pattern matches Some(p) ==> seq_has(k, p@));
                        if m < i {
                            assert(out0.contains(k));
                        }
                    }
                }
            }
        } else {
            proof {
                assert forall|k: Seq<char>| true implies strs_view(out@).contains(k) == (exists|
                    m: int,
                |
                    0 <= m < i + 1 && #[trigger] config@.mcp_servers[m].0 == k && (
                    pattern matches Some(p) ==> seq_has(k, p@))) by {
                    if exists|m: int|
                        0 <= m < i + 1 && #[trigger] config@.mcp_servers[m].0 == k && (
                        pattern matches Some(p) ==> seq_has(k, p@)) {
                        let m = choose|m: int|
                            0 <= m < i + 1 && #[trigger] config@.mcp_servers[m].0 == k && (
                            pattern matches Some(p) ==> seq_has(k, p@));
                        if m < i {
                            assert(strs_view(out@).contains(k));
                        } else {
                            assert(false);
                        }
                    }
                }
            }
        }
        i = i + 1;
    }
    if out.len() == 0 {
        match pattern {
            Some(p) => {
                proof {
                    assert forall|m: int| 0 <= m < config@.mcp_servers.len() implies !seq_has(
                        #[trigger] config@.mcp_servers[m].0,
                        p@,
                    ) by {
                        if seq_has(config@.mcp_servers[m].0, p@) {
                            assert(strs_view(out@).contains(config@.mcp_servers[m].0));
                            assert(strs_view(out@).len() == 0);
                        }
                    }
                }
                let mut m = String::from_str("No servers found matching pattern: ");
                m.append(p.as_str());
                return Err(ForgeError::NotFound(m));
            },
            None => {},
        }
    }
    proof {
        assert forall|k: Seq<char>| true implies strs_view(out@).contains(k) == (first_lookup(
            config@.mcp_servers,
            k,
        ) is Some && (pattern matches Some(p) ==> seq_has(k, p@))) by {
            crate::profiles::lemma_lookup_key_witness(config@.mcp_servers, k);
        }
        if out@.len() > 0 {
            match pattern {
                Some(p) => {
                    let k0 = strs_view(out@)[0];
                    assert(strs_view(out@).contains(k0));
                    let m = choose|m: int|
                        0 <= m < config@.mcp_servers.len()
                            && #[trigger] config@.mcp_servers[m].0 == k0 && seq_has(k0, p@);
                    assert(seq_has(config@.mcp_servers[m].0, p@));
                },
                None => {},
            }
        }
    }
    Ok(out)
}

/// Sets (inserting or replacing) the given environment variables on the named
/// server; reports failure when the server is absent.
pub fn update_server_env(
    config: &mut Config,
    server_name: &String,
    env_updates: &Vec<(String, String)>,
) -> (r: BulkOperationResult)
    ensures
        r.success == (first_lookup(old(config)@.mcp_servers, server_name@) is Some),
        !r.success ==> final(config)@ == old(config)@,
{
    if !config.has_server(server_name.as_str()) {
        proof {
            assert(config@ =~~= old(config)@);
        }
        return BulkOperationResult {
            server_name: crate::config::clone_string(server_name),
            operation: String::from_str("update"),
            success: false,
            message: String::from_str("Server not found"),
        };
    }
    let existing = match config.get_server(server_name.as_str()) {
        Some(s) => crate::config::clone_server(s),
        None => {
            proof {
                assert(false);
            }
            return BulkOperationResult {
                server_name: crate::config::clone_string(server_name),
                operation: String::from_str("update"),
                success: false,
                message: String::from_str("Server not found"),
            };
        },
    };
    let mut env: Vec<(String, String)> = match existing.env {
        Some(e) => e,
        None => Vec::new(),
    };
    let mut i: usize = 0;
    while i < env_updates.len()
        invariant
            i <= env_updates@.len(),
        decreases env_updates@.len() - i,
    {
        let key = crate::config::clone_string(&env_updates[i].0);
        let value = crate::config::clone_string(&env_updates[i].1);
        let mut found = false;
        let mut j: usize = 0;
        while j < env.len() && !found
            invariant
                j <= env@.len(),
            decreases env@.len() - j,
        {
            let kv = string_to_chars(&env[j].0);
            let uv = string_to_chars(&key);
            if crate::strutil::chars_eq(&kv, &uv) {
                let entry = env.remove(j);
                env.insert(j, (entry.0, crate::config::clone_string(&value)));
                found = true;
            }
            j = j + 1;
        }
        if !found {
            env.push((key, value));
        }
        i = i + 1;
    }
    let updated = McpServer {
        command: existing.command,
        args: existing.args,
        url: existing.url,
        env: Some(env),
        other: existing.other,
    };
    config.insert_server(crate::config::clone_string(server_name), updated);
    BulkOperationResult {
        server_name: crate::config::clone_string(server_name),
        operation: String::from_str("update"),
        success: true,
        message: String::from_str("Environment updated"),
    }
}

} // verus!
