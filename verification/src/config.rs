//! The canonical configuration document: a named map of server entries plus
//! opaque pass-through fields, with lossless JSON conversions.

use vstd::prelude::*;
use crate::json::{Json, JsonV, seq_view, fields_view};
use crate::strutil::{chars_to_string, string_to_chars, chars_eq};
use crate::errors::ForgeError;

verus! {

// ---------------------------------------------------------------------------
// Data model
// ---------------------------------------------------------------------------

/// One server entry.  Either `command` (with optional `args`) or `url` is
/// set; `validate` checks that exactly one of them is.  Unknown JSON fields
/// ride along in `other` so that editing a document never destroys them.
pub struct McpServer {
    pub command: Option<String>,
    pub args: Option<Vec<String>>,
    pub url: Option<String>,
    pub env: Option<Vec<(String, String)>>,
    pub other: Vec<(String, Json)>,
}

/// The whole configuration document.
pub struct Config {
    /// Server entries, keyed by name, in document order.
    pub mcp_servers: Vec<(String, McpServer)>,
    /// Top-level fields other than the server map, preserved opaquely.
    pub other: Vec<(String, Json)>,
}

/// Ghost model of a server entry.
#[verifier::ext_equal]
pub struct McpServerV {
    pub command: Option<Seq<char>>,
    pub args: Option<Seq<Seq<char>>>,
    pub url: Option<Seq<char>>,
    pub env: Option<Seq<(Seq<char>, Seq<char>)>>,
    pub other: Seq<(Seq<char>, JsonV)>,
}

/// Ghost model of a configuration document.
#[verifier::ext_equal]
pub struct ConfigV {
    pub mcp_servers: Seq<(Seq<char>, McpServerV)>,
    pub other: Seq<(Seq<char>, JsonV)>,
}

pub open spec fn strs_view(s: Seq<String>) -> Seq<Seq<char>> {
    s.map_values(|x: String| x@)
}

pub open spec fn pairs_view(s: Seq<(String, String)>) -> Seq<(Seq<char>, Seq<char>)> {
    s.map_values(|p: (String, String)| (p.0@, p.1@))
}

pub open spec fn jfields_view(s: Seq<(String, Json)>) -> Seq<(Seq<char>, JsonV)> {
    s.map_values(|p: (String, Json)| (p.0@, p.1@))
}

impl View for McpServer {
    type V = McpServerV;

    open spec fn view(&self) -> McpServerV {
        McpServerV {
            command: match self.command {
                Some(c) => Some(c@),
                None => None,
            },
            args: match self.args {
                Some(a) => Some(strs_view(a@)),
                None => None,
            },
            url: match self.url {
                Some(u) => Some(u@),
                None => None,
            },
            env: match self.env {
                Some(e) => Some(pairs_view(e@)),
                None => None,
            },
            other: jfields_view(self.other@),
        }
    }
}

pub open spec fn servers_view(s: Seq<(String, McpServer)>) -> Seq<(Seq<char>, McpServerV)> {
    s.map_values(|p: (String, McpServer)| (p.0@, p.1@))
}

impl View for Config {
    type V = ConfigV;

    open spec fn view(&self) -> ConfigV {
        ConfigV { mcp_servers: servers_view(self.mcp_servers@), other: jfields_view(self.other@) }
    }
}

// ---------------------------------------------------------------------------
// Association lists
// ---------------------------------------------------------------------------

/// First entry with the given key, if any.
pub open spec fn first_lookup<V>(s: Seq<(Seq<char>, V)>, k: Seq<char>) -> Option<V>
    decreases s.len(),
{
    if s.len() == 0 {
        None
    } else if s[0].0 == k {
        Some(s[0].1)
    } else {
        first_lookup(s.drop_first(), k)
    }
}

/// The map an association list denotes; on a repeated key the first wins.
pub open spec fn assoc_map<V>(s: Seq<(Seq<char>, V)>) -> Map<Seq<char>, V>
    decreases s.len(),
{
    if s.len() == 0 {
        Map::empty()
    } else {
        assoc_map(s.drop_first()).insert(s[0].0, s[0].1)
    }
}

pub proof fn lemma_first_lookup_assoc<V>(s: Seq<(Seq<char>, V)>, k: Seq<char>)
    ensures
        assoc_map(s).dom().contains(k) == (first_lookup(s, k) is Some),
        first_lookup(s, k) matches Some(v) ==> assoc_map(s)[k] == v,
    decreases s.len(),
{
    if s.len() > 0 {
        lemma_first_lookup_assoc(s.drop_first(), k);
    }
}

// ---------------------------------------------------------------------------
// McpServer methods
// ---------------------------------------------------------------------------

impl McpServer {
    /// A URL-style entry.
    pub fn is_url_server(&self) -> (r: bool)
        ensures
            r == (self@.url is Some),
    {
        self.url.is_some()
    }

    /// A command-style entry.
    pub fn is_command_server(&self) -> (r: bool)
        ensures
            r == (self@.command is Some),
    {
        self.command.is_some()
    }

    /// Exactly one of `url` and `command` must be present.
    pub open spec fn valid_shape(&self) -> bool {
        (self@.url is Some) != (self@.command is Some)
    }

    /// Rejects an entry with both or neither of `url` and `command`.
    pub fn validate(&self) -> (r: Result<(), ForgeError>)
        ensures
            (r is Ok) == self.valid_shape(),
            r matches Err(e) ==> e is Validation,
    {
        match (self.url.as_ref(), self.command.as_ref()) {
            (Some(_), Some(_)) => Err(
                ForgeError::Validation(
                    String::from_str("Server cannot have both 'url' and 'command' fields"),
                ),
            ),
            (None, None) => Err(
                ForgeError::Validation(
                    String::from_str("Server must have either 'url' or 'command' field"),
                ),
            ),
            _ => Ok(()),
        }
    }

    /// `"url"` for a URL-style entry, `"command"` otherwise.
    pub fn server_type(&self) -> (r: &'static str)
        ensures
            (self@.url is Some) ==> r@ == "url"@,
            (self@.url is None) ==> r@ == "command"@,
    {
        if self.url.is_some() {
            "url"
        } else {
            "command"
        }
    }
}

// ---------------------------------------------------------------------------
// Config methods
// ---------------------------------------------------------------------------

fn str_eq_string(a: &str, b: &String) -> (r: bool)
    ensures
        r == (a@ == b@),
{
    let va = crate::strutil::str_to_chars(a);
    let vb = string_to_chars(b);
    chars_eq(&va, &vb)
}

impl Config {
    /// The empty document.
    pub fn empty() -> (r: Config)
        ensures
            r@.mcp_servers.len() == 0,
            r@.other.len() == 0,
    {
        let r = Config { mcp_servers: Vec::new(), other: Vec::new() };
        proof {
            assert(r@.mcp_servers =~= Seq::<(Seq<char>, McpServerV)>::empty());
            assert(r@.other =~= Seq::<(Seq<char>, JsonV)>::empty());
        }
        r
    }

    /// The entry named `name`, if present.
    pub fn get_server(&self, name: &str) -> (r: Option<&McpServer>)
        ensures
            (r is Some) == (first_lookup(self@.mcp_servers, name@) is Some),
            r matches Some(s) ==> first_lookup(self@.mcp_servers, name@) == Some(s@),
    {
        proof {
            assert(self@.mcp_servers.skip(0) =~= self@.mcp_servers);
        }
        let mut i: usize = 0;
        while i < self.mcp_servers.len()
            invariant
                i <= self.mcp_servers@.len(),
                first_lookup(self@.mcp_servers, name@) == first_lookup(
                    self@.mcp_servers.skip(i as int),
                    name@,
                ),
        decreases self.mcp_servers@.len() - i,
        {
            proof {
                assert(self@.mcp_servers.skip(i as int)[0] == self@.mcp_servers[i as int]);
            }
            if str_eq_string(name, &self.mcp_servers[i].0) {
                return Some(&self.mcp_servers[i].1);
            }
            proof {
                assert(self@.mcp_servers.skip(i as int).drop_first() =~= self@.mcp_servers.skip(
                    i + 1,
                ));
            }
            i = i + 1;
        }
        proof {
            assert(self@.mcp_servers.skip(i as int).len() == 0);
        }
        None
    }

    /// Whether an entry named `name` exists.
    pub fn has_server(&self, name: &str) -> (r: bool)
        ensures
            r == (first_lookup(self@.mcp_servers, name@) is Some),
    {
        self.get_server(name).is_some()
    }

    /// All entries, in document order.
    pub fn list_servers(&self) -> (r: &Vec<(String, McpServer)>)
        ensures
            r@ == self.mcp_servers@,
    {
        &self.mcp_servers
    }

    /// The number of entries.
    pub fn server_count(&self) -> (r: usize)
        ensures
            r == self@.mcp_servers.len(),
    {
        self.mcp_servers.len()
    }

    /// Inserts or replaces the entry named `name`.  An existing entry keeps
    /// its position; a new one goes at the end.
    pub fn insert_server(&mut self, name: String, server: McpServer)
        ensures
            first_lookup(final(self)@.mcp_servers, name@) == Some(server@),
            forall|k: Seq<char>|
                k != name@ ==> #[trigger] first_lookup(final(self)@.mcp_servers, k)
                    == first_lookup(old(self)@.mcp_servers, k),
            final(self)@.other == old(self)@.other,
    {
        let ghost orig = self@.mcp_servers;
        let mut i: usize = 0;
        while i < self.mcp_servers.len()
            invariant
                i <= self.mcp_servers@.len(),
                *self == *old(self),
                self@.mcp_servers == orig,
                forall|k: int| 0 <= k < i ==> #[trigger] orig[k].0 != name@,
            decreases self.mcp_servers@.len() - i,
        {
            if str_eq_string(name.as_str(), &self.mcp_servers[i].0) {
                let old_entry = self.mcp_servers.remove(i);
                self.mcp_servers.insert(i, (old_entry.0, server));
                proof {
                    let now = self@.mcp_servers;
                    assert(now =~= orig.update(i as int, (name@, server@)));
                    lemma_first_lookup_update(orig, i as int, name@, server@);
                }
                return;
            }
            i = i + 1;
        }
        self.mcp_servers.push((name, server));
        proof {
            let now = self@.mcp_servers;
            assert(now =~= orig.push((name@, server@)));
            lemma_first_lookup_append(orig, name@, server@);
        }
    }

    /// Removes the entry named `name`; reports whether one was there.
    pub fn remove_server(&mut self, name: &str) -> (r: bool)
        ensures
            r == (first_lookup(old(self)@.mcp_servers, name@) is Some),
            r ==> final(self)@.mcp_servers.len() == old(self)@.mcp_servers.len() - 1,
            forall|k: Seq<char>|
                k != name@ ==> #[trigger] first_lookup(final(self)@.mcp_servers, k)
                    == first_lookup(old(self)@.mcp_servers, k),
            final(self)@.other == old(self)@.other,
            !r ==> final(self)@ == old(self)@,
    {
        let ghost orig = self@.mcp_servers;
        let mut i: usize = 0;
        while i < self.mcp_servers.len()
            invariant
                i <= self.mcp_servers@.len(),
                *self == *old(self),
                self@.mcp_servers == orig,
                forall|k: int| 0 <= k < i ==> #[trigger] orig[k].0 != name@,
            decreases self.mcp_servers@.len() - i,
        {
            if str_eq_string(name, &self.mcp_servers[i].0) {
                self.mcp_servers.remove(i);
                proof {
                    assert(self@.mcp_servers =~= orig.remove(i as int));
                    lemma_first_lookup_found(orig, i as int, name@);
                    lemma_first_lookup_remove(orig, i as int, name@);
                }
                return true;
            }
            i = i + 1;
        }
        proof {
            lemma_first_lookup_no_key(orig, name@);
            assert(self@ =~~= old(self)@);
        }
        false
    }
}

/// Updating the first occurrence of a key changes only that key's lookup.
pub proof fn lemma_first_lookup_update<V>(s: Seq<(Seq<char>, V)>, i: int, key: Seq<char>, v: V)
    requires
        0 <= i < s.len(),
        s[i].0 == key,
        forall|k: int| 0 <= k < i ==> #[trigger] s[k].0 != key,
    ensures
        first_lookup(s.update(i, (key, v)), key) == Some(v),
        forall|k: Seq<char>|
            k != key ==> #[trigger] first_lookup(s.update(i, (key, v)), k) == first_lookup(s, k),
    decreases s.len(),
{
    let t = s.update(i, (key, v));
    if i == 0 {
        assert(t[0] == (key, v));
        assert forall|k: Seq<char>| k != key implies #[trigger] first_lookup(t, k)
            == first_lookup(s, k) by {
            assert(t.drop_first() =~= s.drop_first());
            assert(first_lookup(t, k) == first_lookup(t.drop_first(), k));
            assert(first_lookup(s, k) == first_lookup(s.drop_first(), k));
        }
    } else {
        assert(t[0] == s[0]);
        assert(t.drop_first() =~= s.drop_first().update(i - 1, (key, v)));
        assert(forall|k: int| 0 <= k < i - 1 ==> #[trigger] s.drop_first()[k].0 != key);
        assert(s.drop_first()[i - 1].0 == key);
        lemma_first_lookup_update(s.drop_first(), i - 1, key, v);
        assert(s[0].0 != key);
        assert(first_lookup(t, key) == Some(v));
        assert forall|k: Seq<char>| k != key implies #[trigger] first_lookup(t, k)
            == first_lookup(s, k) by {
            if t[0].0 == k {
            } else {
                assert(first_lookup(t, k) == first_lookup(t.drop_first(), k));
                assert(first_lookup(s, k) == first_lookup(s.drop_first(), k));
            }
        }
    }
}

/// Appending a fresh key changes only that key's lookup.
pub proof fn lemma_first_lookup_append<V>(s: Seq<(Seq<char>, V)>, key: Seq<char>, v: V)
    requires
        forall|k: int| 0 <= k < s.len() ==> #[trigger] s[k].0 != key,
    ensures
        first_lookup(s.push((key, v)), key) == Some(v),
        forall|k: Seq<char>|
            k != key ==> #[trigger] first_lookup(s.push((key, v)), k) == first_lookup(s, k),
    decreases s.len(),
{
    let t = s.push((key, v));
    if s.len() == 0 {
        assert(t[0] == (key, v));
        assert forall|k: Seq<char>| k != key implies #[trigger] first_lookup(t, k)
            == first_lookup(s, k) by {
            assert(t.drop_first().len() == 0);
            assert(first_lookup(t, k) == first_lookup(t.drop_first(), k));
        }
    } else {
        assert(t[0] == s[0]);
        assert(t.drop_first() =~= s.drop_first().push((key, v)));
        lemma_first_lookup_append(s.drop_first(), key, v);
        assert forall|k: Seq<char>| k != key implies #[trigger] first_lookup(t, k)
            == first_lookup(s, k) by {
            if t[0].0 == k {
            } else {
                assert(first_lookup(t, k) == first_lookup(t.drop_first(), k));
                assert(first_lookup(s, k) == first_lookup(s.drop_first(), k));
            }
        }
        assert(s[0].0 != key);
    }
}

/// Removing the first occurrence of a key (with no earlier occurrence)
/// changes only that key's lookup, which afterwards misses or finds a later
/// occurrence — with unique keys, misses.
pub proof fn lemma_first_lookup_remove<V>(s: Seq<(Seq<char>, V)>, i: int, key: Seq<char>)
    requires
        0 <= i < s.len(),
        s[i].0 == key,
        forall|k: int| 0 <= k < i ==> #[trigger] s[k].0 != key,
    ensures
        forall|k: Seq<char>|
            k != key ==> #[trigger] first_lookup(s.remove(i), k) == first_lookup(s, k),
    decreases s.len(),
{
    let t = s.remove(i);
    if i == 0 {
        assert forall|k: Seq<char>| k != key implies #[trigger] first_lookup(t, k)
            == first_lookup(s, k) by {
            assert(t =~= s.drop_first());
            assert(first_lookup(s, k) == first_lookup(s.drop_first(), k));
        }
    } else {
        assert(t[0] == s[0]);
        assert(t.drop_first() =~= s.drop_first().remove(i - 1));
        assert(forall|k: int| 0 <= k < i - 1 ==> #[trigger] s.drop_first()[k].0 != key);
        assert(s.drop_first()[i - 1].0 == key);
        lemma_first_lookup_remove(s.drop_first(), i - 1, key);
        assert forall|k: Seq<char>| k != key implies #[trigger] first_lookup(t, k)
            == first_lookup(s, k) by {
            if t[0].0 == k {
            } else {
                assert(first_lookup(t, k) == first_lookup(t.drop_first(), k));
                assert(first_lookup(s, k) == first_lookup(s.drop_first(), k));
            }
        }
    }
}

/// An entry whose earlier entries all have other keys is what lookup finds.
pub proof fn lemma_first_lookup_found<V>(s: Seq<(Seq<char>, V)>, i: int, key: Seq<char>)
    requires
        0 <= i < s.len(),
        s[i].0 == key,
        forall|k: int| 0 <= k < i ==> #[trigger] s[k].0 != key,
    ensures
        first_lookup(s, key) == Some(s[i].1),
    decreases i,
{
    if i > 0 {
        assert(s.drop_first()[i - 1] == s[i]);
        assert(forall|k: int| 0 <= k < i - 1 ==> #[trigger] s.drop_first()[k].0 != key);
        lemma_first_lookup_found(s.drop_first(), i - 1, key);
    }
}

/// A missed key matches no entry.
pub proof fn lemma_first_lookup_none<V>(s: Seq<(Seq<char>, V)>, key: Seq<char>)
    requires
        first_lookup(s, key) is None,
    ensures
        forall|k: int| 0 <= k < s.len() ==> #[trigger] s[k].0 != key,
    decreases s.len(),
{
    if s.len() > 0 {
        lemma_first_lookup_none(s.drop_first(), key);
        assert(forall|k: int|
            1 <= k < s.len() ==> #[trigger] s[k].0 == s.drop_first()[k - 1].0);
    }
}

/// A key that matches no entry is not found.
pub proof fn lemma_first_lookup_no_key<V>(s: Seq<(Seq<char>, V)>, key: Seq<char>)
    requires
        forall|k: int| 0 <= k < s.len() ==> #[trigger] s[k].0 != key,
    ensures
        first_lookup(s, key) is None,
    decreases s.len(),
{
    if s.len() > 0 {
        lemma_first_lookup_no_key(s.drop_first(), key);
    }
}

// ---------------------------------------------------------------------------
// Field names
// ---------------------------------------------------------------------------

pub open spec fn key_command() -> Seq<char> {
    seq!['c', 'o', 'm', 'm', 'a', 'n', 'd']
}

pub open spec fn key_args() -> Seq<char> {
    seq!['a', 'r', 'g', 's']
}

pub open spec fn key_url() -> Seq<char> {
    seq!['u', 'r', 'l']
}

pub open spec fn key_env() -> Seq<char> {
    seq!['e', 'n', 'v']
}

pub open spec fn key_mcp_servers() -> Seq<char> {
    seq!['m', 'c', 'p', 'S', 'e', 'r', 'v', 'e', 'r', 's']
}

fn key_command_chars() -> (r: Vec<char>)
    ensures
        r@ == key_command(),
{
    let mut r: Vec<char> = Vec::new();
    r.push('c');
    r.push('o');
    r.push('m');
    r.push('m');
    r.push('a');
    r.push('n');
    r.push('d');
    proof {
        assert(r@ =~= key_command());
    }
    r
}

fn key_args_chars() -> (r: Vec<char>)
    ensures
        r@ == key_args(),
{
    let mut r: Vec<char> = Vec::new();
    r.push('a');
    r.push('r');
    r.push('g');
    r.push('s');
    proof {
        assert(r@ =~= key_args());
    }
    r
}

fn key_url_chars() -> (r: Vec<char>)
    ensures
        r@ == key_url(),
{
    let mut r: Vec<char> = Vec::new();
    r.push('u');
    r.push('r');
    r.push('l');
    proof {
        assert(r@ =~= key_url());
    }
    r
}

fn key_env_chars() -> (r: Vec<char>)
    ensures
        r@ == key_env(),
{
    let mut r: Vec<char> = Vec::new();
    r.push('e');
    r.push('n');
    r.push('v');
    proof {
        assert(r@ =~= key_env());
    }
    r
}

fn key_mcp_servers_chars() -> (r: Vec<char>)
    ensures
        r@ == key_mcp_servers(),
{
    let mut r: Vec<char> = Vec::new();
    r.push('m');
    r.push('c');
    r.push('p');
    r.push('S');
    r.push('e');
    r.push('r');
    r.push('v');
    r.push('e');
    r.push('r');
    r.push('s');
    proof {
        assert(r@ =~= key_mcp_servers());
    }
    r
}

// ---------------------------------------------------------------------------
// Verified deep clones
// ---------------------------------------------------------------------------

pub fn clone_string(s: &String) -> (r: String)
    ensures
        r@ == s@,
{
    let v = string_to_chars(s);
    chars_to_string(&v)
}

pub fn clone_chars(v: &Vec<char>) -> (r: Vec<char>)
    ensures
        r@ == v@,
{
    let mut r: Vec<char> = Vec::new();
    let mut i: usize = 0;
    while i < v.len()
        invariant
            i <= v@.len(),
            r@ == v@.take(i as int),
        decreases v@.len() - i,
    {
        r.push(v[i]);
        proof {
            assert(v@.take(i as int).push(v@[i as int]) =~= v@.take(i + 1));
        }
        i = i + 1;
    }
    proof {
        assert(v@.take(i as int) =~= v@);
    }
    r
}

pub fn clone_json(j: &Json) -> (r: Json)
    ensures
        r@ == j@,
    decreases j, 1int,
{
    match j {
        Json::Null => Json::Null,
        Json::Bool(b) => Json::Bool(*b),
        Json::Num(s) => Json::Num(clone_chars(s)),
        Json::Str(s) => Json::Str(clone_chars(s)),
        Json::Arr(items) => {
            let mut out: Vec<Json> = Vec::new();
            clone_json_arr(items, 0, &mut out);
            let res = Json::Arr(out);
            proof {
                let a = res@->Arr_0;
                let b = j@->Arr_0;
                assert(a.len() == b.len());
                assert forall|k: int| 0 <= k < a.len() implies a[k] == b[k] by {
                    assert(a[k] == res->Arr_0@[k]@);
                    assert(res->Arr_0@[k]@ == items@[k]@);
                    assert(b[k] == items@[k]@);
                }
                assert(a =~= b);
                assert(res@ =~~= j@);
            }
            res
        },
        Json::Obj(fields) => {
            let mut out: Vec<(Vec<char>, Json)> = Vec::new();
            clone_json_obj(fields, 0, &mut out);
            let res = Json::Obj(out);
            proof {
                let a = res@->Obj_0;
                let b = j@->Obj_0;
                assert(a.len() == b.len());
                assert forall|k: int| 0 <= k < a.len() implies a[k] == b[k] by {
                    assert(a[k] == (res->Obj_0@[k].0@, res->Obj_0@[k].1@));
                    assert(res->Obj_0@[k].0@ == fields@[k].0@ && res->Obj_0@[k].1@
                        == fields@[k].1@);
                    assert(b[k] == (fields@[k].0@, fields@[k].1@));
                }
                assert(a =~= b);
                assert(res@ =~~= j@);
            }
            res
        },
    }
}

fn clone_json_arr(items: &Vec<Json>, idx: usize, out: &mut Vec<Json>)
    requires
        idx <= items@.len(),
    ensures
        final(out)@.len() == old(out)@.len() + items@.len() - idx,
        forall|k: int| 0 <= k < old(out)@.len() ==> final(out)@[k] == old(out)@[k],
        forall|k: int|
            old(out)@.len() <= k < final(out)@.len() ==> #[trigger] final(out)@[k]@ == items@[k
                - old(out)@.len() + idx]@,
    decreases items, items@.len() - idx, 0int,
{
    if idx < items.len() {
        let c = clone_json(&items[idx]);
        out.push(c);
        clone_json_arr(items, idx + 1, out);
    }
}

fn clone_json_obj(fields: &Vec<(Vec<char>, Json)>, idx: usize, out: &mut Vec<(Vec<char>, Json)>)
    requires
        idx <= fields@.len(),
    ensures
        final(out)@.len() == old(out)@.len() + fields@.len() - idx,
        forall|k: int| 0 <= k < old(out)@.len() ==> final(out)@[k] == old(out)@[k],
        forall|k: int|
            old(out)@.len() <= k < final(out)@.len() ==> #[trigger] final(out)@[k].0@ == fields@[k
                - old(out)@.len() + idx].0@ && final(out)@[k].1@ == fields@[k - old(out)@.len()
                + idx].1@,
    decreases fields, fields@.len() - idx, 0int,
{
    if idx < fields.len() {
        let kk = clone_chars(&fields[idx].0);
        let vv = clone_json(&fields[idx].1);
        out.push((kk, vv));
        clone_json_obj(fields, idx + 1, out);
    }
}

pub fn clone_server(s: &McpServer) -> (r: McpServer)
    ensures
        r@ == s@,
{
    let command = match &s.command {
        Some(c) => Some(clone_string(c)),
        None => None,
    };
    let args = match &s.args {
        Some(a) => {
            let mut out: Vec<String> = Vec::new();
            let mut i: usize = 0;
            while i < a.len()
                invariant
                    i <= a@.len(),
                    out@.len() == i,
                    forall|k: int| 0 <= k < i ==> out@[k]@ == a@[k]@,
                decreases a@.len() - i,
            {
                out.push(clone_string(&a[i]));
                i = i + 1;
            }
            proof {
                assert(strs_view(out@) =~= strs_view(a@));
            }
            Some(out)
        },
        None => None,
    };
    let url = match &s.url {
        Some(u) => Some(clone_string(u)),
        None => None,
    };
    let env = match &s.env {
        Some(e) => {
            let mut out: Vec<(String, String)> = Vec::new();
            let mut i: usize = 0;
            while i < e.len()
                invariant
                    i <= e@.len(),
                    out@.len() == i,
                    forall|k: int|
                        0 <= k < i ==> out@[k].0@ == e@[k].0@ && out@[k].1@ == e@[k].1@,
                decreases e@.len() - i,
            {
                let kk = clone_string(&e[i].0);
                let vv = clone_string(&e[i].1);
                out.push((kk, vv));
                i = i + 1;
            }
            proof {
                assert(pairs_view(out@) =~= pairs_view(e@));
            }
            Some(out)
        },
        None => None,
    };
    let mut other: Vec<(String, Json)> = Vec::new();
    let mut i: usize = 0;
    while i < s.other.len()
        invariant
            i <= s.other@.len(),
            other@.len() == i,
            forall|k: int|
                0 <= k < i ==> other@[k].0@ == s.other@[k].0@ && other@[k].1@ == s.other@[k].1@,
        decreases s.other@.len() - i,
    {
        let kk = clone_string(&s.other[i].0);
        let vv = clone_json(&s.other[i].1);
        other.push((kk, vv));
        i = i + 1;
    }
    let r = McpServer { command, args, url, env, other };
    proof {
        assert(jfields_view(r.other@) =~= jfields_view(s.other@));
        assert(r@ =~~= s@);
    }
    r
}

pub fn clone_config(c: &Config) -> (r: Config)
    ensures
        r@ == c@,
{
    let mut servers: Vec<(String, McpServer)> = Vec::new();
    let mut i: usize = 0;
    while i < c.mcp_servers.len()
        invariant
            i <= c.mcp_servers@.len(),
            servers@.len() == i,
            forall|k: int|
                0 <= k < i ==> servers@[k].0@ == c.mcp_servers@[k].0@ && servers@[k].1@
                    == c.mcp_servers@[k].1@,
        decreases c.mcp_servers@.len() - i,
    {
        let kk = clone_string(&c.mcp_servers[i].0);
        let vv = clone_server(&c.mcp_servers[i].1);
        servers.push((kk, vv));
        i = i + 1;
    }
    let mut other: Vec<(String, Json)> = Vec::new();
    let mut j: usize = 0;
    while j < c.other.len()
        invariant
            j <= c.other@.len(),
            other@.len() == j,
            forall|k: int|
                0 <= k < j ==> other@[k].0@ == c.other@[k].0@ && other@[k].1@ == c.other@[k].1@,
        decreases c.other@.len() - j,
    {
        let kk = clone_string(&c.other[j].0);
        let vv = clone_json(&c.other[j].1);
        other.push((kk, vv));
        j = j + 1;
    }
    let r = Config { mcp_servers: servers, other };
    proof {
        assert(servers_view(r.mcp_servers@) =~= servers_view(c.mcp_servers@));
        assert(jfields_view(r.other@) =~= jfields_view(c.other@));
        assert(r@ =~~= c@);
    }
    r
}


// ---------------------------------------------------------------------------
// Document shape: model -> JSON
// ---------------------------------------------------------------------------

pub open spec fn strs_jsonv(ss: Seq<Seq<char>>) -> Seq<JsonV> {
    ss.map_values(|x: Seq<char>| JsonV::Str(x))
}

pub open spec fn env_jsonv(es: Seq<(Seq<char>, Seq<char>)>) -> Seq<(Seq<char>, JsonV)> {
    es.map_values(|p: (Seq<char>, Seq<char>)| (p.0, JsonV::Str(p.1)))
}

/// The fields of a server entry, in canonical order: `command`, `args`,
/// `url`, `env`, then the preserved unknown fields.
pub open spec fn server_fields(sv: McpServerV) -> Seq<(Seq<char>, JsonV)> {
    (match sv.command {
        Some(c) => seq![(key_command(), JsonV::Str(c))],
        None => Seq::empty(),
    }) + (match sv.args {
        Some(a) => seq![(key_args(), JsonV::Arr(strs_jsonv(a)))],
        None => Seq::empty(),
    }) + (match sv.url {
        Some(u) => seq![(key_url(), JsonV::Str(u))],
        None => Seq::empty(),
    }) + (match sv.env {
        Some(e) => seq![(key_env(), JsonV::Obj(env_jsonv(e)))],
        None => Seq::empty(),
    }) + sv.other
}

pub open spec fn server_jsonv(sv: McpServerV) -> JsonV {
    JsonV::Obj(server_fields(sv))
}

pub open spec fn servers_jsonv(ss: Seq<(Seq<char>, McpServerV)>) -> Seq<(Seq<char>, JsonV)> {
    ss.map_values(|p: (Seq<char>, McpServerV)| (p.0, server_jsonv(p.1)))
}

/// The whole document: the server map first, then the preserved fields.
pub open spec fn config_jsonv(cv: ConfigV) -> JsonV {
    JsonV::Obj(seq![(key_mcp_servers(), JsonV::Obj(servers_jsonv(cv.mcp_servers)))] + cv.other)
}

// ---------------------------------------------------------------------------
// Document shape: JSON -> model
// ---------------------------------------------------------------------------

pub open spec fn empty_server_v() -> McpServerV {
    McpServerV { command: None, args: None, url: None, env: None, other: Seq::empty() }
}

pub open spec fn strs_of_items(items: Seq<JsonV>) -> Option<Seq<Seq<char>>>
    decreases items.len(),
{
    if items.len() == 0 {
        Some(Seq::empty())
    } else {
        match items[0] {
            JsonV::Str(t) => match strs_of_items(items.drop_first()) {
                Some(rest) => Some(seq![t] + rest),
                None => None,
            },
            _ => None,
        }
    }
}

pub open spec fn env_of_fields(fields: Seq<(Seq<char>, JsonV)>) -> Option<
    Seq<(Seq<char>, Seq<char>)>,
>
    decreases fields.len(),
{
    if fields.len() == 0 {
        Some(Seq::empty())
    } else {
        match fields[0].1 {
            JsonV::Str(t) => match env_of_fields(fields.drop_first()) {
                Some(rest) => Some(seq![(fields[0].0, t)] + rest),
                None => None,
            },
            _ => None,
        }
    }
}

/// Reads a server entry's fields in order; a repeated known field or a field
/// of the wrong type is an error (`None`).
pub open spec fn fill_server(acc: McpServerV, fields: Seq<(Seq<char>, JsonV)>) -> Option<
    McpServerV,
>
    decreases fields.len(),
{
    if fields.len() == 0 {
        Some(acc)
    } else {
        let k = fields[0].0;
        let v = fields[0].1;
        let rest = fields.drop_first();
        if k == key_command() {
            match v {
                JsonV::Str(t) => if acc.command is None {
                    fill_server(McpServerV { command: Some(t), ..acc }, rest)
                } else {
                    None
                },
                _ => None,
            }
        } else if k == key_args() {
            match v {
                JsonV::Arr(items) => match strs_of_items(items) {
                    Some(ss) => if acc.args is None {
                        fill_server(McpServerV { args: Some(ss), ..acc }, rest)
                    } else {
                        None
                    },
                    None => None,
                },
                _ => None,
            }
        } else if k == key_url() {
            match v {
                JsonV::Str(t) => if acc.url is None {
                    fill_server(McpServerV { url: Some(t), ..acc }, rest)
                } else {
                    None
                },
                _ => None,
            }
        } else if k == key_env() {
            match v {
                JsonV::Obj(efields) => match env_of_fields(efields) {
                    Some(es) => if acc.env is None {
                        fill_server(McpServerV { env: Some(es), ..acc }, rest)
                    } else {
                        None
                    },
                    None => None,
                },
                _ => None,
            }
        } else {
            fill_server(McpServerV { other: acc.other.push((k, v)), ..acc }, rest)
        }
    }
}

pub open spec fn jsonv_to_server(j: JsonV) -> Option<McpServerV> {
    match j {
        JsonV::Obj(fields) => fill_server(empty_server_v(), fields),
        _ => None,
    }
}

pub open spec fn servers_of_fields(fields: Seq<(Seq<char>, JsonV)>) -> Option<
    Seq<(Seq<char>, McpServerV)>,
>
    decreases fields.len(),
{
    if fields.len() == 0 {
        Some(Seq::empty())
    } else {
        match jsonv_to_server(fields[0].1) {
            Some(sv) => match servers_of_fields(fields.drop_first()) {
                Some(rest) => Some(seq![(fields[0].0, sv)] + rest),
                None => None,
            },
            None => None,
        }
    }
}

/// Reads a document's top-level fields; the server map field is required,
/// may not repeat, and all other fields pass through in order.
pub open spec fn fill_config(
    servers: Option<Seq<(Seq<char>, McpServerV)>>,
    others: Seq<(Seq<char>, JsonV)>,
    fields: Seq<(Seq<char>, JsonV)>,
) -> Option<ConfigV>
    decreases fields.len(),
{
    if fields.len() == 0 {
        match servers {
            Some(ss) => Some(ConfigV { mcp_servers: ss, other: others }),
            None => None,
        }
    } else {
        let k = fields[0].0;
        let v = fields[0].1;
        let rest = fields.drop_first();
        if k == key_mcp_servers() {
            if servers is Some {
                None
            } else {
                match v {
                    JsonV::Obj(sfields) => match servers_of_fields(sfields) {
                        Some(ss) => fill_config(Some(ss), others, rest),
                        None => None,
                    },
                    _ => None,
                }
            }
        } else {
            fill_config(servers, others.push((k, v)), rest)
        }
    }
}

pub open spec fn jsonv_to_config(j: JsonV) -> Option<ConfigV> {
    match j {
        JsonV::Obj(fields) => fill_config(None, Seq::empty(), fields),
        _ => None,
    }
}

/// The canonical text of a configuration document.
pub open spec fn config_text(cv: ConfigV) -> Seq<char> {
    crate::json::render_doc(config_jsonv(cv))
}

/// What parsing a configuration file's text yields.
pub open spec fn config_of_text(t: Seq<char>) -> Option<ConfigV> {
    match crate::json::spec_parse_doc(t) {
        Some(j) => jsonv_to_config(j),
        None => None,
    }
}


// ---------------------------------------------------------------------------
// Exec conversions: model -> JSON
// ---------------------------------------------------------------------------

/// Builds the JSON value of one server entry.
pub fn server_to_json(s: &McpServer) -> (r: Json)
    ensures
        r@ == server_jsonv(s@),
{
    let mut out: Vec<(Vec<char>, Json)> = Vec::new();
    let ghost seg1: Seq<(Seq<char>, JsonV)> = match s@.command {
        Some(c) => seq![(key_command(), JsonV::Str(c))],
        None => Seq::empty(),
    };
    let ghost seg2: Seq<(Seq<char>, JsonV)> = match s@.args {
        Some(a) => seq![(key_args(), JsonV::Arr(strs_jsonv(a)))],
        None => Seq::empty(),
    };
    let ghost seg3: Seq<(Seq<char>, JsonV)> = match s@.url {
        Some(u) => seq![(key_url(), JsonV::Str(u))],
        None => Seq::empty(),
    };
    let ghost seg4: Seq<(Seq<char>, JsonV)> = match s@.env {
        Some(e) => seq![(key_env(), JsonV::Obj(env_jsonv(e)))],
        None => Seq::empty(),
    };
    match &s.command {
        Some(c) => {
            out.push((key_command_chars(), Json::Str(string_to_chars(c))));
        },
        None => {},
    }
    proof {
        assert(jfields_view_c(out@) =~= seg1);
    }
    match &s.args {
        Some(a) => {
            let mut items: Vec<Json> = Vec::new();
            let mut i: usize = 0;
            while i < a.len()
                invariant
                    i <= a@.len(),
                    items@.len() == i,
                    forall|k: int| 0 <= k < i ==> items@[k]@ == JsonV::Str(a@[k]@),
                decreases a@.len() - i,
            {
                items.push(Json::Str(string_to_chars(&a[i])));
                i = i + 1;
            }
            let arr = Json::Arr(items);
            proof {
                assert(arr@->Arr_0 =~= strs_jsonv(strs_view(a@)));
                assert(arr@ =~~= JsonV::Arr(strs_jsonv(strs_view(a@))));
            }
            out.push((key_args_chars(), arr));
        },
        None => {},
    }
    proof {
        assert(jfields_view_c(out@) =~= seg1 + seg2);
    }
    match &s.url {
        Some(u) => {
            out.push((key_url_chars(), Json::Str(string_to_chars(u))));
        },
        None => {},
    }
    proof {
        assert(jfields_view_c(out@) =~= seg1 + seg2 + seg3);
    }
    match &s.env {
        Some(e) => {
            let mut efields: Vec<(Vec<char>, Json)> = Vec::new();
            let mut i: usize = 0;
            while i < e.len()
                invariant
                    i <= e@.len(),
                    efields@.len() == i,
                    forall|k: int|
                        0 <= k < i ==> efields@[k].0@ == e@[k].0@ && efields@[k].1@ == JsonV::Str(
                            e@[k].1@,
                        ),
                decreases e@.len() - i,
            {
                let kk = string_to_chars(&e[i].0);
                let vv = Json::Str(string_to_chars(&e[i].1));
                efields.push((kk, vv));
                i = i + 1;
            }
            let obj = Json::Obj(efields);
            proof {
                assert(obj@->Obj_0 =~= env_jsonv(pairs_view(e@)));
                assert(obj@ =~~= JsonV::Obj(env_jsonv(pairs_view(e@))));
            }
            out.push((key_env_chars(), obj));
        },
        None => {},
    }
    proof {
        assert(jfields_view_c(out@) =~= seg1 + seg2 + seg3 + seg4);
    }
    let ghost mid = out@.len();
    let mut i: usize = 0;
    while i < s.other.len()
        invariant
            i <= s.other@.len(),
            out@.len() == mid + i,
            jfields_view_c(out@.take(mid as int)) == seg1 + seg2 + seg3 + seg4,
            out@.take(mid as int) == out@.take(mid as int),
            forall|k: int| 0 <= k < mid ==> out@[k] == out@.take(mid as int)[k],
            forall|k: int|
                mid <= k < out@.len() ==> #[trigger] out@[k].0@ == s.other@[k - mid].0@
                    && out@[k].1@ == s.other@[k - mid].1@,
        decreases s.other@.len() - i,
    {
        let kk = string_to_chars(&s.other[i].0);
        let vv = clone_json(&s.other[i].1);
        out.push((kk, vv));
        proof {
            assert(out@.take(mid as int) =~= out@.drop_last().take(mid as int));
        }
        i = i + 1;
    }
    let res = Json::Obj(out);
    proof {
        assert(res@->Obj_0 =~= jfields_view_c(out@));
        assert(jfields_view_c(out@) =~= (seg1 + seg2 + seg3 + seg4) + jfields_view(s.other@));
        assert(server_fields(s@) =~= (seg1 + seg2 + seg3 + seg4) + jfields_view(s.other@));
        assert(res@ =~~= server_jsonv(s@));
    }
    res
}

/// The view of an already-built field list.
pub open spec fn jfields_view_c(s: Seq<(Vec<char>, Json)>) -> Seq<(Seq<char>, JsonV)> {
    s.map_values(|p: (Vec<char>, Json)| (p.0@, p.1@))
}

/// Builds the JSON document of a configuration.
pub fn config_to_json(c: &Config) -> (r: Json)
    ensures
        r@ == config_jsonv(c@),
{
    let mut sfields: Vec<(Vec<char>, Json)> = Vec::new();
    let mut i: usize = 0;
    while i < c.mcp_servers.len()
        invariant
            i <= c.mcp_servers@.len(),
            sfields@.len() == i,
            forall|k: int|
                0 <= k < i ==> #[trigger] sfields@[k].0@ == c.mcp_servers@[k].0@ && sfields@[k].1@
                    == server_jsonv(c.mcp_servers@[k].1@),
        decreases c.mcp_servers@.len() - i,
    {
        let kk = string_to_chars(&c.mcp_servers[i].0);
        let vv = server_to_json(&c.mcp_servers[i].1);
        sfields.push((kk, vv));
        i = i + 1;
    }
    let smap = Json::Obj(sfields);
    proof {
        assert(smap@->Obj_0 =~= servers_jsonv(c@.mcp_servers));
        assert(smap@ =~~= JsonV::Obj(servers_jsonv(c@.mcp_servers)));
    }
    let mut out: Vec<(Vec<char>, Json)> = Vec::new();
    out.push((key_mcp_servers_chars(), smap));
    let ghost head: Seq<(Seq<char>, JsonV)> = seq![
        (key_mcp_servers(), JsonV::Obj(servers_jsonv(c@.mcp_servers))),
    ];
    proof {
        assert(jfields_view_c(out@) =~= head);
    }
    let mut j: usize = 0;
    while j < c.other.len()
        invariant
            j <= c.other@.len(),
            out@.len() == 1 + j,
            out@[0].0@ == key_mcp_servers(),
            out@[0].1@ == JsonV::Obj(servers_jsonv(c@.mcp_servers)),
            forall|k: int|
                1 <= k < out@.len() ==> #[trigger] out@[k].0@ == c.other@[k - 1].0@ && out@[k].1@
                    == c.other@[k - 1].1@,
        decreases c.other@.len() - j,
    {
        let kk = string_to_chars(&c.other[j].0);
        let vv = clone_json(&c.other[j].1);
        out.push((kk, vv));
        j = j + 1;
    }
    let res = Json::Obj(out);
    proof {
        assert(res@->Obj_0 =~= jfields_view_c(out@));
        assert(jfields_view_c(out@) =~= head + jfields_view(c.other@));
        assert(res@ =~~= config_jsonv(c@));
    }
    res
}

/// The canonical, pretty-printed text of a configuration document.
pub fn config_to_text(c: &Config) -> (r: String)
    ensures
        r@ == config_text(c@),
{
    let j = config_to_json(c);
    let chars = crate::json::render_doc_chars(&j);
    chars_to_string(&chars)
}


// ---------------------------------------------------------------------------
// Exec conversions: JSON -> model
// ---------------------------------------------------------------------------

fn parse_err(msg: &str) -> (r: ForgeError)
    ensures
        r is Parse,
{
    ForgeError::Parse(String::from_str(msg))
}

fn strs_of_items_exec(items: &Vec<Json>) -> (r: Option<Vec<String>>)
    ensures
        (r is Some) == (strs_of_items(seq_view(items@)) is Some),
        r matches Some(ss) ==> strs_of_items(seq_view(items@)) == Some(strs_view(ss@)),
{
    let ghost all = seq_view(items@);
    let mut out: Vec<String> = Vec::new();
    let mut i: usize = 0;
    while i < items.len()
        invariant
            i <= items@.len(),
            all == seq_view(items@),
            out@.len() == i,
            forall|k: int| 0 <= k < i ==> (#[trigger] all[k] matches JsonV::Str(t) && out@[k]@ == t),
        decreases items@.len() - i,
    {
        match &items[i] {
            Json::Str(t) => {
                out.push(chars_to_string(t));
                proof {
                    assert(all[i as int] == items@[i as int]@);
                }
            },
            _ => {
                proof {
                    assert(all[i as int] == items@[i as int]@);
                    assert(!(all[i as int] is Str));
                    lemma_strs_of_items_bad(all, i as int);
                }
                return None;
            },
        }
        i = i + 1;
    }
    proof {
        lemma_strs_of_items_good(all, strs_view(out@));
    }
    Some(out)
}

/// A non-string member anywhere makes the whole list fail.
proof fn lemma_strs_of_items_bad(items: Seq<JsonV>, i: int)
    requires
        0 <= i < items.len(),
        !(items[i] is Str),
    ensures
        strs_of_items(items) is None,
    decreases items.len(),
{
    if items.len() > 0 && i > 0 {
        if items[0] is Str {
            assert(items.drop_first()[i - 1] == items[i]);
            lemma_strs_of_items_bad(items.drop_first(), i - 1);
        }
    }
}

/// All-string members yield exactly their contents.
proof fn lemma_strs_of_items_good(items: Seq<JsonV>, ss: Seq<Seq<char>>)
    requires
        ss.len() == items.len(),
        forall|k: int| 0 <= k < items.len() ==> (#[trigger] items[k] matches JsonV::Str(t) && ss[k] == t),
    ensures
        strs_of_items(items) == Some(ss),
    decreases items.len(),
{
    if items.len() == 0 {
        assert(ss =~= Seq::<Seq<char>>::empty());
    } else {
        assert(forall|k: int|
            0 <= k < items.drop_first().len() ==> #[trigger] items.drop_first()[k] == items[k + 1]);
        lemma_strs_of_items_good(items.drop_first(), ss.drop_first());
        assert(ss =~= seq![ss[0]] + ss.drop_first());
    }
}

fn env_of_fields_exec(fields: &Vec<(Vec<char>, Json)>) -> (r: Option<Vec<(String, String)>>)
    ensures
        (r is Some) == (env_of_fields(fields_view(fields@)) is Some),
        r matches Some(es) ==> env_of_fields(fields_view(fields@)) == Some(pairs_view(es@)),
{
    let ghost all = fields_view(fields@);
    let mut out: Vec<(String, String)> = Vec::new();
    let mut i: usize = 0;
    while i < fields.len()
        invariant
            i <= fields@.len(),
            all == fields_view(fields@),
            out@.len() == i,
            forall|k: int|
                0 <= k < i ==> (#[trigger] all[k].1 matches JsonV::Str(t) && out@[k].1@ == t
                    && out@[k].0@ == all[k].0),
        decreases fields@.len() - i,
    {
        match &fields[i].1 {
            Json::Str(t) => {
                let kk = chars_to_string(&fields[i].0);
                let vv = chars_to_string(t);
                out.push((kk, vv));
                proof {
                    assert(all[i as int] == (fields@[i as int].0@, fields@[i as int].1@));
                }
            },
            _ => {
                proof {
                    assert(all[i as int] == (fields@[i as int].0@, fields@[i as int].1@));
                    assert(!(all[i as int].1 is Str));
                    lemma_env_of_fields_bad(all, i as int);
                }
                return None;
            },
        }
        i = i + 1;
    }
    proof {
        lemma_env_of_fields_good(all, pairs_view(out@));
    }
    Some(out)
}

proof fn lemma_env_of_fields_bad(fields: Seq<(Seq<char>, JsonV)>, i: int)
    requires
        0 <= i < fields.len(),
        !(fields[i].1 is Str),
    ensures
        env_of_fields(fields) is None,
    decreases fields.len(),
{
    if fields.len() > 0 && i > 0 {
        if fields[0].1 is Str {
            assert(fields.drop_first()[i - 1] == fields[i]);
            lemma_env_of_fields_bad(fields.drop_first(), i - 1);
        }
    }
}

proof fn lemma_env_of_fields_good(fields: Seq<(Seq<char>, JsonV)>, es: Seq<(Seq<char>, Seq<char>)>)
    requires
        es.len() == fields.len(),
        forall|k: int|
            0 <= k < fields.len() ==> (#[trigger] fields[k].1 matches JsonV::Str(t) && es[k].1 == t
                && es[k].0 == fields[k].0),
    ensures
        env_of_fields(fields) == Some(es),
    decreases fields.len(),
{
    if fields.len() == 0 {
        assert(es =~= Seq::<(Seq<char>, Seq<char>)>::empty());
    } else {
        assert(forall|k: int|
            0 <= k < fields.drop_first().len() ==> #[trigger] fields.drop_first()[k] == fields[k
                + 1]);
        lemma_env_of_fields_good(fields.drop_first(), es.drop_first());
        assert(es =~= seq![es[0]] + es.drop_first());
        assert(es[0] == (fields[0].0, es[0].1));
    }
}

/// Reads one server entry out of its JSON value.
pub fn json_to_server(j: &Json) -> (r: Result<McpServer, ForgeError>)
    ensures
        (r is Ok) == (jsonv_to_server(j@) is Some),
        r matches Ok(s) ==> jsonv_to_server(j@) == Some(s@),
        r matches Err(e) ==> e is Parse,
{
    let fields = match j {
        Json::Obj(fields) => fields,
        _ => {
            return Err(parse_err("server entry must be a JSON object"));
        },
    };
    proof {
        assert(j@->Obj_0 =~= fields_view(fields@));
    }
    let ghost all = fields_view(fields@);
    let mut acc = McpServer {
        command: None,
        args: None,
        url: None,
        env: None,
        other: Vec::new(),
    };
    proof {
        assert(acc@ =~~= empty_server_v());
        assert(all.skip(0) =~= all);
    }
    let key_command_v = key_command_chars();
    let key_args_v = key_args_chars();
    let key_url_v = key_url_chars();
    let key_env_v = key_env_chars();
    let mut i: usize = 0;
    while i < fields.len()
        invariant
            i <= fields@.len(),
            all == fields_view(fields@),
            jsonv_to_server(j@) == fill_server(empty_server_v(), all),
            fill_server(empty_server_v(), all) == fill_server(acc@, all.skip(i as int)),
            key_command_v@ == key_command(),
            key_args_v@ == key_args(),
            key_url_v@ == key_url(),
            key_env_v@ == key_env(),
        decreases fields@.len() - i,
    {
        let k = &fields[i].0;
        let v = &fields[i].1;
        let ghost acc0 = acc@;
        proof {
            assert(all.skip(i as int)[0] == (fields@[i as int].0@, fields@[i as int].1@));
            assert(all.skip(i as int).drop_first() =~= all.skip(i + 1));
        }
        if chars_eq(k, &key_command_v) {
            match v {
                Json::Str(t) => {
                    if acc.command.is_some() {
                        return Err(parse_err("duplicate field: command"));
                    }
                    acc.command = Some(chars_to_string(t));
                    proof {
                        assert(acc@ =~~= McpServerV { command: Some(t@), ..acc0 });
                    }
                },
                _ => {
                    return Err(parse_err("field 'command' must be a string"));
                },
            }
        } else if chars_eq(k, &key_args_v) {
            match v {
                Json::Arr(items) => {
                    proof {
                        assert(fields@[i as int].1@->Arr_0 =~= seq_view(items@));
                    }
                    match strs_of_items_exec(items) {
                        Some(ss) => {
                            if acc.args.is_some() {
                                return Err(parse_err("duplicate field: args"));
                            }
                            let ghost ssv = strs_view(ss@);
                            acc.args = Some(ss);
                            proof {
                                assert(acc@ =~~= McpServerV { args: Some(ssv), ..acc0 });
                            }
                        },
                        None => {
                            return Err(parse_err("field 'args' must be an array of strings"));
                        },
                    }
                },
                _ => {
                    return Err(parse_err("field 'args' must be an array of strings"));
                },
            }
        } else if chars_eq(k, &key_url_v) {
            match v {
                Json::Str(t) => {
                    if acc.url.is_some() {
                        return Err(parse_err("duplicate field: url"));
                    }
                    acc.url = Some(chars_to_string(t));
                    proof {
                        assert(acc@ =~~= McpServerV { url: Some(t@), ..acc0 });
                    }
                },
                _ => {
                    return Err(parse_err("field 'url' must be a string"));
                },
            }
        } else if chars_eq(k, &key_env_v) {
            match v {
                Json::Obj(efields) => {
                    proof {
                        assert(fields@[i as int].1@->Obj_0 =~= fields_view(efields@));
                    }
                    match env_of_fields_exec(efields) {
                        Some(es) => {
                            if acc.env.is_some() {
                                return Err(parse_err("duplicate field: env"));
                            }
                            let ghost esv = pairs_view(es@);
                            acc.env = Some(es);
                            proof {
                                assert(acc@ =~~= McpServerV { env: Some(esv), ..acc0 });
                            }
                        },
                        None => {
                            return Err(parse_err("field 'env' must map strings to strings"));
                        },
                    }
                },
                _ => {
                    return Err(parse_err("field 'env' must map strings to strings"));
                },
            }
        } else {
            let kk = chars_to_string(k);
            let vv = clone_json(v);
            acc.other.push((kk, vv));
            proof {
                assert(jfields_view(acc.other@) =~= jfields_view(acc.other@.drop_last()).push(
                    (fields@[i as int].0@, fields@[i as int].1@),
                ));
                assert(acc@ =~~= McpServerV {
                    other: acc0.other.push((fields@[i as int].0@, fields@[i as int].1@)),
                    ..acc0
                });
            }
        }
        i = i + 1;
    }
    proof {
        assert(all.skip(i as int).len() == 0);
        assert(fill_server(acc@, all.skip(i as int)) == Some(acc@));
    }
    Ok(acc)
}

/// Reads a whole configuration document out of its JSON value.
pub fn json_to_config(j: &Json) -> (r: Result<Config, ForgeError>)
    ensures
        (r is Ok) == (jsonv_to_config(j@) is Some),
        r matches Ok(c) ==> jsonv_to_config(j@) == Some(c@),
        r matches Err(e) ==> e is Parse,
{
    let fields = match j {
        Json::Obj(fields) => fields,
        _ => {
            return Err(parse_err("configuration must be a JSON object"));
        },
    };
    proof {
        assert(j@->Obj_0 =~= fields_view(fields@));
    }
    let ghost all = fields_view(fields@);
    let mut servers: Option<Vec<(String, McpServer)>> = None;
    let mut others: Vec<(String, Json)> = Vec::new();
    let ghost g_servers: Option<Seq<(Seq<char>, McpServerV)>> = None;
    proof {
        assert(jfields_view(others@) =~= Seq::<(Seq<char>, JsonV)>::empty());
        assert(all.skip(0) =~= all);
    }
    let key_servers_v = key_mcp_servers_chars();
    let mut i: usize = 0;
    while i < fields.len()
        invariant
            i <= fields@.len(),
            all == fields_view(fields@),
            key_servers_v@ == key_mcp_servers(),
            jsonv_to_config(j@) == fill_config(None, Seq::empty(), all),
            (servers is Some) == (spec_servers_opt(servers) is Some),
            fill_config(spec_servers_opt(servers), jfields_view(others@), all.skip(i as int))
                == fill_config(None, Seq::empty(), all),
        decreases fields@.len() - i,
    {
        let k = &fields[i].0;
        let v = &fields[i].1;
        proof {
            assert(all.skip(i as int)[0] == (fields@[i as int].0@, fields@[i as int].1@));
            assert(all.skip(i as int).drop_first() =~= all.skip(i + 1));
        }
        if chars_eq(k, &key_servers_v) {
            if servers.is_some() {
                return Err(parse_err("duplicate field: mcpServers"));
            }
            match v {
                Json::Obj(sfields) => {
                    proof {
                        assert(fields@[i as int].1@->Obj_0 =~= fields_view(sfields@));
                    }
                    match servers_of_fields_exec(sfields) {
                        Ok(ss) => {
                            let ghost ssv = servers_view(ss@);
                            servers = Some(ss);
                            proof {
                                assert(spec_servers_opt(servers) == Some(ssv));
                            }
                        },
                        Err(e) => {
                            return Err(e);
                        },
                    }
                },
                _ => {
                    return Err(parse_err("field 'mcpServers' must be an object"));
                },
            }
        } else {
            let kk = chars_to_string(k);
            let vv = clone_json(v);
            let ghost others0 = jfields_view(others@);
            others.push((kk, vv));
            proof {
                assert(jfields_view(others@) =~= others0.push(
                    (fields@[i as int].0@, fields@[i as int].1@),
                ));
            }
        }
        i = i + 1;
    }
    proof {
        assert(all.skip(i as int).len() == 0);
    }
    match servers {
        Some(ss) => {
            let c = Config { mcp_servers: ss, other: others };
            proof {
                assert(c@ =~~= ConfigV {
                    mcp_servers: spec_servers_opt(Some(c.mcp_servers))->Some_0,
                    other: jfields_view(c.other@),
                });
            }
            Ok(c)
        },
        None => Err(parse_err("missing field: mcpServers")),
    }
}

/// The ghost server list carried by the exec accumulator.
pub open spec fn spec_servers_opt(o: Option<Vec<(String, McpServer)>>) -> Option<
    Seq<(Seq<char>, McpServerV)>,
> {
    match o {
        Some(v) => Some(servers_view(v@)),
        None => None,
    }
}

fn servers_of_fields_exec(sfields: &Vec<(Vec<char>, Json)>) -> (r: Result<
    Vec<(String, McpServer)>,
    ForgeError,
>)
    ensures
        (r is Ok) == (servers_of_fields(fields_view(sfields@)) is Some),
        r matches Ok(ss) ==> servers_of_fields(fields_view(sfields@)) == Some(servers_view(ss@)),
        r matches Err(e) ==> e is Parse,
{
    let ghost all = fields_view(sfields@);
    let mut out: Vec<(String, McpServer)> = Vec::new();
    let mut i: usize = 0;
    while i < sfields.len()
        invariant
            i <= sfields@.len(),
            all == fields_view(sfields@),
            out@.len() == i,
            forall|k: int|
                0 <= k < i ==> jsonv_to_server(all[k].1) == Some(#[trigger] out@[k].1@)
                    && out@[k].0@ == all[k].0,
        decreases sfields@.len() - i,
    {
        proof {
            assert(all[i as int] == (sfields@[i as int].0@, sfields@[i as int].1@));
        }
        match json_to_server(&sfields[i].1) {
            Ok(sv) => {
                let kk = chars_to_string(&sfields[i].0);
                out.push((kk, sv));
            },
            Err(e) => {
                proof {
                    lemma_servers_of_fields_bad(all, i as int);
                }
                return Err(e);
            },
        }
        i = i + 1;
    }
    proof {
        lemma_servers_of_fields_good(all, servers_view(out@));
    }
    Ok(out)
}

proof fn lemma_servers_of_fields_bad(fields: Seq<(Seq<char>, JsonV)>, i: int)
    requires
        0 <= i < fields.len(),
        jsonv_to_server(fields[i].1) is None,
    ensures
        servers_of_fields(fields) is None,
    decreases fields.len(),
{
    if fields.len() > 0 && i > 0 {
        if jsonv_to_server(fields[0].1) is Some {
            assert(fields.drop_first()[i - 1] == fields[i]);
            lemma_servers_of_fields_bad(fields.drop_first(), i - 1);
        }
    }
}

proof fn lemma_servers_of_fields_good(
    fields: Seq<(Seq<char>, JsonV)>,
    ss: Seq<(Seq<char>, McpServerV)>,
)
    requires
        ss.len() == fields.len(),
        forall|k: int|
            0 <= k < fields.len() ==> jsonv_to_server(fields[k].1) == Some(#[trigger] ss[k].1)
                && ss[k].0 == fields[k].0,
    ensures
        servers_of_fields(fields) == Some(ss),
    decreases fields.len(),
{
    if fields.len() == 0 {
        assert(ss =~= Seq::<(Seq<char>, McpServerV)>::empty());
    } else {
        assert(forall|k: int|
            0 <= k < fields.drop_first().len() ==> #[trigger] fields.drop_first()[k] == fields[k
                + 1]);
        lemma_servers_of_fields_good(fields.drop_first(), ss.drop_first());
        assert(ss =~= seq![ss[0]] + ss.drop_first());
        assert(ss[0] == (fields[0].0, ss[0].1));
    }
}

/// Parses the canonical configuration file's text.
pub fn config_from_text(s: &str) -> (r: Result<Config, ForgeError>)
    ensures
        (r is Ok) == (config_of_text(s@) is Some),
        r matches Ok(c) ==> config_of_text(s@) == Some(c@),
        r matches Err(e) ==> e is Parse,
{
    let chars = crate::strutil::str_to_chars(s);
    match crate::json::parse_doc_chars(&chars) {
        Some(j) => json_to_config(&j),
        None => Err(parse_err("configuration file is not well-formed JSON")),
    }
}


// ---------------------------------------------------------------------------
// Round trip: model -> JSON -> model
// ---------------------------------------------------------------------------

/// A server entry whose preserved fields do not collide with the named ones;
/// such an entry survives conversion to JSON and back unchanged.
pub open spec fn server_other_wf(sv: McpServerV) -> bool {
    forall|k: int|
        0 <= k < sv.other.len() ==> (#[trigger] sv.other[k].0) != key_command() && sv.other[k].0
            != key_args() && sv.other[k].0 != key_url() && sv.other[k].0 != key_env()
}

/// A document whose preserved fields do not collide with the server map and
/// whose entries are well-formed.
pub open spec fn config_conv_wf(cv: ConfigV) -> bool {
    &&& forall|k: int|
        0 <= k < cv.other.len() ==> (#[trigger] cv.other[k].0) != key_mcp_servers()
    &&& forall|k: int| 0 <= k < cv.mcp_servers.len() ==> server_other_wf(#[trigger] cv.mcp_servers[k].1)
}

proof fn lemma_strs_round_trip(a: Seq<Seq<char>>)
    ensures
        strs_of_items(strs_jsonv(a)) == Some(a),
    decreases a.len(),
{
    if a.len() == 0 {
        assert(strs_jsonv(a) =~= Seq::<JsonV>::empty());
    } else {
        assert(strs_jsonv(a).drop_first() =~= strs_jsonv(a.drop_first()));
        lemma_strs_round_trip(a.drop_first());
        assert(strs_jsonv(a)[0] == JsonV::Str(a[0]));
        assert(seq![a[0]] + a.drop_first() =~= a);
    }
}

proof fn lemma_env_round_trip(e: Seq<(Seq<char>, Seq<char>)>)
    ensures
        env_of_fields(env_jsonv(e)) == Some(e),
    decreases e.len(),
{
    if e.len() == 0 {
        assert(env_jsonv(e) =~= Seq::<(Seq<char>, JsonV)>::empty());
    } else {
        assert(env_jsonv(e).drop_first() =~= env_jsonv(e.drop_first()));
        lemma_env_round_trip(e.drop_first());
        assert(env_jsonv(e)[0] == (e[0].0, JsonV::Str(e[0].1)));
        assert(seq![(e[0].0, e[0].1)] + e.drop_first() =~= e);
        assert(e[0] == (e[0].0, e[0].1));
    }
}

/// Reading pass-through fields appends them to the accumulator.
proof fn lemma_fill_server_other(acc: McpServerV, other: Seq<(Seq<char>, JsonV)>)
    requires
        forall|k: int|
            0 <= k < other.len() ==> (#[trigger] other[k].0) != key_command() && other[k].0
                != key_args() && other[k].0 != key_url() && other[k].0 != key_env(),
    ensures
        fill_server(acc, other) == Some(McpServerV { other: acc.other + other, ..acc }),
    decreases other.len(),
{
    if other.len() == 0 {
        assert(acc.other + other =~= acc.other);
        assert(McpServerV { other: acc.other + other, ..acc } =~~= acc);
    } else {
        let acc2 = McpServerV { other: acc.other.push((other[0].0, other[0].1)), ..acc };
        lemma_fill_server_other(acc2, other.drop_first());
        assert(acc2.other + other.drop_first() =~= acc.other + other);
        assert(other[0] == (other[0].0, other[0].1));
        assert(McpServerV { other: acc2.other + other.drop_first(), ..acc2 } =~~= McpServerV {
            other: acc.other + other,
            ..acc
        });
    }
}

/// A server entry's JSON value reads back as the same entry.
pub proof fn lemma_server_round_trip(sv: McpServerV)
    requires
        server_other_wf(sv),
    ensures
        jsonv_to_server(server_jsonv(sv)) == Some(sv),
{
    let fields = server_fields(sv);
    let seg1: Seq<(Seq<char>, JsonV)> = match sv.command {
        Some(c) => seq![(key_command(), JsonV::Str(c))],
        None => Seq::empty(),
    };
    let seg2: Seq<(Seq<char>, JsonV)> = match sv.args {
        Some(a) => seq![(key_args(), JsonV::Arr(strs_jsonv(a)))],
        None => Seq::empty(),
    };
    let seg3: Seq<(Seq<char>, JsonV)> = match sv.url {
        Some(u) => seq![(key_url(), JsonV::Str(u))],
        None => Seq::empty(),
    };
    let seg4: Seq<(Seq<char>, JsonV)> = match sv.env {
        Some(e) => seq![(key_env(), JsonV::Obj(env_jsonv(e)))],
        None => Seq::empty(),
    };
    let acc0 = empty_server_v();
    let acc1 = McpServerV { command: sv.command, ..acc0 };
    let acc2 = McpServerV { args: sv.args, ..acc1 };
    let acc3 = McpServerV { url: sv.url, ..acc2 };
    let acc4 = McpServerV { env: sv.env, ..acc3 };
    assert(fill_server(acc0, seg1 + seg2 + seg3 + seg4 + sv.other) == fill_server(
        acc1,
        seg2 + seg3 + seg4 + sv.other,
    )) by {
        match sv.command {
            Some(c) => {
                assert((seg1 + seg2 + seg3 + seg4 + sv.other)[0] == (key_command(), JsonV::Str(c)));
                assert((seg1 + seg2 + seg3 + seg4 + sv.other).drop_first() =~= seg2 + seg3 + seg4
                    + sv.other);
                assert(McpServerV { command: Some(c), ..acc0 } =~~= acc1);
            },
            None => {
                assert(seg1 + seg2 + seg3 + seg4 + sv.other =~= seg2 + seg3 + seg4 + sv.other);
                assert(acc0 =~~= acc1);
            },
        }
    }
    assert(fill_server(acc1, seg2 + seg3 + seg4 + sv.other) == fill_server(
        acc2,
        seg3 + seg4 + sv.other,
    )) by {
        match sv.args {
            Some(a) => {
                assert((seg2 + seg3 + seg4 + sv.other)[0] == (key_args(), JsonV::Arr(
                    strs_jsonv(a),
                )));
                assert((seg2 + seg3 + seg4 + sv.other).drop_first() =~= seg3 + seg4 + sv.other);
                lemma_strs_round_trip(a);
                assert(McpServerV { args: Some(a), ..acc1 } =~~= acc2);
            },
            None => {
                assert(seg2 + seg3 + seg4 + sv.other =~= seg3 + seg4 + sv.other);
                assert(acc1 =~~= acc2);
            },
        }
    }
    assert(fill_server(acc2, seg3 + seg4 + sv.other) == fill_server(acc3, seg4 + sv.other)) by {
        match sv.url {
            Some(u) => {
                assert((seg3 + seg4 + sv.other)[0] == (key_url(), JsonV::Str(u)));
                assert((seg3 + seg4 + sv.other).drop_first() =~= seg4 + sv.other);
                assert(McpServerV { url: Some(u), ..acc2 } =~~= acc3);
            },
            None => {
                assert(seg3 + seg4 + sv.other =~= seg4 + sv.other);
                assert(acc2 =~~= acc3);
            },
        }
    }
    assert(fill_server(acc3, seg4 + sv.other) == fill_server(acc4, sv.other)) by {
        match sv.env {
            Some(e) => {
                assert((seg4 + sv.other)[0] == (key_env(), JsonV::Obj(env_jsonv(e))));
                assert((seg4 + sv.other).drop_first() =~= sv.other);
                lemma_env_round_trip(e);
                assert(McpServerV { env: Some(e), ..acc3 } =~~= acc4);
            },
            None => {
                assert(seg4 + sv.other =~= sv.other);
                assert(acc3 =~~= acc4);
            },
        }
    }
    lemma_fill_server_other(acc4, sv.other);
    assert(acc4.other =~= Seq::<(Seq<char>, JsonV)>::empty());
    assert(acc4.other + sv.other =~= sv.other);
    assert(McpServerV { other: acc4.other + sv.other, ..acc4 } =~~= sv);
    assert(fields =~= seg1 + seg2 + seg3 + seg4 + sv.other);
}

proof fn lemma_servers_round_trip(ss: Seq<(Seq<char>, McpServerV)>)
    requires
        forall|k: int| 0 <= k < ss.len() ==> server_other_wf(#[trigger] ss[k].1),
    ensures
        servers_of_fields(servers_jsonv(ss)) == Some(ss),
    decreases ss.len(),
{
    if ss.len() == 0 {
        assert(servers_jsonv(ss) =~= Seq::<(Seq<char>, JsonV)>::empty());
    } else {
        assert(servers_jsonv(ss).drop_first() =~= servers_jsonv(ss.drop_first()));
        lemma_servers_round_trip(ss.drop_first());
        assert(servers_jsonv(ss)[0] == (ss[0].0, server_jsonv(ss[0].1)));
        lemma_server_round_trip(ss[0].1);
        assert(seq![(ss[0].0, ss[0].1)] + ss.drop_first() =~= ss);
        assert(ss[0] == (ss[0].0, ss[0].1));
    }
}

/// Reading pass-through fields appends them to the accumulator.
proof fn lemma_fill_config_other(
    servers: Seq<(Seq<char>, McpServerV)>,
    others: Seq<(Seq<char>, JsonV)>,
    rest: Seq<(Seq<char>, JsonV)>,
)
    requires
        forall|k: int| 0 <= k < rest.len() ==> (#[trigger] rest[k].0) != key_mcp_servers(),
    ensures
        fill_config(Some(servers), others, rest) == Some(
            ConfigV { mcp_servers: servers, other: others + rest },
        ),
    decreases rest.len(),
{
    if rest.len() == 0 {
        assert(others + rest =~= others);
    } else {
        lemma_fill_config_other(servers, others.push((rest[0].0, rest[0].1)), rest.drop_first());
        assert(others.push((rest[0].0, rest[0].1)) + rest.drop_first() =~= others + rest);
        assert(rest[0] == (rest[0].0, rest[0].1));
    }
}

/// A whole document's JSON value reads back as the same document.
pub proof fn lemma_config_json_round_trip(cv: ConfigV)
    requires
        config_conv_wf(cv),
    ensures
        jsonv_to_config(config_jsonv(cv)) == Some(cv),
{
    let head: Seq<(Seq<char>, JsonV)> = seq![
        (key_mcp_servers(), JsonV::Obj(servers_jsonv(cv.mcp_servers))),
    ];
    let fields = head + cv.other;
    assert(fields[0] == (key_mcp_servers(), JsonV::Obj(servers_jsonv(cv.mcp_servers))));
    assert(fields.drop_first() =~= cv.other);
    lemma_servers_round_trip(cv.mcp_servers);
    lemma_fill_config_other(cv.mcp_servers, Seq::empty(), cv.other);
    assert(Seq::<(Seq<char>, JsonV)>::empty() + cv.other =~= cv.other);
    assert(ConfigV { mcp_servers: cv.mcp_servers, other: cv.other } =~~= cv);
}


/// A document that saving can faithfully bring back: conversion-safe, and
/// every number among its preserved fields is a proper lexeme.
pub open spec fn config_wf(cv: ConfigV) -> bool {
    config_conv_wf(cv) && crate::json::json_wf(config_jsonv(cv))
}

/// Saving then loading yields the same document: the canonical text a
/// well-formed configuration renders to parses back to that configuration,
/// server entries, order, and preserved opaque fields included.
pub proof fn lemma_save_load_round_trip(cv: ConfigV)
    requires
        config_wf(cv),
    ensures
        config_of_text(config_text(cv)) == Some(cv),
{
    crate::json::lemma_doc_round_trip(config_jsonv(cv));
    lemma_config_json_round_trip(cv);
}


} // verus!
