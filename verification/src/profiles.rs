//! The profile state machine: a registry of named profiles with a current
//! pointer, switch/save/sync/delete decisions, and unsaved-change detection.
//!
//! Every operation is a pure function from registry and documents to new
//! registry and documents; the caller persists the results.

use vstd::prelude::*;
use crate::json::{Json, JsonV};
use crate::config::{
    Config, ConfigV, McpServer, McpServerV, first_lookup, assoc_map, lemma_first_lookup_assoc,
    jfields_view, pairs_view, strs_view, clone_config, clone_string,
};
use crate::strutil::{
    chars_eq, chars_to_string, string_to_chars, str_to_chars, is_alnum_char, char_alnum,
    chars_to_lower, lower_seq,
};
use crate::errors::ForgeError;

verus! {

// ---------------------------------------------------------------------------
// Data model
// ---------------------------------------------------------------------------

/// Metadata of one profile; timestamps are Unix seconds.
pub struct ProfileInfo {
    pub name: String,
    pub description: Option<String>,
    pub created_at: i64,
    pub last_used: Option<i64>,
    /// Cached count of the snapshot's servers, refreshed on every mutating
    /// profile operation.
    pub server_count: usize,
}

/// The profile registry: all profiles plus the current-profile pointer.
pub struct ProfileConfig {
    pub current_profile: Option<String>,
    pub profiles: Vec<(String, ProfileInfo)>,
}

/// Ghost model of one profile's metadata.
#[verifier::ext_equal]
pub struct ProfileInfoV {
    pub name: Seq<char>,
    pub description: Option<Seq<char>>,
    pub created_at: int,
    pub last_used: Option<int>,
    pub server_count: int,
}

/// Ghost model of the registry.
#[verifier::ext_equal]
pub struct ProfileConfigV {
    pub current_profile: Option<Seq<char>>,
    pub profiles: Seq<(Seq<char>, ProfileInfoV)>,
}

impl View for ProfileInfo {
    type V = ProfileInfoV;

    open spec fn view(&self) -> ProfileInfoV {
        ProfileInfoV {
            name: self.name@,
            description: match self.description {
                Some(d) => Some(d@),
                None => None,
            },
            created_at: self.created_at as int,
            last_used: match self.last_used {
                Some(t) => Some(t as int),
                None => None,
            },
            server_count: self.server_count as int,
        }
    }
}

pub open spec fn profiles_view(s: Seq<(String, ProfileInfo)>) -> Seq<(Seq<char>, ProfileInfoV)> {
    s.map_values(|p: (String, ProfileInfo)| (p.0@, p.1@))
}

impl View for ProfileConfig {
    type V = ProfileConfigV;

    open spec fn view(&self) -> ProfileConfigV {
        ProfileConfigV {
            current_profile: match self.current_profile {
                Some(c) => Some(c@),
                None => None,
            },
            profiles: profiles_view(self.profiles@),
        }
    }
}

// ---------------------------------------------------------------------------
// Profile names
// ---------------------------------------------------------------------------

pub open spec fn kw_default() -> Seq<char> {
    seq!['d', 'e', 'f', 'a', 'u', 'l', 't']
}

pub open spec fn kw_main() -> Seq<char> {
    seq!['m', 'a', 'i', 'n']
}

pub open spec fn kw_config() -> Seq<char> {
    seq!['c', 'o', 'n', 'f', 'i', 'g']
}

pub open spec fn kw_global() -> Seq<char> {
    seq!['g', 'l', 'o', 'b', 'a', 'l']
}

/// `default`, `main`, `config` and `global` are reserved, in any letter case.
pub open spec fn is_reserved_name(s: Seq<char>) -> bool {
    lower_seq(s) == kw_default() || lower_seq(s) == kw_main() || lower_seq(s) == kw_config()
        || lower_seq(s) == kw_global()
}

/// A usable profile name: non-empty, at most 50 characters, alphanumerics,
/// hyphens and underscores only, and not reserved.
pub open spec fn is_valid_profile_name(s: Seq<char>) -> bool {
    &&& s.len() > 0
    &&& s.len() <= 50
    &&& forall|k: int| 0 <= k < s.len() ==> char_alnum(#[trigger] s[k]) || s[k] == '-' || s[k] == '_'
    &&& !is_reserved_name(s)
}

fn kw_default_chars() -> (r: Vec<char>)
    ensures
        r@ == kw_default(),
{
    let r = str_to_chars("default");
    proof {
        reveal_strlit("default");
        assert(r@ =~= kw_default());
    }
    r
}

/// Checks a proposed profile name against the naming rules.
pub fn validate_profile_name(name: &str) -> (r: Result<(), ForgeError>)
    ensures
        (r is Ok) == is_valid_profile_name(name@),
        r matches Err(e) ==> e is Validation,
{
    let chars = str_to_chars(name);
    if chars.len() == 0 {
        return Err(ForgeError::Validation(String::from_str("Profile name cannot be empty")));
    }
    if chars.len() > 50 {
        return Err(
            ForgeError::Validation(
                String::from_str("Profile name cannot be longer than 50 characters"),
            ),
        );
    }
    let mut i: usize = 0;
    while i < chars.len()
        invariant
            i <= chars@.len(),
            chars@ == name@,
            forall|k: int|
                0 <= k < i ==> char_alnum(#[trigger] chars@[k]) || chars@[k] == '-' || chars@[k]
                    == '_',
        decreases chars@.len() - i,
    {
        let c = chars[i];
        if !(is_alnum_char(c) || c == '-' || c == '_') {
            return Err(
                ForgeError::Validation(
                    String::from_str(
                        "Profile name can only contain letters, numbers, hyphens, and underscores",
                    ),
                ),
            );
        }
        i = i + 1;
    }
    let lowered = chars_to_lower(&chars);
    let d = kw_default_chars();
    let m = str_to_chars("main");
    let cf = str_to_chars("config");
    let g = str_to_chars("global");
    proof {
        reveal_strlit("main");
        reveal_strlit("config");
        reveal_strlit("global");
        assert(m@ =~= kw_main());
        assert(cf@ =~= kw_config());
        assert(g@ =~= kw_global());
    }
    if chars_eq(&lowered, &d) || chars_eq(&lowered, &m) || chars_eq(&lowered, &cf) || chars_eq(
        &lowered,
        &g,
    ) {
        return Err(ForgeError::Validation(String::from_str("This is a reserved profile name")));
    }
    Ok(())
}

// ---------------------------------------------------------------------------
// Registry operations
// ---------------------------------------------------------------------------

fn str_eq_string(a: &str, b: &String) -> (r: bool)
    ensures
        r == (a@ == b@),
{
    let va = str_to_chars(a);
    let vb = string_to_chars(b);
    chars_eq(&va, &vb)
}

fn string_eq_string(a: &String, b: &String) -> (r: bool)
    ensures
        r == (a@ == b@),
{
    let va = string_to_chars(a);
    let vb = string_to_chars(b);
    chars_eq(&va, &vb)
}

impl ProfileConfig {
    /// The empty registry: no profiles, no current profile.
    pub fn empty() -> (r: ProfileConfig)
        ensures
            r@.profiles.len() == 0,
            r@.current_profile is None,
    {
        let r = ProfileConfig { current_profile: None, profiles: Vec::new() };
        proof {
            assert(r@.profiles =~= Seq::<(Seq<char>, ProfileInfoV)>::empty());
        }
        r
    }

    /// The registered profile named `name`, if any.
    pub fn get_profile(&self, name: &String) -> (r: Option<&ProfileInfo>)
        ensures
            (r is Some) == (first_lookup(self@.profiles, name@) is Some),
            r matches Some(p) ==> first_lookup(self@.profiles, name@) == Some(p@),
    {
        proof {
            assert(self@.profiles.skip(0) =~= self@.profiles);
        }
        let mut i: usize = 0;
        while i < self.profiles.len()
            invariant
                i <= self.profiles@.len(),
                first_lookup(self@.profiles, name@) == first_lookup(
                    self@.profiles.skip(i as int),
                    name@,
                ),
            decreases self.profiles@.len() - i,
        {
            proof {
                assert(self@.profiles.skip(i as int)[0] == self@.profiles[i as int]);
                assert(self@.profiles.skip(i as int).drop_first() =~= self@.profiles.skip(i + 1));
            }
            if string_eq_string(name, &self.profiles[i].0) {
                return Some(&self.profiles[i].1);
            }
            i = i + 1;
        }
        proof {
            assert(self@.profiles.skip(i as int).len() == 0);
        }
        None
    }

    /// Whether a profile named `name` is registered.
    pub fn has_profile(&self, name: &String) -> (r: bool)
        ensures
            r == (first_lookup(self@.profiles, name@) is Some),
    {
        self.get_profile(name).is_some()
    }

    /// Registers a new profile: the name must be valid and not yet taken.
    /// The new profile starts with no description, creation time `now`, no
    /// last-used time, and zero servers; the current profile is unchanged.
    pub fn create(&mut self, name: &String, now: i64) -> (r: Result<(), ForgeError>)
        ensures
            (r is Ok) == (is_valid_profile_name(name@) && first_lookup(
                old(self)@.profiles,
                name@,
            ) is None),
            r is Ok ==> first_lookup(final(self)@.profiles, name@) == Some(
                ProfileInfoV {
                    name: name@,
                    description: None,
                    created_at: now as int,
                    last_used: None,
                    server_count: 0,
                },
            ) && (forall|k: Seq<char>|
                k != name@ ==> #[trigger] first_lookup(final(self)@.profiles, k) == first_lookup(
                    old(self)@.profiles,
                    k,
                )) && final(self)@.current_profile == old(self)@.current_profile,
            r is Err ==> final(self)@ == old(self)@,
            r matches Err(e) ==> e is Validation,
    {
        if let Err(e) = validate_profile_name(name.as_str()) {
            proof {
                assert(self@ =~~= old(self)@);
            }
            return Err(e);
        }
        if self.has_profile(name) {
            proof {
                assert(self@ =~~= old(self)@);
            }
            let mut m = String::from_str("Profile already exists: ");
            m.append(name.as_str());
            return Err(ForgeError::Validation(m));
        }
        let ghost orig = self@.profiles;
        proof {
            crate::config::lemma_first_lookup_none(orig, name@);
        }
        let info = ProfileInfo {
            name: clone_string(name),
            description: None,
            created_at: now,
            last_used: None,
            server_count: 0,
        };
        self.profiles.push((clone_string(name), info));
        proof {
            assert(self@.profiles =~= orig.push(
                (
                    name@,
                    ProfileInfoV {
                        name: name@,
                        description: None,
                        created_at: now as int,
                        last_used: None,
                        server_count: 0,
                    },
                ),
            ));
            crate::config::lemma_first_lookup_append(
                orig,
                name@,
                ProfileInfoV {
                    name: name@,
                    description: None,
                    created_at: now as int,
                    last_used: None,
                    server_count: 0,
                },
            );
        }
        Ok(())
    }

    /// Records a switch to `name`: it becomes current and its last-used time
    /// is refreshed.  Fails (unchanged) when `name` is not registered.
    pub fn mark_switched(&mut self, name: &String, now: i64) -> (r: Result<(), ForgeError>)
        ensures
            (r is Ok) == (first_lookup(old(self)@.profiles, name@) is Some),
            r is Ok ==> final(self)@.current_profile == Some(name@) && (first_lookup(
                final(self)@.profiles,
                name@,
            ) matches Some(p) && p.last_used == Some(now as int) && p.name == first_lookup(
                old(self)@.profiles,
                name@,
            )->Some_0.name && p.created_at == first_lookup(
                old(self)@.profiles,
                name@,
            )->Some_0.created_at && p.server_count == first_lookup(
                old(self)@.profiles,
                name@,
            )->Some_0.server_count) && (forall|k: Seq<char>|
                k != name@ ==> #[trigger] first_lookup(final(self)@.profiles, k) == first_lookup(
                    old(self)@.profiles,
                    k,
                )),
            r is Err ==> final(self)@ == old(self)@,
            r matches Err(e) ==> e is NotFound,
    {
        let ghost orig = self@.profiles;
        let mut i: usize = 0;
        while i < self.profiles.len()
            invariant
                i <= self.profiles@.len(),
                *self == *old(self),
                self@.profiles == orig,
                forall|k: int| 0 <= k < i ==> #[trigger] orig[k].0 != name@,
            decreases self.profiles@.len() - i,
        {
            if string_eq_string(name, &self.profiles[i].0) {
                let entry = self.profiles.remove(i);
                let key = entry.0;
                let old_info = entry.1;
                let new_info = ProfileInfo { last_used: Some(now), ..old_info };
                self.profiles.insert(i, (key, new_info));
                self.current_profile = Some(clone_string(name));
                proof {
                    let updated = ProfileInfoV { last_used: Some(now as int), ..orig[i as int].1 };
                    assert(self@.profiles =~= orig.update(i as int, (name@, updated)));
                    crate::config::lemma_first_lookup_update(orig, i as int, name@, updated);
                    crate::config::lemma_first_lookup_found(orig, i as int, name@);
                }
                return Ok(());
            }
            i = i + 1;
        }
        proof {
            crate::config::lemma_first_lookup_no_key(orig, name@);
            assert(self@ =~~= old(self)@);
        }
        let mut m = String::from_str("Profile does not exist: ");
        m.append(name.as_str());
        Err(ForgeError::NotFound(m))
    }

    /// Refreshes a profile's cached server count and last-used time, as done
    /// after every mutating profile operation.  Fails (unchanged) when `name`
    /// is not registered.
    pub fn refresh_meta(&mut self, name: &String, count: usize, now: i64) -> (r: Result<
        (),
        ForgeError,
    >)
        ensures
            (r is Ok) == (first_lookup(old(self)@.profiles, name@) is Some),
            r is Ok ==> (first_lookup(final(self)@.profiles, name@) matches Some(p)
                && p.server_count == count as int && p.last_used == Some(now as int) && p.name
                == first_lookup(old(self)@.profiles, name@)->Some_0.name && p.created_at
                == first_lookup(old(self)@.profiles, name@)->Some_0.created_at) && (forall|
                k: Seq<char>,
            |
                k != name@ ==> #[trigger] first_lookup(final(self)@.profiles, k) == first_lookup(
                    old(self)@.profiles,
                    k,
                )) && final(self)@.current_profile == old(self)@.current_profile,
            r is Err ==> final(self)@ == old(self)@,
            r matches Err(e) ==> e is NotFound,
    {
        let ghost orig = self@.profiles;
        let mut i: usize = 0;
        while i < self.profiles.len()
            invariant
                i <= self.profiles@.len(),
                *self == *old(self),
                self@.profiles == orig,
                forall|k: int| 0 <= k < i ==> #[trigger] orig[k].0 != name@,
            decreases self.profiles@.len() - i,
        {
            if string_eq_string(name, &self.profiles[i].0) {
                let entry = self.profiles.remove(i);
                let key = entry.0;
                let old_info = entry.1;
                let new_info = ProfileInfo {
                    server_count: count,
                    last_used: Some(now),
                    ..old_info
                };
                self.profiles.insert(i, (key, new_info));
                proof {
                    let updated = ProfileInfoV {
                        server_count: count as int,
                        last_used: Some(now as int),
                        ..orig[i as int].1
                    };
                    assert(self@.profiles =~= orig.update(i as int, (name@, updated)));
                    crate::config::lemma_first_lookup_update(orig, i as int, name@, updated);
                    crate::config::lemma_first_lookup_found(orig, i as int, name@);
                }
                return Ok(());
            }
            i = i + 1;
        }
        proof {
            crate::config::lemma_first_lookup_no_key(orig, name@);
            assert(self@ =~~= old(self)@);
        }
        let mut m = String::from_str("Profile does not exist: ");
        m.append(name.as_str());
        Err(ForgeError::NotFound(m))
    }

    /// Deletes a profile.  The current profile can only be deleted with
    /// `force`, which also clears the current pointer; without `force` the
    /// caller must have confirmed interactively, and declining cancels.
    /// Deleting never touches the canonical document.
    pub fn delete(&mut self, name: &String, force: bool, confirmed: bool) -> (r: Result<
        bool,
        ForgeError,
    >)
        ensures
            (r is Err) == (first_lookup(old(self)@.profiles, name@) is None || (old(
                self,
            )@.current_profile == Some(name@) && !force)),
            r matches Err(e) ==> (e is NotFound) == (first_lookup(
                old(self)@.profiles,
                name@,
            ) is None) && final(self)@ == old(self)@,
            r == Ok::<bool, ForgeError>(false) ==> final(self)@ == old(self)@ && !force
                && !confirmed,
            r == Ok::<bool, ForgeError>(true) ==> final(self)@.profiles.len() == old(
                self,
            )@.profiles.len() - 1 && (forall|k: Seq<char>|
                k != name@ ==> #[trigger] first_lookup(final(self)@.profiles, k) == first_lookup(
                    old(self)@.profiles,
                    k,
                )) && (final(self)@.current_profile == if old(self)@.current_profile == Some(
                name@,
            ) {
                Option::<Seq<char>>::None
            } else {
                old(self)@.current_profile
            }),
    {
        if !self.has_profile(name) {
            proof {
                assert(self@ =~~= old(self)@);
            }
            let mut m = String::from_str("Profile does not exist: ");
            m.append(name.as_str());
            return Err(ForgeError::NotFound(m));
        }
        let is_current = match &self.current_profile {
            Some(c) => string_eq_string(c, name),
            None => false,
        };
        if is_current && !force {
            proof {
                assert(self@ =~~= old(self)@);
            }
            return Err(
                ForgeError::Validation(
                    String::from_str(
                        "Cannot delete the current profile; switch first or use force",
                    ),
                ),
            );
        }
        if !force && !confirmed {
            proof {
                assert(self@ =~~= old(self)@);
            }
            return Ok(false);
        }
        if is_current {
            self.current_profile = None;
        }
        let ghost orig = self@.profiles;
        let ghost cur_after = self@.current_profile;
        let mut i: usize = 0;
        while i < self.profiles.len()
            invariant
                i <= self.profiles@.len(),
                self@.profiles == orig,
                orig == old(self)@.profiles,
                self@.current_profile == cur_after,
                first_lookup(old(self)@.profiles, name@) is Some,
                is_current == (old(self)@.current_profile == Some(name@)),
                !(is_current && !force),
                force || confirmed,
                cur_after == if is_current {
                    Option::<Seq<char>>::None
                } else {
                    old(self)@.current_profile
                },
                forall|k: int| 0 <= k < i ==> #[trigger] orig[k].0 != name@,
            decreases self.profiles@.len() - i,
        {
            if string_eq_string(name, &self.profiles[i].0) {
                self.profiles.remove(i);
                proof {
                    assert(self@.profiles =~= orig.remove(i as int));
                    crate::config::lemma_first_lookup_remove(orig, i as int, name@);
                }
                return Ok(true);
            }
            i = i + 1;
        }
        proof {
            crate::config::lemma_first_lookup_no_key(orig, name@);
            assert(false);
        }
        Ok(true)
    }
}

// ---------------------------------------------------------------------------
// Document equality
// ---------------------------------------------------------------------------

/// Structural equality of JSON values.
pub fn json_eq(a: &Json, b: &Json) -> (r: bool)
    ensures
        r == (a@ == b@),
    decreases a, 1int,
{
    match a {
        Json::Null => match b {
            Json::Null => true,
            _ => false,
        },
        Json::Bool(x) => match b {
            Json::Bool(y) => x == y,
            _ => false,
        },
        Json::Num(x) => match b {
            Json::Num(y) => chars_eq(x, y),
            _ => false,
        },
        Json::Str(x) => match b {
            Json::Str(y) => chars_eq(x, y),
            _ => false,
        },
        Json::Arr(x) => match b {
            Json::Arr(y) => {
                if x.len() != y.len() {
                    proof {
                        assert(a@->Arr_0.len() == x@.len());
                        assert(b@->Arr_0.len() == y@.len());
                    }
                    return false;
                }
                let r = json_eq_arr(x, y, 0);
                proof {
                    if r {
                        assert forall|k: int| 0 <= k < a@->Arr_0.len() implies a@->Arr_0[k]
                            == b@->Arr_0[k] by {
                            assert(a@->Arr_0[k] == x@[k]@);
                            assert(b@->Arr_0[k] == y@[k]@);
                        }
                        assert(a@->Arr_0 =~= b@->Arr_0);
                        assert(a@ =~~= b@);
                    } else {
                        let k = choose|k: int| 0 <= k < x@.len() && !(#[trigger] x@[k]@ == y@[k]@);
                        assert(a@->Arr_0[k] == x@[k]@);
                        assert(b@->Arr_0[k] == y@[k]@);
                        assert(a@ != b@);
                    }
                }
                r
            },
            _ => false,
        },
        Json::Obj(x) => match b {
            Json::Obj(y) => {
                if x.len() != y.len() {
                    proof {
                        assert(a@->Obj_0.len() == x@.len());
                        assert(b@->Obj_0.len() == y@.len());
                    }
                    return false;
                }
                let r = json_eq_obj(x, y, 0);
                proof {
                    if r {
                        assert forall|k: int| 0 <= k < a@->Obj_0.len() implies a@->Obj_0[k]
                            == b@->Obj_0[k] by {
                            assert(a@->Obj_0[k] == (x@[k].0@, x@[k].1@));
                            assert(b@->Obj_0[k] == (y@[k].0@, y@[k].1@));
                        }
                        assert(a@->Obj_0 =~= b@->Obj_0);
                        assert(a@ =~~= b@);
                    } else {
                        let k = choose|k: int|
                            0 <= k < x@.len() && !((#[trigger] x@[k]).0@ == y@[k].0@ && x@[k].1@
                                == y@[k].1@);
                        assert(a@->Obj_0[k] == (x@[k].0@, x@[k].1@));
                        assert(b@->Obj_0[k] == (y@[k].0@, y@[k].1@));
                        assert(a@ != b@);
                    }
                }
                r
            },
            _ => false,
        },
    }
}

fn json_eq_arr(x: &Vec<Json>, y: &Vec<Json>, idx: usize) -> (r: bool)
    requires
        x@.len() == y@.len(),
        idx <= x@.len(),
    ensures
        r == (forall|k: int| idx <= k < x@.len() ==> #[trigger] x@[k]@ == y@[k]@),
    decreases x, 0int, x@.len() - idx,
{
    if idx >= x.len() {
        return true;
    }
    if !json_eq(&x[idx], &y[idx]) {
        return false;
    }
    json_eq_arr(x, y, idx + 1)
}

fn json_eq_obj(x: &Vec<(Vec<char>, Json)>, y: &Vec<(Vec<char>, Json)>, idx: usize) -> (r: bool)
    requires
        x@.len() == y@.len(),
        idx <= x@.len(),
    ensures
        r == (forall|k: int|
            idx <= k < x@.len() ==> (#[trigger] x@[k]).0@ == y@[k].0@ && x@[k].1@ == y@[k].1@),
    decreases x, 0int, x@.len() - idx,
{
    if idx >= x.len() {
        return true;
    }
    if !chars_eq(&x[idx].0, &y[idx].0) {
        return false;
    }
    if !json_eq(&x[idx].1, &y[idx].1) {
        return false;
    }
    json_eq_obj(x, y, idx + 1)
}

fn opt_string_eq(a: &Option<String>, b: &Option<String>) -> (r: bool)
    ensures
        r == (match (a, b) {
            (Some(x), Some(y)) => x@ == y@,
            (None, None) => true,
            _ => false,
        }),
{
    match (a, b) {
        (Some(x), Some(y)) => string_eq_string(x, y),
        (None, None) => true,
        _ => false,
    }
}

/// Structural equality of server entries.
pub fn server_eq(a: &McpServer, b: &McpServer) -> (r: bool)
    ensures
        r == (a@ == b@),
{
    if !opt_string_eq(&a.command, &b.command) {
        return false;
    }
    if !opt_string_eq(&a.url, &b.url) {
        return false;
    }
    match (&a.args, &b.args) {
        (Some(x), Some(y)) => {
            if x.len() != y.len() {
                proof {
                    assert(strs_view(x@).len() != strs_view(y@).len());
                }
                return false;
            }
            let mut i: usize = 0;
            while i < x.len()
                invariant
                    i <= x@.len(),
                    x@.len() == y@.len(),
                    a.args matches Some(xx) && xx@ == x@,
                    b.args matches Some(yy) && yy@ == y@,
                    forall|k: int| 0 <= k < i ==> #[trigger] x@[k]@ == y@[k]@,
                decreases x@.len() - i,
            {
                if !string_eq_string(&x[i], &y[i]) {
                    proof {
                        assert(strs_view(x@)[i as int] != strs_view(y@)[i as int]);
                    }
                    return false;
                }
                i = i + 1;
            }
            proof {
                assert(strs_view(x@) =~= strs_view(y@));
            }
        },
        (None, None) => {},
        _ => {
            return false;
        },
    }
    match (&a.env, &b.env) {
        (Some(x), Some(y)) => {
            if x.len() != y.len() {
                proof {
                    assert(pairs_view(x@).len() != pairs_view(y@).len());
                }
                return false;
            }
            let mut i: usize = 0;
            while i < x.len()
                invariant
                    i <= x@.len(),
                    x@.len() == y@.len(),
                    a.env matches Some(xx) && xx@ == x@,
                    b.env matches Some(yy) && yy@ == y@,
                    forall|k: int|
                        0 <= k < i ==> (#[trigger] x@[k]).0@ == y@[k].0@ && x@[k].1@ == y@[k].1@,
                decreases x@.len() - i,
            {
                if !string_eq_string(&x[i].0, &y[i].0) {
                    proof {
                        assert(pairs_view(x@)[i as int] != pairs_view(y@)[i as int]);
                    }
                    return false;
                }
                if !string_eq_string(&x[i].1, &y[i].1) {
                    proof {
                        assert(pairs_view(x@)[i as int] != pairs_view(y@)[i as int]);
                    }
                    return false;
                }
                i = i + 1;
            }
            proof {
                assert(pairs_view(x@) =~= pairs_view(y@));
            }
        },
        (None, None) => {},
        _ => {
            return false;
        },
    }
    if a.other.len() != b.other.len() {
        proof {
            assert(jfields_view(a.other@).len() != jfields_view(b.other@).len());
        }
        return false;
    }
    let mut i: usize = 0;
    while i < a.other.len()
        invariant
            i <= a.other@.len(),
            a.other@.len() == b.other@.len(),
            forall|k: int|
                0 <= k < i ==> (#[trigger] a.other@[k]).0@ == b.other@[k].0@ && a.other@[k].1@
                    == b.other@[k].1@,
        decreases a.other@.len() - i,
    {
        if !string_eq_string(&a.other[i].0, &b.other[i].0) {
            proof {
                assert(jfields_view(a.other@)[i as int] != jfields_view(b.other@)[i as int]);
            }
            return false;
        }
        if !json_eq(&a.other[i].1, &b.other[i].1) {
            proof {
                assert(jfields_view(a.other@)[i as int] != jfields_view(b.other@)[i as int]);
            }
            return false;
        }
        i = i + 1;
    }
    proof {
        assert(jfields_view(a.other@) =~= jfields_view(b.other@));
        assert(a@ =~~= b@);
    }
    true
}

/// Two documents carry the same configuration: the same name-to-entry map
/// (the first occurrence winning on a repeated name) and the same map of
/// preserved top-level fields.  Entry order and file formatting play no part.
pub open spec fn config_equivalent(a: ConfigV, b: ConfigV) -> bool {
    assoc_map(a.mcp_servers) == assoc_map(b.mcp_servers) && assoc_map(a.other) == assoc_map(
        b.other,
    )
}

fn lookup_server_chars<'a>(list: &'a Vec<(String, McpServer)>, k: &Vec<char>) -> (r: Option<
    &'a McpServer,
>)
    ensures
        (r is Some) == (first_lookup(crate::config::servers_view(list@), k@) is Some),
        r matches Some(s) ==> first_lookup(crate::config::servers_view(list@), k@) == Some(s@),
{
    let ghost vals = crate::config::servers_view(list@);
    proof {
        assert(vals.skip(0) =~= vals);
    }
    let mut i: usize = 0;
    while i < list.len()
        invariant
            i <= list@.len(),
            vals == crate::config::servers_view(list@),
            first_lookup(vals, k@) == first_lookup(vals.skip(i as int), k@),
        decreases list@.len() - i,
    {
        proof {
            assert(vals.skip(i as int)[0] == vals[i as int]);
            assert(vals.skip(i as int).drop_first() =~= vals.skip(i + 1));
        }
        let kv = string_to_chars(&list[i].0);
        if chars_eq(&kv, k) {
            return Some(&list[i].1);
        }
        i = i + 1;
    }
    proof {
        assert(vals.skip(i as int).len() == 0);
    }
    None
}

fn lookup_json_chars<'a>(list: &'a Vec<(String, Json)>, k: &Vec<char>) -> (r: Option<&'a Json>)
    ensures
        (r is Some) == (first_lookup(jfields_view(list@), k@) is Some),
        r matches Some(j) ==> first_lookup(jfields_view(list@), k@) == Some(j@),
{
    let ghost vals = jfields_view(list@);
    proof {
        assert(vals.skip(0) =~= vals);
    }
    let mut i: usize = 0;
    while i < list.len()
        invariant
            i <= list@.len(),
            vals == jfields_view(list@),
            first_lookup(vals, k@) == first_lookup(vals.skip(i as int), k@),
        decreases list@.len() - i,
    {
        proof {
            assert(vals.skip(i as int)[0] == vals[i as int]);
            assert(vals.skip(i as int).drop_first() =~= vals.skip(i + 1));
        }
        let kv = string_to_chars(&list[i].0);
        if chars_eq(&kv, k) {
            return Some(&list[i].1);
        }
        i = i + 1;
    }
    proof {
        assert(vals.skip(i as int).len() == 0);
    }
    None
}

/// A key is found exactly when some entry carries it.
pub proof fn lemma_lookup_key_witness<V>(s: Seq<(Seq<char>, V)>, k: Seq<char>)
    ensures
        (first_lookup(s, k) is Some) == (exists|m: int| 0 <= m < s.len() && #[trigger] s[m].0 == k),
    decreases s.len(),
{
    if s.len() > 0 {
        lemma_lookup_key_witness(s.drop_first(), k);
        if s[0].0 == k {
        } else {
            if exists|m: int| 0 <= m < s.len() && #[trigger] s[m].0 == k {
                let m = choose|m: int| 0 <= m < s.len() && #[trigger] s[m].0 == k;
                assert(s.drop_first()[m - 1].0 == k);
            }
            if exists|m: int| 0 <= m < s.drop_first().len() && #[trigger] s.drop_first()[m].0 == k {
                let m = choose|m: int|
                    0 <= m < s.drop_first().len() && #[trigger] s.drop_first()[m].0 == k;
                assert(s[m + 1].0 == k);
            }
        }
    }
}

/// The domain of an association list's map is exactly its key set.
proof fn lemma_assoc_dom<V>(s: Seq<(Seq<char>, V)>, k: Seq<char>)
    requires
        assoc_map(s).dom().contains(k),
    ensures
        exists|m: int| 0 <= m < s.len() && #[trigger] s[m].0 == k,
    decreases s.len(),
{
    if s.len() > 0 {
        if s[0].0 == k {
        } else {
            assert(assoc_map(s.drop_first()).dom().contains(k));
            lemma_assoc_dom(s.drop_first(), k);
            let m = choose|m: int|
                0 <= m < s.drop_first().len() && #[trigger] s.drop_first()[m].0 == k;
            assert(s[m + 1].0 == k);
        }
    }
}

/// One-sided containment of the maps two server lists denote.
fn servers_map_le(a: &Vec<(String, McpServer)>, b: &Vec<(String, McpServer)>) -> (r: bool)
    ensures
        r == forall|k: Seq<char>|
            #[trigger] first_lookup(crate::config::servers_view(a@), k) is Some
                ==> first_lookup(crate::config::servers_view(a@), k) == first_lookup(
                crate::config::servers_view(b@),
                k,
            ),
{
    let ghost av = crate::config::servers_view(a@);
    let ghost bv = crate::config::servers_view(b@);
    let mut i: usize = 0;
    while i < a.len()
        invariant
            i <= a@.len(),
            av == crate::config::servers_view(a@),
            bv == crate::config::servers_view(b@),
            forall|k: int|
                0 <= k < i ==> #[trigger] first_lookup(av, a@[k].0@) == first_lookup(
                    bv,
                    a@[k].0@,
                ),
        decreases a@.len() - i,
    {
        let kv = string_to_chars(&a[i].0);
        let va = lookup_server_chars(a, &kv);
        let vb = lookup_server_chars(b, &kv);
        match (va, vb) {
            (Some(x), Some(y)) => {
                if !server_eq(x, y) {
                    proof {
                        assert(first_lookup(av, a@[i as int].0@) != first_lookup(
                            bv,
                            a@[i as int].0@,
                        ));
                    }
                    return false;
                }
            },
            (Some(_), None) => {
                proof {
                    lemma_lookup_key_witness(av, kv@);
                    assert(first_lookup(av, kv@) != first_lookup(bv, kv@));
                }
                return false;
            },
            _ => {
                proof {
                    assert(av[i as int].0 == kv@);
                    lemma_lookup_key_witness(av, kv@);
                    assert(false);
                }
            },
        }
        i = i + 1;
    }
    proof {
        assert forall|k: Seq<char>|
            #[trigger] first_lookup(av, k) is Some implies first_lookup(av, k) == first_lookup(
            bv,
            k,
        ) by {
            lemma_lookup_key_witness(av, k);
            let m = choose|m: int| 0 <= m < av.len() && #[trigger] av[m].0 == k;
            assert(first_lookup(av, a@[m].0@) == first_lookup(bv, a@[m].0@));
        }
    }
    true
}

/// One-sided containment of the maps two field lists denote.
fn jfields_map_le(a: &Vec<(String, Json)>, b: &Vec<(String, Json)>) -> (r: bool)
    ensures
        r == forall|k: Seq<char>|
            #[trigger] first_lookup(jfields_view(a@), k) is Some ==> first_lookup(
                jfields_view(a@),
                k,
            ) == first_lookup(jfields_view(b@), k),
{
    let ghost av = jfields_view(a@);
    let ghost bv = jfields_view(b@);
    let mut i: usize = 0;
    while i < a.len()
        invariant
            i <= a@.len(),
            av == jfields_view(a@),
            bv == jfields_view(b@),
            forall|k: int|
                0 <= k < i ==> #[trigger] first_lookup(av, a@[k].0@) == first_lookup(
                    bv,
                    a@[k].0@,
                ),
        decreases a@.len() - i,
    {
        let kv = string_to_chars(&a[i].0);
        let va = lookup_json_chars(a, &kv);
        let vb = lookup_json_chars(b, &kv);
        match (va, vb) {
            (Some(x), Some(y)) => {
                if !json_eq(x, y) {
                    proof {
                        assert(first_lookup(av, a@[i as int].0@) != first_lookup(
                            bv,
                            a@[i as int].0@,
                        ));
                    }
                    return false;
                }
            },
            (Some(_), None) => {
                proof {
                    lemma_lookup_key_witness(av, kv@);
                    assert(first_lookup(av, kv@) != first_lookup(bv, kv@));
                }
                return false;
            },
            _ => {
                proof {
                    assert(av[i as int].0 == kv@);
                    lemma_lookup_key_witness(av, kv@);
                    assert(false);
                }
            },
        }
        i = i + 1;
    }
    proof {
        assert forall|k: Seq<char>|
            #[trigger] first_lookup(av, k) is Some implies first_lookup(av, k) == first_lookup(
            bv,
            k,
        ) by {
            lemma_lookup_key_witness(av, k);
            let m = choose|m: int| 0 <= m < av.len() && #[trigger] av[m].0 == k;
            assert(first_lookup(av, a@[m].0@) == first_lookup(bv, a@[m].0@));
        }
    }
    true
}

/// Two-sided lookup agreement makes the denoted maps equal.
proof fn lemma_maps_equal<V>(a: Seq<(Seq<char>, V)>, b: Seq<(Seq<char>, V)>)
    requires
        forall|k: Seq<char>|
            #[trigger] first_lookup(a, k) is Some ==> first_lookup(a, k) == first_lookup(b, k),
        forall|k: Seq<char>|
            #[trigger] first_lookup(b, k) is Some ==> first_lookup(b, k) == first_lookup(a, k),
    ensures
        assoc_map(a) == assoc_map(b),
{
    assert forall|k: Seq<char>| true implies #[trigger] assoc_map(a).dom().contains(k)
        == assoc_map(b).dom().contains(k) by {
        lemma_first_lookup_assoc(a, k);
        lemma_first_lookup_assoc(b, k);
    }
    assert forall|k: Seq<char>| #[trigger] assoc_map(a).dom().contains(k) implies assoc_map(a)[k]
        == assoc_map(b)[k] by {
        lemma_first_lookup_assoc(a, k);
        lemma_first_lookup_assoc(b, k);
    }
    assert(assoc_map(a) =~= assoc_map(b));
}

/// Whether two documents carry the same configuration, comparing the server
/// map and the preserved fields as maps rather than texts.
pub fn config_equiv(a: &Config, b: &Config) -> (r: bool)
    ensures
        r == config_equivalent(a@, b@),
{
    let s1 = servers_map_le(&a.mcp_servers, &b.mcp_servers);
    let s2 = servers_map_le(&b.mcp_servers, &a.mcp_servers);
    let o1 = jfields_map_le(&a.other, &b.other);
    let o2 = jfields_map_le(&b.other, &a.other);
    let r = s1 && s2 && o1 && o2;
    proof {
        if r {
            lemma_maps_equal(a@.mcp_servers, b@.mcp_servers);
            lemma_maps_equal(a@.other, b@.other);
        } else {
            if config_equivalent(a@, b@) {
                assert forall|k: Seq<char>|
                    #[trigger] first_lookup(a@.mcp_servers, k) is Some implies first_lookup(
                    a@.mcp_servers,
                    k,
                ) == first_lookup(b@.mcp_servers, k) by {
                    lemma_first_lookup_assoc(a@.mcp_servers, k);
                    lemma_first_lookup_assoc(b@.mcp_servers, k);
                }
                assert forall|k: Seq<char>|
                    #[trigger] first_lookup(b@.mcp_servers, k) is Some implies first_lookup(
                    b@.mcp_servers,
                    k,
                ) == first_lookup(a@.mcp_servers, k) by {
                    lemma_first_lookup_assoc(a@.mcp_servers, k);
                    lemma_first_lookup_assoc(b@.mcp_servers, k);
                }
                assert forall|k: Seq<char>|
                    #[trigger] first_lookup(a@.other, k) is Some implies first_lookup(a@.other, k)
                    == first_lookup(b@.other, k) by {
                    lemma_first_lookup_assoc(a@.other, k);
                    lemma_first_lookup_assoc(b@.other, k);
                }
                assert forall|k: Seq<char>|
                    #[trigger] first_lookup(b@.other, k) is Some implies first_lookup(b@.other, k)
                    == first_lookup(a@.other, k) by {
                    lemma_first_lookup_assoc(a@.other, k);
                    lemma_first_lookup_assoc(b@.other, k);
                }
                assert(false);
            }
        }
    }
    r
}

/// The canonical document differs from the current profile's snapshot.
pub fn has_unsaved_changes(canonical: &Config, current_snapshot: &Config) -> (r: bool)
    ensures
        r == !config_equivalent(canonical@, current_snapshot@),
{
    !config_equiv(canonical, current_snapshot)
}

// ---------------------------------------------------------------------------
// Switching
// ---------------------------------------------------------------------------

/// What a profile switch writes.
pub struct SwitchPlan {
    /// The old current profile's new snapshot, when unsaved changes are kept.
    pub save_old_snapshot: Option<Config>,
    /// What the canonical document becomes: the target profile's snapshot.
    pub new_canonical: Config,
}

/// Decides what switching writes.  When the canonical document differs from
/// the current profile's snapshot, accepting (`save_changes`) persists the
/// canonical document as that profile's snapshot first; declining discards
/// the difference.  Either way the target snapshot becomes canonical.
pub fn plan_switch(
    canonical: &Config,
    current_snapshot: &Option<Config>,
    target_snapshot: &Config,
    save_changes: bool,
) -> (r: SwitchPlan)
    ensures
        (r.save_old_snapshot is Some) == (save_changes && (current_snapshot matches Some(cs)
            && !config_equivalent(canonical@, cs@))),
        r.save_old_snapshot matches Some(c) ==> c@ == canonical@,
        r.new_canonical@ == target_snapshot@,
{
    let save_old = match current_snapshot {
        Some(cs) => {
            if has_unsaved_changes(canonical, cs) && save_changes {
                Some(clone_config(canonical))
            } else {
                None
            }
        },
        None => None,
    };
    SwitchPlan { save_old_snapshot: save_old, new_canonical: clone_config(target_snapshot) }
}

// ---------------------------------------------------------------------------
// Syncing
// ---------------------------------------------------------------------------

/// Where a sync reads from: the canonical document for the `default`
/// sentinel, otherwise a registered profile's snapshot.
pub enum SyncSource {
    Canonical,
    Profile,
}

/// Resolves a sync source name: the literal `default` means the canonical
/// document; any other name must be a registered profile.
pub fn resolve_sync_source(from: &String, registry: &ProfileConfig) -> (r: Result<
    SyncSource,
    ForgeError,
>)
    ensures
        r matches Ok(s) ==> ((s is Canonical) == (from@ == kw_default()) && ((s is Profile)
            ==> first_lookup(registry@.profiles, from@) is Some)),
        (r is Err) == (from@ != kw_default() && first_lookup(registry@.profiles, from@) is None),
        r matches Err(e) ==> e is NotFound,
{
    let d = kw_default_chars();
    let fv = string_to_chars(from);
    if chars_eq(&fv, &d) {
        return Ok(SyncSource::Canonical);
    }
    if registry.has_profile(from) {
        Ok(SyncSource::Profile)
    } else {
        let mut m = String::from_str("Source profile does not exist: ");
        m.append(from.as_str());
        Err(ForgeError::NotFound(m))
    }
}


/// Membership in a pushed sequence.
proof fn lemma_contains_push(s: Seq<Seq<char>>, x: Seq<char>, k: Seq<char>)
    ensures
        s.push(x).contains(k) == (s.contains(k) || k == x),
{
    if s.contains(k) {
        let w = choose|w: int| 0 <= w < s.len() && s[w] == k;
        assert(s.push(x)[w] == k);
    }
    if k == x {
        assert(s.push(x)[s.len() as int] == k);
    }
    if s.push(x).contains(k) {
        let w = choose|w: int| 0 <= w < s.push(x).len() && s.push(x)[w] == k;
        if w < s.len() {
            assert(s[w] == k);
        }
    }
}

/// The three-way difference a sync would make to the target.
pub struct SyncDiff {
    /// Present only in the source.
    pub added: Vec<String>,
    /// Present in both.
    pub overwritten: Vec<String>,
    /// Present only in the target, hence removed by a real sync.
    pub removed: Vec<String>,
}

/// Computes the three disjoint name sets of a sync: added (source only),
/// overwritten (both), and removed (target only), each in document order.
pub fn sync_diff(source: &Config, target: &Config) -> (r: SyncDiff)
    ensures
        forall|k: Seq<char>|
            strs_view(r.added@).contains(k) == (#[trigger] first_lookup(source@.mcp_servers, k)
                is Some && first_lookup(target@.mcp_servers, k) is None),
        forall|k: Seq<char>|
            strs_view(r.overwritten@).contains(k) == (#[trigger] first_lookup(
                source@.mcp_servers,
                k,
            ) is Some && first_lookup(target@.mcp_servers, k) is Some),
        forall|k: Seq<char>|
            strs_view(r.removed@).contains(k) == (#[trigger] first_lookup(target@.mcp_servers, k)
                is Some && first_lookup(source@.mcp_servers, k) is None),
{
    let mut added: Vec<String> = Vec::new();
    let mut overwritten: Vec<String> = Vec::new();
    let mut removed: Vec<String> = Vec::new();
    proof {
        assert(strs_view(added@) =~= Seq::<Seq<char>>::empty());
        assert(strs_view(overwritten@) =~= Seq::<Seq<char>>::empty());
        assert(strs_view(removed@) =~= Seq::<Seq<char>>::empty());
    }
    let mut i: usize = 0;
    while i < source.mcp_servers.len()
        invariant
            i <= source.mcp_servers@.len(),
            forall|k: Seq<char>|
                strs_view(added@).contains(k) == (exists|m: int|
                    0 <= m < i && #[trigger] source@.mcp_servers[m].0 == k && first_lookup(
                        target@.mcp_servers,
                        k,
                    ) is None),
            forall|k: Seq<char>|
                strs_view(overwritten@).contains(k) == (exists|m: int|
                    0 <= m < i && #[trigger] source@.mcp_servers[m].0 == k && first_lookup(
                        target@.mcp_servers,
                        k,
                    ) is Some),
        decreases source.mcp_servers@.len() - i,
    {
        let kv = string_to_chars(&source.mcp_servers[i].0);
        let ghost added0 = strs_view(added@);
        let ghost over0 = strs_view(overwritten@);
        let name_copy = clone_string(&source.mcp_servers[i].0);
        proof {
            assert(source@.mcp_servers[i as int].0 == kv@);
        }
        if lookup_server_chars(&target.mcp_servers, &kv).is_some() {
            overwritten.push(name_copy);
            proof {
                assert(strs_view(overwritten@) =~= over0.push(kv@));
                assert forall|k: Seq<char>| true implies strs_view(overwritten@).contains(k) == (
                exists|m: int|
                    0 <= m < i + 1 && #[trigger] source@.mcp_servers[m].0 == k && first_lookup(
                        target@.mcp_servers,
                        k,
                    ) is Some) by {
                    lemma_contains_push(over0, kv@, k);
                    if k == kv@ {
                        assert(source@.mcp_servers[i as int].0 == k);
                    }
                    if exists|m: int|
                        0 <= m < i + 1 && #[trigger] source@.mcp_servers[m].0 == k && first_lookup(
                            target@.mcp_servers,
                            k,
                        ) is Some {
                        let m = choose|m: int|
                            0 <= m < i + 1 && #[trigger] source@.mcp_servers[m].0 == k
                                && first_lookup(target@.mcp_servers, k) is Some;
                        if m < i {
                            assert(over0.contains(k));
                        }
                    }
                }
                assert forall|k: Seq<char>| true implies strs_view(added@).contains(k) == (exists|
                    m: int,
                |
                    0 <= m < i + 1 && #[trigger] source@.mcp_servers[m].0 == k && first_lookup(
                        target@.mcp_servers,
                        k,
                    ) is None) by {
                    if exists|m: int|
                        0 <= m < i + 1 && #[trigger] source@.mcp_servers[m].0 == k && first_lookup(
                            target@.mcp_servers,
                            k,
                        ) is None {
                        let m = choose|m: int|
                            0 <= m < i + 1 && #[trigger] source@.mcp_servers[m].0 == k
                                && first_lookup(target@.mcp_servers, k) is None;
                        if m < i {
                            assert(strs_view(added@).contains(k));
                        } else {
                            assert(false);
                        }
                    }
                }
            }
        } else {
            added.push(name_copy);
            proof {
                assert(strs_view(added@) =~= added0.push(kv@));
                assert forall|k: Seq<char>| true implies strs_view(added@).contains(k) == (exists|
                    m: int,
                |
                    0 <= m < i + 1 && #[trigger] source@.mcp_servers[m].0 == k && first_lookup(
                        target@.mcp_servers,
                        k,
                    ) is None) by {
                    lemma_contains_push(added0, kv@, k);
                    if k == kv@ {
                        assert(source@.mcp_servers[i as int].0 == k);
                    }
                    if exists|m: int|
                        0 <= m < i + 1 && #[trigger] source@.mcp_servers[m].0 == k && first_lookup(
                            target@.mcp_servers,
                            k,
                        ) is None {
                        let m = choose|m: int|
                            0 <= m < i + 1 && #[trigger] source@.mcp_servers[m].0 == k
                                && first_lookup(target@.mcp_servers, k) is None;
                        if m < i {
                            assert(added0.contains(k));
                        }
                    }
                }
                assert forall|k: Seq<char>| true implies strs_view(overwritten@).contains(k) == (
                exists|m: int|
                    0 <= m < i + 1 && #[trigger] source@.mcp_servers[m].0 == k && first_lookup(
                        target@.mcp_servers,
                        k,
                    ) is Some) by {
                    if exists|m: int|
                        0 <= m < i + 1 && #[trigger] source@.mcp_servers[m].0 == k && first_lookup(
                            target@.mcp_servers,
                            k,
                        ) is Some {
                        let m = choose|m: int|
                            0 <= m < i + 1 && #[trigger] source@.mcp_servers[m].0 == k
                                && first_lookup(target@.mcp_servers, k) is Some;
                        if m < i {
                            assert(strs_view(overwritten@).contains(k));
                        } else {
                            assert(false);
                        }
                    }
                }
            }
        }
        i = i + 1;
    }
    let mut j: usize = 0;
    while j < target.mcp_servers.len()
        invariant
            j <= target.mcp_servers@.len(),
            forall|k: Seq<char>|
                strs_view(removed@).contains(k) == (exists|m: int|
                    0 <= m < j && #[trigger] target@.mcp_servers[m].0 == k && first_lookup(
                        source@.mcp_servers,
                        k,
                    ) is None),
        decreases target.mcp_servers@.len() - j,
    {
        let kv = string_to_chars(&target.mcp_servers[j].0);
        let ghost rem0 = strs_view(removed@);
        let name_copy = clone_string(&target.mcp_servers[j].0);
        proof {
            assert(target@.mcp_servers[j as int].0 == kv@);
        }
        if lookup_server_chars(&source.mcp_servers, &kv).is_none() {
            removed.push(name_copy);
            proof {
                assert(strs_view(removed@) =~= rem0.push(kv@));
                assert forall|k: Seq<char>| true implies strs_view(removed@).contains(k) == (exists|
                    m: int,
                |
                    0 <= m < j + 1 && #[trigger] target@.mcp_servers[m].0 == k && first_lookup(
                        source@.mcp_servers,
                        k,
                    ) is None) by {
                    lemma_contains_push(rem0, kv@, k);
                    if k == kv@ {
                        assert(target@.mcp_servers[j as int].0 == k);
                    }
                    if exists|m: int|
                        0 <= m < j + 1 && #[trigger] target@.mcp_servers[m].0 == k && first_lookup(
                            source@.mcp_servers,
                            k,
                        ) is None {
                        let m = choose|m: int|
                            0 <= m < j + 1 && #[trigger] target@.mcp_servers[m].0 == k
                                && first_lookup(source@.mcp_servers, k) is None;
                        if m < j {
                            assert(rem0.contains(k));
                        }
                    }
                }
            }
        } else {
            proof {
                assert forall|k: Seq<char>| true implies strs_view(removed@).contains(k) == (exists|
                    m: int,
                |
                    0 <= m < j + 1 && #[trigger] target@.mcp_servers[m].0 == k && first_lookup(
                        source@.mcp_servers,
                        k,
                    ) is None) by {
                    if exists|m: int|
                        0 <= m < j + 1 && #[trigger] target@.mcp_servers[m].0 == k && first_lookup(
                            source@.mcp_servers,
                            k,
                        ) is None {
                        let m = choose|m: int|
                            0 <= m < j + 1 && #[trigger] target@.mcp_servers[m].0 == k
                                && first_lookup(source@.mcp_servers, k) is None;
                        if m < j {
                            assert(strs_view(removed@).contains(k));
                        } else {
                            assert(false);
                        }
                    }
                }
            }
        }
        j = j + 1;
    }
    proof {
        assert forall|k: Seq<char>| true implies strs_view(added@).contains(k) == (
        #[trigger] first_lookup(source@.mcp_servers, k) is Some && first_lookup(
            target@.mcp_servers,
            k,
        ) is None) by {
            lemma_lookup_key_witness(source@.mcp_servers, k);
        }
        assert forall|k: Seq<char>| true implies strs_view(overwritten@).contains(k) == (
        #[trigger] first_lookup(source@.mcp_servers, k) is Some && first_lookup(
            target@.mcp_servers,
            k,
        ) is Some) by {
            lemma_lookup_key_witness(source@.mcp_servers, k);
        }
        assert forall|k: Seq<char>| true implies strs_view(removed@).contains(k) == (
        #[trigger] first_lookup(target@.mcp_servers, k) is Some && first_lookup(
            source@.mcp_servers,
            k,
        ) is None) by {
            lemma_lookup_key_witness(target@.mcp_servers, k);
        }
    }
    SyncDiff { added, overwritten, removed }
}

/// What a sync performs.
pub struct SyncOutcome {
    /// The preview of additions, overwrites and removals.
    pub diff: SyncDiff,
    /// The target profile's new snapshot — absent on a dry run, the source
    /// document in full otherwise.
    pub new_target_snapshot: Option<Config>,
}

/// Syncs the source document onto the target profile.  The target must be
/// registered.  A dry run only reports the difference and changes nothing;
/// otherwise the source document replaces the target's snapshot in full, and
/// the target's metadata is refreshed.
pub fn sync_profiles(
    registry: &mut ProfileConfig,
    to: &String,
    source: &Config,
    target_snapshot: &Config,
    dry_run: bool,
    now: i64,
) -> (r: Result<SyncOutcome, ForgeError>)
    ensures
        (r is Ok) == (first_lookup(old(registry)@.profiles, to@) is Some),
        r matches Err(e) ==> e is NotFound && final(registry)@ == old(registry)@,
        r is Ok && dry_run ==> final(registry)@ == old(registry)@,
        r matches Ok(o) ==> ((o.new_target_snapshot is None) == dry_run && (o.new_target_snapshot
            matches Some(c) ==> c@ == source@) && (!dry_run ==> (first_lookup(
            final(registry)@.profiles,
            to@,
        ) matches Some(p) && p.server_count == source@.mcp_servers.len() && p.last_used == Some(
            now as int,
        )))),
{
    if !registry.has_profile(to) {
        proof {
            assert(registry@ =~~= old(registry)@);
        }
        let mut m = String::from_str("Target profile does not exist: ");
        m.append(to.as_str());
        return Err(ForgeError::NotFound(m));
    }
    let diff = sync_diff(source, target_snapshot);
    if dry_run {
        proof {
            assert(registry@ =~~= old(registry)@);
        }
        return Ok(SyncOutcome { diff, new_target_snapshot: None });
    }
    let snapshot = clone_config(source);
    match registry.refresh_meta(to, source.mcp_servers.len(), now) {
        Ok(()) => Ok(SyncOutcome { diff, new_target_snapshot: Some(snapshot) }),
        Err(e) => {
            proof {
                assert(false);
            }
            Err(e)
        },
    }
}

// ---------------------------------------------------------------------------
// File locations
// ---------------------------------------------------------------------------

/// The path of one profile's snapshot file under the configuration
/// directory.
pub fn get_profile_snapshot_path(config_dir: &str, profile_name: &str) -> (r: String)
    ensures
        r@ == config_dir@ + "/profile_snapshots/"@ + profile_name@ + ".json"@,
{
    let mut p = String::from_str(config_dir);
    p.append("/profile_snapshots/");
    p.append(profile_name);
    p.append(".json");
    p
}

/// The path of the profile registry file under the configuration directory.
pub fn get_profiles_config_path(config_dir: &str) -> (r: String)
    ensures
        r@ == config_dir@ + "/profiles.json"@,
{
    let mut p = String::from_str(config_dir);
    p.append("/profiles.json");
    p
}


} // verus!
