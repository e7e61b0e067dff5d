//! The key registry: a set of named SSH keys, the active-key pointer, and
//! the bookkeeping that turns logical operations into planned filesystem
//! effects.
//!
//! The registry itself never touches the filesystem. Every operation with a
//! filesystem side (checking that an added source file exists, creating the
//! symlink, copying or erasing key files) is split: this module makes the
//! decision and states it in a contract, and the caller carries the
//! resulting actions out, feeding observations (such as "the source is a
//! regular file") in as plain values.

use vstd::prelude::*;
use vstd::string::StrSliceExecFns;
use vstd::string::StringExecFns;

use crate::errors::StoreError;
use crate::names::{
    file_stem, keyname, keyname_chars, lemma_file_name_start_bounds, lemma_keyname_injective,
    lemma_last_dot_bounds, scan_file_name_start, scan_stem_end, strip_ext,
};
use crate::strutil::{chars_to_string, str_chars, str_eq};

verus! {

/// One managed SSH key pair.
#[derive(Debug)]
pub struct Key {
    /// Where the private key came from at add time; kept so a missing
    /// managed copy can be rematerialized.
    pub original_path: Option<String>,
    /// Where the private key lives inside managed storage.
    pub private_key_path: Option<String>,
    /// Reserved for a public key inside managed storage.
    pub public_key_path: Option<String>,
    /// The unique name the key is looked up by.
    pub name: String,
}

/// The mathematical value of a [`Key`].
#[verifier::ext_equal]
pub ghost struct KeyView {
    pub original_path: Option<Seq<char>>,
    pub private_key_path: Option<Seq<char>>,
    pub public_key_path: Option<Seq<char>>,
    pub name: Seq<char>,
}

impl View for Key {
    type V = KeyView;

    open spec fn view(&self) -> KeyView {
        KeyView {
            original_path: self.original_path.deep_view(),
            private_key_path: self.private_key_path.deep_view(),
            public_key_path: self.public_key_path.deep_view(),
            name: self.name@,
        }
    }
}

impl DeepView for Key {
    type V = KeyView;

    open spec fn deep_view(&self) -> KeyView {
        self.view()
    }
}

impl Clone for Key {
    /// A clone carries the same value.
    fn clone(&self) -> (r: Self)
        ensures
            r@ == self@,
    {
        Key {
            original_path: clone_opt_string(&self.original_path),
            private_key_path: clone_opt_string(&self.private_key_path),
            public_key_path: clone_opt_string(&self.public_key_path),
            name: self.name.clone(),
        }
    }
}

fn clone_opt_string(s: &Option<String>) -> (r: Option<String>)
    ensures
        r.deep_view() == s.deep_view(),
{
    match s {
        Some(x) => Some(x.clone()),
        None => None,
    }
}

/// The registry of managed keys.
pub struct SshKeyStorage {
    /// The file name the persisted record is written under.
    file_name: String,
    marked_for_deletion: Vec<Key>,
    active_key_name: Option<String>,
    keys_by_name: Vec<Key>,
}

/// The mathematical value of an [`SshKeyStorage`].
#[verifier::ext_equal]
pub ghost struct StorageView {
    pub file_name: Seq<char>,
    pub marked_for_deletion: Seq<KeyView>,
    pub active_key_name: Option<Seq<char>>,
    pub keys: Seq<KeyView>,
}

impl View for SshKeyStorage {
    type V = StorageView;

    closed spec fn view(&self) -> StorageView {
        StorageView {
            file_name: self.file_name@,
            marked_for_deletion: self.marked_for_deletion.deep_view(),
            active_key_name: self.active_key_name.deep_view(),
            keys: self.keys_by_name.deep_view(),
        }
    }
}

impl StorageView {
    /// Whether some key is called `n`.
    pub open spec fn has_name(self, n: Seq<char>) -> bool {
        exists|i: int| 0 <= i < self.keys.len() && self.keys[i].name == n
    }

    /// The position of the key called `n` (meaningful only when `has_name`).
    pub open spec fn idx_of(self, n: Seq<char>) -> int {
        choose|i: int| 0 <= i < self.keys.len() && self.keys[i].name == n
    }

    /// The key called `n` (meaningful only when `has_name`).
    pub open spec fn key_named(self, n: Seq<char>) -> KeyView {
        self.keys[self.idx_of(n)]
    }

    /// The keys as a map from name to key.
    pub open spec fn key_map(self) -> Map<Seq<char>, KeyView> {
        Map::new(|n: Seq<char>| self.has_name(n), |n: Seq<char>| self.key_named(n))
    }

    /// The active key, if one is set.
    pub open spec fn active(self) -> Option<KeyView> {
        match self.active_key_name {
            Some(n) => Some(self.key_named(n)),
            None => None,
        }
    }

    /// No two keys share a name.
    pub open spec fn names_unique(self) -> bool {
        forall|i: int, j: int|
            0 <= i < j < self.keys.len() ==> self.keys[i].name != self.keys[j].name
    }

    /// Key names are unique, and the active name, if set, resolves to a key.
    pub open spec fn wf(self) -> bool {
        &&& self.names_unique()
        &&& match self.active_key_name {
            Some(n) => self.has_name(n),
            None => true,
        }
    }

    /// This view with another active-key pointer.
    pub open spec fn with_active(self, a: Option<Seq<char>>) -> StorageView {
        StorageView {
            file_name: self.file_name,
            marked_for_deletion: self.marked_for_deletion,
            active_key_name: a,
            keys: self.keys,
        }
    }

    /// This view with another key sequence.
    pub open spec fn with_keys(self, keys: Seq<KeyView>) -> StorageView {
        StorageView {
            file_name: self.file_name,
            marked_for_deletion: self.marked_for_deletion,
            active_key_name: self.active_key_name,
            keys,
        }
    }

    /// This view with another pending-deletion buffer.
    pub open spec fn with_marked(self, marked: Seq<KeyView>) -> StorageView {
        StorageView {
            file_name: self.file_name,
            marked_for_deletion: marked,
            active_key_name: self.active_key_name,
            keys: self.keys,
        }
    }
}

impl SshKeyStorage {
    /// An empty registry with the default record file name.
    pub fn new() -> (r: Self)
        ensures
            r@.keys == Seq::<KeyView>::empty(),
            r@.marked_for_deletion == Seq::<KeyView>::empty(),
            r@.active_key_name is None,
            r@.file_name == crate::paths::DEFAULT_JSON_FILE@,
            r@.wf(),
    {
        let r = SshKeyStorage {
            file_name: String::from_str(crate::paths::DEFAULT_JSON_FILE),
            marked_for_deletion: Vec::new(),
            active_key_name: None,
            keys_by_name: Vec::new(),
        };
        proof {
            assert(r@.keys =~= Seq::<KeyView>::empty());
            assert(r@.marked_for_deletion =~= Seq::<KeyView>::empty());
        }
        r
    }

    /// A registry rebuilt from parsed parts; names must already be unique
    /// and the active name, if set, present.
    pub(crate) fn from_parts(
        file_name: String,
        active_key_name: Option<String>,
        keys_by_name: Vec<Key>,
    ) -> (r: Self)
        requires
            (StorageView {
                file_name: file_name@,
                marked_for_deletion: Seq::<KeyView>::empty(),
                active_key_name: active_key_name.deep_view(),
                keys: keys_by_name.deep_view(),
            }).wf(),
        ensures
            r@ == (StorageView {
                file_name: file_name@,
                marked_for_deletion: Seq::<KeyView>::empty(),
                active_key_name: active_key_name.deep_view(),
                keys: keys_by_name.deep_view(),
            }),
            r@.wf(),
    {
        let r = SshKeyStorage {
            file_name,
            marked_for_deletion: Vec::new(),
            active_key_name,
            keys_by_name,
        };
        proof {
            assert(r@.marked_for_deletion =~= Seq::<KeyView>::empty());
        }
        r
    }

    /// The file name the persisted record is written under.
    pub fn file_name(&self) -> (r: &String)
        ensures
            r@ == self@.file_name,
    {
        &self.file_name
    }

    /// The name of the active key, if one is set.
    pub fn active_name(&self) -> (r: &Option<String>)
        ensures
            r.deep_view() == self@.active_key_name,
    {
        &self.active_key_name
    }

    /// The position of the key called `name`, if any.
    fn find_index(&self, name: &str) -> (r: Option<usize>)
        requires
            self@.names_unique(),
        ensures
            r is Some <==> self@.has_name(name@),
            r matches Some(i) ==> 0 <= i < self@.keys.len() && self@.keys[i as int].name == name@
                && i as int == self@.idx_of(name@),
    {
        let n = self.keys_by_name.len();
        let mut i: usize = 0;
        while i < n
            invariant
                self@.names_unique(),
                n == self@.keys.len(),
                i <= n,
                forall|j: int| 0 <= j < i ==> self@.keys[j].name != name@,
            decreases n - i,
        {
            if str_eq(self.keys_by_name[i].name.as_str(), name) {
                proof {
                    assert(self@.keys[i as int].name == name@);
                    assert(self@.has_name(name@));
                    let k = self@.idx_of(name@);
                    assert(0 <= k < self@.keys.len() && self@.keys[k].name == name@);
                    if k != i as int {
                        assert(self@.keys[k].name != self@.keys[i as int].name);
                    }
                }
                return Some(i);
            }
            i = i + 1;
        }
        None
    }

    /// All keys, in registry order.
    pub fn get_keys(&self) -> (r: &Vec<Key>)
        ensures
            r.deep_view() == self@.keys,
    {
        &self.keys_by_name
    }

    /// The key called `name`, if any.
    pub fn get_key(&self, name: &str) -> (r: Option<&Key>)
        requires
            self@.wf(),
        ensures
            r is Some <==> self@.has_name(name@),
            r matches Some(k) ==> k@ == self@.key_named(name@),
    {
        match self.find_index(name) {
            Some(i) => Some(&self.keys_by_name[i]),
            None => None,
        }
    }

    /// The key the active pointer refers to, if one is set.
    pub fn get_active_key(&self) -> (r: Option<&Key>)
        requires
            self@.wf(),
        ensures
            r is Some <==> self@.active_key_name is Some,
            r matches Some(k) ==> Some(k@) == self@.active(),
    {
        match &self.active_key_name {
            Some(n) => self.get_key(n.as_str()),
            None => None,
        }
    }
}

/// Whether `n` is the first fallback index at or past the key count whose
/// name is unused.
pub open spec fn is_first_free(v: StorageView, n: nat) -> bool {
    &&& n >= v.keys.len()
    &&& !v.has_name(keyname(n))
    &&& forall|m: nat| v.keys.len() <= m < n ==> v.has_name(#[trigger] keyname(m))
}

/// The fallback name the registry generates when none is supplied and the
/// source path yields no stem.
pub open spec fn default_name(v: StorageView) -> Seq<char> {
    keyname(choose|n: nat| is_first_free(v, n))
}

/// Only one index can be the first free one.
pub proof fn lemma_first_free_unique(v: StorageView, a: nat, b: nat)
    requires
        is_first_free(v, a),
        is_first_free(v, b),
    ensures
        a == b,
{
    if a < b {
        assert(v.has_name(keyname(a)));
    }
    if b < a {
        assert(v.has_name(keyname(b)));
    }
}

/// Among the fallback names for the key count and the count further indices,
/// at least one is unused: there are more candidates than keys.
proof fn lemma_free_keyname_below(v: StorageView)
    ensures
        exists|n: nat| v.keys.len() <= n <= 2 * v.keys.len() && !v.has_name(keyname(n)),
{
    broadcast use vstd::seq_lib::group_seq_properties;

    let c = v.keys.len() as int;
    if !(exists|n: nat| v.keys.len() <= n <= 2 * v.keys.len() && !v.has_name(keyname(n))) {
        assert(forall|n: nat| c <= n <= 2 * c ==> v.has_name(#[trigger] keyname(n)));
        let cands = Seq::<Seq<char>>::new((c + 1) as nat, |i: int| keyname((c + i) as nat));
        assert(cands.no_duplicates()) by {
            assert forall|i: int, j: int|
                0 <= i < cands.len() && 0 <= j < cands.len() && i != j implies cands[i]
                != cands[j] by {
                if cands[i] == cands[j] {
                    lemma_keyname_injective((c + i) as nat, (c + j) as nat);
                }
            }
        }
        let names = v.keys.map_values(|k: KeyView| k.name);
        assert(cands.to_set().subset_of(names.to_set())) by {
            assert forall|x: Seq<char>| cands.to_set().contains(x) implies names.to_set().contains(
                x,
            ) by {
                let i = choose|i: int| 0 <= i < cands.len() && cands[i] == x;
                assert(v.has_name(keyname((c + i) as nat)));
                let j = choose|j: int| 0 <= j < v.keys.len() && v.keys[j].name == x;
                assert(names[j] == x);
                assert(names.contains(x));
            }
        }
        cands.unique_seq_to_set();
        names.lemma_cardinality_of_set();
        vstd::set_lib::lemma_len_subset(cands.to_set(), names.to_set());
        assert(false);
    }
}

/// A key record as `add_key` creates it: the source remembered, the managed
/// path derived from the name with its extension stripped, no public key.
pub open spec fn new_key_view(path: Seq<char>, n: Seq<char>, keys_folder: Seq<char>) -> KeyView {
    KeyView {
        original_path: Some(path),
        private_key_path: Some(keys_folder + seq!['/'] + strip_ext(n)),
        public_key_path: None,
        name: n,
    }
}

/// The name an add resolves to: the explicit name if given, else the stem of
/// the source path, else the generated fallback name.
pub open spec fn resolved_name(
    v: StorageView,
    path: Seq<char>,
    name: Option<Seq<char>>,
) -> Seq<char> {
    match name {
        Some(n) => n,
        None => match file_stem(path) {
            Some(st) => st,
            None => default_name(v),
        },
    }
}

/// `s` with its key named `n` dropped, when one is there.
pub open spec fn seq_remove_named(s: Seq<KeyView>, n: Seq<char>) -> Seq<KeyView> {
    if exists|j: int| 0 <= j < s.len() && s[j].name == n {
        s.remove(choose|j: int| 0 <= j < s.len() && s[j].name == n)
    } else {
        s
    }
}

/// Removing one entry keeps every differently-named entry present.
proof fn lemma_remove_keeps_other(s: Seq<KeyView>, i: int, a: Seq<char>)
    requires
        0 <= i < s.len(),
        s[i].name != a,
        exists|j: int| 0 <= j < s.len() && s[j].name == a,
    ensures
        exists|j: int| 0 <= j < s.remove(i).len() && s.remove(i)[j].name == a,
{
    let j = choose|j: int| 0 <= j < s.len() && s[j].name == a;
    if j < i {
        assert(s.remove(i)[j].name == a);
    } else {
        assert(s.remove(i)[j - 1].name == a);
    }
}

/// Removing one entry keeps the remaining names unique.
proof fn lemma_remove_keeps_unique(s: Seq<KeyView>, i: int)
    requires
        0 <= i < s.len(),
        forall|p: int, q: int| 0 <= p < q < s.len() ==> s[p].name != s[q].name,
    ensures
        forall|p: int, q: int|
            0 <= p < q < s.remove(i).len() ==> s.remove(i)[p].name != s.remove(i)[q].name,
{
    let t = s.remove(i);
    assert forall|p: int, q: int| 0 <= p < q < t.len() implies t[p].name != t[q].name by {
        let p0 = if p < i {
            p
        } else {
            p + 1
        };
        let q0 = if q < i {
            q
        } else {
            q + 1
        };
        assert(t[p] == s[p0] && t[q] == s[q0]);
    }
}

impl SshKeyStorage {
    /// The first unused name of the form `key<N>`, probing indices upward
    /// from the current key count.
    pub fn default_next_name(&self) -> (r: String)
        requires
            self@.names_unique(),
        ensures
            exists|n: nat| r@ == keyname(n) && is_first_free(self@, n),
    {
        let c: usize = self.keys_by_name.len();
        proof {
            lemma_free_keyname_below(self@);
        }
        let mut i: u128 = c as u128;
        loop
            invariant
                self@.names_unique(),
                c == self@.keys.len(),
                c <= i,
                i <= 2 * (c as int) + 1,
                forall|m: nat| c <= m < i ==> self@.has_name(#[trigger] keyname(m)),
                exists|n: nat| c <= n <= 2 * c && !self@.has_name(keyname(n)),
            decreases 2 * (c as int) + 1 - i,
        {
            let cand_chars = keyname_chars(i);
            let cand = chars_to_string(&cand_chars);
            if self.find_index(cand.as_str()).is_none() {
                proof {
                    assert(is_first_free(self@, i as nat));
                }
                return cand;
            }
            proof {
                let n = choose|n: nat|
                    c <= n <= 2 * c && !self@.has_name(keyname(n));
                assert(n > i);
            }
            i = i + 1;
        }
    }

    /// Records a new key.
    ///
    /// The caller reports in `source_is_file` whether `path_to_key` names an
    /// existing regular file, and passes the managed keys directory in
    /// `keys_folder`. Nothing is copied here: the managed copy is produced at
    /// save time, from the plan [`Key::materialize_action`] yields.
    pub fn add_key(
        &mut self,
        path_to_key: &str,
        name: Option<&str>,
        source_is_file: bool,
        keys_folder: &str,
    ) -> (r: Result<Key, StoreError>)
        requires
            old(self)@.wf(),
        ensures
            final(self)@.wf(),
            ({
                let rn = resolved_name(old(self)@, path_to_key@, name.deep_view());
                let nk = new_key_view(path_to_key@, rn, keys_folder@);
                &&& (!source_is_file ==> (r matches Err(e) && e == StoreError::InvalidSource)
                    && final(self)@ == old(self)@)
                &&& (source_is_file && old(self)@.has_name(rn) ==> (r matches Err(e) && e
                    == StoreError::DuplicateName) && final(self)@ == old(self)@)
                &&& (source_is_file && !old(self)@.has_name(rn) ==> (r matches Ok(k) && k@ == nk)
                    && final(self)@ == old(self)@.with_keys(old(self)@.keys.push(nk)))
            }),
    {
        if !source_is_file {
            return Err(StoreError::InvalidSource);
        }
        let ghost rn = resolved_name(self@, path_to_key@, name.deep_view());
        let key_name: String = match name {
            Some(n) => String::from_str(n),
            None => {
                let pv = str_chars(path_to_key);
                let start = scan_file_name_start(&pv);
                if start < pv.len() {
                    let se = scan_stem_end(&pv);
                    proof {
                        lemma_last_dot_bounds(pv@);
                        lemma_file_name_start_bounds(pv@);
                    }
                    String::from_str(path_to_key.substring_char(start, se))
                } else {
                    let d = self.default_next_name();
                    proof {
                        let n = choose|n: nat| d@ == keyname(n) && is_first_free(self@, n);
                        let m = choose|m: nat| is_first_free(self@, m);
                        assert(is_first_free(self@, m));
                        lemma_first_free_unique(self@, n, m);
                    }
                    d
                }
            },
        };
        proof {
            assert(key_name@ == rn);
        }
        if self.find_index(key_name.as_str()).is_some() {
            return Err(StoreError::DuplicateName);
        }
        let nv = str_chars(key_name.as_str());
        let se = scan_stem_end(&nv);
        proof {
            lemma_last_dot_bounds(nv@);
            lemma_file_name_start_bounds(nv@);
            reveal_strlit("/");
        }
        let mut sp = String::from_str(keys_folder);
        sp.append("/");
        sp.append(key_name.as_str().substring_char(0, se));
        let key = Key {
            original_path: Some(String::from_str(path_to_key)),
            private_key_path: Some(sp),
            public_key_path: None,
            name: key_name,
        };
        let ret = key.clone();
        proof {
            assert("/"@ =~= seq!['/']);
            assert(key@ =~= new_key_view(path_to_key@, rn, keys_folder@));
        }
        self.keys_by_name.push(key);
        proof {
            let v0 = old(self)@;
            let nk = new_key_view(path_to_key@, rn, keys_folder@);
            assert(self@.keys =~= v0.keys.push(nk));
            assert(self@ =~= v0.with_keys(v0.keys.push(nk)));
            assert forall|i: int, j: int|
                0 <= i < j < self@.keys.len() implies self@.keys[i].name != self@.keys[j].name by {
                if j == v0.keys.len() {
                    assert(!v0.has_name(rn));
                    assert(v0.keys[i].name != rn);
                }
            }
            match v0.active_key_name {
                Some(a) => {
                    let w = choose|w: int| 0 <= w < v0.keys.len() && v0.keys[w].name == a;
                    assert(self@.keys[w].name == a);
                },
                None => {},
            }
        }
        Ok(ret)
    }

    /// Makes the key called `name` the active one.
    ///
    /// This sets the active pointer; the caller then creates the symlink the
    /// pair from [`Key::link`] describes, and persists the pointer with a
    /// later save.
    pub fn use_key(&mut self, name: &str) -> (r: Result<Key, StoreError>)
        requires
            old(self)@.wf(),
        ensures
            final(self)@.wf(),
            !old(self)@.has_name(name@) ==> (r matches Err(e) && e == StoreError::NotFound)
                && final(self)@ == old(self)@,
            old(self)@.has_name(name@) ==> final(self)@ == old(self)@.with_active(Some(name@)) && (
            r matches Ok(k) && k@ == old(self)@.key_named(name@)) && final(self)@.active() == Some(
                old(self)@.key_named(name@),
            ),
    {
        match self.find_index(name) {
            None => Err(StoreError::NotFound),
            Some(i) => {
                self.active_key_name = Some(String::from_str(name));
                let k = self.keys_by_name[i].clone();
                proof {
                    assert(self@ =~= old(self)@.with_active(Some(name@)));
                    assert(self@.idx_of(name@) == old(self)@.idx_of(name@));
                }
                Ok(k)
            },
        }
    }

    /// Drops the key called `name` from the registry and parks it for
    /// deletion at the next save; clears the active pointer when it referred
    /// to that key.
    pub fn remove_key(&mut self, name: &str) -> (r: Option<Key>)
        requires
            old(self)@.wf(),
        ensures
            final(self)@.wf(),
            r is None <==> !old(self)@.has_name(name@),
            r is None ==> final(self)@ == old(self)@,
            r matches Some(k) ==> ({
                let i = old(self)@.idx_of(name@);
                &&& k@ == old(self)@.keys[i]
                &&& final(self)@.keys == old(self)@.keys.remove(i)
                &&& final(self)@.marked_for_deletion == old(self)@.marked_for_deletion.push(k@)
                &&& final(self)@.active_key_name == (if old(self)@.active_key_name == Some(name@) {
                    None::<Seq<char>>
                } else {
                    old(self)@.active_key_name
                })
                &&& final(self)@.file_name == old(self)@.file_name
            }),
    {
        match self.find_index(name) {
            None => None,
            Some(i) => {
                let key = self.keys_by_name.remove(i);
                let clear = match &self.active_key_name {
                    Some(an) => str_eq(an.as_str(), key.name.as_str()),
                    None => false,
                };
                if clear {
                    self.active_key_name = None;
                }
                let ret = key.clone();
                self.marked_for_deletion.push(key);
                proof {
                    let v0 = old(self)@;
                    let gi = v0.idx_of(name@);
                    assert(self@.keys =~= v0.keys.remove(gi));
                    assert(self@.marked_for_deletion =~= v0.marked_for_deletion.push(ret@));
                    lemma_remove_keeps_unique(v0.keys, gi);
                    match self@.active_key_name {
                        Some(a) => {
                            assert(a != name@);
                            lemma_remove_keeps_other(v0.keys, gi, a);
                        },
                        None => {},
                    }
                }
                Some(ret)
            },
        }
    }

    /// Gives the key called `name` the name `new_name`.
    ///
    /// The key's managed path is untouched: renaming never moves files. A
    /// key already called `new_name` is displaced, as inserting under an
    /// occupied name displaces its entry; the active pointer follows the
    /// rename when it referred to `name`.
    pub fn rename_key(&mut self, name: &str, new_name: &str) -> (r: Option<Key>)
        requires
            old(self)@.wf(),
        ensures
            final(self)@.wf(),
            r is None <==> !old(self)@.has_name(name@),
            r is None ==> final(self)@ == old(self)@,
            r matches Some(k) ==> ({
                let v0 = old(self)@;
                let i = v0.idx_of(name@);
                let renamed = KeyView {
                    original_path: v0.keys[i].original_path,
                    private_key_path: v0.keys[i].private_key_path,
                    public_key_path: v0.keys[i].public_key_path,
                    name: new_name@,
                };
                &&& k@ == renamed
                &&& final(self)@.keys == seq_remove_named(v0.keys.remove(i), new_name@).push(
                    renamed,
                )
                &&& final(self)@.active_key_name == (if v0.active_key_name == Some(name@) {
                    Some(new_name@)
                } else {
                    v0.active_key_name
                })
                &&& final(self)@.marked_for_deletion == v0.marked_for_deletion
                &&& final(self)@.file_name == v0.file_name
            }),
    {
        match self.find_index(name) {
            None => None,
            Some(i) => {
                let mut key = self.keys_by_name.remove(i);
                proof {
                    let v0 = old(self)@;
                    let gi = v0.idx_of(name@);
                    assert(self@.keys =~= v0.keys.remove(gi));
                    lemma_remove_keeps_unique(v0.keys, gi);
                }
                key.name = String::from_str(new_name);
                match self.find_index(new_name) {
                    Some(j) => {
                        let _displaced = self.keys_by_name.remove(j);
                        proof {
                            let mid = old(self)@.keys.remove(old(self)@.idx_of(name@));
                            assert(self@.keys =~= seq_remove_named(mid, new_name@));
                            lemma_remove_keeps_unique(mid, j as int);
                        }
                    },
                    None => {
                        proof {
                            let mid = old(self)@.keys.remove(old(self)@.idx_of(name@));
                            assert(self@.keys =~= seq_remove_named(mid, new_name@));
                        }
                    },
                }
                let switch = match &self.active_key_name {
                    Some(an) => str_eq(an.as_str(), name),
                    None => false,
                };
                if switch {
                    self.active_key_name = Some(String::from_str(new_name));
                }
                let ret = key.clone();
                self.keys_by_name.push(key);
                proof {
                    let v0 = old(self)@;
                    let gi = v0.idx_of(name@);
                    let renamed = KeyView {
                        original_path: v0.keys[gi].original_path,
                        private_key_path: v0.keys[gi].private_key_path,
                        public_key_path: v0.keys[gi].public_key_path,
                        name: new_name@,
                    };
                    let mid = v0.keys.remove(gi);
                    let trimmed = seq_remove_named(mid, new_name@);
                    assert(ret@ =~= renamed);
                    assert(self@.keys =~= trimmed.push(renamed));
                    assert forall|p: int, q: int|
                        0 <= p < q < self@.keys.len() implies self@.keys[p].name
                        != self@.keys[q].name by {
                        if q == trimmed.len() {
                            assert(self@.keys[q].name == new_name@);
                            if exists|w: int| 0 <= w < mid.len() && mid[w].name == new_name@ {
                                let w = choose|w: int|
                                    0 <= w < mid.len() && mid[w].name == new_name@;
                                lemma_remove_keeps_unique(mid, w);
                                if exists|u: int|
                                    0 <= u < trimmed.len() && trimmed[u].name == new_name@ {
                                    let u = choose|u: int|
                                        0 <= u < trimmed.len() && trimmed[u].name == new_name@;
                                    let u0 = if u < w {
                                        u
                                    } else {
                                        u + 1
                                    };
                                    assert(mid[u0].name == new_name@);
                                    assert(false);
                                }
                            }
                        }
                    }
                    match self@.active_key_name {
                        Some(a) => {
                            if a == new_name@ {
                                assert(self@.keys[trimmed.len() as int].name == a);
                            } else {
                                assert(v0.active_key_name == Some(a));
                                assert(a != name@);
                                lemma_remove_keeps_other(v0.keys, gi, a);
                                if exists|w: int| 0 <= w < mid.len() && mid[w].name == new_name@ {
                                    let w = choose|w: int|
                                        0 <= w < mid.len() && mid[w].name == new_name@;
                                    lemma_remove_keeps_other(mid, w, a);
                                }
                                let u = choose|u: int|
                                    0 <= u < trimmed.len() && trimmed[u].name == a;
                                assert(self@.keys[u].name == a);
                            }
                        },
                        None => {},
                    }
                }
                Some(ret)
            },
        }
    }
}

/// The symlink a key asks for when it becomes active: from its managed
/// private-key path to the fixed name under the SSH directory; nothing when
/// it has no managed path.
pub open spec fn link_request(k: KeyView, ssh_path: Seq<char>) -> Option<(Seq<char>, Seq<char>)> {
    match k.private_key_path {
        None => None,
        Some(p) => Some((p, ssh_path + "/"@ + crate::paths::DEFAULT_SSH_KEY_NAME@)),
    }
}

impl Key {
    /// The symlink that exposes this key as the active one: from this key's
    /// managed private-key path to the fixed name under the SSH directory.
    /// Nothing to link when the key has no managed path.
    ///
    /// The caller replaces any existing symlink at the returned target with
    /// one pointing at the returned source.
    pub fn link(&self, ssh_path: &str) -> (r: Option<(String, String)>)
        ensures
            r is Some <==> link_request(self@, ssh_path@) is Some,
            r matches Some(pair) ==> link_request(self@, ssh_path@) == Some(
                (pair.0@, pair.1@),
            ),
    {
        match &self.private_key_path {
            None => None,
            Some(p) => {
                let mut t = String::from_str(ssh_path);
                t.append("/");
                t.append(crate::paths::DEFAULT_SSH_KEY_NAME);
                Some((p.clone(), t))
            },
        }
    }

    /// How to bring this key's managed copy into existence at save time.
    ///
    /// The caller reports whether the managed copy and the original file
    /// exist. A key whose managed copy is already in place needs nothing; a
    /// key with no managed path, or whose original is gone before a copy was
    /// made, cannot be materialized; otherwise the original is to be copied
    /// to the managed path, as the returned (from, to) pair says.
    pub fn materialize_action(&self, managed_exists: bool, original_exists: bool) -> (r: Result<
        Option<(String, String)>,
        StoreError,
    >)
        ensures
            self@.private_key_path is Some && managed_exists ==> (r matches Ok(a) && a is None),
            !(self@.private_key_path is Some && managed_exists) && (self@.private_key_path is None
                || self@.original_path is None || !original_exists) ==> (r matches Err(e) && e
                == StoreError::MaterializeFailed),
            self@.private_key_path is Some && !managed_exists && self@.original_path is Some
                && original_exists ==> (r matches Ok(a) && (a matches Some(pair) && Some(pair.0@)
                == self@.original_path && Some(pair.1@) == self@.private_key_path)),
    {
        if self.private_key_path.is_some() && managed_exists {
            return Ok(None);
        }
        match (&self.private_key_path, &self.original_path) {
            (Some(p), Some(o)) => {
                if original_exists {
                    Ok(Some((o.clone(), p.clone())))
                } else {
                    Err(StoreError::MaterializeFailed)
                }
            },
            _ => Err(StoreError::MaterializeFailed),
        }
    }
}

/// The files a key's erasure removes: its managed private and public key
/// paths, as far as they are set.
pub open spec fn key_files(k: KeyView) -> Seq<Seq<char>> {
    (match k.private_key_path {
        Some(p) => seq![p],
        None => Seq::<Seq<char>>::empty(),
    }) + (match k.public_key_path {
        Some(p) => seq![p],
        None => Seq::<Seq<char>>::empty(),
    })
}

/// The files erasing each key in `s` removes, in order.
pub open spec fn files_of(s: Seq<KeyView>) -> Seq<Seq<char>>
    decreases s.len(),
{
    if s.len() == 0 {
        Seq::<Seq<char>>::empty()
    } else {
        files_of(s.drop_last()) + key_files(s.last())
    }
}

proof fn lemma_files_of_step(s: Seq<KeyView>, i: int)
    requires
        0 <= i < s.len(),
    ensures
        files_of(s.take(i + 1)) == files_of(s.take(i)) + key_files(s[i]),
{
    assert(s.take(i + 1).drop_last() =~= s.take(i));
    assert(s.take(i + 1).last() == s[i]);
}

impl SshKeyStorage {
    /// The path the persisted record is written to, under `folder`.
    pub fn save_record_path(&self, folder: &str) -> (r: String)
        ensures
            r@ == folder@ + "/"@ + self@.file_name,
    {
        let mut s = String::from_str(folder);
        s.append("/");
        s.append(self.file_name.as_str());
        s
    }

    /// The files a save erases: those of every key removed since the last
    /// save. Missing files are no error to the caller — erasure is
    /// idempotent cleanup.
    pub fn deletion_paths(&self) -> (r: Vec<String>)
        ensures
            r.deep_view() == files_of(self@.marked_for_deletion),
    {
        let marked = &self.marked_for_deletion;
        let n = marked.len();
        let mut r: Vec<String> = Vec::new();
        let mut i: usize = 0;
        proof {
            assert(self@.marked_for_deletion.take(0) =~= Seq::<KeyView>::empty());
            assert(r.deep_view() =~= files_of(self@.marked_for_deletion.take(0)));
        }
        while i < n
            invariant
                n == self@.marked_for_deletion.len(),
                n == marked@.len(),
                marked.deep_view() == self@.marked_for_deletion,
                i <= n,
                r.deep_view() == files_of(self@.marked_for_deletion.take(i as int)),
            decreases n - i,
        {
            proof {
                lemma_files_of_step(self@.marked_for_deletion, i as int);
            }
            match &marked[i].private_key_path {
                Some(p) => {
                    r.push(p.clone());
                },
                None => {},
            }
            match &marked[i].public_key_path {
                Some(p) => {
                    r.push(p.clone());
                },
                None => {},
            }
            i = i + 1;
            proof {
                assert(r.deep_view() =~= files_of(self@.marked_for_deletion.take(i as int)));
            }
        }
        proof {
            assert(self@.marked_for_deletion.take(n as int) =~= self@.marked_for_deletion);
        }
        r
    }

    /// Closes a successful save: the files of removed keys having been
    /// erased, nothing is pending any more.
    pub fn finish_save(&mut self)
        requires
            old(self)@.wf(),
        ensures
            final(self)@ == old(self)@.with_marked(Seq::<KeyView>::empty()),
            final(self)@.wf(),
    {
        self.marked_for_deletion.clear();
        proof {
            assert(self@.marked_for_deletion =~= Seq::<KeyView>::empty());
            assert(self@ =~= old(self)@.with_marked(Seq::<KeyView>::empty()));
        }
    }
}

/// Adding a fresh name extends the registry's map by exactly that key:
/// every old key is still there under its name, the new one is there under
/// its, and nothing else is.
pub proof fn lemma_add_key_map(v: StorageView, nk: KeyView)
    requires
        v.wf(),
        !v.has_name(nk.name),
    ensures
        v.with_keys(v.keys.push(nk)).key_map() == v.key_map().insert(nk.name, nk),
        v.with_keys(v.keys.push(nk)).wf(),
{
    let w = v.with_keys(v.keys.push(nk));
    let l = v.keys.len() as int;
    assert(w.keys[l] == nk);
    assert forall|i: int, j: int|
        0 <= i < j < w.keys.len() implies w.keys[i].name != w.keys[j].name by {
        if j == l {
            assert(v.keys[i].name != nk.name);
        }
    }
    assert forall|n: Seq<char>| #[trigger] w.has_name(n) implies v.has_name(n) || n
        == nk.name by {
        let i = choose|i: int| 0 <= i < w.keys.len() && w.keys[i].name == n;
        if i < l {
            assert(v.keys[i].name == n);
        }
    }
    assert forall|n: Seq<char>| #[trigger] v.has_name(n) implies w.has_name(n) by {
        let i = choose|i: int| 0 <= i < v.keys.len() && v.keys[i].name == n;
        assert(w.keys[i].name == n);
    }
    assert(w.has_name(nk.name));
    assert forall|n: Seq<char>| #[trigger] w.has_name(n) && n != nk.name implies w.key_named(n)
        == v.key_named(n) by {
        let i = w.idx_of(n);
        assert(0 <= i < w.keys.len() && w.keys[i].name == n);
        assert(i != l);
        let j = v.idx_of(n);
        assert(0 <= j < v.keys.len() && v.keys[j].name == n);
        assert(w.keys[j].name == n);
        if i != j {
            assert(w.keys[i].name != w.keys[j].name);
        }
    }
    assert(w.key_named(nk.name) == nk) by {
        let i = w.idx_of(nk.name);
        assert(0 <= i < w.keys.len() && w.keys[i].name == nk.name);
        if i != l {
            assert(w.keys[i].name != w.keys[l].name);
        }
    }
    match v.active_key_name {
        Some(a) => {
            assert(v.has_name(a));
        },
        None => {},
    }
    assert(w.key_map() =~= v.key_map().insert(nk.name, nk));
}

/// Removing the active key clears the active pointer, drops the name from
/// the registry, and parks the key's files for erasure at the next save.
pub proof fn lemma_remove_active_then_save(v: StorageView, n: Seq<char>)
    requires
        v.wf(),
        v.active_key_name == Some(n),
    ensures
        ({
            let removed = v.key_named(n);
            let after = v.with_keys(v.keys.remove(v.idx_of(n))).with_marked(
                v.marked_for_deletion.push(removed),
            ).with_active(None);
            &&& after.active() is None
            &&& !after.has_name(n)
            &&& (removed.private_key_path matches Some(p) ==> files_of(
                after.marked_for_deletion,
            ).contains(p))
            &&& (removed.public_key_path matches Some(p) ==> files_of(
                after.marked_for_deletion,
            ).contains(p))
        }),
{
    let i = v.idx_of(n);
    let removed = v.key_named(n);
    let after = v.with_keys(v.keys.remove(i)).with_marked(
        v.marked_for_deletion.push(removed),
    ).with_active(None);
    assert(v.has_name(n));
    assert(0 <= i < v.keys.len() && v.keys[i].name == n);
    assert forall|j: int| 0 <= j < after.keys.len() implies after.keys[j].name != n by {
        let j0 = if j < i {
            j
        } else {
            j + 1
        };
        assert(after.keys[j] == v.keys[j0]);
        if j0 != i {
            assert(v.keys[if j0 < i {
                j0
            } else {
                i
            }].name != v.keys[if j0 < i {
                i
            } else {
                j0
            }].name);
        }
    }
    let m = after.marked_for_deletion;
    assert(m.drop_last() =~= v.marked_for_deletion);
    assert(m.last() == removed);
    assert(files_of(m) == files_of(v.marked_for_deletion) + key_files(removed));
    match removed.private_key_path {
        Some(p) => {
            assert(key_files(removed)[0] == p);
            assert(files_of(m)[files_of(v.marked_for_deletion).len() as int] == p);
        },
        None => {},
    }
    match removed.public_key_path {
        Some(p) => {
            let off = files_of(v.marked_for_deletion).len() as int;
            if removed.private_key_path is Some {
                assert(key_files(removed)[1] == p);
                assert(files_of(m)[off + 1] == p);
            } else {
                assert(key_files(removed)[0] == p);
                assert(files_of(m)[off] == p);
            }
        },
        None => {},
    }
}

/// After a use of `n` succeeds, the active key is the key called `n`, and
/// the symlink it requests points the fixed SSH name at that key's managed
/// private-key path.
pub proof fn lemma_use_links_active(v: StorageView, n: Seq<char>, ssh: Seq<char>)
    requires
        v.wf(),
        v.has_name(n),
    ensures
        v.with_active(Some(n)).active() == Some(v.key_named(n)),
        (v.key_named(n).private_key_path matches Some(p) ==> link_request(v.key_named(n), ssh)
            == Some((p, ssh + "/"@ + crate::paths::DEFAULT_SSH_KEY_NAME@))),
{
}

/// A rename keeps the key's managed path exactly — no file moves — and when
/// the renamed key was active, the active key afterwards is the renamed one.
pub proof fn lemma_rename_preserves_path(v: StorageView, old_n: Seq<char>, new_n: Seq<char>)
    requires
        v.wf(),
        v.has_name(old_n),
    ensures
        ({
            let i = v.idx_of(old_n);
            let renamed = KeyView {
                original_path: v.keys[i].original_path,
                private_key_path: v.keys[i].private_key_path,
                public_key_path: v.keys[i].public_key_path,
                name: new_n,
            };
            let after = v.with_keys(
                seq_remove_named(v.keys.remove(i), new_n).push(renamed),
            ).with_active(
                if v.active_key_name == Some(old_n) {
                    Some(new_n)
                } else {
                    v.active_key_name
                },
            );
            &&& renamed.private_key_path == v.key_named(old_n).private_key_path
            &&& after.has_name(new_n)
            &&& after.key_named(new_n) == renamed
            &&& (v.active_key_name == Some(old_n) ==> after.active() == Some(renamed))
        }),
{
    let i = v.idx_of(old_n);
    assert(0 <= i < v.keys.len() && v.keys[i].name == old_n);
    let renamed = KeyView {
        original_path: v.keys[i].original_path,
        private_key_path: v.keys[i].private_key_path,
        public_key_path: v.keys[i].public_key_path,
        name: new_n,
    };
    let mid = v.keys.remove(i);
    lemma_remove_keeps_unique(v.keys, i);
    let trimmed = seq_remove_named(mid, new_n);
    let ks = trimmed.push(renamed);
    let l = trimmed.len() as int;
    assert(ks[l] == renamed);
    let after = v.with_keys(ks).with_active(
        if v.active_key_name == Some(old_n) {
            Some(new_n)
        } else {
            v.active_key_name
        },
    );
    assert(after.has_name(new_n));
    assert forall|u: int| 0 <= u < l implies trimmed[u].name != new_n by {
        if exists|w: int| 0 <= w < mid.len() && mid[w].name == new_n {
            let w = choose|w: int| 0 <= w < mid.len() && mid[w].name == new_n;
            let u0 = if u < w {
                u
            } else {
                u + 1
            };
            assert(trimmed[u] == mid[u0]);
            if mid[u0].name == new_n && u0 != w {
                assert(mid[if u0 < w {
                    u0
                } else {
                    w
                }].name != mid[if u0 < w {
                    w
                } else {
                    u0
                }].name);
            }
        }
    }
    assert(after.key_named(new_n) == renamed) by {
        let j = after.idx_of(new_n);
        assert(0 <= j < ks.len() && ks[j].name == new_n);
        if j < l {
            assert(trimmed[j].name != new_n);
        }
    }
}

/// An empty registry, as [`SshKeyStorage::new`] builds it.
impl Default for SshKeyStorage {
    fn default() -> (r: Self)
        ensures
            r@.keys == Seq::<KeyView>::empty(),
            r@.marked_for_deletion == Seq::<KeyView>::empty(),
            r@.active_key_name is None,
            r@.file_name == crate::paths::DEFAULT_JSON_FILE@,
            r@.wf(),
    {
        Self::new()
    }
}

} // verus!
