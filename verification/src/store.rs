//! The store: an in-memory index over a directory of profile files.
//!
//! The index is rebuilt from a directory scan on every `sync` call:
//! callers pass the scan entries and the active-config file's bytes as
//! plain values, and the store computes digests, enforces name and
//! content uniqueness, and keeps the listing sorted ascending by name.
//! Operations that touch the filesystem (writing an imported file,
//! copying a profile over the active path, deleting a backing file) are
//! decided here and carried out by the caller with the paths returned.

use vstd::prelude::*;
use vstd::string::StrSliceExecFns;

use crate::config::{lex_lt, ConfigView, KubeConfig};
use crate::config::{lemma_lex_lt_irrefl, lemma_lex_lt_trans, lemma_lex_lt_trichotomy, str_lex_lt};
use crate::digest::{sha256_hex, sha256_hex_of};
use crate::errors::KubenvError;
use crate::index::{index_clear, index_contents, index_get, index_insert, index_new, ConfigIndex};
use crate::paths::{get_default_kube_dir, get_default_kubenv_dir, join_path};

verus! {

/// The mathematical content of one directory-scan entry.
pub ghost struct ScanEntryView {
    pub file_name: Seq<char>,
    pub is_file: bool,
    pub content: Option<Seq<u8>>,
}

/// One entry of a directory scan, as the caller observed it: the plain
/// file name, whether the entry is a regular file, and the file's bytes
/// (`None` when they could not be read).
pub struct ScanEntry {
    pub file_name: String,
    pub is_file: bool,
    pub content: Option<Vec<u8>>,
}

impl View for ScanEntry {
    type V = ScanEntryView;

    open spec fn view(&self) -> ScanEntryView {
        ScanEntryView {
            file_name: self.file_name@,
            is_file: self.is_file,
            content: match self.content {
                Some(b) => Some(b@),
                None => None,
            },
        }
    }
}

/// The suffix that marks a file in the profile directory as managed.
pub open spec fn kc_suffix() -> Seq<char> {
    ".kubeconfig"@
}

/// Whether a file name ends in the managed suffix.
pub open spec fn has_kc_suffix(s: Seq<char>) -> bool {
    s.len() >= kc_suffix().len() && s.skip(s.len() - kc_suffix().len()) == kc_suffix()
}

/// The file name with the managed suffix stripped: the profile's name.
pub open spec fn stripped(s: Seq<char>) -> Seq<char> {
    s.take(s.len() - kc_suffix().len())
}

/// Whether a scan entry survives the scan's skip rules: a regular file,
/// readable, carrying the managed suffix.
pub open spec fn entry_selected(e: ScanEntryView) -> bool {
    e.is_file && e.content is Some && has_kc_suffix(e.file_name)
}

/// The digest of a (readable) scan entry's content.
pub open spec fn entry_digest(e: ScanEntryView) -> Seq<char> {
    sha256_hex_of(e.content->0)
}

/// The profile a selected scan entry becomes, inside profile
/// directory `dir`.
pub open spec fn entry_config(e: ScanEntryView, dir: Seq<char>) -> ConfigView {
    ConfigView {
        name: stripped(e.file_name),
        path: dir + "/"@ + e.file_name,
        hash: entry_digest(e),
    }
}

/// The views of a sequence of scan entries.
pub open spec fn entry_views(s: Seq<ScanEntry>) -> Seq<ScanEntryView> {
    Seq::new(s.len(), |i: int| s[i]@)
}

/// Whether some profile in `s` carries name `n`.
pub open spec fn contains_name(s: Seq<ConfigView>, n: Seq<char>) -> bool {
    exists|i: int| 0 <= i < s.len() && s[i].name == n
}

/// Whether some profile in `s` carries digest `h`.
pub open spec fn contains_hash(s: Seq<ConfigView>, h: Seq<char>) -> bool {
    exists|i: int| 0 <= i < s.len() && s[i].hash == h
}

/// Profiles sorted ascending by name, in the order of `lex_lt`.
pub open spec fn sorted_by_name(s: Seq<ConfigView>) -> bool {
    forall|i: int, j: int| 0 <= i < j < s.len() ==> lex_lt(s[i].name, s[j].name)
}

/// No two profiles share a content digest.
pub open spec fn unique_hashes(s: Seq<ConfigView>) -> bool {
    forall|i: int, j: int| 0 <= i < j < s.len() ==> s[i].hash != s[j].hash
}

/// `c` placed into `s` at its sorted position, scanning from the tail.
pub open spec fn sorted_insert(s: Seq<ConfigView>, c: ConfigView) -> Seq<ConfigView>
    decreases s.len(),
{
    if s.len() == 0 {
        seq![c]
    } else if lex_lt(c.name, s.last().name) {
        sorted_insert(s.drop_last(), c).push(s.last())
    } else {
        s.push(c)
    }
}

/// What one synchronization pass builds from a directory scan: each
/// selected entry in turn, inserted in sorted position, unless a
/// profile already indexed carries its name or its digest (first seen
/// wins; a duplicate is silently dropped).
pub open spec fn scan_result(entries: Seq<ScanEntryView>, dir: Seq<char>) -> Seq<ConfigView>
    decreases entries.len(),
{
    if entries.len() == 0 {
        Seq::empty()
    } else {
        let prev = scan_result(entries.drop_last(), dir);
        let e = entries.last();
        if entry_selected(e) && !contains_name(prev, stripped(e.file_name)) && !contains_hash(
            prev,
            entry_digest(e),
        ) {
            sorted_insert(prev, entry_config(e, dir))
        } else {
            prev
        }
    }
}

/// Whether `s` holds the profile `c`.
pub open spec fn contains_config(s: Seq<ConfigView>, c: ConfigView) -> bool {
    exists|i: int| 0 <= i < s.len() && s[i] == c
}

/// The profile of `s` carrying name `n` (meaningful when
/// `contains_name(s, n)` holds and names are unique).
pub open spec fn profile_named(s: Seq<ConfigView>, n: Seq<char>) -> ConfigView {
    s[choose|i: int| 0 <= i < s.len() && s[i].name == n]
}

/// Whether a lookup index holds exactly the profiles of `s`, keyed by
/// the field `key` selects.
pub open spec fn indexes(
    m: Map<Seq<char>, ConfigView>,
    s: Seq<ConfigView>,
    key: spec_fn(ConfigView) -> Seq<char>,
) -> bool {
    &&& forall|i: int|
        0 <= i < s.len() ==> m.contains_key(#[trigger] key(s[i])) && m[key(s[i])] == s[i]
    &&& forall|k: Seq<char>|
        #[trigger] m.contains_key(k) ==> exists|i: int| 0 <= i < s.len() && key(s[i]) == k
}

/// Placing `c` at position `k` is the sorted tail-scan insertion, when
/// everything at or after `k` is greater and the element before `k`,
/// if any, is not.
proof fn lemma_sorted_insert_at(s: Seq<ConfigView>, c: ConfigView, k: int)
    requires
        0 <= k <= s.len(),
        forall|j: int| k <= j < s.len() ==> lex_lt(c.name, s[j].name),
        k > 0 ==> !lex_lt(c.name, s[k - 1].name),
    ensures
        sorted_insert(s, c) == s.insert(k, c),
    decreases s.len(),
{
    if k == s.len() {
        if s.len() == 0 {
            assert(sorted_insert(s, c) =~= s.insert(k, c));
        } else {
            assert(!lex_lt(c.name, s.last().name));
            assert(s.push(c) =~= s.insert(k, c));
        }
    } else {
        assert(lex_lt(c.name, s.last().name));
        assert(forall|j: int| k <= j < s.drop_last().len() ==> lex_lt(
            c.name,
            #[trigger] s.drop_last()[j].name,
        ));
        lemma_sorted_insert_at(s.drop_last(), c, k);
        assert(sorted_insert(s.drop_last(), c).push(s.last()) =~= s.insert(k, c));
    }
}

/// What a successful import decides: the resolved profile name, and
/// the path inside the profile directory where the caller persists the
/// imported bytes.
#[derive(Debug)]
pub struct ImportOutcome {
    pub name: String,
    pub path: String,
}

/// The store, bound to a base directory (whose `config` file is the
/// active configuration) and a profile directory.
pub struct KubEnv {
    kube_dir: String,
    kubenv_dir: String,
    current_digest: Option<String>,
    configs: Vec<KubeConfig>,
    configs_by_name: ConfigIndex,
    configs_by_hash: ConfigIndex,
}

impl KubEnv {
    /// The indexed profiles, in listing order.
    pub closed spec fn profiles(&self) -> Seq<ConfigView> {
        Seq::new(self.configs@.len(), |i: int| self.configs@[i]@)
    }

    /// The digest of the active configuration, as of the last `sync`.
    pub closed spec fn current(&self) -> Option<Seq<char>> {
        match self.current_digest {
            Some(h) => Some(h@),
            None => None,
        }
    }

    /// The base directory: `<base>/config` is the active configuration.
    pub closed spec fn kube_dir_spec(&self) -> Seq<char> {
        self.kube_dir@
    }

    /// The profile directory.
    pub closed spec fn kubenv_dir_spec(&self) -> Seq<char> {
        self.kubenv_dir@
    }

    /// The store's invariant: the listing is sorted ascending by name
    /// (names are therefore unique), digests are unique, and the two
    /// lookup indexes hold exactly the listed profiles.
    pub closed spec fn wf(&self) -> bool {
        &&& sorted_by_name(self.profiles())
        &&& unique_hashes(self.profiles())
        &&& indexes(
            index_contents(self.configs_by_name),
            self.profiles(),
            |c: ConfigView| c.name,
        )
        &&& indexes(
            index_contents(self.configs_by_hash),
            self.profiles(),
            |c: ConfigView| c.hash,
        )
    }

    /// Builds a store bound to the given directories; a missing
    /// directory defaults to a path under the user's home. The
    /// filesystem is not touched; the index starts empty.
    pub fn new(kubenv_dir: Option<String>, kube_dir: Option<String>) -> (r: Result<
        Self,
        KubenvError,
    >)
        ensures
            match r {
                Ok(st) => {
                    &&& st.wf()
                    &&& st.profiles() == Seq::<ConfigView>::empty()
                    &&& st.current() is None
                    &&& (kube_dir is Some ==> st.kube_dir_spec() == kube_dir->0@)
                    &&& (kube_dir is None ==> exists|h: Seq<char>|
                        st.kube_dir_spec() == h + "/.kube"@)
                    &&& (kubenv_dir is Some ==> st.kubenv_dir_spec() == kubenv_dir->0@)
                    &&& (kubenv_dir is None ==> exists|h: Seq<char>|
                        st.kubenv_dir_spec() == h + "/.kube/kubenv"@)
                },
                Err(e) => e == KubenvError::DirectoryResolution && (kube_dir is None || kubenv_dir
                    is None),
            },
    {
        let kube_dir = match kube_dir {
            Some(p) => p,
            None => match get_default_kube_dir() {
                Ok(p) => p,
                Err(e) => { return Err(e); },
            },
        };
        let kubenv_dir = match kubenv_dir {
            Some(p) => p,
            None => match get_default_kubenv_dir() {
                Ok(p) => p,
                Err(e) => { return Err(e); },
            },
        };
        let st = KubEnv {
            kube_dir,
            kubenv_dir,
            current_digest: None,
            configs: Vec::new(),
            configs_by_name: index_new(),
            configs_by_hash: index_new(),
        };
        proof {
            assert(st.profiles() =~= Seq::<ConfigView>::empty());
        }
        Ok(st)
    }

    /// The indexed profiles, in ascending name order. A pure read.
    pub fn configs(&self) -> (r: Vec<&KubeConfig>)
        ensures
            r@.len() == self.profiles().len(),
            forall|i: int| 0 <= i < r@.len() ==> r@[i]@ == self.profiles()[i],
    {
        let mut v: Vec<&KubeConfig> = Vec::new();
        let mut i: usize = 0;
        while i < self.configs.len()
            invariant
                i <= self.configs.len(),
                v@.len() == i,
                forall|j: int| 0 <= j < i ==> v@[j]@ == self.profiles()[j],
            decreases self.configs.len() - i,
        {
            v.push(&self.configs[i]);
            i = i + 1;
        }
        v
    }

    /// The path of the active-config file, `<base>/config`.
    pub fn active_config_path(&self) -> (r: String)
        ensures
            r@ == self.kube_dir_spec() + "/"@ + "config"@,
    {
        join_path(self.kube_dir.as_str(), "config")
    }

    /// The profile directory's path.
    pub fn profile_dir(&self) -> (r: &str)
        ensures
            r@ == self.kubenv_dir_spec(),
    {
        self.kubenv_dir.as_str()
    }

    /// Looks a profile up by name.
    fn get_config_by_name<'a>(&'a self, name: &str) -> (r: Option<&'a KubeConfig>)
        requires
            self.wf(),
        ensures
            match r {
                Some(c) => contains_name(self.profiles(), name@) && c@.name == name@ && exists|
                    i: int,
                | 0 <= i < self.profiles().len() && self.profiles()[i] == c@,
                None => !contains_name(self.profiles(), name@),
            },
    {
        let r = index_get(&self.configs_by_name, name);
        proof {
            let key = |c: ConfigView| c.name;
            match r {
                Some(c) => {
                    let m = index_contents(self.configs_by_name);
                    let i = choose|i: int|
                        0 <= i < self.profiles().len() && key(self.profiles()[i]) == name@;
                    assert(m.contains_key(key(self.profiles()[i])));
                    assert(self.profiles()[i] == c@);
                },
                None => {
                    assert forall|i: int| 0 <= i < self.profiles().len() implies self.profiles()[i].name
                        != name@ by {
                        assert(index_contents(self.configs_by_name).contains_key(
                            key(self.profiles()[i]),
                        ));
                    }
                },
            }
        }
        r
    }

    /// Looks a profile up by content digest.
    fn get_config_by_hash<'a>(&'a self, hash: &str) -> (r: Option<&'a KubeConfig>)
        requires
            self.wf(),
        ensures
            match r {
                Some(c) => contains_hash(self.profiles(), hash@) && c@.hash == hash@ && exists|
                    i: int,
                | 0 <= i < self.profiles().len() && self.profiles()[i] == c@,
                None => !contains_hash(self.profiles(), hash@),
            },
    {
        let r = index_get(&self.configs_by_hash, hash);
        proof {
            let key = |c: ConfigView| c.hash;
            match r {
                Some(c) => {
                    let m = index_contents(self.configs_by_hash);
                    let i = choose|i: int|
                        0 <= i < self.profiles().len() && key(self.profiles()[i]) == hash@;
                    assert(m.contains_key(key(self.profiles()[i])));
                    assert(self.profiles()[i] == c@);
                },
                None => {
                    assert forall|i: int| 0 <= i < self.profiles().len() implies self.profiles()[i].hash
                        != hash@ by {
                        assert(index_contents(self.configs_by_hash).contains_key(
                            key(self.profiles()[i]),
                        ));
                    }
                },
            }
        }
        r
    }

    /// The profile matching the active configuration's last-synced
    /// digest, if the digest is known and some profile matches it.
    pub fn current_config(&self) -> (r: Option<&KubeConfig>)
        requires
            self.wf(),
        ensures
            match r {
                Some(c) => self.current() is Some && c@.hash == self.current()->0 && exists|i: int|
                    0 <= i < self.profiles().len() && self.profiles()[i] == c@,
                None => self.current() is None || !contains_hash(
                    self.profiles(),
                    self.current()->0,
                ),
            },
    {
        match &self.current_digest {
            Some(h) => self.get_config_by_hash(h.as_str()),
            None => None,
        }
    }

    /// Inserts a profile into the index at its sorted position, unless
    /// a profile with the same name or the same digest is already
    /// indexed; a duplicate leaves the store unchanged.
    fn add(&mut self, kubeconfig: KubeConfig) -> (r: Result<(), KubenvError>)
        requires
            old(self).wf(),
        ensures
            final(self).wf(),
            final(self).kube_dir_spec() == old(self).kube_dir_spec(),
            final(self).kubenv_dir_spec() == old(self).kubenv_dir_spec(),
            final(self).current() == old(self).current(),
            match r {
                Ok(_) => {
                    &&& !contains_name(old(self).profiles(), kubeconfig@.name)
                    &&& !contains_hash(old(self).profiles(), kubeconfig@.hash)
                    &&& final(self).profiles() == sorted_insert(old(self).profiles(), kubeconfig@)
                },
                Err(e) => {
                    &&& *final(self) == *old(self)
                    &&& (e == KubenvError::DuplicateName ==> contains_name(
                        old(self).profiles(),
                        kubeconfig@.name,
                    ))
                    &&& (e == KubenvError::DuplicateContent ==> !contains_name(
                        old(self).profiles(),
                        kubeconfig@.name,
                    ) && contains_hash(old(self).profiles(), kubeconfig@.hash))
                    &&& (e == KubenvError::DuplicateName || e == KubenvError::DuplicateContent)
                },
            },
    {
        if self.get_config_by_name(kubeconfig.name()).is_some() {
            return Err(KubenvError::DuplicateName);
        }
        if self.get_config_by_hash(kubeconfig.hash()).is_some() {
            return Err(KubenvError::DuplicateContent);
        }
        let ghost old_ps = self.profiles();
        let len = self.configs.len();
        let mut index: usize = len;
        loop
            invariant
                index <= len,
                len == self.configs.len(),
                old_ps == self.profiles(),
                forall|j: int| index <= j < len ==> lex_lt(
                    kubeconfig@.name,
                    #[trigger] old_ps[j].name,
                ),
            ensures
                index <= len,
                forall|j: int| index <= j < len ==> lex_lt(
                    kubeconfig@.name,
                    #[trigger] old_ps[j].name,
                ),
                index > 0 ==> !lex_lt(kubeconfig@.name, old_ps[index - 1].name),
            decreases index,
        {
            if index == 0 {
                break ;
            }
            let prev_lt = str_lex_lt(kubeconfig.name(), self.configs[index - 1].name());
            if !prev_lt {
                break ;
            }
            index = index - 1;
        }
        proof {
            // everything before the insertion point is strictly smaller
            assert forall|j: int| 0 <= j < index implies lex_lt(
                #[trigger] old_ps[j].name,
                kubeconfig@.name,
            ) by {
                assert(old_ps[index - 1].name != kubeconfig@.name);
                lemma_lex_lt_trichotomy(old_ps[index - 1].name, kubeconfig@.name);
                if j < index - 1 {
                    lemma_lex_lt_trans(old_ps[j].name, old_ps[index - 1].name, kubeconfig@.name);
                }
            }
            lemma_sorted_insert_at(old_ps, kubeconfig@, index as int);
            old_ps.insert_ensures(index as int, kubeconfig@);
        }
        self.configs.insert(index, kubeconfig.clone());
        index_insert(&mut self.configs_by_name, kubeconfig.name().to_owned(), kubeconfig.clone());
        index_insert(&mut self.configs_by_hash, kubeconfig.hash().to_owned(), kubeconfig.clone());
        proof {
            let kc = kubeconfig@;
            let k = index as int;
            let new_ps = self.profiles();
            assert(new_ps =~= old_ps.insert(k, kc));
            // the listing stays sorted
            assert forall|i: int, j: int| 0 <= i < j < new_ps.len() implies lex_lt(
                new_ps[i].name,
                new_ps[j].name,
            ) by {
                if i == k {
                    assert(new_ps[j] == old_ps[j - 1]);
                } else if j == k {
                    assert(new_ps[i] == old_ps[i]);
                } else if i < k && j > k {
                    assert(new_ps[i] == old_ps[i] && new_ps[j] == old_ps[j - 1]);
                    lemma_lex_lt_trans(old_ps[i].name, kc.name, old_ps[j - 1].name);
                }
            }
            // digests stay unique
            assert forall|i: int, j: int| 0 <= i < j < new_ps.len() implies new_ps[i].hash
                != new_ps[j].hash by {
                if i == k {
                    assert(new_ps[j] == old_ps[j - 1]);
                } else if j == k {
                    assert(new_ps[i] == old_ps[i]);
                }
            }
            // both lookup indexes track the new listing
            let key_n = |c: ConfigView| c.name;
            let key_h = |c: ConfigView| c.hash;
            let m_n = index_contents(self.configs_by_name);
            let m_h = index_contents(self.configs_by_hash);
            assert forall|i: int| 0 <= i < new_ps.len() implies m_n.contains_key(
                #[trigger] key_n(new_ps[i]),
            ) && m_n[key_n(new_ps[i])] == new_ps[i] by {
                if i != k {
                    let iold: int = if i < k { i } else { i - 1 };
                    assert(new_ps[i] == old_ps[iold]);
                    assert(old_ps[iold].name != kc.name);
                }
            }
            assert forall|key: Seq<char>| #[trigger] m_n.contains_key(key) implies exists|i: int|
                0 <= i < new_ps.len() && key_n(new_ps[i]) == key by {
                if key == kc.name {
                    assert(key_n(new_ps[k]) == key);
                } else {
                    let iold = choose|iold: int|
                        0 <= iold < old_ps.len() && key_n(old_ps[iold]) == key;
                    let i: int = if iold < k { iold } else { iold + 1 };
                    assert(new_ps[i] == old_ps[iold]);
                    assert(key_n(new_ps[i]) == key);
                }
            }
            assert forall|i: int| 0 <= i < new_ps.len() implies m_h.contains_key(
                #[trigger] key_h(new_ps[i]),
            ) && m_h[key_h(new_ps[i])] == new_ps[i] by {
                if i != k {
                    let iold: int = if i < k { i } else { i - 1 };
                    assert(new_ps[i] == old_ps[iold]);
                    assert(old_ps[iold].hash != kc.hash);
                }
            }
            assert forall|key: Seq<char>| #[trigger] m_h.contains_key(key) implies exists|i: int|
                0 <= i < new_ps.len() && key_h(new_ps[i]) == key by {
                if key == kc.hash {
                    assert(key_h(new_ps[k]) == key);
                } else {
                    let iold = choose|iold: int|
                        0 <= iold < old_ps.len() && key_h(old_ps[iold]) == key;
                    let i: int = if iold < k { iold } else { iold + 1 };
                    assert(new_ps[i] == old_ps[iold]);
                    assert(key_h(new_ps[i]) == key);
                }
            }
        }
        Ok(())
    }

    /// Rebuilds the index from a directory scan: the prior index is
    /// discarded, each selected entry is inserted in sorted position
    /// (a duplicate name or digest is silently dropped, first seen
    /// wins), and the active configuration's digest is re-resolved from
    /// the active-config file's bytes (`None` when that file is missing
    /// or unreadable: no current configuration is then known).
    ///
    /// Which of two conflicting entries survives depends on the order
    /// of `entries`, which the caller takes from the filesystem's
    /// enumeration; that order is a known non-determinism. The final
    /// listing is sorted by name whatever the order.
    pub fn sync(&mut self, entries: Vec<ScanEntry>, active_content: Option<Vec<u8>>)
        ensures
            final(self).wf(),
            final(self).kube_dir_spec() == old(self).kube_dir_spec(),
            final(self).kubenv_dir_spec() == old(self).kubenv_dir_spec(),
            final(self).profiles() == scan_result(
                entry_views(entries@),
                old(self).kubenv_dir_spec(),
            ),
            active_content is Some ==> final(self).current() == Some(
                sha256_hex_of(active_content->0@),
            ),
            active_content is None ==> final(self).current() is None,
    {
        self.configs.clear();
        index_clear(&mut self.configs_by_name);
        index_clear(&mut self.configs_by_hash);
        let ghost dir = self.kubenv_dir@;
        let ghost kube0 = self.kube_dir@;
        let ghost evs = entry_views(entries@);
        proof {
            assert(self.profiles() =~= Seq::<ConfigView>::empty());
            assert(evs.take(0) =~= Seq::<ScanEntryView>::empty());
        }
        let mut idx: usize = 0;
        while idx < entries.len()
            invariant
                idx <= entries.len(),
                evs == entry_views(entries@),
                self.wf(),
                self.kube_dir@ == kube0,
                self.kubenv_dir@ == dir,
                self.profiles() == scan_result(evs.take(idx as int), dir),
            decreases entries.len() - idx,
        {
            let ghost prev = self.profiles();
            let e = &entries[idx];
            proof {
                assert(evs.take(idx + 1).drop_last() =~= evs.take(idx as int));
                assert(evs.take(idx + 1).last() == evs[idx as int]);
                assert(evs[idx as int] == entries@[idx as int]@);
            }
            if e.is_file {
                match &e.content {
                    Some(bytes) => {
                        let flen = e.file_name.as_str().unicode_len();
                        proof {
                            reveal_strlit(".kubeconfig");
                        }
                        if flen >= 11 {
                            let tail = e.file_name.as_str().substring_char(flen - 11, flen);
                            proof {
                                assert(tail@ =~= e.file_name@.skip(flen - 11));
                            }
                            let is_managed = tail.to_owned() == ".kubeconfig".to_owned();
                            if is_managed {
                                let name = e.file_name.as_str().substring_char(
                                    0,
                                    flen - 11,
                                ).to_owned();
                                let hash = sha256_hex(bytes.as_slice());
                                let path = join_path(
                                    self.kubenv_dir.as_str(),
                                    e.file_name.as_str(),
                                );
                                let kc = KubeConfig::new(path, hash, Some(name));
                                proof {
                                    assert(entry_selected(evs[idx as int]));
                                    assert(kc@.name =~= stripped(evs[idx as int].file_name));
                                    assert(kc@ == entry_config(evs[idx as int], dir));
                                }
                                let added = self.add(kc);
                                proof {
                                    assert(self.profiles() == scan_result(evs.take(idx + 1), dir));
                                }
                            } else {
                                proof {
                                    assert(!has_kc_suffix(evs[idx as int].file_name));
                                    assert(!entry_selected(evs[idx as int]));
                                }
                            }
                        } else {
                            proof {
                                assert(!has_kc_suffix(evs[idx as int].file_name));
                                assert(!entry_selected(evs[idx as int]));
                            }
                        }
                    },
                    None => {
                        proof {
                            assert(!entry_selected(evs[idx as int]));
                        }
                    },
                }
            } else {
                proof {
                    assert(!entry_selected(evs[idx as int]));
                }
            }
            idx = idx + 1;
        }
        proof {
            assert(evs.take(entries@.len() as int) =~= evs);
        }
        match active_content {
            Some(bytes) => {
                self.current_digest = Some(sha256_hex(bytes.as_slice()));
            },
            None => {
                self.current_digest = None;
            },
        }
    }

    /// Decides an import: rejects content whose digest is already
    /// indexed, then an explicit name already taken; otherwise resolves
    /// the final name (the digest itself when none was given) and the
    /// file path to write. The index is not updated: a following `sync`
    /// discovers the written file.
    pub fn set_content(&self, name: Option<String>, content: &[u8]) -> (r: Result<
        ImportOutcome,
        KubenvError,
    >)
        requires
            self.wf(),
        ensures
            match r {
                Ok(out) => {
                    &&& !contains_hash(self.profiles(), sha256_hex_of(content@))
                    &&& (name is Some ==> !contains_name(self.profiles(), name->0@) && out.name@
                        == name->0@)
                    &&& (name is None ==> out.name@ == sha256_hex_of(content@))
                    &&& out.path@ == self.kubenv_dir_spec() + "/"@ + out.name@ + kc_suffix()
                },
                Err(e) => {
                    &&& (e == KubenvError::DuplicateContent <==> contains_hash(
                        self.profiles(),
                        sha256_hex_of(content@),
                    ))
                    &&& (e == KubenvError::DuplicateName ==> name is Some && contains_name(
                        self.profiles(),
                        name->0@,
                    ))
                    &&& (e == KubenvError::DuplicateContent || e == KubenvError::DuplicateName)
                },
            },
    {
        let hash = sha256_hex(content);
        if self.get_config_by_hash(hash.as_str()).is_some() {
            return Err(KubenvError::DuplicateContent);
        }
        let final_name: String = match name {
            Some(n) => {
                if self.get_config_by_name(n.as_str()).is_some() {
                    return Err(KubenvError::DuplicateName);
                }
                n
            },
            None => hash,
        };
        let mut file_name = final_name.clone();
        file_name.append(".kubeconfig");
        let path = join_path(self.kubenv_dir.as_str(), file_name.as_str());
        proof {
            assert(path@ =~= self.kubenv_dir@ + "/"@ + final_name@ + kc_suffix());
        }
        Ok(ImportOutcome { name: final_name, path })
    }

    /// Decides an activation: looks the profile up by name, and rejects
    /// it when the active-config file's bytes (passed by the caller;
    /// `None` when that file is missing or unreadable) already carry the
    /// profile's digest. Otherwise returns the path of the profile's
    /// backing file, for the caller to copy over the active-config path.
    pub fn apply(&self, name: &str, active_content: Option<&[u8]>) -> (r: Result<
        String,
        KubenvError,
    >)
        requires
            self.wf(),
        ensures
            match r {
                Ok(path) => exists|i: int|
                    0 <= i < self.profiles().len() && (#[trigger] self.profiles()[i]).name == name@
                        && self.profiles()[i].path == path@ && (active_content is Some
                        ==> self.profiles()[i].hash != sha256_hex_of(active_content->0@)),
                Err(e) => {
                    &&& (e == KubenvError::NotFound <==> !contains_name(self.profiles(), name@))
                    &&& (e == KubenvError::AlreadyApplied ==> active_content is Some && exists|
                        i: int,
                    |
                        0 <= i < self.profiles().len() && (#[trigger] self.profiles()[i]).name
                            == name@ && self.profiles()[i].hash == sha256_hex_of(
                            active_content->0@,
                        ))
                    &&& (e == KubenvError::NotFound || e == KubenvError::AlreadyApplied)
                },
            },
            // idempotence: applying the profile whose digest the active
            // configuration already carries always fails, and `apply`
            // reads the store and the active bytes without changing them
            contains_name(self.profiles(), name@) && active_content is Some && profile_named(
                self.profiles(),
                name@,
            ).hash == sha256_hex_of(active_content->0@) ==> r == Err::<
                String,
                KubenvError,
            >(KubenvError::AlreadyApplied),
    {
        let kubeconfig = match self.get_config_by_name(name) {
            Some(kc) => kc,
            None => { return Err(KubenvError::NotFound) },
        };
        proof {
            let s = self.profiles();
            let i0 = choose|i: int| 0 <= i < s.len() && s[i] == kubeconfig@;
            let ic = choose|i: int| 0 <= i < s.len() && s[i].name == name@;
            assert(s[ic].name == name@);
            if i0 != ic {
                lemma_lex_lt_irrefl(s[i0].name);
            }
            assert(profile_named(s, name@) == kubeconfig@);
        }
        match active_content {
            Some(bytes) => {
                let active_hash = sha256_hex(bytes);
                if kubeconfig.hash().to_owned() == active_hash {
                    return Err(KubenvError::AlreadyApplied);
                }
            },
            None => {},
        }
        Ok(kubeconfig.path().to_owned())
    }

    /// Decides a removal: looks the profile up by name and returns the
    /// path of its backing file, for the caller to delete. The index is
    /// not updated: a following `sync` observes the deletion.
    pub fn remove(&self, name: &str) -> (r: Result<String, KubenvError>)
        requires
            self.wf(),
        ensures
            match r {
                Ok(path) => exists|i: int|
                    0 <= i < self.profiles().len() && (#[trigger] self.profiles()[i]).name == name@
                        && self.profiles()[i].path == path@,
                Err(e) => e == KubenvError::NotFound && !contains_name(self.profiles(), name@),
            },
    {
        match self.get_config_by_name(name) {
            Some(kc) => Ok(kc.path().to_owned()),
            None => Err(KubenvError::NotFound),
        }
    }

    /// Looks a profile up by name for export: the returned profile's
    /// path is the backing file whose bytes the caller reads or streams
    /// out.
    pub fn get_content<'a>(&'a self, name: &str) -> (r: Result<&'a KubeConfig, KubenvError>)
        requires
            self.wf(),
        ensures
            match r {
                Ok(c) => c@.name == name@ && exists|i: int|
                    0 <= i < self.profiles().len() && self.profiles()[i] == c@,
                Err(e) => e == KubenvError::NotFound && !contains_name(self.profiles(), name@),
            },
    {
        match self.get_config_by_name(name) {
            Some(kc) => Ok(kc),
            None => Err(KubenvError::NotFound),
        }
    }
}

proof fn lemma_contains_push(t: Seq<ConfigView>, a: ConfigView, x: ConfigView)
    ensures
        contains_config(t.push(a), x) <==> (contains_config(t, x) || x == a),
{
    if contains_config(t.push(a), x) {
        let i = choose|i: int| 0 <= i < t.push(a).len() && t.push(a)[i] == x;
        if i < t.len() {
            assert(t[i] == x);
        }
    }
    if contains_config(t, x) {
        let i = choose|i: int| 0 <= i < t.len() && t[i] == x;
        assert(t.push(a)[i] == x);
    }
    if x == a {
        assert(t.push(a)[t.len() as int] == x);
    }
}

/// A sorted insertion holds exactly the old profiles and the new one.
proof fn lemma_sorted_insert_elems(s: Seq<ConfigView>, c: ConfigView, x: ConfigView)
    ensures
        contains_config(sorted_insert(s, c), x) <==> (contains_config(s, x) || x == c),
    decreases s.len(),
{
    if s.len() == 0 {
        if contains_config(sorted_insert(s, c), x) {
            assert(seq![c][0] == c);
        }
        if x == c {
            assert(sorted_insert(s, c)[0] == x);
        }
    } else if lex_lt(c.name, s.last().name) {
        lemma_sorted_insert_elems(s.drop_last(), c, x);
        lemma_contains_push(sorted_insert(s.drop_last(), c), s.last(), x);
        assert(s.drop_last().push(s.last()) =~= s);
        lemma_contains_push(s.drop_last(), s.last(), x);
    } else {
        lemma_contains_push(s, c, x);
    }
}

/// Every profile a scan builds stems from a selected scan entry: its
/// name is that entry's file name with the suffix stripped, its digest
/// the digest of that entry's bytes, its path that entry's file.
pub proof fn lemma_scan_result_sound(entries: Seq<ScanEntryView>, dir: Seq<char>, x: ConfigView)
    requires
        contains_config(scan_result(entries, dir), x),
    ensures
        exists|j: int|
            0 <= j < entries.len() && entry_selected(#[trigger] entries[j]) && x == entry_config(
                entries[j],
                dir,
            ),
    decreases entries.len(),
{
    if entries.len() == 0 {
        let i = choose|i: int|
            0 <= i < scan_result(entries, dir).len() && scan_result(entries, dir)[i] == x;
        assert(false);
    } else {
        let prev = scan_result(entries.drop_last(), dir);
        let e = entries.last();
        if entry_selected(e) && !contains_name(prev, stripped(e.file_name)) && !contains_hash(
            prev,
            entry_digest(e),
        ) {
            lemma_sorted_insert_elems(prev, entry_config(e, dir), x);
            if x == entry_config(e, dir) {
                assert(entries[entries.len() - 1] == e);
            } else {
                lemma_scan_result_sound(entries.drop_last(), dir, x);
                let j = choose|j: int|
                    0 <= j < entries.drop_last().len() && entry_selected(
                        #[trigger] entries.drop_last()[j],
                    ) && x == entry_config(entries.drop_last()[j], dir);
                assert(entries[j] == entries.drop_last()[j]);
            }
        } else {
            lemma_scan_result_sound(entries.drop_last(), dir, x);
            let j = choose|j: int|
                0 <= j < entries.drop_last().len() && entry_selected(
                    #[trigger] entries.drop_last()[j],
                ) && x == entry_config(entries.drop_last()[j], dir);
            assert(entries[j] == entries.drop_last()[j]);
        }
    }
}

/// A profile whose backing file is gone from the scan no longer
/// appears: a name carried by no selected entry is not in the rebuilt
/// listing.
pub proof fn lemma_sync_drops_deleted(entries: Seq<ScanEntryView>, dir: Seq<char>, n: Seq<char>)
    requires
        forall|j: int|
            0 <= j < entries.len() && entry_selected(#[trigger] entries[j]) ==> stripped(
                entries[j].file_name,
            ) != n,
    ensures
        !contains_name(scan_result(entries, dir), n),
{
    if contains_name(scan_result(entries, dir), n) {
        let i = choose|i: int|
            0 <= i < scan_result(entries, dir).len() && scan_result(entries, dir)[i].name == n;
        let x = scan_result(entries, dir)[i];
        assert(contains_config(scan_result(entries, dir), x));
        lemma_scan_result_sound(entries, dir, x);
        assert(false);
    }
}

/// A profile in a scan prefix stays in the whole scan: later entries
/// only add profiles.
proof fn lemma_scan_result_extends(
    entries: Seq<ScanEntryView>,
    dir: Seq<char>,
    m: int,
    x: ConfigView,
)
    requires
        0 <= m <= entries.len(),
        contains_config(scan_result(entries.take(m), dir), x),
    ensures
        contains_config(scan_result(entries, dir), x),
    decreases entries.len() - m,
{
    if m == entries.len() {
        assert(entries.take(m) =~= entries);
    } else {
        let t1 = entries.take(m + 1);
        assert(t1.drop_last() =~= entries.take(m));
        assert(t1.last() == entries[m]);
        let prev = scan_result(entries.take(m), dir);
        let e = entries[m];
        if entry_selected(e) && !contains_name(prev, stripped(e.file_name)) && !contains_hash(
            prev,
            entry_digest(e),
        ) {
            lemma_sorted_insert_elems(prev, entry_config(e, dir), x);
        }
        lemma_scan_result_extends(entries, dir, m + 1, x);
    }
}

/// Round trip: a file imported under a fresh name is indexed again by
/// the next scan that sees it. When no earlier selected entry carries
/// its name or its digest, the scan's result holds a profile whose name
/// is the imported name, whose digest is the digest of the imported
/// bytes, and whose path is the file the import wrote — so an export of
/// that name reads back exactly the imported bytes.
pub proof fn lemma_import_sync_round_trip(entries: Seq<ScanEntryView>, dir: Seq<char>, j: int)
    requires
        0 <= j < entries.len(),
        entry_selected(entries[j]),
        forall|j2: int|
            0 <= j2 < j && entry_selected(#[trigger] entries[j2]) ==> stripped(
                entries[j2].file_name,
            ) != stripped(entries[j].file_name) && entry_digest(entries[j2]) != entry_digest(
                entries[j],
            ),
    ensures
        contains_config(scan_result(entries, dir), entry_config(entries[j], dir)),
{
    let tj = entries.take(j + 1);
    assert(tj.drop_last() =~= entries.take(j));
    assert(tj.last() == entries[j]);
    let prev = scan_result(entries.take(j), dir);
    let e = entries[j];
    if contains_name(prev, stripped(e.file_name)) {
        let i = choose|i: int| 0 <= i < prev.len() && prev[i].name == stripped(e.file_name);
        assert(contains_config(prev, prev[i]));
        lemma_scan_result_sound(entries.take(j), dir, prev[i]);
        let j2 = choose|j2: int|
            0 <= j2 < entries.take(j).len() && entry_selected(#[trigger] entries.take(j)[j2])
                && prev[i] == entry_config(entries.take(j)[j2], dir);
        assert(entries[j2] == entries.take(j)[j2]);
        assert(false);
    }
    if contains_hash(prev, entry_digest(e)) {
        let i = choose|i: int| 0 <= i < prev.len() && prev[i].hash == entry_digest(e);
        assert(contains_config(prev, prev[i]));
        lemma_scan_result_sound(entries.take(j), dir, prev[i]);
        let j2 = choose|j2: int|
            0 <= j2 < entries.take(j).len() && entry_selected(#[trigger] entries.take(j)[j2])
                && prev[i] == entry_config(entries.take(j)[j2], dir);
        assert(entries[j2] == entries.take(j)[j2]);
        assert(false);
    }
    assert(scan_result(tj, dir) == sorted_insert(prev, entry_config(e, dir)));
    lemma_sorted_insert_elems(prev, entry_config(e, dir), entry_config(e, dir));
    lemma_scan_result_extends(entries, dir, j + 1, entry_config(e, dir));
}

/// Uniqueness: no two profiles of a well-formed store (in particular,
/// of any store a synchronization pass leaves behind) share a name or
/// share a digest.
pub proof fn lemma_store_uniqueness(st: &KubEnv)
    requires
        st.wf(),
    ensures
        forall|i: int, j: int|
            0 <= i < j < st.profiles().len() ==> (#[trigger] st.profiles()[i]).name != (
            #[trigger] st.profiles()[j]).name && st.profiles()[i].hash != st.profiles()[j].hash,
{
    assert forall|i: int, j: int| 0 <= i < j < st.profiles().len() implies (
    #[trigger] st.profiles()[i]).name != (#[trigger] st.profiles()[j]).name && st.profiles()[i].hash
        != st.profiles()[j].hash by {
        lemma_lex_lt_irrefl(st.profiles()[i].name);
    }
}

/// Ordering: the listing of a well-formed store (in particular, of any
/// store a synchronization pass leaves behind) is sorted ascending by
/// name, whatever order the directory was enumerated in.
pub proof fn lemma_list_sorted(st: &KubEnv)
    requires
        st.wf(),
    ensures
        sorted_by_name(st.profiles()),
{
}

} // verus!
