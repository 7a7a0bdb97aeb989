//! Profiles: a named, content-hashed configuration file, and the
//! lexicographic order on names that the store's listing maintains.

use vstd::prelude::*;

verus! {

/// Strict lexicographic order on character sequences, comparing by
/// code point. This is the order in which the store lists profiles.
pub open spec fn lex_lt(a: Seq<char>, b: Seq<char>) -> bool
    decreases a.len(),
{
    if b.len() == 0 {
        false
    } else if a.len() == 0 {
        true
    } else if a[0] != b[0] {
        (a[0] as u32) < (b[0] as u32)
    } else {
        lex_lt(a.drop_first(), b.drop_first())
    }
}

proof fn lemma_char_code_injective(a: char, b: char)
    requires
        a != b,
    ensures
        (a as u32) != (b as u32),
{
}

/// Any two character sequences are ordered or equal.
pub proof fn lemma_lex_lt_trichotomy(a: Seq<char>, b: Seq<char>)
    ensures
        lex_lt(a, b) || lex_lt(b, a) || a == b,
    decreases a.len(),
{
    if a.len() == 0 && b.len() == 0 {
        assert(a =~= b);
    } else if a.len() > 0 && b.len() > 0 {
        if a[0] == b[0] {
            lemma_lex_lt_trichotomy(a.drop_first(), b.drop_first());
            if !lex_lt(a, b) && !lex_lt(b, a) {
                assert(a.drop_first() =~= b.drop_first());
                assert forall|i: int| 0 <= i < a.len() implies a[i] == b[i] by {
                    if i >= 1 {
                        assert(a.drop_first()[i - 1] == b.drop_first()[i - 1]);
                    }
                }
                assert(a =~= b);
            }
        } else {
            lemma_char_code_injective(a[0], b[0]);
        }
    }
}

/// The order is irreflexive.
pub proof fn lemma_lex_lt_irrefl(a: Seq<char>)
    ensures
        !lex_lt(a, a),
    decreases a.len(),
{
    if a.len() > 0 {
        lemma_lex_lt_irrefl(a.drop_first());
    }
}

/// The order is transitive.
pub proof fn lemma_lex_lt_trans(a: Seq<char>, b: Seq<char>, c: Seq<char>)
    requires
        lex_lt(a, b),
        lex_lt(b, c),
    ensures
        lex_lt(a, c),
    decreases a.len(),
{
    if a.len() > 0 && b.len() > 0 && c.len() > 0 && a[0] == b[0] && b[0] == c[0] {
        lemma_lex_lt_trans(a.drop_first(), b.drop_first(), c.drop_first());
    }
}

/// Compares two strings in the order of `lex_lt`.
pub fn str_lex_lt(a: &str, b: &str) -> (r: bool)
    ensures
        r == lex_lt(a@, b@),
{
    let alen = a.unicode_len();
    let blen = b.unicode_len();
    let mut i: usize = 0;
    proof {
        assert(a@.skip(0) =~= a@);
        assert(b@.skip(0) =~= b@);
    }
    while i < alen && i < blen
        invariant
            alen == a@.len(),
            blen == b@.len(),
            i <= alen,
            i <= blen,
            lex_lt(a@, b@) == lex_lt(a@.skip(i as int), b@.skip(i as int)),
        decreases alen - i,
    {
        let ca = a.get_char(i);
        let cb = b.get_char(i);
        if ca != cb {
            assert(a@.skip(i as int)[0] == ca && b@.skip(i as int)[0] == cb);
            return (ca as u32) < (cb as u32);
        }
        proof {
            assert(a@.skip(i as int).drop_first() =~= a@.skip(i + 1));
            assert(b@.skip(i as int).drop_first() =~= b@.skip(i + 1));
        }
        i = i + 1;
    }
    proof {
        if alen == blen {
            assert(a@.skip(i as int).len() == 0 && b@.skip(i as int).len() == 0);
        }
    }
    alen < blen
}

/// The mathematical content of a profile: its name, the location of
/// its persisted bytes, and the SHA-256 hex digest of those bytes.
pub ghost struct ConfigView {
    pub name: Seq<char>,
    pub path: Seq<char>,
    pub hash: Seq<char>,
}

/// A profile in the store: a name unique among the store's profiles,
/// the path of the backing file, and the content digest, computed once
/// at discovery or import time.
#[derive(Debug)]
pub struct KubeConfig {
    name: String,
    path: String,
    hash: String,
}

impl View for KubeConfig {
    type V = ConfigView;

    closed spec fn view(&self) -> ConfigView {
        ConfigView { name: self.name@, path: self.path@, hash: self.hash@ }
    }
}

impl KubeConfig {
    /// Builds a profile. A profile without an explicit name defaults to
    /// the first 8 hex characters of its content digest.
    pub fn new(path: String, hash: String, name: Option<String>) -> (r: Self)
        requires
            name is None ==> hash@.len() >= 8,
        ensures
            r@.path == path@,
            r@.hash == hash@,
            r@.name == match name {
                Some(n) => n@,
                None => hash@.subrange(0, 8),
            },
    {
        let name = match name {
            Some(n) => n,
            None => hash.as_str().substring_char(0, 8).to_owned(),
        };
        KubeConfig { name, path, hash }
    }

    pub fn name(&self) -> (r: &str)
        ensures
            r@ == self@.name,
    {
        self.name.as_str()
    }

    pub fn hash(&self) -> (r: &str)
        ensures
            r@ == self@.hash,
    {
        self.hash.as_str()
    }

    pub fn path(&self) -> (r: &str)
        ensures
            r@ == self@.path,
    {
        self.path.as_str()
    }
}

impl Clone for KubeConfig {
    fn clone(&self) -> (r: Self)
        ensures
            r@ == self@,
    {
        KubeConfig { name: self.name.clone(), path: self.path.clone(), hash: self.hash.clone() }
    }
}

} // verus!
