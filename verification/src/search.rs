//! The executable search cache: an in-memory index from command basename to
//! absolute path, populated from the PATH directories' entries in order,
//! with PATH earlier-wins semantics. The embedding program reads the
//! directories and hands the entries over as plain byte pairs; everything
//! that decides what the cache holds lives here.

use vstd::prelude::*;
use vstd::slice::slice_to_vec;

verus! {

/// Whether a byte string contains a NUL, which no filesystem path may.
pub open spec fn spec_has_nul(s: Seq<u8>) -> bool {
    exists|k: int| 0 <= k < s.len() && s[k] == 0
}

pub fn has_nul(s: &[u8]) -> (r: bool)
    ensures
        r == spec_has_nul(s@),
{
    let n = s.len();
    let mut k: usize = 0;
    while k < n
        invariant
            k <= n,
            n == s@.len(),
            forall|t: int| 0 <= t < k ==> s@[t] != 0,
        decreases n - k,
    {
        if *vstd::slice::slice_index_get(s, k) == 0 {
            return true;
        }
        k = k + 1;
    }
    false
}

/// Byte-string equality.
pub fn bytes_eq(a: &[u8], b: &[u8]) -> (r: bool)
    ensures
        r == (a@ == b@),
{
    let n = a.len();
    if n != b.len() {
        proof {
            assert(a@.len() != b@.len());
        }
        return false;
    }
    let mut k: usize = 0;
    while k < n
        invariant
            k <= n,
            n == a@.len(),
            n == b@.len(),
            forall|t: int| 0 <= t < k ==> a@[t] == b@[t],
        decreases n - k,
    {
        if *vstd::slice::slice_index_get(a, k) != *vstd::slice::slice_index_get(b, k) {
            return false;
        }
        k = k + 1;
    }
    proof {
        assert(a@ =~= b@);
    }
    true
}

/// Model of a sequence of (basename, path) pairs.
pub open spec fn entries_view(v: Seq<(Vec<u8>, Vec<u8>)>) -> Seq<(Seq<u8>, Seq<u8>)> {
    v.map_values(|e: (Vec<u8>, Vec<u8>)| (e.0@, e.1@))
}

/// The path of the first NUL-free entry whose basename is `name`, scanning
/// the entries in the order the PATH walk produced them: the earlier-wins
/// rule.
pub open spec fn spec_first_entry(entries: Seq<(Seq<u8>, Seq<u8>)>, name: Seq<u8>) -> Option<
    Seq<u8>,
>
    decreases entries.len(),
{
    if entries.len() == 0 {
        None
    } else if !spec_has_nul(entries[0].0) && !spec_has_nul(entries[0].1) && entries[0].0 == name {
        Some(entries[0].1)
    } else {
        spec_first_entry(entries.skip(1), name)
    }
}

/// Appending entries at the end changes no name already served.
pub proof fn lemma_first_entry_push(
    entries: Seq<(Seq<u8>, Seq<u8>)>,
    e: (Seq<u8>, Seq<u8>),
    name: Seq<u8>,
)
    ensures
        spec_first_entry(entries.push(e), name) == (if spec_first_entry(entries, name) is Some {
            spec_first_entry(entries, name)
        } else if !spec_has_nul(e.0) && !spec_has_nul(e.1) && e.0 == name {
            Some(e.1)
        } else {
            None
        }),
    decreases entries.len(),
{
    let pushed = entries.push(e);
    assert(pushed.len() == entries.len() + 1);
    if entries.len() == 0 {
        assert(pushed[0] == e);
        assert(pushed.skip(1) =~= Seq::<(Seq<u8>, Seq<u8>)>::empty());
        assert(spec_first_entry(entries, name) is None);
        if !spec_has_nul(e.0) && !spec_has_nul(e.1) && e.0 == name {
            assert(spec_first_entry(pushed, name) == Some(e.1));
        } else {
            assert(spec_first_entry(pushed, name) == spec_first_entry(pushed.skip(1), name));
        }
    } else {
        assert(pushed[0] == entries[0]);
        assert(pushed.skip(1) =~= entries.skip(1).push(e));
        lemma_first_entry_push(entries.skip(1), e, name);
        if !spec_has_nul(entries[0].0) && !spec_has_nul(entries[0].1) && entries[0].0 == name {
            assert(spec_first_entry(pushed, name) == Some(entries[0].1));
            assert(spec_first_entry(entries, name) == Some(entries[0].1));
        } else {
            assert(spec_first_entry(pushed, name) == spec_first_entry(pushed.skip(1), name));
            assert(spec_first_entry(entries, name) == spec_first_entry(entries.skip(1), name));
        }
    }
}

/// Law: PATH earlier-wins. When the entries of an earlier directory
/// already serve `name`, entries appended after them — a later directory
/// on PATH holding a file of the same basename — change nothing.
pub proof fn lemma_earlier_wins(
    e1: Seq<(Seq<u8>, Seq<u8>)>,
    e2: Seq<(Seq<u8>, Seq<u8>)>,
    name: Seq<u8>,
)
    requires
        spec_first_entry(e1, name) is Some,
    ensures
        spec_first_entry(e1 + e2, name) == spec_first_entry(e1, name),
    decreases e1.len(),
{
    assert(e1.len() > 0);
    assert((e1 + e2)[0] == e1[0]);
    if !spec_has_nul(e1[0].0) && !spec_has_nul(e1[0].1) && e1[0].0 == name {
    } else {
        assert((e1 + e2).skip(1) =~= e1.skip(1) + e2);
        lemma_earlier_wins(e1.skip(1), e2, name);
    }
}

/// The cache: an association list from basename to absolute path, kept
/// NUL-free and duplicate-free; the first (and only) match serves a
/// lookup.
pub struct SearchCache {
    pub imp: Vec<(Vec<u8>, Vec<u8>)>,
}

impl SearchCache {
    /// Every key and value NUL-free, keys unique.
    pub open spec fn wf(&self) -> bool {
        &&& forall|k: int|
            0 <= k < self.imp@.len() ==> !spec_has_nul((#[trigger] self.imp@[k]).0@) && !spec_has_nul(
                self.imp@[k].1@,
            )
        &&& forall|j: int, k: int|
            0 <= j < k < self.imp@.len() ==> (#[trigger] self.imp@[j]).0@ != (
            #[trigger] self.imp@[k]).0@
    }

    /// What the cache currently answers for `name`.
    pub open spec fn spec_lookup(&self, name: Seq<u8>) -> Option<Seq<u8>> {
        spec_first_entry(entries_view(self.imp@), name)
    }

    /// An empty cache; the embedding program populates it through `rehash`
    /// with the entries of the PATH directories.
    pub fn new() -> (r: SearchCache)
        ensures
            r.wf(),
            r.imp@.len() == 0,
    {
        SearchCache { imp: Vec::new() }
    }

    /// Whether some cache entry already has this basename.
    fn contains_name(&self, name: &[u8]) -> (r: bool)
        ensures
            r == exists|k: int| 0 <= k < self.imp@.len() && (#[trigger] self.imp@[k]).0@ == name@,
    {
        let n = self.imp.len();
        let mut k: usize = 0;
        while k < n
            invariant
                k <= n,
                n == self.imp@.len(),
                forall|t: int| 0 <= t < k ==> (#[trigger] self.imp@[t]).0@ != name@,
            decreases n - k,
        {
            if bytes_eq(self.imp[k].0.as_slice(), name) {
                return true;
            }
            k = k + 1;
        }
        false
    }

    /// Insert one directory entry: skipped when basename or path contains
    /// a NUL or when the basename is already present — the earlier entry
    /// wins.
    pub fn add_entry(&mut self, file_name: &[u8], path: &[u8])
        requires
            old(self).wf(),
        ensures
            final(self).wf(),
            forall|name: Seq<u8>| #![all_triggers]
                final(self).spec_lookup(name) == (if old(self).spec_lookup(name) is Some {
                    old(self).spec_lookup(name)
                } else if !spec_has_nul(file_name@) && !spec_has_nul(path@) && file_name@ == name {
                    Some(path@)
                } else {
                    None
                }),
    {
        let ghost pre = entries_view(self.imp@);
        if has_nul(file_name) || has_nul(path) || self.contains_name(file_name) {
            proof {
                assert forall|name: Seq<u8>|
                    spec_first_entry(pre, name) is None && !spec_has_nul(file_name@) && !spec_has_nul(
                        path@,
                    ) && file_name@ == name implies false by {
                    let k = choose|k: int|
                        0 <= k < self.imp@.len() && (#[trigger] self.imp@[k]).0@ == name;
                    lemma_first_entry_some(pre, name, k);
                }
            }
            return ;
        }
        let pair = (slice_to_vec(file_name), slice_to_vec(path));
        self.imp.push(pair);
        proof {
            assert(entries_view(self.imp@) =~= pre.push((file_name@, path@)));
            assert forall|name: Seq<u8>| #![all_triggers] true implies self.spec_lookup(name)
                == (if spec_first_entry(pre, name) is Some {
                spec_first_entry(pre, name)
            } else if !spec_has_nul(file_name@) && !spec_has_nul(path@) && file_name@ == name {
                Some(path@)
            } else {
                None
            }) by {
                lemma_first_entry_push(pre, (file_name@, path@), name);
            }
        }
    }

    /// Rebuild the cache from the (basename, path) entries of every PATH
    /// directory, walked in PATH order: for each name the first NUL-free
    /// entry wins.
    pub fn rehash(&mut self, entries: &Vec<(Vec<u8>, Vec<u8>)>)
        ensures
            final(self).wf(),
            forall|name: Seq<u8>| #![all_triggers]
                final(self).spec_lookup(name) == spec_first_entry(entries_view(entries@), name),
    {
        self.imp.clear();
        let n = entries.len();
        let mut k: usize = 0;
        while k < n
            invariant
                k <= n,
                n == entries@.len(),
                self.wf(),
                forall|name: Seq<u8>| #![all_triggers]
                    self.spec_lookup(name) == spec_first_entry(
                        entries_view(entries@.take(k as int)),
                        name,
                    ),
            decreases n - k,
        {
            let ghost prefix = entries_view(entries@.take(k as int));
            self.add_entry(entries[k].0.as_slice(), entries[k].1.as_slice());
            proof {
                assert(entries_view(entries@.take(k + 1)) =~= prefix.push(
                    (entries@[k as int].0@, entries@[k as int].1@),
                ));
                assert forall|name: Seq<u8>| #![all_triggers] true implies spec_first_entry(
                    entries_view(entries@.take(k + 1)),
                    name,
                ) == self.spec_lookup(name) by {
                    lemma_first_entry_push(
                        prefix,
                        (entries@[k as int].0@, entries@[k as int].1@),
                        name,
                    );
                }
            }
            k = k + 1;
        }
        proof {
            assert(entries@.take(n as int) =~= entries@);
        }
    }

    /// Look a basename up; returns the cached absolute path.
    pub fn lookup(&self, name: &[u8]) -> (r: Option<&Vec<u8>>)
        requires
            self.wf(),
        ensures
            match r {
                Some(p) => self.spec_lookup(name@) == Some(p@),
                None => self.spec_lookup(name@) is None,
            },
    {
        let n = self.imp.len();
        let mut k: usize = 0;
        proof {
            assert(self.imp@.skip(0) =~= self.imp@);
        }
        while k < n
            invariant
                k <= n,
                n == self.imp@.len(),
                self.wf(),
                spec_first_entry(entries_view(self.imp@), name@) == spec_first_entry(
                    entries_view(self.imp@.skip(k as int)),
                    name@,
                ),
            decreases n - k,
        {
            proof {
                assert(entries_view(self.imp@.skip(k as int))[0] == (
                    self.imp@[k as int].0@,
                    self.imp@[k as int].1@,
                ));
                assert(entries_view(self.imp@.skip(k as int)).skip(1) =~= entries_view(
                    self.imp@.skip(k + 1),
                ));
            }
            if bytes_eq(self.imp[k].0.as_slice(), name) {
                return Some(&self.imp[k].1);
            }
            k = k + 1;
        }
        proof {
            assert(entries_view(self.imp@.skip(n as int)).len() == 0);
        }
        None
    }
}

/// A NUL-free cache entry bearing `name` means the cache serves it.
proof fn lemma_first_entry_some(entries: Seq<(Seq<u8>, Seq<u8>)>, name: Seq<u8>, k: int)
    requires
        0 <= k < entries.len(),
        entries[k].0 == name,
        forall|j: int|
            0 <= j < entries.len() ==> !spec_has_nul((#[trigger] entries[j]).0) && !spec_has_nul(
                entries[j].1,
            ),
    ensures
        spec_first_entry(entries, name) is Some,
    decreases k,
{
    if k > 0 && !(entries[0].0 == name) {
        assert(entries.skip(1)[k - 1] == entries[k]);
        lemma_first_entry_some(entries.skip(1), name, k - 1);
    }
}

} // verus!
