//! A model of the filesystem entries a batch touches.
//!
//! The model maps each path to what the filesystem records there: whether the
//! entry is a directory, and an abstract tag for its content.  Validation
//! reads the model as a snapshot of the relevant paths; the executor mutates
//! it move by move, mirroring what the platform rename primitive does to the
//! real tree.

use vstd::prelude::*;

use crate::path_text::clone_bytes;

verus! {

/// What the filesystem records at one path (specification level).
pub struct FsMeta {
    pub is_dir: bool,
    pub data: Seq<u8>,
}

/// One recorded entry: a path, its kind, and a content tag.
struct FsEntry {
    pub path: Vec<u8>,
    pub is_dir: bool,
    pub data: Vec<u8>,
}

impl FsEntry {
    spec fn meta(self) -> FsMeta {
        FsMeta { is_dir: self.is_dir, data: self.data@ }
    }
}

/// The map described by a listing of entries; later entries win.
spec fn entries_map(s: Seq<FsEntry>) -> Map<Seq<u8>, FsMeta>
    decreases s.len(),
{
    if s.len() == 0 {
        Map::empty()
    } else {
        entries_map(s.drop_last()).insert(s.last().path@, s.last().meta())
    }
}

/// Whether some entry of the listing carries path `p`.
spec fn has_path(s: Seq<FsEntry>, p: Seq<u8>) -> bool {
    exists|i: int| 0 <= i < s.len() && #[trigger] s[i].path@ == p
}

/// Entries carry pairwise distinct paths.
spec fn distinct_paths(s: Seq<FsEntry>) -> bool {
    forall|i: int, j: int| 0 <= i < j < s.len() ==> s[i].path@ != s[j].path@
}

/// What one elementary move does to the model: the content and kind recorded
/// at `from` are now recorded at `to`, and `from` is gone.
pub open spec fn apply_move(m: Map<Seq<u8>, FsMeta>, from: Seq<u8>, to: Seq<u8>) -> Map<
    Seq<u8>,
    FsMeta,
> {
    m.remove(from).insert(to, m[from])
}

/// A snapshot of the filesystem entries a batch touches.
pub struct FsState {
    entries: Vec<FsEntry>,
}

impl View for FsState {
    type V = Map<Seq<u8>, FsMeta>;

    closed spec fn view(&self) -> Map<Seq<u8>, FsMeta> {
        entries_map(self.entries@)
    }
}

/// The listing of a well-formed state names each path once.
impl FsState {
    pub closed spec fn wf(self) -> bool {
        distinct_paths(self.entries@)
    }

    pub fn new() -> (r: FsState)
        ensures
            r.wf(),
            r@ == Map::<Seq<u8>, FsMeta>::empty(),
    {
        FsState { entries: Vec::new() }
    }

    fn find_idx(&self, p: &Vec<u8>) -> (r: Option<usize>)
        ensures
            match r {
                Some(i) => i < self.entries@.len() && self.entries@[i as int].path@ == p@,
                None => !has_path(self.entries@, p@),
            },
    {
        let n = self.entries.len();
        let mut i: usize = 0;
        while i < n
            invariant
                i <= n,
                n == self.entries@.len(),
                forall|j: int| 0 <= j < i ==> #[trigger] self.entries@[j].path@ != p@,
            decreases n - i,
        {
            if crate::path_text::bytes_eq(&self.entries[i].path, p) {
                return Some(i);
            }
            i = i + 1;
        }
        None
    }

    pub fn contains_path(&self, p: &Vec<u8>) -> (r: bool)
        requires
            self.wf(),
        ensures
            r == self@.contains_key(p@),
    {
        proof {
            lemma_entries_map_props(self.entries@);
        }
        match self.find_idx(p) {
            Some(_) => true,
            None => false,
        }
    }

    /// Whether the entry at `p` is a directory; `None` when `p` is absent.
    pub fn dir_at(&self, p: &Vec<u8>) -> (r: Option<bool>)
        requires
            self.wf(),
        ensures
            match r {
                Some(d) => self@.contains_key(p@) && d == self@[p@].is_dir,
                None => !self@.contains_key(p@),
            },
    {
        proof {
            lemma_entries_map_props(self.entries@);
        }
        match self.find_idx(p) {
            Some(i) => Some(self.entries[i].is_dir),
            None => None,
        }
    }

    /// The content tag at `p`; `None` when `p` is absent.
    pub fn data_at(&self, p: &Vec<u8>) -> (r: Option<Vec<u8>>)
        requires
            self.wf(),
        ensures
            match r {
                Some(d) => self@.contains_key(p@) && d@ == self@[p@].data,
                None => !self@.contains_key(p@),
            },
    {
        proof {
            lemma_entries_map_props(self.entries@);
        }
        match self.find_idx(p) {
            Some(i) => Some(clone_bytes(&self.entries[i].data)),
            None => None,
        }
    }

    /// Records `path` with the given kind and content, replacing any previous
    /// record at that path.
    pub fn record(&mut self, path: Vec<u8>, is_dir: bool, data: Vec<u8>)
        requires
            old(self).wf(),
        ensures
            final(self).wf(),
            final(self)@ == old(self)@.insert(path@, FsMeta { is_dir, data: data@ }),
    {
        proof {
            lemma_entries_map_props(self.entries@);
        }
        let e = FsEntry { path, is_dir, data };
        let ghost s0 = self.entries@;
        match self.find_idx(&e.path) {
            Some(i) => {
                proof {
                    lemma_entries_map_update(s0, i as int, e);
                }
                self.entries[i] = e;
            },
            None => {
                self.entries.push(e);
                proof {
                    assert(self.entries@.drop_last() =~= s0);
                    assert forall|i: int, j: int|
                        0 <= i < j < self.entries@.len() implies self.entries@[i].path@
                        != self.entries@[j].path@ by {
                        if j == self.entries@.len() - 1 {
                            assert(s0[i].path@ != e.path@);
                        }
                    }
                }
            },
        }
    }

    /// Performs one elementary move on the model, as the platform rename
    /// primitive would: fails exactly when `from` is absent, and otherwise
    /// re-records `from`'s entry at `to`, replacing whatever was there.
    pub fn move_entry(&mut self, from: &Vec<u8>, to: &Vec<u8>) -> (ok: bool)
        requires
            old(self).wf(),
        ensures
            final(self).wf(),
            ok == old(self)@.contains_key(from@),
            ok ==> final(self)@ == apply_move(old(self)@, from@, to@),
            !ok ==> final(self)@ == old(self)@,
    {
        proof {
            lemma_entries_map_props(self.entries@);
        }
        let ghost s0 = self.entries@;
        match self.find_idx(from) {
            None => false,
            Some(i) => {
                let e = self.entries.remove(i);
                proof {
                    lemma_entries_map_remove(s0, i as int);
                    assert forall|a: int, b: int|
                        0 <= a < b < self.entries@.len() implies self.entries@[a].path@
                        != self.entries@[b].path@ by {
                        assert(self.entries@ =~= s0.remove(i as int));
                        if b < i {
                        } else if a < i {
                            assert(self.entries@[a].path@ == s0[a].path@);
                            assert(self.entries@[b].path@ == s0[b + 1].path@);
                        } else {
                            assert(self.entries@[a].path@ == s0[a + 1].path@);
                            assert(self.entries@[b].path@ == s0[b + 1].path@);
                        }
                    }
                }
                let moved = FsEntry { path: clone_bytes(to), is_dir: e.is_dir, data: e.data };
                let ghost s1 = self.entries@;
                proof {
                    lemma_entries_map_props(s1);
                }
                match self.find_idx(&moved.path) {
                    Some(j) => {
                        proof {
                            lemma_entries_map_update(s1, j as int, moved);
                        }
                        self.entries[j] = moved;
                        proof {
                            assert(self@ =~= apply_move(old(self)@, from@, to@));
                        }
                    },
                    None => {
                        self.entries.push(moved);
                        proof {
                            assert(self.entries@.drop_last() =~= s1);
                            assert forall|a: int, b: int|
                                0 <= a < b < self.entries@.len() implies self.entries@[a].path@
                                != self.entries@[b].path@ by {
                                if b == self.entries@.len() - 1 {
                                    assert(s1[a].path@ != moved.path@);
                                }
                            }
                            assert(self@ =~= apply_move(old(self)@, from@, to@));
                        }
                    },
                }
                true
            },
        }
    }
}

/// With distinct paths, the listing and its map agree: a key is present
/// exactly when some entry carries it, and it maps to that entry's record.
proof fn lemma_entries_map_props(s: Seq<FsEntry>)
    requires
        distinct_paths(s),
    ensures
        forall|p: Seq<u8>| #[trigger] entries_map(s).contains_key(p) <==> has_path(s, p),
        forall|i: int|
            0 <= i < s.len() ==> entries_map(s)[#[trigger] s[i].path@] == s[i].meta(),
    decreases s.len(),
{
    if s.len() > 0 {
        let init = s.drop_last();
        lemma_entries_map_props(init);
        assert forall|p: Seq<u8>| #[trigger] entries_map(s).contains_key(p) implies has_path(
            s,
            p,
        ) by {
            if p == s.last().path@ {
                assert(s[s.len() - 1].path@ == p);
            } else {
                assert(entries_map(init).contains_key(p));
                assert(has_path(init, p));
                let i = choose|i: int| 0 <= i < init.len() && #[trigger] init[i].path@ == p;
                assert(init[i] == s[i]);
                assert(s[i].path@ == p);
            }
        }
        assert forall|p: Seq<u8>| has_path(s, p) implies #[trigger] entries_map(s).contains_key(
            p,
        ) by {
            let i = choose|i: int| 0 <= i < s.len() && #[trigger] s[i].path@ == p;
            if i < s.len() - 1 {
                assert(init[i].path@ == p);
            }
        }
        assert forall|i: int| 0 <= i < s.len() implies entries_map(s)[#[trigger] s[i].path@]
            == s[i].meta() by {
            if i < s.len() - 1 {
                assert(init[i].path@ == s[i].path@);
                assert(s[i].path@ != s.last().path@);
            }
        }
    }
}

/// Replacing the entry at `i` by one with the same path re-points the map.
proof fn lemma_entries_map_update(s: Seq<FsEntry>, i: int, e: FsEntry)
    requires
        distinct_paths(s),
        0 <= i < s.len(),
        e.path@ == s[i].path@,
    ensures
        distinct_paths(s.update(i, e)),
        entries_map(s.update(i, e)) == entries_map(s).insert(e.path@, e.meta()),
    decreases s.len(),
{
    let t = s.update(i, e);
    assert forall|a: int, b: int| 0 <= a < b < t.len() implies t[a].path@ != t[b].path@ by {
        assert(s[a].path@ != s[b].path@);
    }
    if i == s.len() - 1 {
        assert(t.drop_last() =~= s.drop_last());
        assert(entries_map(t) =~= entries_map(s).insert(e.path@, e.meta()));
    } else {
        lemma_entries_map_update(s.drop_last(), i, e);
        assert(t.drop_last() =~= s.drop_last().update(i, e));
        assert(t.last() == s.last());
        assert(e.path@ != s.last().path@);
        assert(entries_map(t) =~= entries_map(s).insert(e.path@, e.meta()));
    }
}

/// Removing the entry at `i` removes exactly its path from the map.
proof fn lemma_entries_map_remove(s: Seq<FsEntry>, i: int)
    requires
        distinct_paths(s),
        0 <= i < s.len(),
    ensures
        entries_map(s.remove(i)) == entries_map(s).remove(s[i].path@),
    decreases s.len(),
{
    lemma_entries_map_props(s);
    if i == s.len() - 1 {
        assert(s.remove(i) =~= s.drop_last());
        lemma_entries_map_props(s.drop_last());
        assert(!has_path(s.drop_last(), s[i].path@)) by {
            if has_path(s.drop_last(), s[i].path@) {
                let j = choose|j: int|
                    0 <= j < s.drop_last().len() && #[trigger] s.drop_last()[j].path@
                        == s[i].path@;
                assert(s[j].path@ == s[i].path@);
            }
        }
        assert(entries_map(s.remove(i)) =~= entries_map(s).remove(s[i].path@));
    } else {
        let init = s.drop_last();
        lemma_entries_map_remove(init, i);
        assert(s.remove(i).drop_last() =~= init.remove(i));
        assert(s.remove(i).last() == s.last());
        assert(s[i].path@ != s.last().path@);
        assert(entries_map(s.remove(i)) =~= entries_map(s).remove(s[i].path@));
    }
}

} // verus!
