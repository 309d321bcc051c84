//! The duplicate index: a key-unique mapping from digest string to the group
//! of files that share that digest.
use vstd::prelude::*;
use crate::digest::{content_digest, digest_text};

verus! {

/// What a group holds: the size of its files and their paths in discovery order.
pub type EntryModel = (u64, Seq<Seq<char>>);

/// All files sharing one content digest.
pub struct FileEntry {
    pub size: u64,
    pub files: Vec<String>,
}

impl View for FileEntry {
    type V = EntryModel;

    open spec fn view(&self) -> EntryModel {
        (self.size, self.files.deep_view())
    }
}

impl FileEntry {
    /// An entry of size zero with no files.
    pub fn new() -> (r: FileEntry)
        ensures
            r@ == (0u64, Seq::<Seq<char>>::empty()),
    {
        let r = FileEntry { size: 0, files: Vec::new() };
        proof {
            assert(r.files.deep_view() =~= Seq::<Seq<char>>::empty());
        }
        r
    }

    /// A copy of this entry.
    pub fn copy(&self) -> (r: FileEntry)
        ensures
            r@ == self@,
    {
        let mut files: Vec<String> = Vec::new();
        let mut i: usize = 0;
        while i < self.files.len()
            invariant
                i <= self.files@.len(),
                files@ == self.files@.subrange(0, i as int),
            decreases self.files@.len() - i,
        {
            files.push(self.files[i].clone());
            proof {
                assert(files@ =~= self.files@.subrange(0, i + 1));
            }
            i += 1;
        }
        proof {
            assert(files@ =~= self.files@);
        }
        FileEntry { size: self.size, files }
    }
}

/// The mapping given by a sequence of keys and the values at the same positions.
pub open spec fn index_model(keys: Seq<Seq<char>>, vals: Seq<EntryModel>) -> Map<Seq<char>, EntryModel> {
    Map::new(|k: Seq<char>| keys.contains(k), |k: Seq<char>| vals[keys.index_of(k)])
}

/// The index after recording a file with digest `digest`, path `path` and
/// size `size`: its group takes the size and gains the path at the end.
pub open spec fn recorded(
    m: Map<Seq<char>, EntryModel>,
    digest: Seq<char>,
    path: Seq<char>,
    size: u64,
) -> Map<Seq<char>, EntryModel> {
    m.insert(
        digest,
        (size, if m.contains_key(digest) { m[digest].1.push(path) } else { seq![path] }),
    )
}

/// Whether a group is shown: every group when `include_all`, otherwise only
/// groups with more than one file.
pub open spec fn keeps(include_all: bool, e: EntryModel) -> bool {
    include_all || e.1.len() > 1
}

/// The groups of `m` that are shown under `include_all`.
pub open spec fn selected(m: Map<Seq<char>, EntryModel>, include_all: bool) -> Map<Seq<char>, EntryModel> {
    Map::new(|k: Seq<char>| m.contains_key(k) && keeps(include_all, m[k]), |k: Seq<char>| m[k])
}

/// Why a scan stopped.
pub enum ScanError {
    /// The root of the tree could not be walked.
    Traversal { path: String, cause: String },
    /// A file could not be opened or read to its end.
    Hash { path: String, cause: String },
}

/// A mapping from digest string to the group of files with that digest.
pub struct DuplicateIndex {
    digests: Vec<String>,
    entries: Vec<FileEntry>,
}

impl View for DuplicateIndex {
    type V = Map<Seq<char>, EntryModel>;

    closed spec fn view(&self) -> Map<Seq<char>, EntryModel> {
        index_model(self.keys(), self.vals())
    }
}

impl DuplicateIndex {
    closed spec fn keys(&self) -> Seq<Seq<char>> {
        self.digests.deep_view()
    }

    closed spec fn vals(&self) -> Seq<EntryModel> {
        self.entries@.map_values(|e: FileEntry| e@)
    }

    /// Digests are unique, one entry stands beside each, and no entry is empty.
    pub closed spec fn wf(&self) -> bool {
        &&& self.digests@.len() == self.entries@.len()
        &&& self.keys().no_duplicates()
        &&& forall|i: int| 0 <= i < self.entries@.len() ==> self.entries@[i].files@.len() > 0
    }

    /// An empty index.
    pub fn new() -> (r: DuplicateIndex)
        ensures
            r.wf(),
            r@ == Map::<Seq<char>, EntryModel>::empty(),
    {
        let r = DuplicateIndex { digests: Vec::new(), entries: Vec::new() };
        proof {
            assert(r@ =~= Map::<Seq<char>, EntryModel>::empty());
        }
        r
    }

    proof fn lemma_wf_view(&self)
        requires
            self.wf(),
        ensures
            self@.dom().finite(),
            self@.dom().len() == self.digests@.len(),
            forall|i: int| 0 <= i < self.digests@.len() ==> {
                &&& #[trigger] self@.contains_key(self.keys()[i])
                &&& self@[self.keys()[i]] == self.vals()[i]
            },
            forall|k: Seq<char>| #[trigger] self@.contains_key(k) ==> exists|i: int|
                0 <= i < self.digests@.len() && self.keys()[i] == k,
    {
        lemma_model_facts(self.keys(), self.vals());
    }

    /// Every group in a well-formed index holds at least one file.
    pub proof fn lemma_groups_nonempty(&self)
        requires
            self.wf(),
        ensures
            forall|k: Seq<char>| #[trigger] self@.contains_key(k) ==> self@[k].1.len() > 0,
    {
        self.lemma_wf_view();
        assert forall|k: Seq<char>| #[trigger] self@.contains_key(k) implies self@[k].1.len() > 0 by {
            let i = choose|i: int| 0 <= i < self.digests@.len() && self.keys()[i] == k;
            assert(self.entries@[i].files@.len() > 0);
            assert(self.entries@[i].files.deep_view().len() == self.entries@[i].files@.len());
        }
    }

    /// The position of `digest` among the digests, if present.
    fn position(&self, digest: &String) -> (r: Option<usize>)
        requires
            self.wf(),
        ensures
            match r {
                Some(i) => i < self.digests@.len() && self.keys()[i as int] == digest@,
                None => !self.keys().contains(digest@),
            },
    {
        let mut i: usize = 0;
        while i < self.digests.len()
            invariant
                self.wf(),
                i <= self.digests@.len(),
                forall|j: int| 0 <= j < i ==> self.keys()[j] != digest@,
            decreases self.digests@.len() - i,
        {
            if self.digests[i] == *digest {
                return Some(i);
            }
            i += 1;
        }
        None
    }

    /// Records one file under the digest string `digest`: the group for that
    /// digest is created if absent, takes `size` as its size, and gains `path`
    /// as its last file.
    pub fn insert_digest(&mut self, digest: String, path: String, size: u64)
        requires
            old(self).wf(),
        ensures
            final(self).wf(),
            final(self)@ == recorded(old(self)@, digest@, path@, size),
    {
        let ghost keys = self.keys();
        let ghost vals = self.vals();
        proof {
            lemma_model_facts(keys, vals);
        }
        match self.position(&digest) {
            Some(i) => {
                let ghost e = vals[i as int];
                let ghost p = path@;
                self.entries[i].size = size;
                self.entries[i].files.push(path);
                proof {
                    let f = self.entries@[i as int].files;
                    assert(f.deep_view() =~= e.1.push(p));
                    assert(self.vals() =~= vals.update(i as int, (size, e.1.push(p))));
                    assert(self.keys() =~= keys);
                    lemma_model_update(keys, vals, i as int, (size, e.1.push(p)));
                    assert(old(self)@[digest@] == e);
                }
            },
            None => {
                let ghost d = digest@;
                let ghost p = path@;
                let mut e = FileEntry::new();
                e.size = size;
                e.files.push(path);
                self.digests.push(digest);
                self.entries.push(e);
                proof {
                    assert(e.files.deep_view() =~= seq![p]);
                    assert(self.keys() =~= keys.push(d));
                    assert(self.vals() =~= vals.push((size, seq![p])));
                    lemma_model_push(keys, vals, d, (size, seq![p]));
                }
            },
        }
    }

    /// Records one file from its path, size and content: the file joins the
    /// group of its content's digest string.
    pub fn add_file(&mut self, path: String, size: u64, content: &[u8])
        requires
            old(self).wf(),
        ensures
            final(self).wf(),
            final(self)@ == recorded(old(self)@, digest_text(content@), path@, size),
    {
        let digest = content_digest(content);
        self.insert_digest(digest, path, size);
    }

    /// Takes the outcome of reading the file at `path`: its size and content,
    /// or the cause of the failure. A read file is recorded as by `add_file`;
    /// a failure leaves the index as it is and is returned as a hash error,
    /// which ends the scan.
    pub fn ingest(&mut self, path: String, outcome: Result<(u64, Vec<u8>), String>) -> (r: Result<(), ScanError>)
        requires
            old(self).wf(),
        ensures
            final(self).wf(),
            match outcome {
                Ok((size, content)) => {
                    &&& r is Ok
                    &&& final(self)@ == recorded(old(self)@, digest_text(content@), path@, size)
                },
                Err(cause) => {
                    &&& r == Err::<(), ScanError>(ScanError::Hash { path, cause })
                    &&& final(self)@ == old(self)@
                },
            },
    {
        match outcome {
            Ok((size, content)) => {
                self.add_file(path, size, content.as_slice());
                Ok(())
            },
            Err(cause) => Err(ScanError::Hash { path, cause }),
        }
    }

    /// The number of groups (distinct digests) in the index.
    pub fn total_groups(&self) -> (r: usize)
        requires
            self.wf(),
        ensures
            r == self@.dom().len(),
    {
        proof {
            self.lemma_wf_view();
        }
        self.digests.len()
    }

    /// The digests of the index, each once.
    pub fn digests(&self) -> (r: Vec<String>)
        requires
            self.wf(),
        ensures
            r.deep_view().no_duplicates(),
            r.deep_view().to_set() == self@.dom(),
    {
        let mut r: Vec<String> = Vec::new();
        let mut i: usize = 0;
        while i < self.digests.len()
            invariant
                self.wf(),
                i <= self.digests@.len(),
                r@ == self.digests@.subrange(0, i as int),
            decreases self.digests@.len() - i,
        {
            r.push(self.digests[i].clone());
            proof {
                assert(r@ =~= self.digests@.subrange(0, i + 1));
            }
            i += 1;
        }
        proof {
            assert(r@ =~= self.digests@);
            lemma_model_facts(self.keys(), self.vals());
        }
        r
    }

    /// The group of `digest`, if the index has one.
    pub fn entry(&self, digest: &String) -> (r: Option<&FileEntry>)
        requires
            self.wf(),
        ensures
            match r {
                Some(e) => self@.contains_key(digest@) && e@ == self@[digest@],
                None => !self@.contains_key(digest@),
            },
    {
        proof {
            lemma_model_facts(self.keys(), self.vals());
        }
        match self.position(digest) {
            Some(i) => Some(&self.entries[i]),
            None => None,
        }
    }

    /// The derived index of the groups shown under `include_all`: all groups,
    /// or only those with more than one file. `self` is left as it is.
    pub fn select_groups(&self, include_all: bool) -> (r: DuplicateIndex)
        requires
            self.wf(),
        ensures
            r.wf(),
            r@ == selected(self@, include_all),
    {
        let ghost keys = self.keys();
        let ghost vals = self.vals();
        let mut r = DuplicateIndex::new();
        let mut i: usize = 0;
        while i < self.digests.len()
            invariant
                self.wf(),
                keys == self.keys(),
                vals == self.vals(),
                i <= keys.len(),
                r.wf(),
                r@ == selected(index_model(keys.subrange(0, i as int), vals.subrange(0, i as int)), include_all),
            decreases keys.len() - i,
        {
            let ghost m = index_model(keys.subrange(0, i as int), vals.subrange(0, i as int));
            let ghost k = keys[i as int];
            let ghost v = vals[i as int];
            proof {
                assert(keys.subrange(0, i + 1) =~= keys.subrange(0, i as int).push(k));
                assert(vals.subrange(0, i + 1) =~= vals.subrange(0, i as int).push(v));
                assert(!keys.subrange(0, i as int).contains(k)) by {
                    if keys.subrange(0, i as int).contains(k) {
                        let j = choose|j: int| 0 <= j < i && keys.subrange(0, i as int)[j] == k;
                        assert(keys[j] == keys[i as int]);
                    }
                }
                lemma_model_push(keys.subrange(0, i as int), vals.subrange(0, i as int), k, v);
                lemma_model_facts(keys.subrange(0, i as int), vals.subrange(0, i as int));
            }
            if include_all || self.entries[i].files.len() > 1 {
                let e = self.entries[i].copy();
                let d = self.digests[i].clone();
                let ghost rk = r.keys();
                let ghost rv = r.vals();
                r.digests.push(d);
                r.entries.push(e);
                proof {
                    assert(!rk.contains(k)) by {
                        lemma_model_facts(rk, rv);
                        if rk.contains(k) {
                            let j = choose|j: int| 0 <= j < rk.len() && rk[j] == k;
                            assert(index_model(rk, rv).contains_key(rk[j]));
                            assert(m.contains_key(k));
                        }
                    }
                    assert(r.keys() =~= rk.push(k));
                    assert(r.vals() =~= rv.push(v));
                    lemma_model_push(rk, rv, k, v);
                    assert(e.files@.len() == e.files.deep_view().len());
                    assert(r@ =~= selected(m.insert(k, v), include_all));
                }
            } else {
                proof {
                    assert(self.entries@[i as int].files@.len() == v.1.len());
                    assert(r@ =~= selected(m.insert(k, v), include_all));
                }
            }
            i += 1;
        }
        proof {
            assert(keys.subrange(0, i as int) =~= keys);
            assert(vals.subrange(0, i as int) =~= vals);
        }
        r
    }
}

/// When every file is unique (no group has more than one file), the default
/// view holds no group.
pub proof fn lemma_unique_files_no_duplicates(m: Map<Seq<char>, EntryModel>)
    requires
        forall|k: Seq<char>| #[trigger] m.contains_key(k) ==> m[k].1.len() <= 1,
    ensures
        selected(m, false) == Map::<Seq<char>, EntryModel>::empty(),
        selected(m, false).dom().len() == 0,
{
    assert(selected(m, false) =~= Map::<Seq<char>, EntryModel>::empty());
    assert(selected(m, false).dom() =~= Set::<Seq<char>>::empty());
}

/// Facts about `index_model` over keys without duplicates.
proof fn lemma_model_facts(keys: Seq<Seq<char>>, vals: Seq<EntryModel>)
    requires
        keys.len() == vals.len(),
        keys.no_duplicates(),
    ensures
        index_model(keys, vals).dom() == keys.to_set(),
        index_model(keys, vals).dom().finite(),
        index_model(keys, vals).dom().len() == keys.len(),
        forall|i: int| 0 <= i < keys.len() ==> {
            &&& #[trigger] index_model(keys, vals).contains_key(keys[i])
            &&& index_model(keys, vals)[keys[i]] == vals[i]
        },
        forall|k: Seq<char>| #[trigger] index_model(keys, vals).contains_key(k) ==> exists|i: int|
            0 <= i < keys.len() && keys[i] == k,
{
    broadcast use vstd::seq_lib::seq_to_set_is_finite;
    assert(index_model(keys, vals).dom() =~= keys.to_set());
    keys.unique_seq_to_set();
    assert forall|i: int| 0 <= i < keys.len() implies {
        &&& #[trigger] index_model(keys, vals).contains_key(keys[i])
        &&& index_model(keys, vals)[keys[i]] == vals[i]
    } by {
        assert(keys.contains(keys[i]));
        let j = keys.index_of(keys[i]);
        assert(keys[j] == keys[i]);
    }
}

proof fn lemma_model_push(keys: Seq<Seq<char>>, vals: Seq<EntryModel>, k: Seq<char>, v: EntryModel)
    requires
        keys.len() == vals.len(),
        keys.no_duplicates(),
        !keys.contains(k),
    ensures
        keys.push(k).no_duplicates(),
        index_model(keys.push(k), vals.push(v)) == index_model(keys, vals).insert(k, v),
{
    let nk = keys.push(k);
    let nv = vals.push(v);
    assert(nk.no_duplicates()) by {
        assert forall|i: int, j: int| 0 <= i < nk.len() && 0 <= j < nk.len() && i != j implies nk[i] != nk[j] by {
            if i < keys.len() && j < keys.len() {
            } else if i < keys.len() {
                assert(keys.contains(keys[i]));
            } else {
                assert(keys.contains(keys[j]));
            }
        }
    }
    lemma_model_facts(keys, vals);
    lemma_model_facts(nk, nv);
    let a = index_model(nk, nv);
    let b = index_model(keys, vals).insert(k, v);
    assert forall|q: Seq<char>| a.contains_key(q) <==> b.contains_key(q) by {
        if a.contains_key(q) {
            let i = choose|i: int| 0 <= i < nk.len() && nk[i] == q;
            if i < keys.len() {
                assert(index_model(keys, vals).contains_key(keys[i]));
            }
        }
        if b.contains_key(q) && q != k {
            let i = choose|i: int| 0 <= i < keys.len() && keys[i] == q;
            assert(nk[i] == q);
        }
        if q == k {
            assert(nk[keys.len() as int] == k);
        }
    }
    assert forall|q: Seq<char>| #[trigger] a.contains_key(q) implies a[q] == b[q] by {
        let i = choose|i: int| 0 <= i < nk.len() && nk[i] == q;
        if i < keys.len() {
            assert(nk[i] == keys[i]);
            assert(nv[i] == vals[i]);
        }
    }
    assert(a =~= b);
}

proof fn lemma_model_update(keys: Seq<Seq<char>>, vals: Seq<EntryModel>, i: int, v: EntryModel)
    requires
        keys.len() == vals.len(),
        keys.no_duplicates(),
        0 <= i < keys.len(),
    ensures
        index_model(keys, vals.update(i, v)) == index_model(keys, vals).insert(keys[i], v),
{
    let nv = vals.update(i, v);
    lemma_model_facts(keys, vals);
    lemma_model_facts(keys, nv);
    let a = index_model(keys, nv);
    let b = index_model(keys, vals).insert(keys[i], v);
    assert forall|q: Seq<char>| #[trigger] a.contains_key(q) implies a[q] == b[q] by {
        let j = choose|j: int| 0 <= j < keys.len() && keys[j] == q;
        assert(a[keys[j]] == nv[j]);
    }
    assert(a =~= b);
}

} // verus!
