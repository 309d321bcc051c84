//! The index that a whole scan builds, as a function of the files visited,
//! and what does not depend on the order of the visit.
use vstd::prelude::*;
use vstd::multiset::Multiset;
use crate::digest::digest_text;
use crate::index::{recorded, DuplicateIndex, EntryModel};

verus! {

/// A visited file: its path, its size and its content.
pub type VisitedFile = (Seq<char>, u64, Seq<u8>);

/// The index after recording `files` in order into an empty index.
pub open spec fn scan_model(files: Seq<VisitedFile>) -> Map<Seq<char>, EntryModel>
    decreases files.len(),
{
    if files.len() == 0 {
        Map::empty()
    } else {
        let f = files.last();
        recorded(scan_model(files.drop_last()), digest_text(f.2), f.0, f.1)
    }
}

/// The view of a visited file held as plain values.
pub open spec fn visited_view(f: (String, u64, Vec<u8>)) -> VisitedFile {
    (f.0@, f.1, f.2@)
}

/// Builds the index of `files`, recorded in the order given.
pub fn build_index(files: &Vec<(String, u64, Vec<u8>)>) -> (r: DuplicateIndex)
    ensures
        r.wf(),
        r@ == scan_model(files@.map_values(|f: (String, u64, Vec<u8>)| visited_view(f))),
{
    let ghost seen = files@.map_values(|f: (String, u64, Vec<u8>)| visited_view(f));
    let mut r = DuplicateIndex::new();
    let mut i: usize = 0;
    while i < files.len()
        invariant
            i <= files@.len(),
            seen == files@.map_values(|f: (String, u64, Vec<u8>)| visited_view(f)),
            r.wf(),
            r@ == scan_model(seen.subrange(0, i as int)),
        decreases files@.len() - i,
    {
        let f = &files[i];
        r.add_file(f.0.clone(), f.1, f.2.as_slice());
        proof {
            assert(seen.subrange(0, i + 1).drop_last() =~= seen.subrange(0, i as int));
        }
        i += 1;
    }
    proof {
        assert(seen.subrange(0, i as int) =~= seen);
    }
    r
}

/// The path of `f` if its digest is `digest`, as a multiset of at most one path.
pub open spec fn path_under(f: VisitedFile, digest: Seq<char>) -> Multiset<Seq<char>> {
    if digest_text(f.2) == digest {
        Multiset::singleton(f.0)
    } else {
        Multiset::empty()
    }
}

/// The paths among `files` whose content has digest `digest`, with multiplicity.
pub open spec fn paths_under(files: Seq<VisitedFile>, digest: Seq<char>) -> Multiset<Seq<char>>
    decreases files.len(),
{
    if files.len() == 0 {
        Multiset::empty()
    } else {
        paths_under(files.drop_last(), digest).add(path_under(files.last(), digest))
    }
}

/// A scan of no files gives an empty index.
pub proof fn lemma_empty_scan()
    ensures
        scan_model(Seq::<VisitedFile>::empty()) == Map::<Seq<char>, EntryModel>::empty(),
        scan_model(Seq::<VisitedFile>::empty()).dom().len() == 0,
{
    assert(Map::<Seq<char>, EntryModel>::empty().dom() =~= Set::<Seq<char>>::empty());
}

/// A digest has a group exactly when some visited file has that digest, and
/// the group's files are the paths of those files.
pub proof fn lemma_scan_groups(files: Seq<VisitedFile>, digest: Seq<char>)
    ensures
        scan_model(files).contains_key(digest) <==> paths_under(files, digest).len() > 0,
        scan_model(files).contains_key(digest) ==> scan_model(files)[digest].1.to_multiset()
            == paths_under(files, digest),
    decreases files.len(),
{
    broadcast use vstd::seq_lib::group_to_multiset_ensures, vstd::multiset::group_multiset_axioms;
    if files.len() > 0 {
        let rest = files.drop_last();
        let f = files.last();
        lemma_scan_groups(rest, digest);
        let m = scan_model(rest);
        if digest_text(f.2) == digest {
            if m.contains_key(digest) {
                assert(m[digest].1.push(f.0).to_multiset() =~= m[digest].1.to_multiset().insert(f.0));
                assert(paths_under(files, digest) =~= paths_under(rest, digest).insert(f.0));
            } else {
                assert(paths_under(rest, digest).len() == 0);
                assert(paths_under(rest, digest) =~= Multiset::empty());
                assert(seq![f.0].to_multiset() =~= Seq::<Seq<char>>::empty().to_multiset().insert(f.0));
                assert(paths_under(files, digest) =~= Multiset::singleton(f.0));
            }
        } else {
            assert(paths_under(files, digest) =~= paths_under(rest, digest));
        }
    }
}

/// Taking one file out of the sequence takes its path out of its digest's paths.
proof fn lemma_paths_under_remove(files: Seq<VisitedFile>, j: int, digest: Seq<char>)
    requires
        0 <= j < files.len(),
    ensures
        paths_under(files, digest) == paths_under(files.remove(j), digest).add(path_under(files[j], digest)),
    decreases files.len(),
{
    broadcast use vstd::multiset::group_multiset_axioms;
    let n = files.len() - 1;
    if j == n {
        assert(files.remove(j) =~= files.drop_last());
    } else {
        let rest = files.drop_last();
        lemma_paths_under_remove(rest, j, digest);
        assert(files.remove(j).drop_last() =~= rest.remove(j));
        assert(files.remove(j).last() == files.last());
        assert(paths_under(files, digest) =~= paths_under(files.remove(j), digest).add(path_under(files[j], digest)));
    }
}

/// The paths under each digest depend only on which files were visited, not
/// on the order of the visit.
proof fn lemma_paths_under_permutation(a: Seq<VisitedFile>, b: Seq<VisitedFile>, digest: Seq<char>)
    requires
        a.to_multiset() == b.to_multiset(),
    ensures
        paths_under(a, digest) == paths_under(b, digest),
    decreases a.len(),
{
    broadcast use vstd::seq_lib::group_to_multiset_ensures, vstd::multiset::group_multiset_axioms;
    if a.len() == 0 {
        vstd::seq_lib::to_multiset_len(a);
        vstd::seq_lib::to_multiset_len(b);
        assert(b.len() == 0);
    } else {
        let x = a.last();
        assert(a =~= a.drop_last().push(x));
        assert(a.to_multiset().count(x) > 0);
        assert(b.contains(x));
        let j = choose|j: int| 0 <= j < b.len() && b[j] == x;
        vstd::seq_lib::to_multiset_remove(b, j);
        assert(a.drop_last().to_multiset() =~= b.remove(j).to_multiset());
        lemma_paths_under_permutation(a.drop_last(), b.remove(j), digest);
        lemma_paths_under_remove(b, j, digest);
    }
}

/// Scanning the same files in any two orders gives the same digests, and
/// under each digest the same multiset of paths.
pub proof fn lemma_scan_order_independent(a: Seq<VisitedFile>, b: Seq<VisitedFile>)
    requires
        a.to_multiset() == b.to_multiset(),
    ensures
        scan_model(a).dom() == scan_model(b).dom(),
        forall|k: Seq<char>| #[trigger] scan_model(a).contains_key(k) ==>
            scan_model(a)[k].1.to_multiset() == scan_model(b)[k].1.to_multiset(),
{
    assert forall|k: Seq<char>| scan_model(a).contains_key(k) <==> scan_model(b).contains_key(k) by {
        lemma_paths_under_permutation(a, b, k);
        lemma_scan_groups(a, k);
        lemma_scan_groups(b, k);
    }
    assert(scan_model(a).dom() =~= scan_model(b).dom());
    assert forall|k: Seq<char>| #[trigger] scan_model(a).contains_key(k) implies
        scan_model(a)[k].1.to_multiset() == scan_model(b)[k].1.to_multiset() by {
        lemma_paths_under_permutation(a, b, k);
        lemma_scan_groups(a, k);
        lemma_scan_groups(b, k);
    }
}

} // verus!
