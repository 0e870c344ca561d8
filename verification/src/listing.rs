//! The directory lister: which entries of a directory are candidates, and in
//! which order they are processed.

use crate::config::RunConfig;
use crate::names::{
    copy_from, lemma_lex_le_antisymmetric, lemma_lex_le_reflexive, lemma_lex_le_total,
    lemma_lex_le_transitive, lex_le, name_eq, name_le, sorted, views,
};
use vstd::prelude::*;
use vstd::relations::*;
use vstd::seq_lib::*;

verus! {

/// An entry of the directory as it was read: its file name, and whether it is
/// itself a directory.
#[derive(Debug, Clone, PartialEq, Eq)]
pub struct DirEntry {
    pub name: Vec<u8>,
    pub is_dir: bool,
}

/// An entry is a candidate unless it is a directory or bears the name of the
/// configuration file.
pub open spec fn is_candidate(entry: DirEntry, config_file: Seq<u8>) -> bool {
    !entry.is_dir && entry.name@ != config_file
}

/// The names of the candidates among `entries`, in the order of `entries`.
pub open spec fn candidates(entries: Seq<DirEntry>, config_file: Seq<u8>) -> Seq<Seq<u8>>
    decreases entries.len(),
{
    if entries.len() == 0 {
        Seq::empty()
    } else if is_candidate(entries.last(), config_file) {
        candidates(entries.drop_last(), config_file).push(entries.last().name@)
    } else {
        candidates(entries.drop_last(), config_file)
    }
}

/// Lexicographic byte order is a total order on names.
pub proof fn lemma_lex_le_total_ordering()
    ensures
        total_ordering(|a: Seq<u8>, b: Seq<u8>| lex_le(a, b)),
{
    let leq = |a: Seq<u8>, b: Seq<u8>| lex_le(a, b);
    assert forall|a: Seq<u8>| #[trigger] leq(a, a) by {
        lemma_lex_le_reflexive(a);
    }
    assert forall|a: Seq<u8>, b: Seq<u8>| #[trigger] leq(a, b) && #[trigger] leq(b, a) implies a
        == b by {
        lemma_lex_le_antisymmetric(a, b);
    }
    assert forall|a: Seq<u8>, b: Seq<u8>, c: Seq<u8>| #[trigger]
        leq(a, b) && #[trigger] leq(b, c) implies leq(a, c) by {
        lemma_lex_le_transitive(a, b, c);
    }
    assert forall|a: Seq<u8>, b: Seq<u8>| #[trigger] leq(a, b) || #[trigger] leq(b, a) by {
        lemma_lex_le_total(a, b);
    }
}

/// A directory has one listing: two sorted lists of the same names, each as
/// often in one as in the other, are the same list. So the order in which the
/// entries were read does not show in the listing.
pub proof fn lemma_listing_unique(a: Seq<Seq<u8>>, b: Seq<Seq<u8>>)
    requires
        sorted(a),
        sorted(b),
        a.to_multiset() == b.to_multiset(),
    ensures
        a == b,
{
    let leq = |x: Seq<u8>, y: Seq<u8>| lex_le(x, y);
    lemma_lex_le_total_ordering();
    assert(sorted_by(a, leq)) by {
        assert forall|i: int, j: int| 0 <= i < j < a.len() implies #[trigger] leq(a[i], a[j]) by {
            assert(lex_le(a[i], a[j]));
        }
    }
    assert(sorted_by(b, leq)) by {
        assert forall|i: int, j: int| 0 <= i < j < b.len() implies #[trigger] leq(b[i], b[j]) by {
            assert(lex_le(b[i], b[j]));
        }
    }
    lemma_sorted_unique(a, b, leq);
}

/// Puts `name` into a sorted list, behind the names that are at most it.
fn insert_sorted(files: &mut Vec<Vec<u8>>, name: Vec<u8>)
    requires
        sorted(views(old(files)@)),
    ensures
        sorted(views(final(files)@)),
        views(final(files)@).to_multiset() == views(old(files)@).to_multiset().insert(name@),
{
    let mut p: usize = 0;
    while p < files.len() && name_le(files[p].as_slice(), name.as_slice())
        invariant
            p <= files.len(),
            forall|k: int| 0 <= k < p ==> lex_le(views(files@)[k], name@),
        decreases files.len() - p,
    {
        assert(views(files@)[p as int] == files@[p as int]@);
        p = p + 1;
    }
    let ghost before = views(files@);
    let ghost added = name@;
    proof {
        let next = before.insert(p as int, added);
        assert(views(files@.insert(p as int, name)) =~= next);
        assert forall|k: int| p <= k < before.len() implies lex_le(added, before[k]) by {
            assert(before[p as int] == files@[p as int]@);
            lemma_lex_le_total(before[p as int], added);
            if k > p {
                assert(lex_le(before[p as int], before[k]));
                lemma_lex_le_transitive(added, before[p as int], before[k]);
            }
        }
        assert(sorted(next)) by {
            assert forall|i: int, j: int| 0 <= i < j < next.len() implies lex_le(
                next[i],
                next[j],
            ) by {
                if j < p {
                    assert(lex_le(before[i], before[j]));
                } else if i > p {
                    assert(lex_le(before[i - 1], before[j - 1]));
                } else if i < p && j > p {
                    lemma_lex_le_transitive(before[i], added, before[j - 1]);
                }
            }
        }
        to_multiset_insert(before, p as int, added);
    }
    files.insert(p, name);
}

/// Lists the files to process: the entries that are neither directories nor
/// the configuration file of the run, sorted by name in lexicographic byte
/// order.
pub fn list_files(entries: &Vec<DirEntry>, config: &RunConfig) -> (files: Vec<Vec<u8>>)
    ensures
        sorted(views(files@)),
        views(files@).to_multiset() == candidates(entries@, config.config_file@).to_multiset(),
{
    let config_file = config.config_file.as_slice();
    let mut files: Vec<Vec<u8>> = Vec::new();
    let mut i: usize = 0;
    assert(entries@.take(0) =~= Seq::<DirEntry>::empty());
    assert(views(files@) =~= Seq::<Seq<u8>>::empty());
    while i < entries.len()
        invariant
            i <= entries.len(),
            sorted(views(files@)),
            views(files@).to_multiset() == candidates(
                entries@.take(i as int),
                config_file@,
            ).to_multiset(),
        decreases entries.len() - i,
    {
        proof {
            assert(entries@.take(i + 1).drop_last() =~= entries@.take(i as int));
            assert(entries@.take(i + 1).last() == entries@[i as int]);
            to_multiset_build(
                candidates(entries@.take(i as int), config_file@),
                entries@[i as int].name@,
            );
        }
        if !entries[i].is_dir && !name_eq(entries[i].name.as_slice(), config_file) {
            let name = copy_from(entries[i].name.as_slice(), 0);
            assert(name@ =~= entries@[i as int].name@);
            insert_sorted(&mut files, name);
        }
        i = i + 1;
    }
    assert(entries@.take(entries.len() as int) =~= entries@);
    files
}

} // verus!
