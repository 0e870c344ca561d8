//! What holds of a whole run: which of the files that share a digest
//! survives, what the run does to the directory, and what it leaves for the
//! next one. The directory is taken as a mapping from place to content.

use crate::names::{lemma_lex_le_reflexive, lex_le, sorted};
use crate::processor::{
    applies, classify, is_plan_of, observed_file, outcome_at, seen_before, FileView, OutcomeView,
    Step,
};
use crate::rules::{destination_of, RuleView};
use vstd::prelude::*;

verus! {

/// The position of the first file at or after `k` that has the digest
/// `digest`; the length of the list where there is none.
pub open spec fn first_from(files: Seq<FileView>, digest: Seq<char>, k: int) -> int
    decreases files.len() - k,
{
    if k < 0 || k >= files.len() {
        files.len() as int
    } else if files[k].digest == Some(digest) {
        k
    } else {
        first_from(files, digest, k + 1)
    }
}

/// The position of the first file of the listing that has the digest `digest`.
pub open spec fn first_with(files: Seq<FileView>, digest: Seq<char>) -> int {
    first_from(files, digest, 0)
}

/// What `first_from` finds has the digest, and no file between `k` and it has.
pub proof fn lemma_first_from(files: Seq<FileView>, digest: Seq<char>, k: int)
    requires
        0 <= k <= files.len(),
    ensures
        k <= first_from(files, digest, k) <= files.len(),
        first_from(files, digest, k) < files.len() ==> files[first_from(files, digest, k)].digest
            == Some(digest),
        forall|j: int| k <= j < first_from(files, digest, k) ==> files[j].digest != Some(digest),
    decreases files.len() - k,
{
    if k < files.len() && files[k].digest != Some(digest) {
        lemma_first_from(files, digest, k + 1);
    }
}

/// With deduplication on, the registry after `n` files holds exactly the
/// digests of those files, each with the name of the first file that has it.
pub proof fn lemma_seen_before(files: Seq<FileView>, n: int, digest: Seq<char>)
    requires
        0 <= n <= files.len(),
    ensures
        seen_before(true, files, n).contains_key(digest) == (first_with(files, digest) < n),
        first_with(files, digest) < n ==> seen_before(true, files, n)[digest] == files[first_with(
            files,
            digest,
        )].name,
    decreases n,
{
    lemma_first_from(files, digest, 0);
    if n > 0 {
        lemma_seen_before(files, n - 1, digest);
    }
}

/// Without deduplication no file is ever a duplicate: the rules alone decide
/// each file, whatever digests the files carry.
pub proof fn lemma_rules_alone_decide(rules: Seq<RuleView>, files: Seq<FileView>, i: int)
    requires
        0 <= i < files.len(),
    ensures
        outcome_at(rules, false, files, i) == classify(rules, files[i].name),
        !(outcome_at(rules, false, files, i) is DuplicateRemoved),
{
}

/// Of the files that share a digest, exactly the first of the listing
/// survives: the rules decide it by its own name, and every later one is a
/// duplicate of it.
pub proof fn lemma_first_of_digest_survives(rules: Seq<RuleView>, files: Seq<FileView>, i: int)
    requires
        0 <= i < files.len(),
        files[i].digest is Some,
    ensures
        ({
            let first = first_with(files, files[i].digest->0);
            &&& 0 <= first <= i
            &&& files[first].digest == files[i].digest
            &&& outcome_at(rules, true, files, first) == classify(rules, files[first].name)
            &&& i != first ==> outcome_at(rules, true, files, i) == OutcomeView::DuplicateRemoved {
                original: files[first].name,
            }
        }),
{
    let digest = files[i].digest->0;
    let first = first_with(files, digest);
    lemma_first_from(files, digest, 0);
    lemma_seen_before(files, i, digest);
    lemma_seen_before(files, first, digest);
}

/// In a sorted listing the survivor among the files that share a digest has
/// the least name of them.
pub proof fn lemma_survivor_has_least_name(files: Seq<FileView>, i: int)
    requires
        0 <= i < files.len(),
        files[i].digest is Some,
        sorted(Seq::new(files.len(), |k: int| files[k].name)),
    ensures
        lex_le(files[first_with(files, files[i].digest->0)].name, files[i].name),
{
    let digest = files[i].digest->0;
    let first = first_with(files, digest);
    let names = Seq::new(files.len(), |k: int| files[k].name);
    lemma_first_from(files, digest, 0);
    if first < i {
        assert(lex_le(names[first], names[i]));
    } else {
        lemma_lex_le_reflexive(files[i].name);
    }
}

/// The files that a run leaves in place among the first `n` of its listing,
/// in listing order.
pub open spec fn left_in_place(
    rules: Seq<RuleView>,
    deduplicate: bool,
    files: Seq<FileView>,
    n: int,
) -> Seq<FileView>
    decreases n,
{
    if n <= 0 {
        Seq::empty()
    } else if outcome_at(rules, deduplicate, files, n - 1) is LeftInPlace {
        left_in_place(rules, deduplicate, files, n - 1).push(files[n - 1])
    } else {
        left_in_place(rules, deduplicate, files, n - 1)
    }
}

/// Two listings that agree in their first `k` files have seen the same
/// digests after them.
pub proof fn lemma_seen_before_same_prefix(
    deduplicate: bool,
    a: Seq<FileView>,
    b: Seq<FileView>,
    k: int,
)
    requires
        0 <= k <= a.len(),
        k <= b.len(),
        forall|j: int| 0 <= j < k ==> a[j] == b[j],
    ensures
        seen_before(deduplicate, a, k) == seen_before(deduplicate, b, k),
    decreases k,
{
    if k > 0 {
        lemma_seen_before_same_prefix(deduplicate, a, b, k - 1);
    }
}

/// A digest seen among the files left in place was seen among all the files.
proof fn lemma_left_in_place_seen(
    rules: Seq<RuleView>,
    deduplicate: bool,
    files: Seq<FileView>,
    n: int,
    digest: Seq<char>,
)
    requires
        0 <= n <= files.len(),
    ensures
        ({
            let left = left_in_place(rules, deduplicate, files, n);
            seen_before(deduplicate, left, left.len() as int).contains_key(digest)
                ==> seen_before(deduplicate, files, n).contains_key(digest)
        }),
    decreases n,
{
    if n > 0 {
        lemma_left_in_place_seen(rules, deduplicate, files, n - 1, digest);
        let earlier = left_in_place(rules, deduplicate, files, n - 1);
        let left = left_in_place(rules, deduplicate, files, n);
        if outcome_at(rules, deduplicate, files, n - 1) is LeftInPlace {
            lemma_seen_before_same_prefix(deduplicate, left, earlier, earlier.len() as int);
        }
    }
}

/// Idempotence: a second run over the files that the first left in place
/// leaves every one of them in place again. None has a rule, and no two share
/// a digest, or the first run would not have left both.
pub proof fn lemma_second_run_leaves_all(
    rules: Seq<RuleView>,
    deduplicate: bool,
    files: Seq<FileView>,
    n: int,
    k: int,
)
    requires
        0 <= n <= files.len(),
        0 <= k < left_in_place(rules, deduplicate, files, n).len(),
    ensures
        outcome_at(rules, deduplicate, left_in_place(rules, deduplicate, files, n), k)
            is LeftInPlace,
    decreases n,
{
    let earlier = left_in_place(rules, deduplicate, files, n - 1);
    let left = left_in_place(rules, deduplicate, files, n);
    if outcome_at(rules, deduplicate, files, n - 1) is LeftInPlace {
        lemma_seen_before_same_prefix(deduplicate, left, earlier, earlier.len() as int);
        if k < earlier.len() {
            lemma_seen_before_same_prefix(deduplicate, left, earlier, k);
            lemma_second_run_leaves_all(rules, deduplicate, files, n - 1, k);
        } else {
            if files[n - 1].digest is Some {
                lemma_left_in_place_seen(rules, deduplicate, files, n - 1, files[n - 1].digest->0);
            }
        }
    } else {
        lemma_second_run_leaves_all(rules, deduplicate, files, n - 1, k);
    }
}

/// Where a file lies: directly in the directory, or in one of its folders.
pub ghost struct Place {
    pub folder: Option<Seq<u8>>,
    pub name: Seq<u8>,
}

/// The place of the file `name` directly in the directory.
pub open spec fn at_root(name: Seq<u8>) -> Place {
    Place { folder: None, name }
}

/// The place of the file `name` in `folder`.
pub open spec fn in_folder(folder: Seq<u8>, name: Seq<u8>) -> Place {
    Place { folder: Some(folder), name }
}

/// What one step does to the directory, taken as a mapping from place to
/// content: a duplicate leaves it, a moved file changes its place, and a step
/// that is not applied changes nothing.
pub open spec fn carry_out(
    tree: Map<Place, Seq<u8>>,
    name: Seq<u8>,
    outcome: OutcomeView,
    apply: bool,
) -> Map<Place, Seq<u8>> {
    if !apply {
        tree
    } else {
        match outcome {
            OutcomeView::DuplicateRemoved { .. } => tree.remove(at_root(name)),
            OutcomeView::Moved { folder } => tree.remove(at_root(name)).insert(
                in_folder(folder, name),
                tree[at_root(name)],
            ),
            OutcomeView::LeftInPlace => tree,
        }
    }
}

/// The directory once the steps for the first `n` files have been carried
/// out.
pub open spec fn tree_after(
    tree: Map<Place, Seq<u8>>,
    rules: Seq<RuleView>,
    dry_run: bool,
    deduplicate: bool,
    files: Seq<FileView>,
    n: int,
) -> Map<Place, Seq<u8>>
    decreases n,
{
    if n <= 0 {
        tree
    } else {
        let outcome = outcome_at(rules, deduplicate, files, n - 1);
        carry_out(
            tree_after(tree, rules, dry_run, deduplicate, files, n - 1),
            files[n - 1].name,
            outcome,
            applies(dry_run, outcome),
        )
    }
}

/// The files are files of the directory itself, no name twice.
pub open spec fn is_listing_of(files: Seq<FileView>, tree: Map<Place, Seq<u8>>) -> bool {
    &&& forall|i: int, j: int| 0 <= i < j < files.len() ==> files[i].name != files[j].name
    &&& forall|i: int| 0 <= i < files.len() ==> tree.contains_key(at_root(#[trigger] files[i].name))
}

/// No file that is to be moved finds its name taken in its folder. Where one
/// does, the move fails and the run ends there.
pub open spec fn destinations_free(
    tree: Map<Place, Seq<u8>>,
    rules: Seq<RuleView>,
    deduplicate: bool,
    files: Seq<FileView>,
) -> bool {
    forall|i: int|
        0 <= i < files.len() ==> match #[trigger] outcome_at(rules, deduplicate, files, i) {
            OutcomeView::Moved { folder } => !tree.contains_key(in_folder(folder, files[i].name)),
            _ => true,
        }
}

/// Whether one of the first `n` files has the name `name`.
pub open spec fn listed_before(files: Seq<FileView>, n: int, name: Seq<u8>) -> bool {
    exists|i: int| 0 <= i < n && (#[trigger] files[i]).name == name
}

/// Whether one of the first `n` files is moved to `place`.
pub open spec fn moved_into(
    rules: Seq<RuleView>,
    deduplicate: bool,
    files: Seq<FileView>,
    n: int,
    place: Place,
) -> bool {
    exists|i: int|
        0 <= i < n && place.folder is Some && (#[trigger] files[i]).name == place.name
            && outcome_at(rules, deduplicate, files, i) == (OutcomeView::Moved {
            folder: place.folder->0,
        })
}

/// The file `name` lies in `after` as `outcome` says: gone as a duplicate, in
/// its folder with the content it had, or where it was.
pub open spec fn lies_as_decided(
    before: Map<Place, Seq<u8>>,
    after: Map<Place, Seq<u8>>,
    name: Seq<u8>,
    outcome: OutcomeView,
) -> bool {
    match outcome {
        OutcomeView::DuplicateRemoved { .. } => !after.contains_key(at_root(name)),
        OutcomeView::Moved { folder } => {
            &&& !after.contains_key(at_root(name))
            &&& after.contains_key(in_folder(folder, name))
            &&& after[in_folder(folder, name)] == before[at_root(name)]
        },
        OutcomeView::LeftInPlace => {
            &&& after.contains_key(at_root(name))
            &&& after[at_root(name)] == before[at_root(name)]
        },
    }
}

/// What a run that is applied does to the directory: each listed file lies as
/// its outcome says, every file that was not listed is untouched, and nothing
/// is in the directory that was not there or was not moved to its place.
pub proof fn lemma_run_effect(
    tree: Map<Place, Seq<u8>>,
    rules: Seq<RuleView>,
    deduplicate: bool,
    files: Seq<FileView>,
    n: int,
)
    requires
        is_listing_of(files, tree),
        destinations_free(tree, rules, deduplicate, files),
        0 <= n <= files.len(),
    ensures
        ({
            let after = tree_after(tree, rules, false, deduplicate, files, n);
            &&& forall|i: int|
                0 <= i < n ==> lies_as_decided(
                    tree,
                    after,
                    (#[trigger] files[i]).name,
                    outcome_at(rules, deduplicate, files, i),
                )
            &&& forall|p: Place| #[trigger]
                tree.contains_key(p) && !(p.folder is None && listed_before(files, n, p.name))
                    ==> after.contains_key(p) && after[p] == tree[p]
            &&& forall|q: Place| #[trigger]
                after.contains_key(q) ==> tree.contains_key(q) || moved_into(
                    rules,
                    deduplicate,
                    files,
                    n,
                    q,
                )
        }),
    decreases n,
{
    if n > 0 {
        lemma_run_effect(tree, rules, deduplicate, files, n - 1);
        let x = n - 1;
        let earlier = tree_after(tree, rules, false, deduplicate, files, n - 1);
        let after = tree_after(tree, rules, false, deduplicate, files, n);
        let name = files[x].name;
        let outcome = outcome_at(rules, deduplicate, files, x);
        assert(!listed_before(files, n - 1, name));
        assert(tree.contains_key(at_root(name)));
        assert(earlier.contains_key(at_root(name)) && earlier[at_root(name)] == tree[at_root(
            name,
        )]);
        assert forall|i: int| 0 <= i < n implies lies_as_decided(
            tree,
            after,
            (#[trigger] files[i]).name,
            outcome_at(rules, deduplicate, files, i),
        ) by {
            if i < x {
                assert(files[i].name != name);
                assert(lies_as_decided(
                    tree,
                    earlier,
                    files[i].name,
                    outcome_at(rules, deduplicate, files, i),
                ));
            }
        }
        assert forall|p: Place| #[trigger]
            tree.contains_key(p) && !(p.folder is None && listed_before(
                files,
                n,
                p.name,
            )) implies after.contains_key(p) && after[p] == tree[p] by {
            if p.folder is None {
                assert(!listed_before(files, n - 1, p.name));
                assert(files[x].name != p.name);
            }
            assert(p != at_root(name));
        }
        assert forall|q: Place| #[trigger] after.contains_key(q) implies tree.contains_key(q)
            || moved_into(rules, deduplicate, files, n, q) by {
            if earlier.contains_key(q) {
                if !tree.contains_key(q) {
                    assert(moved_into(rules, deduplicate, files, n - 1, q));
                }
            } else {
                assert(files[x].name == q.name);
            }
        }
    }
}

/// After a run that is applied, a listed file is still directly in the
/// directory exactly if the run left it in place. So the next listing of the
/// directory holds, of these files, those of `left_in_place`.
pub proof fn lemma_what_remains_was_left_in_place(
    tree: Map<Place, Seq<u8>>,
    rules: Seq<RuleView>,
    deduplicate: bool,
    files: Seq<FileView>,
    i: int,
)
    requires
        is_listing_of(files, tree),
        destinations_free(tree, rules, deduplicate, files),
        0 <= i < files.len(),
    ensures
        tree_after(tree, rules, false, deduplicate, files, files.len() as int).contains_key(
            at_root(files[i].name),
        ) == (outcome_at(rules, deduplicate, files, i) is LeftInPlace),
{
    lemma_run_effect(tree, rules, deduplicate, files, files.len() as int);
    assert(lies_as_decided(
        tree,
        tree_after(tree, rules, false, deduplicate, files, files.len() as int),
        files[i].name,
        outcome_at(rules, deduplicate, files, i),
    ));
}

/// A dry run leaves the directory as it was, whatever it decides.
pub proof fn lemma_dry_run_changes_nothing(
    tree: Map<Place, Seq<u8>>,
    rules: Seq<RuleView>,
    deduplicate: bool,
    files: Seq<FileView>,
    n: int,
)
    ensures
        tree_after(tree, rules, true, deduplicate, files, n) == tree,
    decreases n,
{
    if n > 0 {
        lemma_dry_run_changes_nothing(tree, rules, deduplicate, files, n - 1);
    }
}

/// A second run, over the files that the first left in place, leaves the
/// directory as the first run left it.
pub proof fn lemma_second_run_changes_nothing(
    tree: Map<Place, Seq<u8>>,
    rules: Seq<RuleView>,
    dry_run: bool,
    deduplicate: bool,
    files: Seq<FileView>,
    m: int,
)
    requires
        0 <= m <= left_in_place(rules, deduplicate, files, files.len() as int).len(),
    ensures
        tree_after(
            tree,
            rules,
            dry_run,
            deduplicate,
            left_in_place(rules, deduplicate, files, files.len() as int),
            m,
        ) == tree,
    decreases m,
{
    if m > 0 {
        lemma_second_run_changes_nothing(tree, rules, dry_run, deduplicate, files, m - 1);
        lemma_second_run_leaves_all(rules, deduplicate, files, files.len() as int, m - 1);
    }
}

/// Where a run without deduplication puts the file that lies at `place`: a
/// listed file whose extension has a rule goes into the folder of that rule,
/// and every other file stays.
pub open spec fn new_place(rules: Seq<RuleView>, files: Seq<FileView>, place: Place) -> Place {
    if place.folder is None && listed_before(files, files.len() as int, place.name) {
        match destination_of(rules, place.name) {
            Some(folder) => in_folder(folder, place.name),
            None => place,
        }
    } else {
        place
    }
}

/// Without deduplication a run loses no file and makes none: every file of
/// the directory is afterwards at exactly one place, with its content, the
/// place that `new_place` gives; no two files come to lie at one place; and
/// nothing else is in the directory.
pub proof fn lemma_without_deduplication_files_are_kept(
    tree: Map<Place, Seq<u8>>,
    rules: Seq<RuleView>,
    files: Seq<FileView>,
)
    requires
        is_listing_of(files, tree),
        destinations_free(tree, rules, false, files),
    ensures
        ({
            let after = tree_after(tree, rules, false, false, files, files.len() as int);
            &&& forall|p: Place| #[trigger]
                tree.contains_key(p) ==> {
                    &&& after.contains_key(new_place(rules, files, p))
                    &&& after[new_place(rules, files, p)] == tree[p]
                    &&& new_place(rules, files, p) != p ==> !after.contains_key(p)
                }
            &&& forall|p: Place, q: Place|
                #![trigger tree.contains_key(p), tree.contains_key(q)]
                tree.contains_key(p) && tree.contains_key(q) && p != q ==> new_place(
                    rules,
                    files,
                    p,
                ) != new_place(rules, files, q)
            &&& forall|q: Place| #[trigger]
                after.contains_key(q) ==> exists|p: Place| #[trigger]
                    tree.contains_key(p) && new_place(rules, files, p) == q
        }),
{
    let n = files.len() as int;
    let after = tree_after(tree, rules, false, false, files, n);
    lemma_run_effect(tree, rules, false, files, n);
    assert forall|p: Place| #[trigger] tree.contains_key(p) implies {
        &&& after.contains_key(new_place(rules, files, p))
        &&& after[new_place(rules, files, p)] == tree[p]
        &&& new_place(rules, files, p) != p ==> !after.contains_key(p)
    } by {
        if p.folder is None && listed_before(files, n, p.name) {
            let i = choose|i: int| 0 <= i < n && (#[trigger] files[i]).name == p.name;
            assert(lies_as_decided(tree, after, files[i].name, outcome_at(rules, false, files, i)));
            assert(p == at_root(files[i].name));
        }
    }
    assert forall|p: Place, q: Place|
        #![trigger tree.contains_key(p), tree.contains_key(q)]
        tree.contains_key(p) && tree.contains_key(q) && p != q implies new_place(rules, files, p)
            != new_place(rules, files, q) by {
        if new_place(rules, files, p) != p {
            let i = choose|i: int| 0 <= i < n && (#[trigger] files[i]).name == p.name;
            assert(outcome_at(rules, false, files, i) == classify(rules, files[i].name));
        }
        if new_place(rules, files, q) != q {
            let j = choose|j: int| 0 <= j < n && (#[trigger] files[j]).name == q.name;
            assert(outcome_at(rules, false, files, j) == classify(rules, files[j].name));
        }
    }
    assert forall|q: Place| #[trigger] after.contains_key(q) implies exists|p: Place| #[trigger]
        tree.contains_key(p) && new_place(rules, files, p) == q by {
        if moved_into(rules, false, files, n, q) {
            let i = choose|i: int|
                0 <= i < n && q.folder is Some && (#[trigger] files[i]).name == q.name
                    && outcome_at(rules, false, files, i) == (OutcomeView::Moved {
                    folder: q.folder->0,
                });
            let p = at_root(files[i].name);
            assert(tree.contains_key(p));
            assert(listed_before(files, n, p.name));
            assert(new_place(rules, files, p) == q);
        } else {
            assert(tree.contains_key(q));
            if q.folder is None && listed_before(files, n, q.name) {
                let i = choose|i: int| 0 <= i < n && (#[trigger] files[i]).name == q.name;
                assert(lies_as_decided(
                    tree,
                    after,
                    files[i].name,
                    outcome_at(rules, false, files, i),
                ));
                assert(q == at_root(files[i].name));
            }
            assert(new_place(rules, files, q) == q);
        }
    }
}

/// A dry run decides as an applied run does, and applies nothing: two plans
/// for the same rules and files, one dry and one applied, hold the same
/// outcomes, and the applied one carries out all but those that leave a file
/// in place.
pub proof fn lemma_dry_run_decides_the_same(
    dry: Seq<Step>,
    applied: Seq<Step>,
    rules: Seq<RuleView>,
    deduplicate: bool,
    files: Seq<FileView>,
)
    requires
        is_plan_of(dry, rules, true, deduplicate, files),
        is_plan_of(applied, rules, false, deduplicate, files),
    ensures
        dry.len() == applied.len(),
        forall|i: int|
            0 <= i < dry.len() ==> {
                &&& (#[trigger] dry[i]).outcome@ == applied[i].outcome@
                &&& !dry[i].apply
                &&& applied[i].apply == !(applied[i].outcome@ is LeftInPlace)
            },
{
    assert forall|i: int| 0 <= i < dry.len() implies {
        &&& (#[trigger] dry[i]).outcome@ == applied[i].outcome@
        &&& !dry[i].apply
        &&& applied[i].apply == !(applied[i].outcome@ is LeftInPlace)
    } by {
        assert(applied[i].outcome@ == outcome_at(rules, deduplicate, files, i));
    }
}

/// The listing as a run with deduplication sees it: each name with the digest
/// of the content that the file has in the directory.
pub open spec fn observed(tree: Map<Place, Seq<u8>>, names: Seq<Seq<u8>>) -> Seq<FileView> {
    Seq::new(names.len(), |i: int| observed_file(true, names[i], tree[at_root(names[i])]))
}

/// No two listed files of different content have the same digest.
pub open spec fn digests_tell_apart(tree: Map<Place, Seq<u8>>, names: Seq<Seq<u8>>) -> bool {
    forall|a: int, b: int|
        0 <= a < names.len() && 0 <= b < names.len() && observed_file(
            true,
            names[a],
            #[trigger] tree[at_root(names[a])],
        ).digest == observed_file(true, names[b], #[trigger] tree[at_root(names[b])]).digest
            ==> tree[at_root(names[a])] == tree[at_root(names[b])]
}

/// Of the files that have the content of file `i`, one survives a run with
/// deduplication: the first of the sorted listing, which has the least name
/// of them. It lies afterwards where the rules put it by its own name. Every
/// other one is removed as its duplicate, and is afterwards neither in the
/// directory nor in a folder in which it was not before.
pub proof fn lemma_one_of_equal_content_survives(
    tree: Map<Place, Seq<u8>>,
    rules: Seq<RuleView>,
    names: Seq<Seq<u8>>,
    i: int,
)
    requires
        sorted(names),
        is_listing_of(observed(tree, names), tree),
        destinations_free(tree, rules, true, observed(tree, names)),
        digests_tell_apart(tree, names),
        0 <= i < names.len(),
    ensures
        ({
            let files = observed(tree, names);
            let first = first_with(files, files[i].digest->0);
            let after = tree_after(tree, rules, false, true, files, names.len() as int);
            &&& 0 <= first <= i
            &&& tree[at_root(names[first])] == tree[at_root(names[i])]
            &&& lex_le(names[first], names[i])
            &&& lies_as_decided(tree, after, names[first], classify(rules, names[first]))
            &&& forall|k: int|
                0 <= k < names.len() && k != first && tree[at_root(#[trigger] names[k])]
                    == tree[at_root(names[i])] ==> {
                    &&& outcome_at(rules, true, files, k) == OutcomeView::DuplicateRemoved {
                        original: names[first],
                    }
                    &&& !after.contains_key(at_root(names[k]))
                    &&& forall|folder: Seq<u8>|
                        !tree.contains_key(in_folder(folder, names[k])) ==> !after.contains_key(
                            #[trigger] in_folder(folder, names[k]),
                        )
                }
        }),
{
    let files = observed(tree, names);
    let n = names.len() as int;
    let first = first_with(files, files[i].digest->0);
    let after = tree_after(tree, rules, false, true, files, n);
    lemma_first_of_digest_survives(rules, files, i);
    assert(Seq::new(files.len(), |k: int| files[k].name) =~= names);
    lemma_survivor_has_least_name(files, i);
    lemma_run_effect(tree, rules, true, files, n);
    assert(lies_as_decided(tree, after, files[first].name, outcome_at(rules, true, files, first)));
    assert(tree[at_root(names[first])] == tree[at_root(names[i])]);
    assert forall|k: int|
        0 <= k < names.len() && k != first && tree[at_root(#[trigger] names[k])] == tree[at_root(
            names[i],
        )] implies {
        &&& outcome_at(rules, true, files, k) == OutcomeView::DuplicateRemoved {
            original: names[first],
        }
        &&& !after.contains_key(at_root(names[k]))
        &&& forall|folder: Seq<u8>|
            !tree.contains_key(in_folder(folder, names[k])) ==> !after.contains_key(
                #[trigger] in_folder(folder, names[k]),
            )
    } by {
        assert(files[k].digest == files[i].digest);
        lemma_first_of_digest_survives(rules, files, k);
        assert(lies_as_decided(tree, after, files[k].name, outcome_at(rules, true, files, k)));
        assert forall|folder: Seq<u8>|
            !tree.contains_key(in_folder(folder, names[k])) implies !after.contains_key(
            #[trigger] in_folder(folder, names[k]),
        ) by {
            let q = in_folder(folder, names[k]);
            if after.contains_key(q) {
                assert(moved_into(rules, true, files, n, q));
                let m = choose|m: int|
                    0 <= m < n && q.folder is Some && (#[trigger] files[m]).name == q.name
                        && outcome_at(rules, true, files, m) == (OutcomeView::Moved {
                        folder: q.folder->0,
                    });
                assert(m == k) by {
                    if m < k {
                        assert(files[m].name != files[k].name);
                    } else if k < m {
                        assert(files[k].name != files[m].name);
                    }
                }
            }
        }
    }
}

/// The files that a run leaves in place are those whose outcome says so: each
/// is a file of the listing with that outcome, and each such file is among
/// them.
pub proof fn lemma_left_in_place(
    rules: Seq<RuleView>,
    deduplicate: bool,
    files: Seq<FileView>,
    n: int,
)
    requires
        0 <= n <= files.len(),
    ensures
        ({
            let left = left_in_place(rules, deduplicate, files, n);
            &&& forall|k: int|
                0 <= k < left.len() ==> exists|i: int|
                    0 <= i < n && #[trigger] files[i] == #[trigger] left[k] && outcome_at(
                        rules,
                        deduplicate,
                        files,
                        i,
                    ) is LeftInPlace
            &&& forall|i: int|
                0 <= i < n && outcome_at(rules, deduplicate, files, i) is LeftInPlace
                    ==> left.contains(#[trigger] files[i])
        }),
    decreases n,
{
    if n > 0 {
        lemma_left_in_place(rules, deduplicate, files, n - 1);
        let earlier = left_in_place(rules, deduplicate, files, n - 1);
        let left = left_in_place(rules, deduplicate, files, n);
        assert forall|k: int| 0 <= k < left.len() implies exists|i: int|
            0 <= i < n && #[trigger] files[i] == #[trigger] left[k] && outcome_at(
                rules,
                deduplicate,
                files,
                i,
            ) is LeftInPlace by {
            if k < earlier.len() {
                let i = choose|i: int|
                    0 <= i < n - 1 && #[trigger] files[i] == #[trigger] earlier[k] && outcome_at(
                        rules,
                        deduplicate,
                        files,
                        i,
                    ) is LeftInPlace;
                assert(files[i] == left[k]);
            } else {
                assert(files[n - 1] == left[k]);
            }
        }
        assert forall|i: int|
            0 <= i < n && outcome_at(rules, deduplicate, files, i) is LeftInPlace implies left.contains(
            #[trigger] files[i],
        ) by {
            if i < n - 1 {
                let k = choose|k: int| 0 <= k < earlier.len() && earlier[k] == files[i];
                assert(left[k] == files[i]);
            } else {
                assert(left[left.len() - 1] == files[i]);
            }
        }
    }
}

} // verus!
