//! The rule set: which folder takes the files of which extensions.

use crate::names::{
    copy_from, extension, extension_of, lemma_lex_le_antisymmetric, lemma_lex_le_reflexive,
    lemma_lex_le_total, lemma_lex_le_transitive, lex_le, lex_lt, name_eq, name_le, opt_view,
    views,
};
use vstd::prelude::*;

verus! {

/// One rule: files whose extension is listed go to `folder`. Extensions are
/// compared byte for byte and carry no leading dot.
#[derive(Debug, Clone, PartialEq, Eq)]
pub struct Rule {
    pub folder: Vec<u8>,
    pub extensions: Vec<Vec<u8>>,
}

/// A rule as plain values.
pub ghost struct RuleView {
    pub folder: Seq<u8>,
    pub extensions: Seq<Seq<u8>>,
}

impl View for Rule {
    type V = RuleView;

    open spec fn view(&self) -> RuleView {
        RuleView { folder: self.folder@, extensions: views(self.extensions@) }
    }
}

/// The views of a list of rules, in the same order.
pub open spec fn rule_views(rules: Seq<Rule>) -> Seq<RuleView> {
    Seq::new(rules.len(), |i: int| rules[i]@)
}

/// Rules are ordered when their folder names strictly ascend in lexicographic
/// byte order; no folder then has two rules.
pub open spec fn ordered(rules: Seq<RuleView>) -> bool {
    forall|i: int, j: int| 0 <= i < j < rules.len() ==> lex_lt(rules[i].folder, rules[j].folder)
}

/// The extensions that `rules` list for `folder`, if it has a rule.
pub open spec fn lookup(rules: Seq<RuleView>, folder: Seq<u8>) -> Option<Seq<Seq<u8>>>
    decreases rules.len(),
{
    if rules.len() == 0 {
        None
    } else if rules.last().folder == folder {
        Some(rules.last().extensions)
    } else {
        lookup(rules.drop_last(), folder)
    }
}

/// The first rule at or after position `k` that lists `ext`.
pub open spec fn first_rule_from(rules: Seq<RuleView>, ext: Seq<u8>, k: int) -> Option<int>
    decreases rules.len() - k,
{
    if k < 0 || k >= rules.len() {
        None
    } else if rules[k].extensions.contains(ext) {
        Some(k)
    } else {
        first_rule_from(rules, ext, k + 1)
    }
}

/// The folder for a file of extension `ext`: that of the first rule, in the
/// order of the rule set, that lists the extension.
pub open spec fn folder_for(rules: Seq<RuleView>, ext: Seq<u8>) -> Option<Seq<u8>> {
    match first_rule_from(rules, ext, 0) {
        Some(k) => Some(rules[k].folder),
        None => None,
    }
}

/// The folder into which the file `name` goes: none for a name without an
/// extension, and none where no rule lists its extension.
pub open spec fn destination_of(rules: Seq<RuleView>, name: Seq<u8>) -> Option<Seq<u8>> {
    match extension_of(name) {
        Some(ext) => folder_for(rules, ext),
        None => None,
    }
}

/// What `first_rule_from` finds lists the extension, and no rule between `k`
/// and it does; where it finds nothing, no rule from `k` on lists it.
pub proof fn lemma_first_rule_from(rules: Seq<RuleView>, ext: Seq<u8>, k: int)
    requires
        0 <= k,
    ensures
        match first_rule_from(rules, ext, k) {
            Some(m) => k <= m < rules.len() && rules[m].extensions.contains(ext) && forall|j: int|
                k <= j < m ==> !rules[j].extensions.contains(ext),
            None => forall|j: int| k <= j < rules.len() ==> !rules[j].extensions.contains(ext),
        },
    decreases rules.len() - k,
{
    if k < rules.len() && !rules[k].extensions.contains(ext) {
        lemma_first_rule_from(rules, ext, k + 1);
    }
}

/// Where several rules list an extension, the one whose folder name is least
/// in lexicographic byte order decides.
pub proof fn lemma_least_folder_wins(rules: Seq<RuleView>, ext: Seq<u8>, j: int)
    requires
        ordered(rules),
        0 <= j < rules.len(),
        rules[j].extensions.contains(ext),
    ensures
        folder_for(rules, ext) is Some,
        lex_le(folder_for(rules, ext)->0, rules[j].folder),
{
    lemma_first_rule_from(rules, ext, 0);
    let k = first_rule_from(rules, ext, 0)->0;
    if k == j {
        lemma_lex_le_reflexive(rules[j].folder);
    } else {
        assert(lex_lt(rules[k].folder, rules[j].folder));
    }
}

/// Putting a rule for a folder that had none, at any position, adds that
/// folder to the mapping and leaves the others as they were.
proof fn lemma_lookup_insert(rules: Seq<RuleView>, p: int, rule: RuleView, folder: Seq<u8>)
    requires
        0 <= p <= rules.len(),
        forall|j: int| 0 <= j < rules.len() ==> rules[j].folder != rule.folder,
    ensures
        lookup(rules.insert(p, rule), folder) == if folder == rule.folder {
            Some(rule.extensions)
        } else {
            lookup(rules, folder)
        },
    decreases rules.len(),
{
    let next = rules.insert(p, rule);
    if p == rules.len() {
        assert(next.drop_last() =~= rules);
    } else {
        assert(next.drop_last() =~= rules.drop_last().insert(p, rule));
        assert(next.last() == rules.last());
        lemma_lookup_insert(rules.drop_last(), p, rule, folder);
    }
}

/// A folder that no rule names has no entry in the mapping.
proof fn lemma_lookup_absent(rules: Seq<RuleView>, folder: Seq<u8>)
    requires
        forall|j: int| 0 <= j < rules.len() ==> rules[j].folder != folder,
    ensures
        lookup(rules, folder) is None,
    decreases rules.len(),
{
    if rules.len() > 0 {
        lemma_lookup_absent(rules.drop_last(), folder);
    }
}

/// A folder with an entry in the mapping has a rule that gives it.
proof fn lemma_lookup_found(rules: Seq<RuleView>, folder: Seq<u8>)
    requires
        lookup(rules, folder) is Some,
    ensures
        exists|j: int|
            0 <= j < rules.len() && (#[trigger] rules[j]).folder == folder && lookup(rules, folder)
                == Some(rules[j].extensions),
    decreases rules.len(),
{
    if rules.last().folder == folder {
        assert(rules[rules.len() - 1].folder == folder);
    } else {
        lemma_lookup_found(rules.drop_last(), folder);
        let j = choose|j: int|
            0 <= j < rules.len() - 1 && (#[trigger] rules.drop_last()[j]).folder == folder
                && lookup(rules.drop_last(), folder) == Some(rules.drop_last()[j].extensions);
        assert(rules[j] == rules.drop_last()[j]);
    }
}

/// An ordered rule set is its mapping and nothing more: two ordered lists of
/// rules that give every folder the same extensions are the same list.
pub proof fn lemma_ordered_rules_unique(a: Seq<RuleView>, b: Seq<RuleView>)
    requires
        ordered(a),
        ordered(b),
        forall|f: Seq<u8>| lookup(a, f) == lookup(b, f),
    ensures
        a == b,
    decreases a.len(),
{
    if a.len() == 0 {
        if b.len() > 0 {
            assert(lookup(a, b.last().folder) == lookup(b, b.last().folder));
        }
        assert(a =~= b);
    } else {
        let fa = a.last().folder;
        assert(lookup(a, fa) == lookup(b, fa));
        lemma_lookup_found(b, fa);
        let fb = b.last().folder;
        assert(lookup(a, fb) == lookup(b, fb));
        lemma_lookup_found(a, fb);
        let j = choose|j: int|
            0 <= j < b.len() && (#[trigger] b[j]).folder == fa && lookup(b, fa) == Some(
                b[j].extensions,
            );
        let i = choose|i: int|
            0 <= i < a.len() && (#[trigger] a[i]).folder == fb && lookup(a, fb) == Some(
                a[i].extensions,
            );
        if j < b.len() - 1 {
            assert(lex_lt(b[j].folder, b[b.len() - 1].folder));
        }
        if i < a.len() - 1 {
            assert(lex_lt(a[i].folder, a[a.len() - 1].folder));
        }
        if fa != fb {
            lemma_lex_le_antisymmetric(fa, fb);
        }
        assert(a.last() == b.last());
        let a0 = a.drop_last();
        let b0 = b.drop_last();
        assert forall|f: Seq<u8>| lookup(a0, f) == lookup(b0, f) by {
            if f == fa {
                assert forall|k: int| 0 <= k < a0.len() implies a0[k].folder != f by {
                    assert(lex_lt(a[k].folder, a[a.len() - 1].folder));
                }
                assert forall|k: int| 0 <= k < b0.len() implies b0[k].folder != f by {
                    assert(lex_lt(b[k].folder, b[b.len() - 1].folder));
                }
                lemma_lookup_absent(a0, f);
                lemma_lookup_absent(b0, f);
            } else {
                assert(lookup(a, f) == lookup(b, f));
            }
        }
        assert(ordered(a0)) by {
            assert forall|x: int, y: int| 0 <= x < y < a0.len() implies lex_lt(
                a0[x].folder,
                a0[y].folder,
            ) by {
                assert(lex_lt(a[x].folder, a[y].folder));
            }
        }
        assert(ordered(b0)) by {
            assert forall|x: int, y: int| 0 <= x < y < b0.len() implies lex_lt(
                b0[x].folder,
                b0[y].folder,
            ) by {
                assert(lex_lt(b[x].folder, b[y].folder));
            }
        }
        lemma_ordered_rules_unique(a0, b0);
        assert(a =~= a0.push(a.last()));
        assert(b =~= b0.push(b.last()));
    }
}

/// Replacing the one rule of a folder changes that folder's entry in the
/// mapping and leaves the others as they were.
proof fn lemma_lookup_update(rules: Seq<RuleView>, p: int, rule: RuleView, folder: Seq<u8>)
    requires
        0 <= p < rules.len(),
        rules[p].folder == rule.folder,
        forall|j: int| 0 <= j < rules.len() && j != p ==> rules[j].folder != rule.folder,
    ensures
        lookup(rules.update(p, rule), folder) == if folder == rule.folder {
            Some(rule.extensions)
        } else {
            lookup(rules, folder)
        },
    decreases rules.len(),
{
    let next = rules.update(p, rule);
    if p == rules.len() - 1 {
        assert(next.drop_last() =~= rules.drop_last());
    } else {
        assert(next.drop_last() =~= rules.drop_last().update(p, rule));
        assert(next.last() == rules.last());
        lemma_lookup_update(rules.drop_last(), p, rule, folder);
    }
}

/// Whether `list` holds `ext`.
fn lists(list: &Vec<Vec<u8>>, ext: &[u8]) -> (r: bool)
    ensures
        r == views(list@).contains(ext@),
{
    let mut i: usize = 0;
    while i < list.len()
        invariant
            i <= list.len(),
            forall|j: int| 0 <= j < i ==> views(list@)[j] != ext@,
        decreases list.len() - i,
    {
        if name_eq(list[i].as_slice(), ext) {
            assert(views(list@)[i as int] == ext@);
            return true;
        }
        i = i + 1;
    }
    false
}

/// The rules of one run, kept in ascending order of folder name, one rule to a
/// folder. Where several rules list an extension, the first in that order
/// decides.
pub struct RuleSet {
    rules: Vec<Rule>,
}

impl View for RuleSet {
    type V = Seq<RuleView>;

    /// The rules as plain values, in the order in which they are tried.
    closed spec fn view(&self) -> Seq<RuleView> {
        rule_views(self.rules@)
    }
}

impl RuleSet {
    #[verifier::type_invariant]
    spec fn ascending(self) -> bool {
        ordered(rule_views(self.rules@))
    }

    /// A rule set without rules.
    pub fn new() -> (rules: Self)
        ensures
            rules@ == Seq::<RuleView>::empty(),
    {
        let rules = RuleSet { rules: Vec::new() };
        assert(rules@ =~= Seq::<RuleView>::empty());
        rules
    }

    /// The number of rules.
    pub fn len(&self) -> (n: usize)
        ensures
            n == self@.len(),
    {
        self.rules.len()
    }

    /// The rule set with the extensions of `folder` set to `extensions`, in
    /// place of those it had if it had a rule. The rules stay in ascending
    /// order of folder name.
    pub fn with_rule(self, folder: Vec<u8>, extensions: Vec<Vec<u8>>) -> (out: Self)
        ensures
            ordered(out@),
            forall|f: Seq<u8>| #[trigger]
                lookup(out@, f) == if f == folder@ {
                    Some(views(extensions@))
                } else {
                    lookup(self@, f)
                },
    {
        proof {
            use_type_invariant(&self);
        }
        let mut rules = self.rules;
        let mut p: usize = 0;
        while p < rules.len() && !name_le(folder.as_slice(), rules[p].folder.as_slice())
            invariant
                p <= rules.len(),
                forall|k: int| 0 <= k < p ==> !lex_le(folder@, rules@[k].folder@),
            decreases rules.len() - p,
        {
            p = p + 1;
        }
        let rule = Rule { folder, extensions };
        let ghost before = rule_views(rules@);
        let ghost added = rule@;
        assert forall|k: int| 0 <= k < p implies lex_lt(before[k].folder, added.folder) by {
            lemma_lex_le_total(before[k].folder, added.folder);
        }
        if p < rules.len() && name_le(rules[p].folder.as_slice(), rule.folder.as_slice()) {
            proof {
                lemma_lex_le_antisymmetric(before[p as int].folder, added.folder);
                let next = before.update(p as int, added);
                assert(rule_views(rules@.update(p as int, rule)) =~= next);
                assert(ordered(next)) by {
                    assert forall|i: int, j: int| 0 <= i < j < next.len() implies lex_lt(
                        next[i].folder,
                        next[j].folder,
                    ) by {
                        assert(lex_lt(before[i].folder, before[j].folder));
                    }
                }
                assert forall|f: Seq<u8>| #[trigger]
                    lookup(next, f) == if f == added.folder {
                        Some(added.extensions)
                    } else {
                        lookup(before, f)
                    } by {
                    assert forall|j: int| 0 <= j < before.len() && j != p implies before[j].folder
                        != added.folder by {
                        if j < p {
                            assert(lex_lt(before[j].folder, before[p as int].folder));
                        } else {
                            assert(lex_lt(before[p as int].folder, before[j].folder));
                        }
                    }
                    lemma_lookup_update(before, p as int, added, f);
                }
            }
            rules.set(p, rule);
            RuleSet { rules }
        } else {
            proof {
                let next = before.insert(p as int, added);
                assert(rule_views(rules@.insert(p as int, rule)) =~= next);
                assert forall|k: int| p <= k < before.len() implies lex_lt(
                    added.folder,
                    before[k].folder,
                ) by {
                    if k > p {
                        assert(lex_lt(before[p as int].folder, before[k].folder));
                        lemma_lex_le_transitive(
                            added.folder,
                            before[p as int].folder,
                            before[k].folder,
                        );
                        if added.folder == before[k].folder {
                            lemma_lex_le_antisymmetric(added.folder, before[p as int].folder);
                        }
                    }
                }
                assert(ordered(next)) by {
                    assert forall|i: int, j: int| 0 <= i < j < next.len() implies lex_lt(
                        next[i].folder,
                        next[j].folder,
                    ) by {
                        if j < p {
                            assert(lex_lt(before[i].folder, before[j].folder));
                        } else if i > p {
                            assert(lex_lt(before[i - 1].folder, before[j - 1].folder));
                        } else if i < p && j > p {
                            lemma_lex_le_transitive(
                                before[i].folder,
                                added.folder,
                                before[j - 1].folder,
                            );
                            if before[i].folder == before[j - 1].folder {
                                lemma_lex_le_antisymmetric(before[i].folder, added.folder);
                            }
                        }
                    }
                }
                assert forall|f: Seq<u8>| #[trigger]
                    lookup(next, f) == if f == added.folder {
                        Some(added.extensions)
                    } else {
                        lookup(before, f)
                    } by {
                    lemma_lookup_insert(before, p as int, added, f);
                }
            }
            rules.insert(p, rule);
            RuleSet { rules }
        }
    }

    /// The folder into which the file `name` goes, if a rule lists its
    /// extension.
    pub fn destination(&self, name: &[u8]) -> (folder: Option<Vec<u8>>)
        ensures
            opt_view(folder) == destination_of(self@, name@),
    {
        let ext = match extension(name) {
            Some(ext) => ext,
            None => {
                return None;
            },
        };
        let mut k: usize = 0;
        while k < self.rules.len()
            invariant
                k <= self.rules.len(),
                extension_of(name@) == Some(ext@),
                first_rule_from(self@, ext@, 0) == first_rule_from(self@, ext@, k as int),
            decreases self.rules.len() - k,
        {
            assert(self@[k as int] == self.rules@[k as int]@);
            if lists(&self.rules[k].extensions, ext.as_slice()) {
                let folder = copy_from(self.rules[k].folder.as_slice(), 0);
                assert(folder@ =~= self@[k as int].folder);
                return Some(folder);
            }
            k = k + 1;
        }
        None
    }
}

} // verus!
