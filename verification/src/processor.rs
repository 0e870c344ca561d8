//! The file processor: what is decided for each listed file, in listing order.

use crate::config::RunConfig;
use crate::digest::{file_hash, hex_lower, sha256};
use crate::names::copy_from;
use crate::registry::SeenHashRegistry;
use crate::rules::{destination_of, RuleSet, RuleView};
use vstd::prelude::*;

verus! {

/// A file of the listing: its name, and the digest of its content where one
/// was computed.
#[derive(Debug, Clone, PartialEq, Eq)]
pub struct ListedFile {
    pub name: Vec<u8>,
    pub digest: Option<String>,
}

/// A listed file as plain values.
pub ghost struct FileView {
    pub name: Seq<u8>,
    pub digest: Option<Seq<char>>,
}

impl View for ListedFile {
    type V = FileView;

    open spec fn view(&self) -> FileView {
        FileView {
            name: self.name@,
            digest: match self.digest {
                Some(d) => Some(d@),
                None => None,
            },
        }
    }
}

/// The views of a list of files, in the same order.
pub open spec fn file_views(files: Seq<ListedFile>) -> Seq<FileView> {
    Seq::new(files.len(), |i: int| files[i]@)
}

/// What is decided for one file.
#[derive(Debug, Clone, PartialEq, Eq)]
pub enum Outcome {
    /// Its content repeats that of `original`, an earlier file: it is to be
    /// removed, and is not classified.
    DuplicateRemoved { original: Vec<u8> },
    /// A rule lists its extension: it is to be moved into `folder`, under its
    /// own name.
    Moved { folder: Vec<u8> },
    /// It has no extension, or no rule lists it: it stays where it is.
    LeftInPlace,
}

/// An outcome as plain values.
pub ghost enum OutcomeView {
    DuplicateRemoved { original: Seq<u8> },
    Moved { folder: Seq<u8> },
    LeftInPlace,
}

impl View for Outcome {
    type V = OutcomeView;

    open spec fn view(&self) -> OutcomeView {
        match *self {
            Outcome::DuplicateRemoved { original } => OutcomeView::DuplicateRemoved {
                original: original@,
            },
            Outcome::Moved { folder } => OutcomeView::Moved { folder: folder@ },
            Outcome::LeftInPlace => OutcomeView::LeftInPlace,
        }
    }
}

/// The outcome for one file, and whether the directory is to be changed
/// accordingly. In a dry run the outcome is reported and nothing is applied.
#[derive(Debug, Clone, PartialEq, Eq)]
pub struct Step {
    pub outcome: Outcome,
    pub apply: bool,
}

/// The digest that may accompany a file, as plain values.
pub open spec fn digest_view(digest: Option<&String>) -> Option<Seq<char>> {
    match digest {
        Some(d) => Some(d@),
        None => None,
    }
}

/// A file as a run sees it: with the digest of its content where the run
/// removes duplicates, and without a digest where it does not.
pub open spec fn observed_file(deduplicate: bool, name: Seq<u8>, content: Seq<u8>) -> FileView {
    FileView {
        name,
        digest: if deduplicate {
            Some(hex_lower(sha256(content)))
        } else {
            None
        },
    }
}

/// A file takes part in deduplication when the run asks for it and the file
/// comes with a digest.
pub open spec fn takes_part(deduplicate: bool, digest: Option<Seq<char>>) -> bool {
    deduplicate && digest is Some
}

/// Where a file goes by the rules alone.
pub open spec fn classify(rules: Seq<RuleView>, name: Seq<u8>) -> OutcomeView {
    match destination_of(rules, name) {
        Some(folder) => OutcomeView::Moved { folder },
        None => OutcomeView::LeftInPlace,
    }
}

/// The outcome for a file, given the digests seen before it: a duplicate of
/// the file recorded for its digest if there is one, else what the rules say
/// of its name.
pub open spec fn decide(
    rules: Seq<RuleView>,
    deduplicate: bool,
    seen: Map<Seq<char>, Seq<u8>>,
    file: FileView,
) -> OutcomeView {
    if takes_part(deduplicate, file.digest) && seen.contains_key(file.digest->0) {
        OutcomeView::DuplicateRemoved { original: seen[file.digest->0] }
    } else {
        classify(rules, file.name)
    }
}

/// The digests seen once a file has been processed: its own is recorded, with
/// its name, unless it was recorded before.
pub open spec fn seen_after(
    deduplicate: bool,
    seen: Map<Seq<char>, Seq<u8>>,
    file: FileView,
) -> Map<Seq<char>, Seq<u8>> {
    if takes_part(deduplicate, file.digest) && !seen.contains_key(file.digest->0) {
        seen.insert(file.digest->0, file.name)
    } else {
        seen
    }
}

/// Whether an outcome changes the directory: never in a dry run, and never for
/// a file that stays in place.
pub open spec fn applies(dry_run: bool, outcome: OutcomeView) -> bool {
    !dry_run && !(outcome is LeftInPlace)
}

/// The digests seen once the first `n` files of a run have been processed.
pub open spec fn seen_before(deduplicate: bool, files: Seq<FileView>, n: int) -> Map<
    Seq<char>,
    Seq<u8>,
>
    decreases n,
{
    if n <= 0 {
        Map::empty()
    } else {
        seen_after(deduplicate, seen_before(deduplicate, files, n - 1), files[n - 1])
    }
}

/// The outcome for file `i` of a run over `files`.
pub open spec fn outcome_at(
    rules: Seq<RuleView>,
    deduplicate: bool,
    files: Seq<FileView>,
    i: int,
) -> OutcomeView {
    decide(rules, deduplicate, seen_before(deduplicate, files, i), files[i])
}

/// Whether `steps` are the steps of a run over `files`: one for each file, with
/// the outcome that the run decides for it, applied or not as the run is.
pub open spec fn is_plan_of(
    steps: Seq<Step>,
    rules: Seq<RuleView>,
    dry_run: bool,
    deduplicate: bool,
    files: Seq<FileView>,
) -> bool {
    &&& steps.len() == files.len()
    &&& forall|i: int|
        0 <= i < files.len() ==> {
            &&& (#[trigger] steps[i]).outcome@ == outcome_at(rules, deduplicate, files, i)
            &&& steps[i].apply == applies(dry_run, steps[i].outcome@)
        }
}

/// The state of one run: its rules and settings, and the digests seen so far.
pub struct Processor {
    pub rules: RuleSet,
    pub config: RunConfig,
    pub registry: SeenHashRegistry,
}

impl Processor {
    /// The processor at the start of a run, before any file was seen.
    pub fn new(rules: RuleSet, config: RunConfig) -> (processor: Self)
        ensures
            processor.rules == rules,
            processor.config == config,
            processor.registry@ == Map::<Seq<char>, Seq<u8>>::empty(),
    {
        Processor { rules, config, registry: SeenHashRegistry::new() }
    }

    /// Whether the next file should come with the digest of its content.
    pub fn wants_digest(&self) -> (wanted: bool)
        ensures
            wanted == self.config.deduplicate,
    {
        self.config.deduplicate
    }

    /// Decides what happens to the next file of the listing. With
    /// deduplication on and a digest given, a file whose digest was seen is a
    /// duplicate of the file recorded for it and is not classified; otherwise
    /// its digest is recorded and the rules decide.
    pub fn process_entry(&mut self, name: &[u8], digest: Option<&String>) -> (step: Step)
        ensures
            step.outcome@ == decide(
                old(self).rules@,
                old(self).config.deduplicate,
                old(self).registry@,
                FileView { name: name@, digest: digest_view(digest) },
            ),
            step.apply == applies(old(self).config.dry_run, step.outcome@),
            final(self).registry@ == seen_after(
                old(self).config.deduplicate,
                old(self).registry@,
                FileView { name: name@, digest: digest_view(digest) },
            ),
            final(self).rules == old(self).rules,
            final(self).config == old(self).config,
    {
        if self.config.deduplicate {
            if let Some(d) = digest {
                match self.registry.get(d) {
                    Some(original) => {
                        return Step {
                            outcome: Outcome::DuplicateRemoved { original },
                            apply: !self.config.dry_run,
                        };
                    },
                    None => {
                        let path = copy_from(name, 0);
                        assert(path@ =~= name@);
                        self.registry.insert(d.clone(), path);
                    },
                }
            }
        }
        match self.rules.destination(name) {
            Some(folder) => Step { outcome: Outcome::Moved { folder }, apply: !self.config.dry_run },
            None => Step { outcome: Outcome::LeftInPlace, apply: false },
        }
    }

    /// Decides what happens to the next file of the listing, given its
    /// content: with deduplication on, the file goes by the digest of the
    /// content; with it off, the content is not looked at.
    pub fn process_content(&mut self, name: &[u8], content: &[u8]) -> (step: Step)
        ensures
            step.outcome@ == decide(
                old(self).rules@,
                old(self).config.deduplicate,
                old(self).registry@,
                observed_file(old(self).config.deduplicate, name@, content@),
            ),
            step.apply == applies(old(self).config.dry_run, step.outcome@),
            final(self).registry@ == seen_after(
                old(self).config.deduplicate,
                old(self).registry@,
                observed_file(old(self).config.deduplicate, name@, content@),
            ),
            final(self).rules == old(self).rules,
            final(self).config == old(self).config,
    {
        if self.config.deduplicate {
            let digest = file_hash(content);
            self.process_entry(name, Some(&digest))
        } else {
            self.process_entry(name, None)
        }
    }
}

/// Processes a whole listing, in order, from an empty registry: one step for
/// each file.
pub fn plan(rules: RuleSet, config: RunConfig, files: &Vec<ListedFile>) -> (steps: Vec<Step>)
    ensures
        is_plan_of(steps@, rules@, config.dry_run, config.deduplicate, file_views(files@)),
{
    let ghost the_rules = rules@;
    let ghost dry_run = config.dry_run;
    let ghost deduplicate = config.deduplicate;
    let mut processor = Processor::new(rules, config);
    let mut steps: Vec<Step> = Vec::new();
    let mut i: usize = 0;
    while i < files.len()
        invariant
            i <= files.len(),
            steps@.len() == i,
            processor.rules@ == the_rules,
            processor.config.dry_run == dry_run,
            processor.config.deduplicate == deduplicate,
            processor.registry@ == seen_before(deduplicate, file_views(files@), i as int),
            forall|k: int|
                0 <= k < i ==> {
                    &&& (#[trigger] steps@[k]).outcome@ == outcome_at(
                        the_rules,
                        deduplicate,
                        file_views(files@),
                        k,
                    )
                    &&& steps@[k].apply == applies(dry_run, steps@[k].outcome@)
                },
        decreases files.len() - i,
    {
        let digest = match &files[i].digest {
            Some(d) => Some(d),
            None => None,
        };
        assert(file_views(files@)[i as int] == FileView {
            name: files@[i as int].name@,
            digest: digest_view(digest),
        });
        let step = processor.process_entry(files[i].name.as_slice(), digest);
        steps.push(step);
        i = i + 1;
    }
    steps
}

} // verus!
