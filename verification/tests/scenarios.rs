//! Whole runs against a directory held in memory.

use std::collections::BTreeMap;

use organizador::config::RunConfig;
use organizador::digest::file_hash;
use organizador::listing::{list_files, DirEntry};
use organizador::processor::{Outcome, Processor, Step};
use organizador::rules::RuleSet;

/// A directory: content by path, relative to the directory, `/` between a
/// folder and a file in it.
type Dir = BTreeMap<String, Vec<u8>>;

fn rule_set(rules: &[(&str, &[&str])]) -> RuleSet {
    let mut set = RuleSet::new();
    for (folder, extensions) in rules {
        let extensions = extensions.iter().map(|e| e.as_bytes().to_vec()).collect();
        set = set.with_rule(folder.as_bytes().to_vec(), extensions);
    }
    set
}

fn dir_of(files: &[(&str, &str)]) -> Dir {
    files.iter().map(|(path, content)| (path.to_string(), content.as_bytes().to_vec())).collect()
}

/// The entries of the directory itself: its files, and one entry for each
/// folder.
fn entries_of(dir: &Dir) -> Vec<DirEntry> {
    let mut entries: Vec<DirEntry> = Vec::new();
    for path in dir.keys() {
        let entry = match path.split_once('/') {
            Some((folder, _)) => DirEntry { name: folder.as_bytes().to_vec(), is_dir: true },
            None => DirEntry { name: path.as_bytes().to_vec(), is_dir: false },
        };
        if !entries.contains(&entry) {
            entries.push(entry);
        }
    }
    entries.reverse();
    entries
}

/// Runs the organizer over `dir` as a program around the library would, and
/// returns each listed name with its step.
fn run(dir: &mut Dir, rules: RuleSet, dry_run: bool, deduplicate: bool) -> Vec<(String, Step)> {
    let config = RunConfig { config_file: b"config.toml".to_vec(), dry_run, deduplicate };
    let files = list_files(&entries_of(dir), &config);
    let mut processor = Processor::new(rules, config);
    let mut report = Vec::new();
    for name in files {
        let path = String::from_utf8(name.clone()).unwrap();
        let digest = if processor.wants_digest() { Some(file_hash(&dir[&path])) } else { None };
        let step = processor.process_entry(&name, digest.as_ref());
        if step.apply {
            match &step.outcome {
                Outcome::DuplicateRemoved { .. } => {
                    dir.remove(&path);
                },
                Outcome::Moved { folder } => {
                    let content = dir.remove(&path).unwrap();
                    let target = format!("{}/{}", String::from_utf8(folder.clone()).unwrap(), path);
                    assert!(!dir.contains_key(&target));
                    dir.insert(target, content);
                },
                Outcome::LeftInPlace => unreachable!(),
            }
        }
        report.push((path, step));
    }
    report
}

const DOCUMENTOS_PDF_TXT: &[(&str, &[&str])] = &[("Documentos", &["pdf", "txt"])];
const DOCUMENTOS_TXT: &[(&str, &[&str])] = &[("Documentos", &["txt"])];

#[test]
fn test_organize_single_file() {
    let mut dir = dir_of(&[
        ("config.toml", "\n[rules.Documentos]\nextensions = [\"pdf\", \"txt\"]\n"),
        ("reporte.pdf", "Contenido del PDF de prueba"),
    ]);
    let report = run(&mut dir, rule_set(DOCUMENTOS_PDF_TXT), false, false);
    assert_eq!(report.len(), 1);
    assert!(!dir.contains_key("reporte.pdf"));
    assert_eq!(dir["Documentos/reporte.pdf"], b"Contenido del PDF de prueba".to_vec());
    assert!(dir.contains_key("config.toml"));
    assert_eq!(dir.len(), 2);
}

#[test]
fn test_deduplicate_files() {
    let mut dir = dir_of(&[
        ("config.toml", "\n[rules.Documentos]\nextensions = [\"txt\"]\n"),
        ("original.txt", "mismo contenido"),
        ("copia.txt", "mismo contenido"),
        ("otro.txt", "contenido diferente"),
    ]);
    run(&mut dir, rule_set(DOCUMENTOS_TXT), false, true);
    assert!(!dir.contains_key("copia.txt"));
    assert!(dir.contains_key("Documentos/copia.txt"));
    assert!(!dir.contains_key("original.txt"));
    assert!(!dir.contains_key("Documentos/original.txt"));
    assert!(dir.contains_key("Documentos/otro.txt"));
}

#[test]
fn duplicate_names_the_first_file_as_original() {
    let mut dir = dir_of(&[
        ("original.txt", "mismo contenido"),
        ("copia.txt", "mismo contenido"),
    ]);
    let report = run(&mut dir, rule_set(DOCUMENTOS_TXT), false, true);
    assert_eq!(report.len(), 2);
    assert_eq!(report[0].0, "copia.txt");
    assert_eq!(
        report[0].1,
        Step { outcome: Outcome::Moved { folder: b"Documentos".to_vec() }, apply: true }
    );
    assert_eq!(report[1].0, "original.txt");
    assert_eq!(
        report[1].1,
        Step {
            outcome: Outcome::DuplicateRemoved { original: b"copia.txt".to_vec() },
            apply: true,
        }
    );
}

#[test]
fn file_without_extension_stays() {
    let mut dir = dir_of(&[("LEEME", "sin extension"), ("datos.bin", "sin regla")]);
    let before = dir.clone();
    let report = run(&mut dir, rule_set(DOCUMENTOS_PDF_TXT), false, true);
    assert_eq!(dir, before);
    assert_eq!(report.len(), 2);
    for (_, step) in report {
        assert_eq!(step, Step { outcome: Outcome::LeftInPlace, apply: false });
    }
}

#[test]
fn without_deduplication_every_file_is_kept() {
    let mut dir = dir_of(&[
        ("a.txt", "uno"),
        ("b.txt", "uno"),
        ("c.pdf", "dos"),
        ("d", "tres"),
        ("e.zip", "cuatro"),
        ("Documentos/viejo.txt", "cinco"),
    ]);
    run(&mut dir, rule_set(DOCUMENTOS_PDF_TXT), false, false);
    let expected = dir_of(&[
        ("Documentos/a.txt", "uno"),
        ("Documentos/b.txt", "uno"),
        ("Documentos/c.pdf", "dos"),
        ("d", "tres"),
        ("e.zip", "cuatro"),
        ("Documentos/viejo.txt", "cinco"),
    ]);
    assert_eq!(dir, expected);
}

#[test]
fn one_file_of_each_content_survives() {
    let mut dir = dir_of(&[
        ("c.txt", "igual"),
        ("a.pdf", "igual"),
        ("b", "igual"),
        ("z.txt", "otro"),
        ("y.md", "otro"),
    ]);
    run(&mut dir, rule_set(DOCUMENTOS_PDF_TXT), false, true);
    let expected = dir_of(&[("Documentos/a.pdf", "igual"), ("y.md", "otro")]);
    assert_eq!(dir, expected);
}

#[test]
fn dry_run_changes_nothing_and_decides_the_same() {
    let files = [
        ("original.txt", "mismo contenido"),
        ("copia.txt", "mismo contenido"),
        ("otro.txt", "contenido diferente"),
        ("notas", "sin extension"),
    ];
    let mut dry = dir_of(&files);
    let mut applied = dir_of(&files);
    let dry_report = run(&mut dry, rule_set(DOCUMENTOS_TXT), true, true);
    let applied_report = run(&mut applied, rule_set(DOCUMENTOS_TXT), false, true);
    assert_eq!(dry, dir_of(&files));
    assert_ne!(applied, dir_of(&files));
    assert_eq!(dry_report.len(), applied_report.len());
    for (d, a) in dry_report.iter().zip(applied_report.iter()) {
        assert_eq!(d.0, a.0);
        assert_eq!(d.1.outcome, a.1.outcome);
        assert!(!d.1.apply);
        assert_eq!(a.1.apply, a.1.outcome != Outcome::LeftInPlace);
    }
}

#[test]
fn dry_run_skips_classification_of_duplicates() {
    let mut dir = dir_of(&[("a.txt", "x"), ("b.txt", "x")]);
    let report = run(&mut dir, rule_set(DOCUMENTOS_TXT), true, true);
    assert_eq!(
        report[1].1,
        Step { outcome: Outcome::DuplicateRemoved { original: b"a.txt".to_vec() }, apply: false }
    );
}

#[test]
fn second_run_changes_nothing() {
    let mut dir = dir_of(&[
        ("config.toml", "[rules]"),
        ("a.txt", "uno"),
        ("b.txt", "uno"),
        ("c.pdf", "dos"),
        ("d", "uno"),
        ("e.zip", "tres"),
        ("f.zip", "tres"),
    ]);
    run(&mut dir, rule_set(DOCUMENTOS_PDF_TXT), false, true);
    let after_first = dir.clone();
    let report = run(&mut dir, rule_set(DOCUMENTOS_PDF_TXT), false, true);
    assert_eq!(dir, after_first);
    assert_eq!(report.len(), 1);
    assert_eq!(report[0].0, "e.zip");
    for (_, step) in report {
        assert_eq!(step, Step { outcome: Outcome::LeftInPlace, apply: false });
    }
}
