//! The parts one by one, on given values.

use organizador::config::RunConfig;
use organizador::digest::{file_hash, to_hex};
use organizador::listing::{list_files, DirEntry};
use organizador::names::{extension, name_eq, name_le};
use organizador::processor::{plan, ListedFile, Outcome, Processor, Step};
use organizador::registry::SeenHashRegistry;
use organizador::rules::RuleSet;

fn bytes(s: &str) -> Vec<u8> {
    s.as_bytes().to_vec()
}

fn file(name: &str) -> DirEntry {
    DirEntry { name: bytes(name), is_dir: false }
}

fn folder(name: &str) -> DirEntry {
    DirEntry { name: bytes(name), is_dir: true }
}

fn config(dry_run: bool, deduplicate: bool) -> RunConfig {
    RunConfig { config_file: bytes("config.toml"), dry_run, deduplicate }
}

fn named(config_file: &str) -> RunConfig {
    RunConfig { config_file: bytes(config_file), dry_run: false, deduplicate: false }
}

fn moved(folder: &str, apply: bool) -> Step {
    Step { outcome: Outcome::Moved { folder: bytes(folder) }, apply }
}

fn left() -> Step {
    Step { outcome: Outcome::LeftInPlace, apply: false }
}

#[test]
fn names_compare_byte_by_byte() {
    assert!(name_le(b"copia.txt", b"original.txt"));
    assert!(!name_le(b"original.txt", b"copia.txt"));
    assert!(name_le(b"a", b"a"));
    assert!(name_le(b"", b"a"));
    assert!(!name_le(b"a", b""));
    assert!(name_le(b"a", b"ab"));
    assert!(!name_le(b"ab", b"a"));
    assert!(name_le(b"Z", b"a"));
    assert!(!name_le(b"a", b"Z"));
    assert!(name_le(b"a.txt", "\u{e1}.txt".as_bytes()));
    assert!(name_le(&[0x7f], &[0x80]));
    assert!(!name_le(&[0xff], &[0x00, 0xff]));
}

#[test]
fn names_are_equal_when_their_bytes_are() {
    assert!(name_eq(b"config.toml", b"config.toml"));
    assert!(!name_eq(b"config.toml", b"Config.toml"));
    assert!(!name_eq(b"config.toml", b"config.tom"));
    assert!(name_eq(b"", b""));
}

#[test]
fn extension_is_what_follows_the_last_dot() {
    assert_eq!(extension(b"reporte.pdf"), Some(bytes("pdf")));
    assert_eq!(extension(b"archivo.tar.gz"), Some(bytes("gz")));
    assert_eq!(extension(b"a.b"), Some(bytes("b")));
    assert_eq!(extension(b".oculto.txt"), Some(bytes("txt")));
    assert_eq!(extension(b"Foto.JPG"), Some(bytes("JPG")));
}

#[test]
fn extension_is_absent_or_empty_at_the_edges() {
    assert_eq!(extension(b"LEEME"), None);
    assert_eq!(extension(b""), None);
    assert_eq!(extension(b".bashrc"), None);
    assert_eq!(extension(b"."), None);
    assert_eq!(extension(b".."), None);
    assert_eq!(extension(b"nota."), Some(Vec::new()));
    assert_eq!(extension(b"..."), Some(Vec::new()));
    assert_eq!(extension(b"a.."), Some(Vec::new()));
    assert_eq!(extension(b"..a"), Some(bytes("a")));
}

#[test]
fn listing_is_sorted_and_leaves_out_folders_and_the_configuration() {
    let entries = vec![
        file("original.txt"),
        folder("Documentos"),
        file("config.toml"),
        file("copia.txt"),
        file("otro.txt"),
        folder("zeta.txt"),
        file("Copia.txt"),
    ];
    let files = list_files(&entries, &named("config.toml"));
    assert_eq!(files, vec![bytes("Copia.txt"), bytes("copia.txt"), bytes("original.txt"), bytes("otro.txt")]);
}

#[test]
fn listing_does_not_depend_on_the_order_read() {
    let one = vec![file("b"), file("a"), file("c.txt"), folder("d"), file("a.txt")];
    let mut other = one.clone();
    other.reverse();
    let expected = vec![bytes("a"), bytes("a.txt"), bytes("b"), bytes("c.txt")];
    assert_eq!(list_files(&one, &named("config.toml")), expected);
    assert_eq!(list_files(&other, &named("config.toml")), expected);
}

#[test]
fn listing_keeps_a_configuration_that_is_named_otherwise() {
    let entries = vec![file("config.toml"), file("reglas.toml")];
    assert_eq!(list_files(&entries, &named("reglas.toml")), vec![bytes("config.toml")]);
    assert_eq!(list_files(&entries, &named("conf/reglas.toml")), vec![bytes("config.toml"), bytes("reglas.toml")]);
    assert_eq!(list_files(&Vec::new(), &named("config.toml")), Vec::<Vec<u8>>::new());
}

#[test]
fn hex_has_two_lower_case_digits_for_each_byte() {
    assert_eq!(to_hex(&[10, 20, 30]), "0a141e");
    assert_eq!(to_hex(&[]), "");
    assert_eq!(to_hex(&[0x00, 0x0f, 0xf0, 0xff, 0x9a, 0xbc, 0xde]), "000ff0ff9abcde");
    assert_eq!(to_hex(&[0x01, 0x23, 0x45, 0x67, 0x89]), "0123456789");
}

#[test]
fn file_hash_is_sha256_in_hex() {
    assert_eq!(
        file_hash(b"abc"),
        "ba7816bf8f01cfea414140de5dae2223b00361a396177a9cb410ff61f20015ad"
    );
    assert_eq!(
        file_hash(b""),
        "e3b0c44298fc1c149afbf4c8996fb92427ae41e4649b934ca495991b7852b855"
    );
    assert_eq!(
        file_hash(b"hello world"),
        "b94d27b9934d3e08a52e52d7da7dabfac484efe37a5380ee9088f7ace2efcde9"
    );
    assert_eq!(file_hash(b"mismo contenido").len(), 64);
    assert_eq!(file_hash(b"mismo contenido"), file_hash(b"mismo contenido"));
    assert_ne!(file_hash(b"mismo contenido"), file_hash(b"contenido diferente"));
}

#[test]
fn registry_keeps_the_path_recorded_for_a_digest() {
    let mut registry = SeenHashRegistry::new();
    let one = file_hash(b"uno");
    let two = file_hash(b"dos");
    assert_eq!(registry.get(&one), None);
    registry.insert(one.clone(), bytes("a.txt"));
    assert_eq!(registry.get(&one), Some(bytes("a.txt")));
    assert_eq!(registry.get(&two), None);
    registry.insert(two.clone(), bytes("b.txt"));
    assert_eq!(registry.get(&one), Some(bytes("a.txt")));
    assert_eq!(registry.get(&two), Some(bytes("b.txt")));
    registry.insert(one.clone(), bytes("c.txt"));
    assert_eq!(registry.get(&one), Some(bytes("c.txt")));
    assert_eq!(registry.get(&two), Some(bytes("b.txt")));
}

#[test]
fn rules_send_a_file_to_the_folder_of_its_extension() {
    let rules = RuleSet::new()
        .with_rule(bytes("Documentos"), vec![bytes("pdf"), bytes("txt")])
        .with_rule(bytes("Imagenes"), vec![bytes("png"), bytes("jpg")]);
    assert_eq!(rules.len(), 2);
    assert_eq!(rules.destination(b"reporte.pdf"), Some(bytes("Documentos")));
    assert_eq!(rules.destination(b"notas.txt"), Some(bytes("Documentos")));
    assert_eq!(rules.destination(b"foto.jpg"), Some(bytes("Imagenes")));
    assert_eq!(rules.destination(b"foto.JPG"), None);
    assert_eq!(rules.destination(b"foto.jpeg"), None);
    assert_eq!(rules.destination(b"pdf"), None);
    assert_eq!(rules.destination(b".pdf"), None);
    assert_eq!(rules.destination(b"copia.pdf.jpg"), Some(bytes("Imagenes")));
    assert_eq!(RuleSet::new().destination(b"reporte.pdf"), None);
}

#[test]
fn the_least_folder_name_wins_whatever_the_order_of_insertion() {
    let one = RuleSet::new()
        .with_rule(bytes("Varios"), vec![bytes("txt")])
        .with_rule(bytes("Documentos"), vec![bytes("txt")])
        .with_rule(bytes("Textos"), vec![bytes("txt"), bytes("md")]);
    let other = RuleSet::new()
        .with_rule(bytes("Documentos"), vec![bytes("txt")])
        .with_rule(bytes("Textos"), vec![bytes("txt"), bytes("md")])
        .with_rule(bytes("Varios"), vec![bytes("txt")]);
    assert_eq!(one.destination(b"a.txt"), Some(bytes("Documentos")));
    assert_eq!(other.destination(b"a.txt"), Some(bytes("Documentos")));
    assert_eq!(one.destination(b"a.md"), Some(bytes("Textos")));
    assert_eq!(other.destination(b"a.md"), Some(bytes("Textos")));
}

#[test]
fn a_folder_has_one_rule_and_the_last_set_stands() {
    let rules = RuleSet::new()
        .with_rule(bytes("Documentos"), vec![bytes("pdf")])
        .with_rule(bytes("Otros"), vec![bytes("pdf"), bytes("txt")])
        .with_rule(bytes("Documentos"), vec![bytes("doc")]);
    assert_eq!(rules.len(), 2);
    assert_eq!(rules.destination(b"a.doc"), Some(bytes("Documentos")));
    assert_eq!(rules.destination(b"a.pdf"), Some(bytes("Otros")));
}

#[test]
fn a_rule_for_the_empty_extension_takes_names_that_end_in_a_dot() {
    let rules = RuleSet::new().with_rule(bytes("Raros"), vec![Vec::new()]);
    assert_eq!(rules.destination(b"nota."), Some(bytes("Raros")));
    assert_eq!(rules.destination(b"nota"), None);
}

#[test]
fn processor_records_the_first_file_of_a_digest() {
    let rules = RuleSet::new().with_rule(bytes("Documentos"), vec![bytes("txt")]);
    let mut processor = Processor::new(rules, config(false, true));
    assert!(processor.wants_digest());
    let same = file_hash(b"mismo contenido");
    let other = file_hash(b"contenido diferente");
    assert_eq!(processor.process_entry(b"copia.txt", Some(&same)), moved("Documentos", true));
    assert_eq!(
        processor.process_entry(b"original.txt", Some(&same)),
        Step { outcome: Outcome::DuplicateRemoved { original: bytes("copia.txt") }, apply: true }
    );
    assert_eq!(processor.process_entry(b"otro.txt", Some(&other)), moved("Documentos", true));
    assert_eq!(
        processor.process_entry(b"tercero", Some(&same)),
        Step { outcome: Outcome::DuplicateRemoved { original: bytes("copia.txt") }, apply: true }
    );
    assert_eq!(processor.registry.get(&same), Some(bytes("copia.txt")));
    assert_eq!(processor.registry.get(&other), Some(bytes("otro.txt")));
}

#[test]
fn processor_without_deduplication_looks_at_no_digest() {
    let rules = RuleSet::new().with_rule(bytes("Documentos"), vec![bytes("txt")]);
    let mut processor = Processor::new(rules, config(false, false));
    assert!(!processor.wants_digest());
    let same = file_hash(b"mismo contenido");
    assert_eq!(processor.process_entry(b"copia.txt", Some(&same)), moved("Documentos", true));
    assert_eq!(processor.process_entry(b"original.txt", Some(&same)), moved("Documentos", true));
    assert_eq!(processor.process_entry(b"sin_extension", None), left());
    assert_eq!(processor.registry.get(&same), None);
}

#[test]
fn processor_classifies_a_file_that_comes_without_digest() {
    let rules = RuleSet::new().with_rule(bytes("Documentos"), vec![bytes("txt")]);
    let mut processor = Processor::new(rules, config(true, true));
    let same = file_hash(b"mismo contenido");
    assert_eq!(processor.process_entry(b"a.txt", Some(&same)), moved("Documentos", false));
    assert_eq!(processor.process_entry(b"b.txt", None), moved("Documentos", false));
    assert_eq!(
        processor.process_entry(b"c.txt", Some(&same)),
        Step { outcome: Outcome::DuplicateRemoved { original: bytes("a.txt") }, apply: false }
    );
}

#[test]
fn processor_computes_the_digest_of_the_content() {
    let rules = RuleSet::new().with_rule(bytes("Documentos"), vec![bytes("txt")]);
    let mut processor = Processor::new(rules, config(false, true));
    assert_eq!(
        processor.process_content(b"copia.txt", b"mismo contenido"),
        moved("Documentos", true)
    );
    assert_eq!(
        processor.process_content(b"original.txt", b"mismo contenido"),
        Step { outcome: Outcome::DuplicateRemoved { original: bytes("copia.txt") }, apply: true }
    );
    assert_eq!(
        processor.process_content(b"otro.txt", b"contenido diferente"),
        moved("Documentos", true)
    );
    assert_eq!(processor.registry.get(&file_hash(b"mismo contenido")), Some(bytes("copia.txt")));

    let rules = RuleSet::new().with_rule(bytes("Documentos"), vec![bytes("txt")]);
    let mut processor = Processor::new(rules, config(false, false));
    assert_eq!(processor.process_content(b"a.txt", b"x"), moved("Documentos", true));
    assert_eq!(processor.process_content(b"b.txt", b"x"), moved("Documentos", true));
    assert_eq!(processor.registry.get(&file_hash(b"x")), None);
}

#[test]
fn plan_gives_one_step_for_each_file() {
    let rules = RuleSet::new().with_rule(bytes("Documentos"), vec![bytes("txt")]);
    let same = file_hash(b"mismo contenido");
    let files = vec![
        ListedFile { name: bytes("copia.txt"), digest: Some(same.clone()) },
        ListedFile { name: bytes("notas"), digest: Some(file_hash(b"otras")) },
        ListedFile { name: bytes("original.txt"), digest: Some(same.clone()) },
    ];
    let steps = plan(rules, config(false, true), &files);
    assert_eq!(
        steps,
        vec![
            moved("Documentos", true),
            left(),
            Step { outcome: Outcome::DuplicateRemoved { original: bytes("copia.txt") }, apply: true },
        ]
    );
    let none = plan(RuleSet::new(), config(false, true), &Vec::new());
    assert!(none.is_empty());
}

#[test]
fn plan_of_a_dry_run_holds_the_same_outcomes() {
    let same = file_hash(b"mismo contenido");
    let files = vec![
        ListedFile { name: bytes("a.txt"), digest: Some(same.clone()) },
        ListedFile { name: bytes("b.txt"), digest: Some(same.clone()) },
        ListedFile { name: bytes("c"), digest: None },
    ];
    let rules = || RuleSet::new().with_rule(bytes("Documentos"), vec![bytes("txt")]);
    let dry = plan(rules(), config(true, true), &files);
    let applied = plan(rules(), config(false, true), &files);
    assert_eq!(dry.len(), 3);
    for (d, a) in dry.iter().zip(applied.iter()) {
        assert_eq!(d.outcome, a.outcome);
        assert!(!d.apply);
    }
    assert!(applied[0].apply && applied[1].apply && !applied[2].apply);
}
