use envdoter::store::{decode_keys, decode_value, encode_text, write_request};
use nebari::io::fs::StdFile;
use nebari::tree::{Root, ScanEvaluation, Unversioned, UnversionedTreeRoot};
use nebari::{Config, Tree};
use std::convert::Infallible;

type VariableTree = Tree<UnversionedTreeRoot<()>, StdFile>;

fn open(dir: &tempfile::TempDir) -> VariableTree {
    let roots = Config::default_for(dir.path()).open().unwrap();
    roots.tree(Unversioned::tree("name")).unwrap()
}

fn write(tree: &VariableTree, key: &str, value: &str) {
    let (raw_key, raw_value) = write_request(key, value);
    tree.set(raw_key, raw_value).unwrap();
}

fn read(tree: &VariableTree, key: &str) -> String {
    let found = tree.get(&encode_text(key)).unwrap();
    decode_value(found.as_ref().map(|bytes| bytes.as_slice())).unwrap()
}

fn list(tree: &VariableTree) -> Vec<String> {
    let mut raw: Vec<Vec<u8>> = Vec::new();
    tree.scan::<Infallible, _, _, _, _>(
        &(..),
        true,
        |_, _, _| ScanEvaluation::ReadData,
        |key, _| {
            raw.push(key.to_vec());
            ScanEvaluation::Skip
        },
        |_, _, _| Ok(()),
    )
    .unwrap();
    decode_keys(&raw).unwrap()
}

#[test]
fn a_store_on_disk_reads_back_what_was_written() {
    let dir = tempfile::tempdir().unwrap();
    let tree = open(&dir);
    write(&tree, "NAME", "value");
    write(&tree, "ÄÖ", "日本語 = x");
    write(&tree, "EMPTY", "");
    assert_eq!(read(&tree, "NAME"), "value");
    assert_eq!(read(&tree, "ÄÖ"), "日本語 = x");
    assert_eq!(read(&tree, "EMPTY"), "");
}

#[test]
fn a_store_on_disk_keeps_the_last_value_written() {
    let dir = tempfile::tempdir().unwrap();
    let tree = open(&dir);
    write(&tree, "NAME", "older");
    write(&tree, "NAME", "newer");
    write(&tree, "OTHER", "x");
    assert_eq!(read(&tree, "NAME"), "newer");
}

#[test]
fn a_store_on_disk_reads_a_missing_key_as_the_empty_text() {
    let dir = tempfile::tempdir().unwrap();
    let tree = open(&dir);
    assert_eq!(read(&tree, "ABSENT"), "");
    write(&tree, "PRESENT", "x");
    assert_eq!(read(&tree, "ABSENT"), "");
}

#[test]
fn a_store_on_disk_lists_its_keys_in_rising_order() {
    let dir = tempfile::tempdir().unwrap();
    let tree = open(&dir);
    assert_eq!(list(&tree), Vec::<String>::new());
    for key in ["DB_HOST", "APP_PORT", "é", "APP_NAME", "Z"].iter() {
        write(&tree, key, "v");
    }
    assert_eq!(list(&tree), vec!["APP_NAME", "APP_PORT", "DB_HOST", "Z", "é"]);
}

#[test]
fn a_store_on_disk_keeps_its_variables_when_it_is_opened_again() {
    let dir = tempfile::tempdir().unwrap();
    {
        let tree = open(&dir);
        write(&tree, "KEPT", "yes");
    }
    let tree = open(&dir);
    assert_eq!(read(&tree, "KEPT"), "yes");
}
