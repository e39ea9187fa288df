use std::collections::HashMap;
use std::sync::Arc;
use symstore::frame::FileId;
use symstore::symdb::{
    path_for_id, temp_path_for_id, InsertStep, Lookup, MappedSymTree, Opened, SymCache, SymDbError,
};
use symstore::symtree::SymTree;
use symstore::text::{push_decimal, push_hex};
use symstore::tree::Tree;

const ID: FileId = FileId(0x0123456789abcdef_fedcba9876543210);
const OTHER: FileId = FileId(7);

fn mapped(name: &str) -> Arc<MappedSymTree> {
    Arc::new(MappedSymTree::new(SymTree {
        strings: vec![name.to_string()],
        tree: Tree { data: vec![] },
    }))
}

fn name_of(symbols: &Option<Arc<MappedSymTree>>) -> Option<&str> {
    symbols.as_ref().map(|tree| tree.strings[0].as_str())
}

fn cached(cache: &SymCache, id: FileId) -> Option<Option<String>> {
    match cache.lookup(id) {
        Lookup::Cached(symbols) => Some(name_of(&symbols).map(|s| s.to_string())),
        Lookup::Open { name, .. } => {
            assert_eq!(name, path_for_id(id, false));
            None
        }
    }
}

/// Looks symbols up and, unless they are remembered, returns the epoch of doing so.
fn begin(cache: &SymCache, id: FileId) -> u64 {
    match cache.lookup(id) {
        Lookup::Cached(_) => 0,
        Lookup::Open { epoch, .. } => epoch,
    }
}

/// Looks symbols up and finishes getting them with what came of opening their file.
fn finish(
    cache: &mut SymCache,
    id: FileId,
    opened: Opened,
) -> Result<Option<Arc<MappedSymTree>>, SymDbError> {
    let epoch = begin(cache, id);
    cache.finish_get(id, opened, epoch)
}

#[test]
fn file_names() {
    assert_eq!(ID.format_hex(), "0123456789abcdeffedcba9876543210");
    assert_eq!(path_for_id(ID, false), "0123456789abcdeffedcba9876543210.symtree");
    assert_eq!(path_for_id(ID, true), "0123456789abcdeffedcba9876543210.symtree.temp");
    assert_eq!(
        temp_path_for_id(ID, 1024),
        "0123456789abcdeffedcba9876543210.symtree.temp.1024"
    );
    assert_eq!(
        temp_path_for_id(OTHER, 0),
        "00000000000000000000000000000007.symtree.temp.0"
    );
}

#[test]
fn names_tell_ids_and_writers_apart() {
    assert_ne!(path_for_id(ID, false), path_for_id(OTHER, false));
    assert_ne!(temp_path_for_id(ID, 1), temp_path_for_id(ID, 11));
    assert_ne!(temp_path_for_id(ID, 1), temp_path_for_id(OTHER, 1));
    assert_ne!(temp_path_for_id(ID, 1), path_for_id(ID, false));
}

#[test]
fn numbers_as_text() {
    let mut out = String::from("x");
    push_hex(&mut out, 0xbeef, 3);
    push_hex(&mut out, 10, 2);
    push_hex(&mut out, 1, 0);
    push_decimal(&mut out, 0);
    push_decimal(&mut out, u64::MAX);
    assert_eq!(out, "xeef0a018446744073709551615");
    let mut out = String::new();
    push_hex(&mut out, u128::MAX, 32);
    assert_eq!(out, format!("{:032x}", u128::MAX));
    let mut out = String::new();
    push_hex(&mut out, 0xf0, 1_000_000);
    assert_eq!(out.len(), 1_000_000);
    assert!(out.ends_with("000f0"));
}

#[test]
fn opened_tree_is_remembered() {
    let mut cache = SymCache::new();
    assert_eq!(cached(&cache, ID), None);
    let got = finish(&mut cache, ID, Opened::Tree(mapped("a"))).unwrap();
    assert_eq!(name_of(&got), Some("a"));
    assert_eq!(cached(&cache, ID), Some(Some("a".to_string())));
    assert_eq!(cached(&cache, OTHER), None);
}

#[test]
fn missing_file_is_remembered() {
    let mut cache = SymCache::new();
    assert!(finish(&mut cache, ID, Opened::NotFound).unwrap().is_none());
    assert_eq!(cached(&cache, ID), Some(None));
}

#[test]
fn failure_is_returned_and_forgotten() {
    let mut cache = SymCache::new();
    let failed = finish(&mut cache, ID, Opened::Failed(SymDbError::Open));
    assert!(matches!(failed, Err(SymDbError::Open)));
    assert_eq!(cached(&cache, ID), None);
    finish(&mut cache, ID, Opened::Tree(mapped("a"))).unwrap();
    assert!(matches!(
        finish(&mut cache, ID, Opened::Failed(SymDbError::Mapping)),
        Err(SymDbError::Mapping)
    ));
    assert_eq!(cached(&cache, ID), Some(Some("a".to_string())));
}

#[test]
fn first_to_open_wins() {
    let mut cache = SymCache::new();
    finish(&mut cache, ID, Opened::Tree(mapped("first"))).unwrap();
    let second = finish(&mut cache, ID, Opened::Tree(mapped("second"))).unwrap();
    assert_eq!(name_of(&second), Some("first"));
    let third = finish(&mut cache, ID, Opened::NotFound).unwrap();
    assert_eq!(name_of(&third), Some("first"));
}

#[test]
fn invalidated_symbols_are_opened_anew() {
    let mut cache = SymCache::new();
    finish(&mut cache, ID, Opened::Tree(mapped("old"))).unwrap();
    finish(&mut cache, OTHER, Opened::Tree(mapped("other"))).unwrap();
    cache.invalidate(ID);
    assert_eq!(cached(&cache, ID), None);
    assert_eq!(cached(&cache, OTHER), Some(Some("other".to_string())));
    let got = finish(&mut cache, ID, Opened::Tree(mapped("new"))).unwrap();
    assert_eq!(name_of(&got), Some("new"));
    cache.invalidate(FileId(99));
    assert_eq!(cached(&cache, ID), Some(Some("new".to_string())));
}

#[test]
fn overtaken_get_is_not_remembered() {
    let mut cache = SymCache::new();
    // The old file is opened, and then new symbols are stored.
    let epoch = begin(&cache, ID);
    cache.invalidate(ID);
    let got = cache.finish_get(ID, Opened::Tree(mapped("old")), epoch).unwrap();
    assert_eq!(name_of(&got), Some("old"));
    assert_eq!(cached(&cache, ID), None);
    // Nor is it remembered that there was no file.
    assert!(cache.finish_get(ID, Opened::NotFound, epoch).unwrap().is_none());
    assert_eq!(cached(&cache, ID), None);
    // The next get is remembered, and wins over one that is still on its way.
    let got = finish(&mut cache, ID, Opened::Tree(mapped("new"))).unwrap();
    assert_eq!(name_of(&got), Some("new"));
    let late = cache.finish_get(ID, Opened::Tree(mapped("old")), epoch).unwrap();
    assert_eq!(name_of(&late), Some("new"));
    assert_eq!(cached(&cache, ID), Some(Some("new".to_string())));
}

#[test]
fn get_is_not_overtaken_by_other_symbols() {
    let mut cache = SymCache::new();
    let epoch = begin(&cache, ID);
    cache.invalidate(OTHER);
    let tree = mapped("a");
    let first = cache.finish_get(ID, Opened::Tree(tree.clone()), epoch).unwrap().unwrap();
    assert!(Arc::ptr_eq(&tree, &first));
    // Whatever happens to others and to the file, the same tree is handed out.
    cache.invalidate(OTHER);
    finish(&mut cache, OTHER, Opened::NotFound).unwrap();
    finish(&mut cache, ID, Opened::NotFound).unwrap();
    let late = cache.finish_get(ID, Opened::Tree(mapped("b")), epoch).unwrap().unwrap();
    assert!(Arc::ptr_eq(&tree, &late));
    match cache.lookup(ID) {
        Lookup::Cached(Some(again)) => assert!(Arc::ptr_eq(&tree, &again)),
        _ => panic!("not remembered"),
    }
}

#[test]
fn epochs_follow_each_other() {
    let mut cache = SymCache::new();
    assert_eq!(begin(&cache, ID), 0);
    cache.invalidate(ID);
    cache.invalidate(ID);
    assert_eq!(begin(&cache, ID), 2);
    assert_eq!(begin(&cache, OTHER), 0);
}

#[test]
fn shared_tree_is_the_same_tree() {
    let mut cache = SymCache::new();
    let tree = mapped("a");
    let got = finish(&mut cache, ID, Opened::Tree(tree.clone())).unwrap().unwrap();
    assert!(Arc::ptr_eq(&tree, &got));
    match cache.lookup(ID) {
        Lookup::Cached(Some(again)) => assert!(Arc::ptr_eq(&tree, &again)),
        _ => panic!("not remembered"),
    }
}

#[test]
fn small_file_is_rejected() {
    assert_eq!(MappedSymTree::check_len(16, 16), Ok(()));
    assert_eq!(
        MappedSymTree::check_len(15, 16),
        Err(SymDbError::TooSmall { len: 15, min_size: 16 })
    );
}

#[test]
fn errors_say_what_failed() {
    let context = |error: SymDbError| error.context();
    assert_eq!(context(SymDbError::Open).as_deref(), Some("failed to open symtree"));
    assert_eq!(context(SymDbError::Mapping).as_deref(), Some("failed to mmap symtree"));
    assert_eq!(
        context(SymDbError::TooSmall { len: 3, min_size: 16 }).as_deref(),
        Some("symtree file too small (3 bytes, need at least 16)")
    );
    assert_eq!(context(SymDbError::Create), None);
    assert_eq!(context(SymDbError::Write).as_deref(), Some("failed to write symtree to disk"));
    assert_eq!(context(SymDbError::Flush).as_deref(), Some("failed to flush symtree to disk"));
    assert_eq!(
        context(SymDbError::Move).as_deref(),
        Some("failed to move symtree to its final location")
    );
}

fn run(outcomes: &[bool]) -> Vec<InsertStep> {
    let mut steps = vec![InsertStep::first()];
    for ok in outcomes {
        steps.push(steps[steps.len() - 1].next(*ok));
    }
    steps
}

#[test]
fn insert_runs_through() {
    assert_eq!(
        run(&[true, true, true, true, true, false]),
        vec![
            InsertStep::Create,
            InsertStep::Write,
            InsertStep::Flush,
            InsertStep::Move,
            InsertStep::Invalidate,
            InsertStep::Succeeded,
            InsertStep::Succeeded,
        ]
    );
}

#[test]
fn insert_fails_where_a_step_fails() {
    let end = |outcomes: &[bool]| run(outcomes).pop().unwrap();
    assert_eq!(end(&[false]), InsertStep::Failed(SymDbError::Create));
    assert_eq!(end(&[true, false]), InsertStep::Failed(SymDbError::Write));
    assert_eq!(end(&[true, true, false]), InsertStep::Failed(SymDbError::Flush));
    assert_eq!(end(&[true, true, true, false]), InsertStep::CleanUp);
    for removed in [false, true] {
        assert_eq!(
            end(&[true, true, true, false, removed, true]),
            InsertStep::Failed(SymDbError::Move)
        );
    }
}

/// Runs the steps of two insertions for one file ID in the given order, each with its tree's
/// number, on files held in memory. Returns the final file and the number of files left.
fn run_two(order: &[usize]) -> (Option<u32>, usize) {
    let id = FileId(0xabc);
    let temps = [temp_path_for_id(id, 0), temp_path_for_id(id, 1)];
    let trees: [u32; 2] = [10, 20];
    let last = path_for_id(id, false);
    let mut files: HashMap<String, Option<u32>> = HashMap::new();
    let mut steps = [InsertStep::first(), InsertStep::first()];
    for &who in order {
        match steps[who] {
            InsertStep::Create | InsertStep::Write => {
                files.insert(temps[who].clone(), None);
            }
            InsertStep::Flush => {
                files.insert(temps[who].clone(), Some(trees[who]));
            }
            InsertStep::Move => {
                let content = files.remove(&temps[who]).unwrap();
                files.insert(last.clone(), content);
            }
            _ => {}
        }
        steps[who] = steps[who].next(true);
        if let Some(content) = files.get(&last) {
            assert!(content.is_some());
        }
    }
    (files.get(&last).copied().flatten(), files.len())
}

#[test]
fn interleaved_insertions_keep_trees_whole() {
    // The one that moves last wins, and no temporary file is left.
    assert_eq!(run_two(&[0, 1, 0, 1, 0, 1, 0, 1, 0, 1]), (Some(20), 1));
    assert_eq!(run_two(&[1, 1, 1, 0, 0, 0, 1, 0, 0, 1]), (Some(10), 1));
    assert_eq!(run_two(&[0, 0, 0, 1, 1, 1, 1, 0, 0, 1]), (Some(10), 1));
    // The other one has only begun to write.
    assert_eq!(run_two(&[0, 0, 0, 1, 1, 0, 0]), (Some(10), 2));
}
