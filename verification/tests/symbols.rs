use symstore::frame::{
    Executable, FileId, Frame, FrameId, FrameKind, InterpKind, StackFrame, SymbolizedFrame,
};
use symstore::symbolize::{
    find_trace, has_native_code, symbolize_frame, symbolize_iterp_frame, symbolize_native_frame,
    symbolize_trace,
};
use symstore::symtree::{LineTableEntry, StringRef, SymRange, SymTree};
use symstore::tree::{Node, Tree};

fn native(addr: u64) -> Frame {
    Frame {
        id: FrameId { file_id: FileId(0xabc), addr_or_line: addr },
        kind: FrameKind::Regular(InterpKind::Native),
    }
}

fn interpreted(line: u64) -> Frame {
    Frame {
        id: FrameId { file_id: FileId(1), addr_or_line: line },
        kind: FrameKind::Regular(InterpKind::Other(3)),
    }
}

fn lines(entries: &[(u32, u32)]) -> Vec<LineTableEntry> {
    entries
        .iter()
        .map(|(offset, line_number)| LineTableEntry { offset: *offset, line_number: *line_number })
        .collect()
}

fn sym(func: u32, depth: u16, call_line: Option<u32>) -> SymRange {
    SymRange {
        func: StringRef(func),
        file: StringRef(10),
        call_file: StringRef(11),
        call_line,
        depth,
        line_table: lines(&[(0, 100), (8, 108), (16, 116)]),
    }
}

/// `main` covers 0..100, `mid` is inlined into it at 20..60, `leaf` into that at 30..40.
fn tree() -> SymTree {
    let names = [
        "main", "mid", "leaf", "f3", "f4", "f5", "f6", "f7", "f8", "f9", "own.c", "caller.c",
    ];
    SymTree {
        strings: names.iter().map(|s| s.to_string()).collect(),
        tree: Tree::from_iter(vec![
            (30..40, sym(2, 2, Some(22))),
            (0..100, sym(0, 0, None)),
            (20..60, sym(1, 1, Some(11))),
        ]),
    }
}

fn shown(frames: &[SymbolizedFrame]) -> Vec<(Option<&str>, Option<&str>, Option<u32>)> {
    frames.iter().map(|f| (f.func.as_deref(), f.file.as_deref(), f.line_no)).collect()
}

#[test]
fn line_is_that_of_last_entry_reached() {
    let sym = sym(0, 0, None);
    assert_eq!(sym.line_number_for_va(1000..2000, 1000), Some(100));
    assert_eq!(sym.line_number_for_va(1000..2000, 1007), Some(100));
    assert_eq!(sym.line_number_for_va(1000..2000, 1008), Some(108));
    assert_eq!(sym.line_number_for_va(1000..2000, 1999), Some(116));
    assert_eq!(sym.line_number_for_va(1000..2000, 999), None);
}

#[test]
fn line_search_stops_at_first_entry_beyond() {
    let mut range = sym(0, 0, None);
    range.line_table = lines(&[(4, 1), (20, 2), (6, 3)]);
    assert_eq!(range.line_number_for_va(0..100, 10), Some(1));
    assert_eq!(range.line_number_for_va(0..100, 3), None);
    assert_eq!(range.line_number_for_va(0..100, 20), Some(3));
    range.line_table = lines(&[]);
    assert_eq!(range.line_number_for_va(0..100, 3), None);
}

#[test]
fn strings_are_looked_up() {
    let tree = tree();
    assert_eq!(tree.str_by_ref(StringRef(0)), Some("main"));
    assert_eq!(tree.str_by_ref(StringRef(11)), Some("caller.c"));
    assert_eq!(tree.str_by_ref(StringRef(12)), None);
    assert_eq!(tree.str_by_ref(StringRef::none()), None);
    assert_eq!(StringRef::none().0, u32::MAX);
}

#[test]
fn default_line_table_entry_is_zero() {
    let entry = LineTableEntry::default();
    assert_eq!((entry.offset, entry.line_number), (0, 0));
}

#[test]
fn inline_trace_is_walked_from_outermost_to_innermost() {
    let tree = tree();
    let frames = symbolize_native_frame(native(38), true, Some(&tree)).into_vec();
    assert_eq!(
        shown(&frames),
        vec![
            (Some("main"), Some("caller.c"), Some(11)),
            (Some("mid"), Some("caller.c"), Some(22)),
            (Some("leaf"), Some("own.c"), Some(108)),
        ]
    );
    assert!(frames.iter().all(|f| f.raw == native(38)));
}

#[test]
fn only_outermost_frame_without_inline_frames() {
    let tree = tree();
    let frames = symbolize_native_frame(native(38), false, Some(&tree)).into_vec();
    assert_eq!(shown(&frames), vec![(Some("main"), Some("caller.c"), Some(11))]);
    let frames = symbolize_native_frame(native(9), false, Some(&tree)).into_vec();
    assert_eq!(shown(&frames), vec![(Some("main"), Some("own.c"), Some(108))]);
}

#[test]
fn uncovered_address_stays_without_symbols() {
    let tree = tree();
    for inline_frames in [false, true] {
        let frames = symbolize_native_frame(native(100), inline_frames, Some(&tree)).into_vec();
        assert_eq!(shown(&frames), vec![(None, None, None)]);
        let frames = symbolize_native_frame(native(5), inline_frames, None).into_vec();
        assert_eq!(shown(&frames), vec![(None, None, None)]);
        assert_eq!(frames[0].raw, native(5));
    }
}

#[test]
fn one_symbol_of_each_depth_is_picked() {
    let tree = SymTree {
        strings: vec![],
        tree: Tree::from_iter(vec![
            (0..10, sym(1, 4, None)),
            (0..10, sym(2, 0, None)),
            (0..10, sym(3, 4, None)),
            (1..10, sym(4, 2, None)),
            (2..10, sym(5, 0, None)),
        ]),
    };
    let depths: Vec<u16> = find_trace(&tree, 5).iter().map(|s| s.value.depth).collect();
    assert_eq!(depths, vec![0, 2, 4]);
    let depths: Vec<u16> = find_trace(&tree, 0).iter().map(|s| s.value.depth).collect();
    assert_eq!(depths, vec![0, 4]);
    assert!(find_trace(&tree, 10).is_empty());
}

#[test]
fn first_symbol_found_of_a_depth_is_picked() {
    let tree = SymTree {
        strings: vec![],
        tree: Tree::from_iter(vec![
            (0..10, sym(1, 4, None)),
            (1..10, sym(2, 4, None)),
            (2..10, sym(3, 4, None)),
        ]),
    };
    // The head of the tree is found first, then what begins later, then what begins earlier.
    let picked = |addr: u64| -> Vec<u32> {
        find_trace(&tree, addr).iter().map(|s| s.value.func.0).collect()
    };
    assert_eq!(picked(5), vec![2]);
    assert_eq!(picked(1), vec![2]);
    assert_eq!(picked(0), vec![1]);
}

#[test]
fn leaving_out_inline_frames_keeps_the_outermost() {
    // Many symbols of the same few depths cover each address.
    let tree = SymTree {
        strings: (0..200).map(|i| format!("f{i}")).collect(),
        tree: Tree::from_iter(
            (0..200u64)
                .map(|i| (i % 7..40 + i % 11, sym(i as u32, (i % 3) as u16, Some(i as u32))))
                .collect(),
        ),
    };
    for addr in 0..60 {
        let with = symbolize_native_frame(native(addr), true, Some(&tree)).into_vec();
        let again = symbolize_native_frame(native(addr), true, Some(&tree)).into_vec();
        let without = symbolize_native_frame(native(addr), false, Some(&tree)).into_vec();
        assert_eq!(shown(&with), shown(&again));
        assert_eq!(shown(&without), shown(&with[..1]));
    }
    let with = symbolize_frame(interpreted(3), true, None, None).into_vec();
    let without = symbolize_frame(interpreted(3), false, None, None).into_vec();
    assert_eq!(shown(&without), shown(&with));
}

#[test]
fn trace_longer_than_inline_storage() {
    let tree = SymTree {
        strings: vec!["f".to_string()],
        tree: Tree::from_iter(
            (0..300u16).rev().map(|d| (0..10, sym(0, d, Some(d as u32)))).collect(),
        ),
    };
    let frames = symbolize_native_frame(native(0), true, Some(&tree)).into_vec();
    assert_eq!(frames.len(), 300);
    assert_eq!(frames[0].line_no, Some(1));
    assert_eq!(frames[298].line_no, Some(299));
    assert_eq!(frames[299].line_no, Some(100));
}

#[test]
fn given_trace_is_symbolized() {
    let tree = tree();
    let outer = &tree.tree.data[0].element;
    let inner = &tree.tree.data[2].element;
    let frames = symbolize_trace(&tree, native(31), &vec![outer, inner], true).into_vec();
    assert_eq!(
        shown(&frames),
        vec![
            (Some("main"), Some("caller.c"), Some(22)),
            (Some("leaf"), Some("own.c"), Some(100)),
        ]
    );
    let frames = symbolize_trace(&tree, native(31), &vec![], true).into_vec();
    assert_eq!(shown(&frames), vec![(None, None, None)]);
}

#[test]
fn sentinel_means_no_name() {
    let mut range = sym(0, 0, None);
    range.func = StringRef::none();
    range.file = StringRef::none();
    let tree = SymTree { strings: vec!["x".to_string()], tree: Tree::from_iter(vec![(0..10, range)]) };
    let frames = symbolize_native_frame(native(1), true, Some(&tree)).into_vec();
    assert_eq!(shown(&frames), vec![(None, None, Some(100))]);
}

fn record(line_number: u64) -> StackFrame {
    StackFrame {
        function_name: Some("run".to_string()),
        file_name: None,
        line_number,
    }
}

#[test]
fn interpreted_frame_takes_its_record() {
    let frame = symbolize_iterp_frame(interpreted(9), Some(&record(77)));
    assert_eq!(shown(&[frame]), vec![(Some("run"), None, Some(77))]);
    let frame = symbolize_iterp_frame(interpreted(9), Some(&record(0)));
    assert_eq!(shown(&[frame]), vec![(Some("run"), None, None)]);
    let frame = symbolize_iterp_frame(interpreted(9), Some(&record(0x1_0000_0005)));
    assert_eq!(shown(&[frame]), vec![(Some("run"), None, Some(5))]);
    let frame = symbolize_iterp_frame(interpreted(9), Some(&record(0x1_0000_0000)));
    assert_eq!(shown(&[frame]), vec![(Some("run"), None, Some(0))]);
    let frame = symbolize_iterp_frame(interpreted(9), None);
    assert_eq!(frame.raw, interpreted(9));
    assert_eq!(shown(&[frame]), vec![(None, None, None)]);
}

#[test]
fn kind_of_frame_decides_what_is_used() {
    let tree = tree();
    let record = record(5);
    let frames = symbolize_frame(native(38), true, Some(&tree), Some(&record)).into_vec();
    assert_eq!(frames.len(), 3);
    let frames = symbolize_frame(interpreted(38), true, Some(&tree), Some(&record)).into_vec();
    assert_eq!(shown(&frames), vec![(Some("run"), None, Some(5))]);
    let marker = Frame { kind: FrameKind::Special(Some(InterpKind::Native)), ..native(38) };
    assert!(has_native_code(native(38)) && !has_native_code(marker));
    let frames = symbolize_frame(marker, true, Some(&tree), None).into_vec();
    assert_eq!(shown(&frames), vec![(None, None, None)]);
}

#[test]
fn native_frame_is_shown_with_its_executable() {
    let named = Executable { file_name: Some("libc.so".to_string()) };
    let unnamed = Executable { file_name: None };
    let hex = "00000000000000000000000000000abc";
    let full = SymbolizedFrame {
        raw: native(0x1f),
        func: Some("puts".to_string()),
        file: Some("puts.c".to_string()),
        line_no: Some(120),
    };
    assert_eq!(full.display(Some(&named)), "libc.so: puts in puts.c:120");
    assert_eq!(full.display(Some(&unnamed)), format!("{hex}: puts in puts.c:120"));
    assert_eq!(full.display(None), format!("{hex}: puts in puts.c:120"));
    let bare = SymbolizedFrame::unsymbolized(native(0x1f));
    assert_eq!(bare.display(Some(&named)), "libc.so+0x000000000000001f");
    assert_eq!(bare.display(None), format!("{hex}+0x000000000000001f"));
}

#[test]
fn interpreted_frame_is_shown_without_executable() {
    let named = Executable { file_name: Some("python".to_string()) };
    let mut frame = symbolize_iterp_frame(interpreted(u64::MAX), Some(&record(1_000_000)));
    assert_eq!(frame.display(Some(&named)), "run:1000000");
    frame.line_no = None;
    assert_eq!(frame.display(None), "run");
    frame.func = None;
    frame.file = Some("a.py".to_string());
    assert_eq!(frame.display(None), "+0xffffffffffffffff");
}

#[test]
fn kinds_know_what_runs_them() {
    assert_eq!(FrameKind::Regular(InterpKind::Other(2)).interp(), Some(InterpKind::Other(2)));
    assert_eq!(FrameKind::Special(None).interp(), None);
    assert_eq!(FrameKind::Special(Some(InterpKind::Native)).interp(), Some(InterpKind::Native));
}

#[test]
fn corrupted_symbol_tree_does_not_fail() {
    let mut tree = tree();
    let nodes: &mut Vec<Node<u64, SymRange>> = &mut tree.tree.data;
    nodes.swap(0, 2);
    let frames = symbolize_native_frame(native(35), true, Some(&tree)).into_vec();
    assert!(!frames.is_empty());
}
