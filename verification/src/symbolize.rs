//! Finding symbols for stack frames.

use crate::frame;
use crate::frame::{Frame, FrameKind, InterpKind, StackFrame, SymbolizedFrame, SymbolizedFrameView};
use crate::order;
use crate::query;
use crate::query::Query;
use crate::symtree::{ArchivedSymRange, ArchivedSymTree, StringRef};
use crate::symvec;
use crate::symvec::SymbolizedFrames;
use crate::tree;
use crate::tree::ArchivedElement;
use vstd::prelude::*;

verus! {

/// A symbol: a range of addresses and what is known of the code there.
pub type Symbol = ArchivedElement<u64, ArchivedSymRange>;

/// The frame is one of native code that was running.
pub open spec fn is_native(frame: Frame) -> bool {
    frame.kind == FrameKind::Regular(InterpKind::Native)
}

/// Whether symbols for the frame are looked up in the symbol tree of its executable, rather than
/// in the record of the frame itself.
pub fn has_native_code(frame: Frame) -> (r: bool)
    ensures
        r == is_native(frame),
{
    matches!(frame.kind, FrameKind::Regular(InterpKind::Native))
}

/// The symbols found for an address, in the order in which the tree yields them.
pub open spec fn symbols_at(tree: ArchivedSymTree, addr: u64) -> Seq<Symbol> {
    let nodes = tree.tree.data@;
    query::search(nodes, Query::Point(addr), 0, nodes.len() as int).map_values(
        |i: int| nodes[i].element,
    )
}

/// Some symbol of the trace is of the given depth.
pub open spec fn has_depth(trace: Seq<Symbol>, depth: u16) -> bool {
    exists|i: int| 0 <= i < trace.len() && (#[trigger] trace[i]).value.depth == depth
}

/// The symbol at position `k` is the first one of its depth.
pub open spec fn is_first_of_depth(symbols: Seq<Symbol>, k: int) -> bool {
    &&& 0 <= k < symbols.len()
    &&& forall|j: int|
        0 <= j < k ==> (#[trigger] symbols[j]).value.depth != symbols[k].value.depth
}

/// The symbol is the first one of its depth among `symbols`.
pub open spec fn is_picked(symbols: Seq<Symbol>, sym: Symbol) -> bool {
    exists|k: int| #[trigger] is_first_of_depth(symbols, k) && symbols[k] == sym
}

/// `trace` is the inline trace through `symbols`: it holds the first symbol of each depth that
/// occurs, in ascending order of depth.
pub open spec fn is_inline_trace(symbols: Seq<Symbol>, trace: Seq<Symbol>) -> bool {
    &&& forall|i: int| 0 <= i < trace.len() ==> is_picked(symbols, #[trigger] trace[i])
    &&& forall|i: int, j: int|
        0 <= i < j < trace.len() ==>
            (#[trigger] trace[i]).value.depth < (#[trigger] trace[j]).value.depth
    &&& forall|k: int|
        0 <= k < symbols.len() ==> #[trigger] has_depth(trace, symbols[k].value.depth)
}

/// The frame for one symbol of an inline trace. The innermost symbol's line comes from its line
/// table; that of the others is where the next symbol was called.
pub open spec fn trace_frame(
    tree: ArchivedSymTree,
    raw: Frame,
    trace: Seq<Symbol>,
    i: int,
) -> SymbolizedFrameView {
    let sym = trace[i].value;
    let (file, line_no) = if i + 1 < trace.len() {
        (trace[i + 1].value.call_file, trace[i + 1].value.call_line)
    } else {
        (sym.file, sym.spec_line_number_for_va(trace[i].range.start, raw.id.addr_or_line))
    };
    SymbolizedFrameView {
        raw,
        func: tree.spec_str_by_ref(sym.func),
        file: tree.spec_str_by_ref(file),
        line_no,
    }
}

/// The frames for an inline trace: one for each symbol, or only the outermost one where inline
/// frames are not asked for, or one without symbols where the trace is empty.
pub open spec fn trace_frames(
    tree: ArchivedSymTree,
    raw: Frame,
    trace: Seq<Symbol>,
    inline_frames: bool,
) -> Seq<SymbolizedFrameView> {
    if trace.len() == 0 {
        seq![frame::spec_unsymbolized(raw)]
    } else {
        Seq::new(
            if inline_frames {
                trace.len()
            } else {
                1
            },
            |i: int| trace_frame(tree, raw, trace, i),
        )
    }
}

/// The frames, their names as plain characters.
pub open spec fn views(frames: Seq<SymbolizedFrame>) -> Seq<SymbolizedFrameView> {
    frames.map_values(|frame: SymbolizedFrame| frame@)
}

/// What is known of a frame of interpreted code from its record.
pub open spec fn interp_frame(raw: Frame, record: Option<&StackFrame>) -> SymbolizedFrameView {
    match record {
        Some(record) => SymbolizedFrameView {
            raw,
            func: frame::chars(record.function_name),
            file: frame::chars(record.file_name),
            line_no: if record.line_number == 0 {
                None
            } else {
                Some((record.line_number % 0x1_0000_0000) as u32)
            },
        },
        None => frame::spec_unsymbolized(raw),
    }
}

fn clone_string(string: &Option<String>) -> (copy: Option<String>)
    ensures
        frame::chars(copy) == frame::chars(*string),
{
    match string {
        Some(string) => Some(string.clone()),
        None => None,
    }
}

/// Symbolizes a frame of interpreted code from what is recorded of it.
pub fn symbolize_iterp_frame(
    raw: Frame,
    record: Option<&StackFrame>,
) -> (symbolized: SymbolizedFrame)
    ensures
        symbolized@ == interp_frame(raw, record),
{
    let record = match record {
        Some(record) => record,
        None => {
            return SymbolizedFrame::unsymbolized(raw);
        },
    };
    let line_number = record.line_number;
    assert(#[verifier::truncate] (line_number as u32) == line_number % 0x1_0000_0000)
        by (bit_vector);
    SymbolizedFrame {
        raw,
        func: clone_string(&record.function_name),
        file: clone_string(&record.file_name),
        line_no: if line_number == 0 {
            None
        } else {
            Some(
                #[verifier::truncate]
                (line_number as u32),
            )
        },
    }
}

fn one_frame(frame: SymbolizedFrame) -> (frames: SymbolizedFrames)
    ensures
        frames@ == seq![frame],
{
    let mut frames = symvec::frames_with_capacity(1);
    symvec::frames_push(&mut frames, frame);
    assert(frames@ =~= seq![frame]);
    frames
}

fn string_for(tree: &ArchivedSymTree, idx: StringRef) -> (string: Option<String>)
    ensures
        frame::chars(string) == tree.spec_str_by_ref(idx),
{
    match tree.str_by_ref(idx) {
        Some(string) => Some(string.to_owned()),
        None => None,
    }
}

/// The frames for an inline trace. A trace holds at most one symbol of each depth.
pub fn symbolize_trace(
    tree: &ArchivedSymTree,
    raw: Frame,
    trace: &Vec<&Symbol>,
    inline_frames: bool,
) -> (frames: SymbolizedFrames)
    requires
        trace@.len() <= 0x1_0000,
    ensures
        views(frames@) == trace_frames(
            *tree,
            raw,
            trace@.map_values(|sym: &Symbol| *sym),
            inline_frames,
        ),
{
    let ghost syms = trace@.map_values(|sym: &Symbol| *sym);
    if trace.is_empty() {
        let frames = one_frame(SymbolizedFrame::unsymbolized(raw));
        assert(views(frames@) =~= trace_frames(*tree, raw, syms, inline_frames));
        return frames;
    }
    let mut out = symvec::frames_with_capacity(trace.len());
    let mut i: usize = 0;
    while i < trace.len()
        invariant_except_break
            inline_frames || i == 0,
        invariant
            syms == trace@.map_values(|sym: &Symbol| *sym),
            0 < trace@.len() <= 0x1_0000,
            i <= trace@.len(),
            out@.len() == i,
            forall|j: int| 0 <= j < i ==> (#[trigger] out@[j])@ == trace_frame(*tree, raw, syms, j),
        ensures
            out@.len() == if inline_frames { trace@.len() } else { 1 },
        decreases trace@.len() - i,
    {
        let sym = &trace[i].value;
        let (file, line_no) = if i + 1 < trace.len() {
            // For the first n-1 non-leaf entries, return the call_X fields.
            (trace[i + 1].value.call_file, trace[i + 1].value.call_line)
        } else {
            // For the leaf record, resolve the line using the line table.
            let r = trace[i].range.start..trace[i].range.end;
            (sym.file, sym.line_number_for_va(r, raw.id.addr_or_line))
        };
        symvec::frames_push(
            &mut out,
            SymbolizedFrame {
                raw,
                func: string_for(tree, sym.func),
                file: string_for(tree, file),
                line_no,
            },
        );
        i = i + 1;
        if !inline_frames {
            break;
        }
    }
    assert(views(out@) =~= trace_frames(*tree, raw, syms, inline_frames));
    out
}

/// Some item is of the given depth.
spec fn holds_depth(items: Seq<(u16, usize)>, depth: u16) -> bool {
    exists|i: int| 0 <= i < items.len() && (#[trigger] items[i]).0 == depth
}

/// Keeping the first symbol of each depth, of symbols in ascending order, leaves the one with the
/// least number of each depth, still in ascending order.
proof fn lemma_run_heads(items: Seq<(u16, usize)>)
    requires
        symvec::ascending(items),
    ensures
        ({
            let heads = symvec::run_heads(items);
            &&& forall|i: int| 0 <= i < heads.len() ==> items.contains(#[trigger] heads[i])
            &&& forall|i: int, j: int|
                0 <= i < j < heads.len() ==> (#[trigger] heads[i]).0 < (#[trigger] heads[j]).0
            &&& forall|k: int| 0 <= k < items.len() ==> #[trigger] holds_depth(heads, items[k].0)
            &&& forall|i: int, k: int|
                0 <= i < heads.len() && 0 <= k < items.len() && (#[trigger] heads[i]).0 == (
                #[trigger] items[k]).0 ==> heads[i].1 <= items[k].1
        }),
    decreases items.len(),
{
    if items.len() > 0 {
        let before = items.drop_last();
        lemma_run_heads(before);
        let heads = symvec::run_heads(items);
        let heads_before = symvec::run_heads(before);
        let last = items.last();
        assert(items[items.len() - 1] == last);
        assert forall|i: int| 0 <= i < heads_before.len() implies {
            &&& items.contains(#[trigger] heads_before[i])
            &&& heads_before[i].0 <= last.0
        } by {
            assert(before.contains(heads_before[i]));
            let k = choose|k: int| 0 <= k < before.len() && before[k] == heads_before[i];
            assert(items[k] == heads_before[i]);
        }
        if heads.len() > heads_before.len() {
            assert(heads[heads_before.len() as int] == last);
            assert forall|i: int| 0 <= i < heads_before.len() implies
                #[trigger] heads_before[i].0 < last.0 by {
                let final_head = heads_before.last();
                assert(heads_before[heads_before.len() - 1] == final_head);
            }
        } else {
            assert(heads[heads.len() - 1].0 == last.0);
        }
        assert forall|k: int| 0 <= k < items.len() implies
            #[trigger] holds_depth(heads, items[k].0) by {
            if k < before.len() {
                assert(holds_depth(heads_before, before[k].0));
                let i = choose|i: int|
                    0 <= i < heads_before.len() && (#[trigger] heads_before[i]).0 == before[k].0;
                assert(heads[i] == heads_before[i]);
            }
        }
        assert forall|i: int, k: int|
            0 <= i < heads.len() && 0 <= k < items.len() && (#[trigger] heads[i]).0 == (
            #[trigger] items[k]).0 implies heads[i].1 <= items[k].1 by {
            if i < heads_before.len() {
                assert(heads[i] == heads_before[i]);
                if k < before.len() {
                    assert(items[k] == before[k]);
                } else {
                    assert(before.contains(heads_before[i]));
                    let m = choose|m: int| 0 <= m < before.len() && before[m] == heads_before[i];
                    assert(items[m] == heads[i]);
                }
            } else if k < before.len() {
                assert(holds_depth(heads_before, before[k].0));
                let m = choose|m: int|
                    0 <= m < heads_before.len() && (#[trigger] heads_before[m]).0 == before[k].0;
                assert(heads[m] == heads_before[m]);
            }
        }
    }
}

/// There are no more strictly ascending depths than there are depths.
proof fn lemma_ascending_is_short(heads: Seq<(u16, usize)>)
    requires
        forall|i: int, j: int|
            0 <= i < j < heads.len() ==> (#[trigger] heads[i]).0 < (#[trigger] heads[j]).0,
    ensures
        heads.len() <= 0x1_0000,
        heads.len() > 0 ==> heads.last().0 + 1 >= heads.len(),
    decreases heads.len(),
{
    if heads.len() > 0 {
        lemma_ascending_is_short(heads.drop_last());
        if heads.len() > 1 {
            assert(heads[heads.len() - 2].0 < heads[heads.len() - 1].0);
        }
    }
}

/// Finds the symbols that cover an address and picks one of each depth, in ascending order of
/// depth: the first one found.
pub fn find_trace(tree: &ArchivedSymTree, addr: u64) -> (trace: Vec<&Symbol>)
    ensures
        is_inline_trace(symbols_at(*tree, addr), trace@.map_values(|sym: &Symbol| *sym)),
        trace@.len() <= 0x1_0000,
{
    proof {
        order::lemma_u64_keys();
    }
    // Collect and sort symbols by depth, in ascending order.
    let found = tree.tree.query_point(addr).collect();
    let ghost symbols = symbols_at(*tree, addr);
    assert forall|k: int| 0 <= k < found@.len() implies *(#[trigger] found@[k]) == symbols[k] by {}
    let mut keys: Vec<(u16, usize)> = Vec::new();
    let mut i: usize = 0;
    while i < found.len()
        invariant
            i <= found@.len(),
            keys@.len() == i,
            forall|k: int| 0 <= k < i ==>
                #[trigger] keys@[k] == (found@[k].value.depth, k as usize),
        decreases found@.len() - i,
    {
        keys.push((found[i].value.depth, i));
        i = i + 1;
    }
    let ghost unsorted = keys@;
    let mut syms = symvec::syms_from_vec(keys);
    symvec::syms_sort_by_depth(&mut syms);
    let ghost sorted = syms@;
    symvec::syms_dedup_by_depth(&mut syms);
    let picked = symvec::syms_into_vec(syms);
    proof {
        lemma_run_heads(sorted);
        lemma_ascending_is_short(picked@);
        assert forall|i: int| 0 <= i < picked@.len() implies {
            let (depth, k) = #[trigger] picked@[i];
            k < found@.len() && found@[k as int].value.depth == depth
        } by {
            broadcast use vstd::seq_lib::group_to_multiset_ensures;

            assert(sorted.contains(picked@[i]));
            assert(sorted.to_multiset().count(picked@[i]) > 0);
            assert(unsorted.contains(picked@[i]));
        }
    }
    let mut trace: Vec<&Symbol> = Vec::new();
    let mut j: usize = 0;
    while j < picked.len()
        invariant
            j <= picked@.len(),
            trace@.len() == j,
            forall|i: int| 0 <= i < picked@.len() ==> {
                let (depth, k) = #[trigger] picked@[i];
                k < found@.len() && found@[k as int].value.depth == depth
            },
            forall|i: int| 0 <= i < j ==> #[trigger] trace@[i] == found@[picked@[i].1 as int],
        decreases picked@.len() - j,
    {
        trace.push(found[picked[j].1]);
        j = j + 1;
    }
    proof {
        let chosen = trace@.map_values(|sym: &Symbol| *sym);
        assert forall|i: int| 0 <= i < chosen.len() implies {
            &&& is_picked(symbols, #[trigger] chosen[i])
            &&& chosen[i].value.depth == picked@[i].0
        } by {
            let n = picked@[i].1 as int;
            assert(trace@[i] == found@[n]);
            assert(symbols[n] == chosen[i]);
            assert forall|j: int| 0 <= j < n implies
                (#[trigger] symbols[j]).value.depth != symbols[n].value.depth by {
                broadcast use vstd::seq_lib::group_to_multiset_ensures;

                assert(found@[j] == symbols[j]);
                assert(unsorted[j] == (found@[j].value.depth, j as usize));
                assert(unsorted.contains(unsorted[j]));
                assert(unsorted.to_multiset().count(unsorted[j]) > 0);
                assert(sorted.contains(unsorted[j]));
                let m = choose|m: int| 0 <= m < sorted.len() && sorted[m] == unsorted[j];
                assert(picked@[i].0 == sorted[m].0 ==> picked@[i].1 <= sorted[m].1);
            }
            assert(is_first_of_depth(symbols, n));
        }
        assert forall|k: int| 0 <= k < symbols.len() implies #[trigger] has_depth(
            chosen,
            symbols[k].value.depth,
        ) by {
            broadcast use vstd::seq_lib::group_to_multiset_ensures;

            assert(found@[k] == symbols[k]);
            assert(unsorted[k] == (found@[k].value.depth, k as usize));
            assert(unsorted.contains(unsorted[k]));
            assert(unsorted.to_multiset().count(unsorted[k]) > 0);
            assert(sorted.contains(unsorted[k]));
            let m = choose|m: int| 0 <= m < sorted.len() && sorted[m] == unsorted[k];
            assert(holds_depth(picked@, sorted[m].0));
            let i = choose|i: int|
                0 <= i < picked@.len() && (#[trigger] picked@[i]).0 == sorted[m].0;
            assert(chosen[i].value.depth == symbols[k].value.depth);
        }
    }
    trace
}

/// Symbolizes a frame of native code with the symbol tree of its executable, if there is one.
pub fn symbolize_native_frame(
    raw: Frame,
    inline_frames: bool,
    symbols: Option<&ArchivedSymTree>,
) -> (frames: SymbolizedFrames)
    ensures
        native_frames(raw, inline_frames, symbols, views(frames@)),
{
    // No symbols for executable at all? Fast path.
    let tree = match symbols {
        Some(tree) => tree,
        None => {
            let frames = one_frame(SymbolizedFrame::unsymbolized(raw));
            assert(views(frames@) =~= seq![frame::spec_unsymbolized(raw)]);
            return frames;
        },
    };
    let trace = find_trace(tree, raw.id.addr_or_line);
    symbolize_trace(tree, raw, &trace, inline_frames)
}

/// `frames` are what a frame of native code is symbolized to: the frames for an inline trace
/// through the symbols at its address, or one without symbols if its executable has no tree.
pub open spec fn native_frames(
    raw: Frame,
    inline_frames: bool,
    symbols: Option<&ArchivedSymTree>,
    frames: Seq<SymbolizedFrameView>,
) -> bool {
    match symbols {
        Some(tree) => exists|trace: Seq<Symbol>| #[trigger]
            is_inline_trace(symbols_at(*tree, raw.id.addr_or_line), trace)
                && frames == trace_frames(*tree, raw, trace, inline_frames),
        None => frames == seq![frame::spec_unsymbolized(raw)],
    }
}

/// `frames` are what a frame is symbolized to.
pub open spec fn frame_results(
    frame: Frame,
    inline_frames: bool,
    symbols: Option<&ArchivedSymTree>,
    record: Option<&StackFrame>,
    frames: Seq<SymbolizedFrameView>,
) -> bool {
    if is_native(frame) {
        native_frames(frame, inline_frames, symbols, frames)
    } else {
        frames == seq![interp_frame(frame, record)]
    }
}

/// Symbolize a frame (and its inline children, if they exist). `symbols` is the symbol tree of
/// the frame's executable and `record` the record of the frame itself, where there are such; only
/// the former is used for a frame of native code, and only the latter for any other.
pub fn symbolize_frame(
    frame: Frame,
    inline_frames: bool,
    symbols: Option<&ArchivedSymTree>,
    record: Option<&StackFrame>,
) -> (frames: SymbolizedFrames)
    ensures
        frame_results(frame, inline_frames, symbols, record, views(frames@)),
{
    if has_native_code(frame) {
        symbolize_native_frame(frame, inline_frames, symbols)
    } else {
        let frames = one_frame(symbolize_iterp_frame(frame, record));
        assert(views(frames@) =~= seq![interp_frame(frame, record)]);
        frames
    }
}

/// Every frame of native code is symbolized to at least one frame, and to exactly one where inline
/// frames are not asked for. Every one of them carries the raw frame.
pub proof fn lemma_frames_of_native_frame(
    raw: Frame,
    inline_frames: bool,
    symbols: Option<&ArchivedSymTree>,
    frames: Seq<SymbolizedFrameView>,
)
    requires
        native_frames(raw, inline_frames, symbols, frames),
    ensures
        frames.len() >= 1,
        !inline_frames ==> frames.len() == 1,
        forall|i: int| 0 <= i < frames.len() ==> (#[trigger] frames[i]).raw == raw,
{
}

/// Without inline frames, what is left is the outermost frame.
pub proof fn lemma_outermost_frame(tree: ArchivedSymTree, raw: Frame, trace: Seq<Symbol>)
    ensures
        trace_frames(tree, raw, trace, false) == trace_frames(tree, raw, trace, true).take(1),
{
    assert(trace_frames(tree, raw, trace, false) =~= trace_frames(tree, raw, trace, true).take(1));
}

/// Traces that hold the same depths in ascending order have them at the same places.
proof fn lemma_same_depths(a: Seq<Symbol>, b: Seq<Symbol>)
    requires
        forall|i: int, j: int|
            0 <= i < j < a.len() ==> (#[trigger] a[i]).value.depth < (#[trigger] a[j]).value.depth,
        forall|i: int, j: int|
            0 <= i < j < b.len() ==> (#[trigger] b[i]).value.depth < (#[trigger] b[j]).value.depth,
        forall|depth: u16| #[trigger] has_depth(a, depth) <==> has_depth(b, depth),
    ensures
        a.len() == b.len(),
        forall|i: int| 0 <= i < a.len() ==> (#[trigger] a[i]).value.depth == b[i].value.depth,
    decreases a.len(),
{
    if a.len() == 0 {
        if b.len() > 0 {
            assert(has_depth(b, b[0].value.depth));
            assert(has_depth(a, b[0].value.depth));
        }
    } else {
        let last_a = a.last().value.depth;
        assert(a[a.len() - 1].value.depth == last_a);
        assert(has_depth(a, last_a));
        assert(has_depth(b, last_a));
        let last_b = b.last().value.depth;
        assert(b[b.len() - 1].value.depth == last_b);
        assert(has_depth(b, last_b));
        assert(has_depth(a, last_b));
        assert(last_a == last_b);
        let (a1, b1) = (a.drop_last(), b.drop_last());
        assert forall|depth: u16| #[trigger] has_depth(a1, depth) <==> has_depth(b1, depth) by {
            if has_depth(a1, depth) {
                let i = choose|i: int| 0 <= i < a1.len() && (#[trigger] a1[i]).value.depth == depth;
                assert(a[i].value.depth == depth);
                assert(has_depth(a, depth));
                assert(has_depth(b, depth));
                let j = choose|j: int| 0 <= j < b.len() && (#[trigger] b[j]).value.depth == depth;
                assert(b1[j].value.depth == depth);
            }
            if has_depth(b1, depth) {
                let i = choose|i: int| 0 <= i < b1.len() && (#[trigger] b1[i]).value.depth == depth;
                assert(b[i].value.depth == depth);
                assert(has_depth(b, depth));
                assert(has_depth(a, depth));
                let j = choose|j: int| 0 <= j < a.len() && (#[trigger] a[j]).value.depth == depth;
                assert(a1[j].value.depth == depth);
            }
        }
        lemma_same_depths(a1, b1);
        assert forall|i: int| 0 <= i < a.len() implies
            (#[trigger] a[i]).value.depth == b[i].value.depth by {
            if i < a1.len() {
                assert(a1[i].value.depth == b1[i].value.depth);
            }
        }
    }
}

/// A depth occurs in an inline trace just where it occurs among the symbols.
proof fn lemma_depths_of_trace(symbols: Seq<Symbol>, trace: Seq<Symbol>, depth: u16)
    requires
        is_inline_trace(symbols, trace),
    ensures
        has_depth(trace, depth) <==> has_depth(symbols, depth),
{
    if has_depth(trace, depth) {
        let i = choose|i: int| 0 <= i < trace.len() && (#[trigger] trace[i]).value.depth == depth;
        assert(symbols.contains(trace[i]));
    }
    if has_depth(symbols, depth) {
        let k = choose|k: int|
            0 <= k < symbols.len() && (#[trigger] symbols[k]).value.depth == depth;
        assert(has_depth(trace, symbols[k].value.depth));
    }
}

/// There is only one inline trace through given symbols.
pub proof fn lemma_trace_is_unique(symbols: Seq<Symbol>, a: Seq<Symbol>, b: Seq<Symbol>)
    requires
        is_inline_trace(symbols, a),
        is_inline_trace(symbols, b),
    ensures
        a == b,
{
    assert forall|depth: u16| #[trigger] has_depth(a, depth) <==> has_depth(b, depth) by {
        lemma_depths_of_trace(symbols, a, depth);
        lemma_depths_of_trace(symbols, b, depth);
    }
    lemma_same_depths(a, b);
    assert forall|i: int| 0 <= i < a.len() implies a[i] == b[i] by {
        assert(is_picked(symbols, a[i]) && is_picked(symbols, b[i]));
        let k = choose|k: int| #[trigger] is_first_of_depth(symbols, k) && symbols[k] == a[i];
        let m = choose|m: int| #[trigger] is_first_of_depth(symbols, m) && symbols[m] == b[i];
        assert(symbols[k].value.depth == symbols[m].value.depth);
    }
    assert(a =~= b);
}

/// What a frame is symbolized to is determined by the symbols and the record that there are:
/// symbolizing it again yields the same frames.
pub proof fn lemma_frames_are_determined(
    frame: Frame,
    inline_frames: bool,
    symbols: Option<&ArchivedSymTree>,
    record: Option<&StackFrame>,
    a: Seq<SymbolizedFrameView>,
    b: Seq<SymbolizedFrameView>,
)
    requires
        frame_results(frame, inline_frames, symbols, record, a),
        frame_results(frame, inline_frames, symbols, record, b),
    ensures
        a == b,
{
    if is_native(frame) && symbols is Some {
        let found = symbols_at(*symbols->0, frame.id.addr_or_line);
        let trace_a = lemma_trace_of_frames(frame, inline_frames, *symbols->0, a);
        let trace_b = lemma_trace_of_frames(frame, inline_frames, *symbols->0, b);
        lemma_trace_is_unique(found, trace_a, trace_b);
    }
}

/// The inline trace that frames were made from.
proof fn lemma_trace_of_frames(
    raw: Frame,
    inline_frames: bool,
    tree: ArchivedSymTree,
    frames: Seq<SymbolizedFrameView>,
) -> (trace: Seq<Symbol>)
    requires
        native_frames(raw, inline_frames, Some(&tree), frames),
    ensures
        is_inline_trace(symbols_at(tree, raw.id.addr_or_line), trace),
        frames == trace_frames(tree, raw, trace, inline_frames),
{
    choose|trace: Seq<Symbol>| #[trigger]
        is_inline_trace(symbols_at(tree, raw.id.addr_or_line), trace)
            && frames == trace_frames(tree, raw, trace, inline_frames)
}

/// Leaving out inline frames keeps the outermost frame, with the same function, file and line, and
/// drops the others.
pub proof fn lemma_leaving_out_inline_frames(
    frame: Frame,
    symbols: Option<&ArchivedSymTree>,
    record: Option<&StackFrame>,
    with: Seq<SymbolizedFrameView>,
    without: Seq<SymbolizedFrameView>,
)
    requires
        frame_results(frame, true, symbols, record, with),
        frame_results(frame, false, symbols, record, without),
    ensures
        without == with.take(1),
{
    if is_native(frame) && symbols is Some {
        let tree = *symbols->0;
        let trace = lemma_trace_of_frames(frame, true, tree, with);
        let other = lemma_trace_of_frames(frame, false, tree, without);
        lemma_trace_is_unique(symbols_at(tree, frame.id.addr_or_line), trace, other);
        lemma_outermost_frame(tree, frame, trace);
    } else {
        assert(with.take(1) =~= with);
    }
}

/// A trace is empty just where no symbol was found.
pub proof fn lemma_trace_is_empty(symbols: Seq<Symbol>, trace: Seq<Symbol>)
    requires
        is_inline_trace(symbols, trace),
    ensures
        trace.len() == 0 <==> symbols.len() == 0,
{
    if trace.len() > 0 {
        assert(symbols.contains(trace[0]));
    }
    if symbols.len() > 0 {
        assert(has_depth(trace, symbols[0].value.depth));
    }
}

/// In a well-formed tree, the symbols found for an address are all those whose ranges contain it,
/// and no others.
pub proof fn lemma_symbols_cover_address(tree: ArchivedSymTree, addr: u64)
    requires
        tree.tree.well_formed(),
    ensures
        symbols_at(tree, addr).to_multiset() == tree::elements(
            tree.tree.data@,
        ).to_multiset().filter(|sym: Symbol| sym.range.start <= addr < sym.range.end),
{
    broadcast use vstd::multiset::group_multiset_axioms;

    order::lemma_u64_keys();
    let all = tree::elements(tree.tree.data@);
    query::lemma_finds_what_was_given(tree.tree, all, Query::Point(addr));
    let selected = |sym: Symbol| Query::Point(addr).selects(sym.range);
    let covering = |sym: Symbol| sym.range.start <= addr < sym.range.end;
    assert(all.to_multiset().filter(selected) =~= all.to_multiset().filter(covering));
    assert(symbols_at(tree, addr) =~= query::elements_at(
        tree.tree.data@,
        query::search(tree.tree.data@, Query::Point(addr), 0, tree.tree.data@.len() as int),
    ));
}

/// An address that no symbol of the tree covers stays without symbols.
pub proof fn lemma_uncovered_address(
    raw: Frame,
    inline_frames: bool,
    tree: ArchivedSymTree,
    frames: Seq<SymbolizedFrameView>,
)
    requires
        native_frames(raw, inline_frames, Some(&tree), frames),
        forall|i: int|
            0 <= i < tree.tree.data@.len() ==> {
                let range = (#[trigger] tree.tree.data@[i]).element.range;
                !(range.start <= raw.id.addr_or_line < range.end)
            },
    ensures
        frames == seq![frame::spec_unsymbolized(raw)],
{
    let addr = raw.id.addr_or_line;
    let nodes = tree.tree.data@;
    let positions = query::search(nodes, Query::Point(addr), 0, nodes.len() as int);
    order::lemma_u64_keys();
    query::lemma_search_of_any_tree(tree.tree, Query::Point(addr));
    if positions.len() > 0 {
        assert(0 <= positions[0] < nodes.len());
    }
    let trace = lemma_trace_of_frames(raw, inline_frames, tree, frames);
    lemma_trace_is_empty(symbols_at(tree, addr), trace);
}

} // verus!
