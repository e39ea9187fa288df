//! What comes of symbolizing frames and of printing them.

use crate::frame::{
    Executable, FileId, Frame, FrameKind, InterpKind, StackFrame, SymbolizedFrame,
};
use crate::laws::names;
use crate::order;
use crate::query;
use crate::query::Query;
use crate::symbolize;
use crate::symbolize::Symbol;
use crate::symtree::{ArchivedSymRange, ArchivedSymTree, LineTableEntry, StringRef, VirtAddr};
use crate::symvec::SymbolizedFrames;
use crate::text;
use std::ops::Range;
use vstd::prelude::*;

verus! {

/// Both strings are absent, or both are present and hold the same characters.
pub open spec fn same_text(a: Option<String>, b: Option<String>) -> bool {
    match (a, b) {
        (Some(a), Some(b)) => a@ == b@,
        (None, None) => true,
        _ => false,
    }
}

/// `name` is the string of the table that a reference stands for by its number, or absent where
/// the table holds no such string or the reference is the sentinel.
pub open spec fn is_named(strings: Seq<String>, idx: StringRef, name: Option<String>) -> bool {
    if idx.0 < strings.len() && idx.0 != 0xffff_ffff {
        name is Some && name->0@ == strings[idx.0 as int]@
    } else {
        name is None
    }
}

/// Nothing but the raw frame is known.
pub open spec fn is_bare(frame: SymbolizedFrame, raw: Frame) -> bool {
    frame.raw == raw && frame.func is None && frame.file is None && frame.line_no is None
}

/// `line` is that of the entry before the first one whose offset lies beyond `offs`, or of the last
/// entry where none does, or absent where there is no such entry.
pub open spec fn is_line_at(table: Seq<LineTableEntry>, offs: int, line: Option<u32>) -> bool {
    match line {
        Some(line) => exists|k: int|
            {
                &&& 0 <= k < table.len()
                &&& (#[trigger] table[k]).line_number == line
                &&& forall|i: int| 0 <= i <= k ==> (#[trigger] table[i]).offset <= offs
                &&& k + 1 < table.len() ==> table[k + 1].offset > offs
            },
        None => table.len() == 0 || table[0].offset > offs,
    }
}

/// A reference resolves to the string of its number, and to none where the table ends before it.
pub proof fn lemma_str_by_ref(tree: ArchivedSymTree, idx: StringRef, string: Option<&str>)
    requires
        call_ensures(ArchivedSymTree::str_by_ref, (&tree, idx), string),
    ensures
        idx.0 < tree.strings@.len() && idx.0 != 0xffff_ffff ==> string is Some && string->0@
            == tree.strings@[idx.0 as int]@,
        idx.0 >= tree.strings@.len() || idx.0 == 0xffff_ffff ==> string is None,
{
}

/// The sentinel resolves to no string in any table. It is the greatest number there is.
pub proof fn lemma_sentinel(tree: ArchivedSymTree, sentinel: StringRef, string: Option<&str>)
    requires
        call_ensures(StringRef::none, (), sentinel),
        call_ensures(ArchivedSymTree::str_by_ref, (&tree, sentinel), string),
    ensures
        sentinel.0 == 0xffff_ffff,
        string is None,
{
}

/// In a table of distinct strings, different references resolve to different strings.
pub proof fn lemma_references_differ(
    tree: ArchivedSymTree,
    a: StringRef,
    b: StringRef,
    string_a: Option<&str>,
    string_b: Option<&str>,
)
    requires
        call_ensures(ArchivedSymTree::str_by_ref, (&tree, a), string_a),
        call_ensures(ArchivedSymTree::str_by_ref, (&tree, b), string_b),
        a.0 != b.0,
        string_a is Some,
        string_b is Some,
        forall|i: int, j: int|
            0 <= i < j < tree.strings@.len() ==> (#[trigger] tree.strings@[i])@ != (
            #[trigger] tree.strings@[j])@,
    ensures
        string_a->0@ != string_b->0@,
{
}

/// The line for an address is found by going through the line table up to the address, whatever
/// the range ends at. Before the range there is none.
pub proof fn lemma_line_number_for_va(
    sym: ArchivedSymRange,
    range: Range<VirtAddr>,
    va: VirtAddr,
    line: Option<u32>,
)
    requires
        call_ensures(ArchivedSymRange::line_number_for_va, (&sym, range, va), line),
    ensures
        va < range.start ==> line is None,
        range.start <= va ==> is_line_at(sym.line_table@, va - range.start, line),
{
    if range.start <= va {
        lemma_line(sym, range.start, va);
    }
}

proof fn lemma_line(sym: ArchivedSymRange, start: VirtAddr, va: VirtAddr)
    requires
        start <= va,
    ensures
        is_line_at(sym.line_table@, va - start, sym.spec_line_number_for_va(start, va)),
{
    let table = sym.line_table@;
    let reached = crate::symtree::entries_reached(table, va - start) as int;
    crate::symtree::lemma_entries_reached(table, va - start);
    if reached > 0 {
        assert(table[reached - 1].offset <= va - start);
    }
}

/// Only frames of running native code are looked up in symbol trees.
pub proof fn lemma_has_native_code(frame: Frame, r: bool)
    requires
        call_ensures(symbolize::has_native_code, (frame,), r),
    ensures
        r <==> frame.kind == FrameKind::Regular(InterpKind::Native),
{
}

/// What runs the code of a frame is what its kind says, be it one of running code or not.
pub proof fn lemma_interp(kind: FrameKind, interp: Option<InterpKind>)
    requires
        call_ensures(FrameKind::interp, (kind,), interp),
    ensures
        forall|i: InterpKind| kind == FrameKind::Regular(i) ==> interp == Some(i),
        forall|i: Option<InterpKind>| kind == FrameKind::Special(i) ==> interp == i,
{
}

/// An unsymbolized frame holds the raw frame and nothing else.
pub proof fn lemma_unsymbolized(raw: Frame, frame: SymbolizedFrame)
    requires
        call_ensures(SymbolizedFrame::unsymbolized, (raw,), frame),
    ensures
        is_bare(frame, raw),
{
}

/// `frame` holds the raw frame and what is recorded of it: both names, and the line number unless
/// that is 0.
pub open spec fn is_recorded(
    frame: SymbolizedFrame,
    raw: Frame,
    record: Option<&StackFrame>,
) -> bool {
    match record {
        Some(record) => {
            &&& frame.raw == raw
            &&& same_text(frame.func, record.function_name)
            &&& same_text(frame.file, record.file_name)
            &&& record.line_number == 0 ==> frame.line_no is None
            &&& record.line_number != 0 ==> frame.line_no is Some && frame.line_no->0
                == record.line_number % 0x1_0000_0000
        },
        None => is_bare(frame, raw),
    }
}

/// A frame of interpreted code takes both names and the line from its record, and stays bare
/// where it has none.
pub proof fn lemma_symbolize_iterp_frame(
    raw: Frame,
    record: Option<&StackFrame>,
    frame: SymbolizedFrame,
)
    requires
        call_ensures(symbolize::symbolize_iterp_frame, (raw, record), frame),
    ensures
        is_recorded(frame, raw, record),
{
}

/// The frames for a chain of symbols, the outermost first. Each is named by its own symbol. A
/// symbol into which another was inlined is at the place where that one was called; the last one
/// is at the line that its own line table gives for the address.
pub open spec fn are_frames_of(
    tree: ArchivedSymTree,
    raw: Frame,
    chain: Seq<Symbol>,
    inline_frames: bool,
    frames: Seq<SymbolizedFrame>,
) -> bool {
    let strings = tree.strings@;
    &&& chain.len() == 0 ==> frames.len() == 1 && is_bare(frames[0], raw)
    &&& chain.len() > 0 ==> frames.len() == if inline_frames {
        chain.len()
    } else {
        1
    }
    &&& forall|i: int|
        0 <= i < frames.len() && i < chain.len() ==> {
            &&& (#[trigger] frames[i]).raw == raw
            &&& is_named(strings, chain[i].value.func, frames[i].func)
        }
    &&& forall|i: int|
        0 <= i < frames.len() && i + 1 < chain.len() ==> {
            &&& is_named(strings, chain[i + 1].value.call_file, (#[trigger] frames[i]).file)
            &&& frames[i].line_no == chain[i + 1].value.call_line
        }
    &&& forall|i: int|
        0 <= i < frames.len() && i == chain.len() - 1 ==> {
            let (start, addr) = (chain[i].range.start, raw.id.addr_or_line);
            &&& is_named(strings, chain[i].value.file, (#[trigger] frames[i]).file)
            &&& addr < start ==> frames[i].line_no is None
            &&& start <= addr ==> is_line_at(
                chain[i].value.line_table@,
                addr - start,
                frames[i].line_no,
            )
        }
}

proof fn lemma_trace_frames(
    tree: ArchivedSymTree,
    raw: Frame,
    chain: Seq<Symbol>,
    inline_frames: bool,
    frames: Seq<SymbolizedFrame>,
)
    requires
        symbolize::views(frames) == symbolize::trace_frames(tree, raw, chain, inline_frames),
    ensures
        are_frames_of(tree, raw, chain, inline_frames, frames),
{
    let views = symbolize::views(frames);
    assert(frames.len() == views.len());
    assert forall|i: int| 0 <= i < frames.len() implies #[trigger] frames[i]@ == views[i] by {}
    if chain.len() > 0 {
        let last = chain.last();
        if last.range.start <= raw.id.addr_or_line {
            lemma_line(last.value, last.range.start, raw.id.addr_or_line);
        }
        assert forall|i: int| 0 <= i < frames.len() implies (#[trigger] frames[i])@
            == symbolize::trace_frame(tree, raw, chain, i) by {
            assert(views[i] == frames[i]@);
        }
    } else {
        assert(views[0] == frames[0]@);
    }
}

/// Symbolizing a chain of symbols gives the frames of that chain.
pub proof fn lemma_symbolize_trace(
    tree: ArchivedSymTree,
    raw: Frame,
    chain: Vec<&Symbol>,
    inline_frames: bool,
    frames: SymbolizedFrames,
)
    requires
        call_ensures(symbolize::symbolize_trace, (&tree, raw, &chain, inline_frames), frames),
    ensures
        are_frames_of(
            tree,
            raw,
            Seq::new(chain@.len(), |i: int| *chain@[i]),
            inline_frames,
            frames@,
        ),
{
    let syms = chain@.map_values(|sym: &Symbol| *sym);
    assert(syms =~= Seq::new(chain@.len(), |i: int| *chain@[i]));
    lemma_trace_frames(tree, raw, syms, inline_frames, frames@);
}

/// Two frames are the same, down to the characters of their names.
pub open spec fn same_frame(a: SymbolizedFrame, b: SymbolizedFrame) -> bool {
    a.raw == b.raw && same_text(a.func, b.func) && same_text(a.file, b.file) && a.line_no
        == b.line_no
}

/// Where a symbol was called from shows in the frame around it and in no other.
pub proof fn lemma_call_site_shows_outside(
    tree: ArchivedSymTree,
    raw: Frame,
    a: Vec<&Symbol>,
    b: Vec<&Symbol>,
    i: int,
    frames_a: SymbolizedFrames,
    frames_b: SymbolizedFrames,
)
    requires
        call_ensures(symbolize::symbolize_trace, (&tree, raw, &a, true), frames_a),
        call_ensures(symbolize::symbolize_trace, (&tree, raw, &b, true), frames_b),
        0 <= i < a@.len() == b@.len(),
        forall|j: int| 0 <= j < a@.len() && j != i ==> *(#[trigger] a@[j]) == *b@[j],
        ({
            let (x, y) = (*a@[i], *b@[i]);
            &&& x.range == y.range
            &&& x.value.func == y.value.func
            &&& x.value.file == y.value.file
            &&& x.value.line_table == y.value.line_table
        }),
    ensures
        frames_a@.len() == frames_b@.len() == a@.len(),
        forall|j: int|
            0 <= j < a@.len() && j + 1 != i ==> same_frame(#[trigger] frames_a@[j], frames_b@[j]),
        i > 0 ==> {
            let outer = frames_b@[i - 1];
            &&& is_named(tree.strings@, b@[i].value.call_file, outer.file)
            &&& outer.line_no == b@[i].value.call_line
            &&& same_text(outer.func, frames_a@[i - 1].func)
        },
{
    let syms_a = a@.map_values(|sym: &Symbol| *sym);
    let syms_b = b@.map_values(|sym: &Symbol| *sym);
    lemma_trace_frames(tree, raw, syms_a, true, frames_a@);
    lemma_trace_frames(tree, raw, syms_b, true, frames_b@);
    let (views_a, views_b) = (symbolize::views(frames_a@), symbolize::views(frames_b@));
    assert forall|j: int| 0 <= j < a@.len() && j + 1 != i implies same_frame(
        #[trigger] frames_a@[j],
        frames_b@[j],
    ) by {
        assert(views_a[j] == frames_a@[j]@ && views_b[j] == frames_b@[j]@);
        assert(*a@[j] == syms_a[j] && *b@[j] == syms_b[j]);
        if j + 1 < a@.len() {
            assert(syms_a[j + 1] == syms_b[j + 1]);
        }
    }
    if i > 0 {
        assert(syms_a[i - 1] == syms_b[i - 1]);
        assert(views_a[i - 1] == frames_a@[i - 1]@ && views_b[i - 1] == frames_b@[i - 1]@);
    }
}

/// The range of a symbol contains an address.
pub open spec fn covers(sym: Symbol, addr: u64) -> bool {
    sym.range.start <= addr < sym.range.end
}

/// Of the symbols that a search for an address finds, the one at position `n` is the first one of
/// its depth.
pub open spec fn is_first_found(tree: ArchivedSymTree, addr: u64, n: int) -> bool {
    let nodes = tree.tree.data@;
    let found = query::search(nodes, Query::Point(addr), 0, nodes.len() as int);
    exists|k: int|
        {
            &&& 0 <= k < found.len()
            &&& #[trigger] found[k] == n
            &&& forall|j: int|
                0 <= j < k ==> nodes[#[trigger] found[j]].element.value.depth
                    != nodes[n].element.value.depth
        }
}

/// A symbol at one of the positions is of the given depth.
pub open spec fn holds_depth(tree: ArchivedSymTree, at: Seq<int>, depth: u16) -> bool {
    exists|i: int|
        0 <= i < at.len() && tree.tree.data@[#[trigger] at[i]].element.value.depth == depth
}

/// `at` are positions of symbols in the tree that cover an address, from the least depth to the
/// greatest; of several symbols of one depth it is the one that a search finds first. In a
/// well-formed tree, there is one of each depth that a symbol covering the address is of.
pub open spec fn is_chain(tree: ArchivedSymTree, addr: u64, at: Seq<int>) -> bool {
    let nodes = tree.tree.data@;
    &&& forall|i: int|
        0 <= i < at.len() ==> {
            &&& 0 <= #[trigger] at[i] < nodes.len()
            &&& covers(nodes[at[i]].element, addr)
            &&& is_first_found(tree, addr, at[i])
        }
    &&& forall|i: int, j: int|
        0 <= i < j < at.len() ==> nodes[#[trigger] at[i]].element.value.depth
            < nodes[#[trigger] at[j]].element.value.depth
    &&& tree.tree.well_formed() ==> forall|n: int|
        0 <= n < nodes.len() && covers((#[trigger] nodes[n]).element, addr) ==> holds_depth(
            tree,
            at,
            nodes[n].element.value.depth,
        )
}

/// The symbols at some positions of a tree.
pub open spec fn symbols_of(tree: ArchivedSymTree, at: Seq<int>) -> Seq<Symbol> {
    Seq::new(at.len(), |i: int| tree.tree.data@[at[i]].element)
}

/// `frames` are those of a chain of symbols that cover the address of the frame, or a bare one.
pub open spec fn are_native_frames(
    tree: ArchivedSymTree,
    frame: Frame,
    inline_frames: bool,
    frames: Seq<SymbolizedFrame>,
) -> bool {
    exists|at: Seq<int>| #[trigger]
        is_chain(tree, frame.id.addr_or_line, at) && are_frames_of(
            tree,
            frame,
            symbols_of(tree, at),
            inline_frames,
            frames,
        )
}

/// The chain of an inline trace through the symbols found for an address.
proof fn lemma_chain(tree: ArchivedSymTree, addr: u64, trace: Seq<Symbol>) -> (at: Seq<int>)
    requires
        symbolize::is_inline_trace(symbolize::symbols_at(tree, addr), trace),
    ensures
        is_chain(tree, addr, at),
        symbols_of(tree, at) == trace,
{
    order::lemma_u64_keys();
    let nodes = tree.tree.data@;
    let point = Query::Point(addr);
    let found = query::search(nodes, point, 0, nodes.len() as int);
    let symbols = symbolize::symbols_at(tree, addr);
    query::lemma_search_of_any_tree(tree.tree, point);
    let at = Seq::new(
        trace.len(),
        |i: int|
            found[choose|k: int| #[trigger]
                symbolize::is_first_of_depth(symbols, k) && symbols[k] == trace[i]],
    );
    assert forall|i: int| 0 <= i < at.len() implies {
        &&& 0 <= #[trigger] at[i] < nodes.len()
        &&& covers(nodes[at[i]].element, addr)
        &&& nodes[at[i]].element == trace[i]
        &&& is_first_found(tree, addr, at[i])
    } by {
        assert(symbolize::is_picked(symbols, trace[i]));
        let k = choose|k: int| #[trigger]
            symbolize::is_first_of_depth(symbols, k) && symbols[k] == trace[i];
        assert(at[i] == found[k]);
        assert(symbols[k] == nodes[found[k]].element);
        assert forall|j: int| 0 <= j < k implies nodes[#[trigger] found[j]].element.value.depth
            != nodes[found[k]].element.value.depth by {
            assert(symbols[j] == nodes[found[j]].element);
        }
        assert(found[k] == at[i]);
    }
    if tree.tree.well_formed() {
        query::lemma_search_is_exact(tree.tree, point);
        assert forall|n: int|
            0 <= n < nodes.len() && covers((#[trigger] nodes[n]).element, addr) implies holds_depth(
            tree,
            at,
            nodes[n].element.value.depth,
        ) by {
            assert(found.contains(n));
            let k = choose|k: int| 0 <= k < found.len() && found[k] == n;
            assert(symbols[k] == nodes[n].element);
            assert(symbolize::has_depth(trace, symbols[k].value.depth));
            let i = choose|i: int|
                0 <= i < trace.len() && (#[trigger] trace[i]).value.depth
                    == symbols[k].value.depth;
            assert(nodes[at[i]].element == trace[i]);
        }
    }
    assert(symbols_of(tree, at) =~= trace);
    at
}

/// The symbols picked for an address cover it, one of each depth, from the least to the greatest;
/// of several symbols of one depth it is the one that a search finds first.
pub proof fn lemma_find_trace(tree: ArchivedSymTree, addr: u64, trace: Vec<&Symbol>)
    requires
        call_ensures(symbolize::find_trace, (&tree, addr), trace),
    ensures
        exists|at: Seq<int>|
            {
                &&& #[trigger] is_chain(tree, addr, at)
                &&& symbols_of(tree, at) == Seq::new(trace@.len(), |i: int| *trace@[i])
            },
{
    let syms = trace@.map_values(|sym: &Symbol| *sym);
    assert(syms =~= Seq::new(trace@.len(), |i: int| *trace@[i]));
    let at = lemma_chain(tree, addr, syms);
}

proof fn lemma_native_frames(
    tree: ArchivedSymTree,
    frame: Frame,
    inline_frames: bool,
    frames: Seq<SymbolizedFrame>,
)
    requires
        symbolize::native_frames(frame, inline_frames, Some(&tree), symbolize::views(frames)),
    ensures
        are_native_frames(tree, frame, inline_frames, frames),
{
    let views = symbolize::views(frames);
    let trace = choose|trace: Seq<Symbol>| #[trigger]
        symbolize::is_inline_trace(symbolize::symbols_at(tree, frame.id.addr_or_line), trace)
            && views == symbolize::trace_frames(tree, frame, trace, inline_frames);
    let at = lemma_chain(tree, frame.id.addr_or_line, trace);
    lemma_trace_frames(tree, frame, trace, inline_frames, frames);
}

proof fn lemma_no_tree(frame: Frame, inline_frames: bool, frames: Seq<SymbolizedFrame>)
    requires
        symbolize::native_frames(frame, inline_frames, None, symbolize::views(frames)),
    ensures
        frames.len() == 1 && is_bare(frames[0], frame),
{
    let views = symbolize::views(frames);
    assert(frames.len() == views.len());
    assert(frames[0]@ == views[0]);
}

/// A frame of native code gets the frames of the symbols that cover its very address, or a bare
/// one if its executable has no symbols at all.
pub proof fn lemma_symbolize_native_frame(
    raw: Frame,
    inline_frames: bool,
    symbols: Option<&ArchivedSymTree>,
    frames: SymbolizedFrames,
)
    requires
        call_ensures(symbolize::symbolize_native_frame, (raw, inline_frames, symbols), frames),
    ensures
        match symbols {
            Some(tree) => are_native_frames(*tree, raw, inline_frames, frames@),
            None => frames@.len() == 1 && is_bare(frames@[0], raw),
        },
{
    match symbols {
        Some(tree) => lemma_native_frames(*tree, raw, inline_frames, frames@),
        None => lemma_no_tree(raw, inline_frames, frames@),
    }
}

/// A frame of running native code gets the frames of the symbols that cover its very address; any
/// other frame gets what its record says.
pub proof fn lemma_symbolize_frame(
    frame: Frame,
    inline_frames: bool,
    symbols: Option<&ArchivedSymTree>,
    record: Option<&StackFrame>,
    frames: SymbolizedFrames,
)
    requires
        call_ensures(symbolize::symbolize_frame, (frame, inline_frames, symbols, record), frames),
    ensures
        frames@.len() >= 1,
        forall|i: int| 0 <= i < frames@.len() ==> (#[trigger] frames@[i]).raw == frame,
        frame.kind == FrameKind::Regular(InterpKind::Native) ==> match symbols {
            Some(tree) => are_native_frames(*tree, frame, inline_frames, frames@),
            None => frames@.len() == 1 && is_bare(frames@[0], frame),
        },
        frame.kind != FrameKind::Regular(InterpKind::Native) ==> frames@.len() == 1 && is_recorded(
            frames@[0],
            frame,
            record,
        ),
{
    let views = symbolize::views(frames@);
    assert(frames@.len() == views.len());
    if frame.kind == FrameKind::Regular(InterpKind::Native) {
        match symbols {
            Some(tree) => {
                lemma_native_frames(*tree, frame, inline_frames, frames@);
                let at = choose|at: Seq<int>| #[trigger]
                    is_chain(*tree, frame.id.addr_or_line, at) && are_frames_of(
                        *tree,
                        frame,
                        symbols_of(*tree, at),
                        inline_frames,
                        frames@,
                    );
                assert(symbols_of(*tree, at).len() == at.len());
            },
            None => lemma_no_tree(frame, inline_frames, frames@),
        }
    } else {
        assert(frames@[0]@ == views[0]);
    }
}

/// In a well-formed tree, a frame of native code stays bare just where no symbol covers its
/// address; otherwise its outermost frame is named by a symbol that covers the address and is of
/// the least depth of all those that do.
pub proof fn lemma_outermost_covers_address(
    frame: Frame,
    inline_frames: bool,
    tree: ArchivedSymTree,
    record: Option<&StackFrame>,
    frames: SymbolizedFrames,
)
    requires
        call_ensures(
            symbolize::symbolize_frame,
            (frame, inline_frames, Some(&tree), record),
            frames,
        ),
        frame.kind == FrameKind::Regular(InterpKind::Native),
        tree.tree.well_formed(),
    ensures
        ({
            let (nodes, addr) = (tree.tree.data@, frame.id.addr_or_line);
            &&& (forall|n: int|
                0 <= n < nodes.len() ==> !covers((#[trigger] nodes[n]).element, addr)) ==>
                frames@.len() == 1 && is_bare(frames@[0], frame)
            &&& (exists|n: int|
                0 <= n < nodes.len() && covers((#[trigger] nodes[n]).element, addr)) ==> exists|
                m: int,
            |
                {
                    &&& 0 <= m < nodes.len()
                    &&& covers((#[trigger] nodes[m]).element, addr)
                    &&& forall|n: int|
                        0 <= n < nodes.len() && covers((#[trigger] nodes[n]).element, addr) ==>
                            nodes[m].element.value.depth <= nodes[n].element.value.depth
                    &&& is_named(tree.strings@, nodes[m].element.value.func, frames@[0].func)
                }
        }),
{
    lemma_symbolize_frame(frame, inline_frames, Some(&tree), record, frames);
    let (nodes, addr) = (tree.tree.data@, frame.id.addr_or_line);
    let at = choose|at: Seq<int>| #[trigger]
        is_chain(tree, addr, at) && are_frames_of(
            tree,
            frame,
            symbols_of(tree, at),
            inline_frames,
            frames@,
        );
    let chain = symbols_of(tree, at);
    if at.len() > 0 {
        assert(covers(nodes[at[0]].element, addr));
        assert(frames@[0].raw == frame);
        assert(chain[0] == nodes[at[0]].element);
        assert forall|n: int|
            0 <= n < nodes.len() && covers((#[trigger] nodes[n]).element, addr) implies
            nodes[at[0]].element.value.depth <= nodes[n].element.value.depth by {
            assert(holds_depth(tree, at, nodes[n].element.value.depth));
            let i = choose|i: int|
                0 <= i < at.len() && nodes[#[trigger] at[i]].element.value.depth
                    == nodes[n].element.value.depth;
            if i > 0 {
                assert(nodes[at[0]].element.value.depth < nodes[at[i]].element.value.depth);
            }
        }
    }
}

/// The code of a frame of this kind is native, be it one of running code or not.
pub open spec fn is_of_native_code(kind: FrameKind) -> bool {
    kind == FrameKind::Regular(InterpKind::Native) || kind == FrameKind::Special(
        Some(InterpKind::Native),
    )
}

/// A frame of any but native code is shown as its function, then its file, then its line, each as
/// far as it is known; and as its address in 16 hexadecimal digits where the function is not. The
/// executable does not matter.
pub proof fn lemma_display(
    frame: SymbolizedFrame,
    executable: Option<&Executable>,
    shown: String,
)
    requires
        call_ensures(SymbolizedFrame::display, (&frame, executable), shown),
        !is_of_native_code(frame.raw.kind),
    ensures
        match (frame.func, frame.file, frame.line_no) {
            (Some(func), None, None) => shown@ == func@,
            (Some(func), Some(file), None) => shown@ == func@ + " in "@ + file@,
            (Some(func), None, Some(line)) => shown@ == func@ + ":"@ + text::decimal(line as nat),
            (Some(func), Some(file), Some(line)) => shown@ == func@ + " in "@ + file@ + ":"@
                + text::decimal(line as nat),
            (None, _, _) => {
                &&& shown@.len() == 19
                &&& shown@.take(3) == "+0x"@
                &&& names::are_digits(shown@.skip(3), frame.raw.id.addr_or_line as int, 16)
            },
        },
{
    names::lemma_hex_digits(frame.raw.id.addr_or_line as int, 16);
    reveal_strlit("+0x");
    if frame.func is None {
        assert(shown@.take(3) =~= "+0x"@);
        assert(shown@.skip(3) =~= text::hex(frame.raw.id.addr_or_line as int, 16));
    } else {
        let func = frame.func->0@;
        match (frame.file, frame.line_no) {
            (None, None) => assert(shown@ =~= func),
            (Some(file), None) => assert(shown@ =~= func + " in "@ + file@),
            (None, Some(line)) => assert(shown@ =~= func + ":"@ + text::decimal(line as nat)),
            (Some(file), Some(line)) => assert(shown@ =~= func + " in "@ + file@ + ":"@
                + text::decimal(line as nat)),
        }
    }
}

/// A frame of native code is shown as the same frame of other code would be, with the name of its
/// executable before it, or the 32 hexadecimal digits of its file ID where there is no name. Where
/// the function is known, a colon and a space come between.
pub proof fn lemma_display_of_native_code(
    native: SymbolizedFrame,
    other: SymbolizedFrame,
    executable: Option<&Executable>,
    any_executable: Option<&Executable>,
    shown: String,
    shown_other: String,
    id: String,
)
    requires
        call_ensures(SymbolizedFrame::display, (&native, executable), shown),
        call_ensures(SymbolizedFrame::display, (&other, any_executable), shown_other),
        call_ensures(FileId::format_hex, (native.raw.id.file_id,), id),
        is_of_native_code(native.raw.kind),
        !is_of_native_code(other.raw.kind),
        native.raw.id.addr_or_line == other.raw.id.addr_or_line,
        same_text(native.func, other.func),
        same_text(native.file, other.file),
        native.line_no == other.line_no,
    ensures
        ({
            let lead = if executable is Some && executable->0.file_name is Some {
                executable->0.file_name->0@
            } else {
                id@
            };
            let between = if native.func is Some {
                ": "@
            } else {
                ""@
            };
            shown@ == lead + between + shown_other@
        }),
{
    reveal_strlit("");
    let lead = if executable is Some && executable->0.file_name is Some {
        executable->0.file_name->0@
    } else {
        id@
    };
    let between = if native.func is Some {
        ": "@
    } else {
        ""@
    };
    assert(native@.func == other@.func && native@.file == other@.file);
    assert(shown@ =~= lead + between + shown_other@);
}

} // verus!
