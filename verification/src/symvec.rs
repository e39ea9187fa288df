//! The small vectors that symbolizing a frame works with.

use crate::frame::SymbolizedFrame;
use smallvec::SmallVec;
use vstd::prelude::*;

verus! {

/// Symbols, each given by its inline depth and its number among the symbols found.
#[verifier::external_body]
pub struct SymVec {
    items: SmallVec<[(u16, usize); 2]>,
}

/// What a [`SymVec`] holds, in order.
pub uninterp spec fn sym_items(syms: SymVec) -> Seq<(u16, usize)>;

impl View for SymVec {
    type V = Seq<(u16, usize)>;

    open spec fn view(&self) -> Seq<(u16, usize)> {
        sym_items(*self)
    }
}

/// The symbols are in ascending order of depth, and those of one depth in ascending order of their
/// numbers.
pub open spec fn ascending(items: Seq<(u16, usize)>) -> bool {
    forall|i: int, j: int|
        0 <= i <= j < items.len() ==> {
            let (a, b) = (#[trigger] items[i], #[trigger] items[j]);
            a.0 < b.0 || (a.0 == b.0 && a.1 <= b.1)
        }
}

/// The first symbol of each run of symbols of one depth.
pub open spec fn run_heads(items: Seq<(u16, usize)>) -> Seq<(u16, usize)>
    decreases items.len(),
{
    if items.len() == 0 {
        Seq::empty()
    } else {
        let heads = run_heads(items.drop_last());
        if heads.len() > 0 && heads.last().0 == items.last().0 {
            heads
        } else {
            heads.push(items.last())
        }
    }
}

/// Calls `SmallVec::from_vec`, which takes over the items of a vector in their order.
#[verifier::external_body]
pub(crate) fn syms_from_vec(items: Vec<(u16, usize)>) -> (syms: SymVec)
    ensures
        sym_items(syms) == items@,
{
    SymVec { items: SmallVec::from_vec(items) }
}

/// Calls the slice method `sort_unstable_by_key` with depth and number as the key: it rearranges
/// the items in ascending order of depth, and those of one depth in ascending order of their
/// numbers.
#[verifier::external_body]
pub(crate) fn syms_sort_by_depth(syms: &mut SymVec)
    ensures
        sym_items(*final(syms)).to_multiset() == sym_items(*old(syms)).to_multiset(),
        ascending(sym_items(*final(syms))),
{
    syms.items.sort_unstable_by_key(|sym| (sym.0, sym.1));
}

/// Calls `SmallVec::dedup_by_key` with the depth as the key: of each run of consecutive items of
/// one depth, it keeps the first and removes the others.
#[verifier::external_body]
pub(crate) fn syms_dedup_by_depth(syms: &mut SymVec)
    ensures
        sym_items(*final(syms)) == run_heads(sym_items(*old(syms))),
{
    syms.items.dedup_by_key(|sym| sym.0);
}

/// Calls `SmallVec::into_vec`, which hands out the items in their order.
#[verifier::external_body]
pub(crate) fn syms_into_vec(syms: SymVec) -> (items: Vec<(u16, usize)>)
    ensures
        items@ == sym_items(syms),
{
    syms.items.into_vec()
}

/// The frames that symbolizing one frame results in, outermost first.
#[verifier::external_body]
pub struct SymbolizedFrames {
    items: SmallVec<[SymbolizedFrame; 2]>,
}

/// What a [`SymbolizedFrames`] holds, in order.
pub uninterp spec fn frame_items(frames: SymbolizedFrames) -> Seq<SymbolizedFrame>;

impl View for SymbolizedFrames {
    type V = Seq<SymbolizedFrame>;

    open spec fn view(&self) -> Seq<SymbolizedFrame> {
        frame_items(*self)
    }
}

/// Calls `SmallVec::with_capacity`, which constructs a vector without items. It panics where the
/// capacity cannot be allocated at all, which is far beyond the one allowed here.
#[verifier::external_body]
pub(crate) fn frames_with_capacity(n: usize) -> (frames: SymbolizedFrames)
    requires
        n <= 0x1_0000,
    ensures
        frame_items(frames) == Seq::<SymbolizedFrame>::empty(),
{
    SymbolizedFrames { items: SmallVec::with_capacity(n) }
}

/// Calls `SmallVec::push`, which appends one item. It panics where the capacity it would have to
/// grow to cannot be allocated at all, which is far beyond the length allowed here.
#[verifier::external_body]
pub(crate) fn frames_push(frames: &mut SymbolizedFrames, frame: SymbolizedFrame)
    requires
        frame_items(*old(frames)).len() < 0x1_0000,
    ensures
        frame_items(*final(frames)) == frame_items(*old(frames)).push(frame),
{
    frames.items.push(frame);
}

/// Calls `SmallVec::into_vec`, which hands out the items in their order.
#[verifier::external_body]
pub(crate) fn frames_into_vec(frames: SymbolizedFrames) -> (items: Vec<SymbolizedFrame>)
    ensures
        items@ == frame_items(frames),
{
    frames.items.into_vec()
}

impl SymbolizedFrames {
    /// Hands out the frames in their order.
    pub fn into_vec(self) -> (frames: Vec<SymbolizedFrame>)
        ensures
            frames@ == self@,
    {
        frames_into_vec(self)
    }
}

} // verus!
