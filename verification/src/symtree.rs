//! Symbol trees: which functions cover which addresses.

use crate::tree::Tree;
use std::ops::Range;
use vstd::prelude::*;

verus! {

/// A virtual address.
pub type VirtAddr = u64;

/// Reference into a [`SymTree`] string table.
#[derive(Debug, Clone, Copy)]
pub struct StringRef(pub u32);

impl StringRef {
    /// The reference stands for the absence of a string.
    pub open spec fn is_none(self) -> bool {
        self.0 == u32::MAX
    }

    /// Sentinel value for representing the absence of a string.
    pub fn none() -> (sentinel: StringRef)
        ensures
            sentinel.0 == u32::MAX,
            sentinel.is_none(),
    {
        StringRef(u32::MAX)
    }
}

/// Symbol interval tree.
#[derive(Debug)]
pub struct SymTree {
    pub strings: Vec<String>,
    pub tree: Tree<u64, SymRange>,
}

/// A symbol tree that was read back from storage.
pub type ArchivedSymTree = SymTree;

impl ArchivedSymTree {
    /// The string that a reference stands for, if any.
    pub open spec fn spec_str_by_ref(self, idx: StringRef) -> Option<Seq<char>> {
        if !idx.is_none() && idx.0 < self.strings@.len() {
            Some(self.strings@[idx.0 as int]@)
        } else {
            None
        }
    }

    /// Looks up a string in the string table.
    pub fn str_by_ref(&self, idx: StringRef) -> (string: Option<&str>)
        ensures
            match string {
                Some(string) => self.spec_str_by_ref(idx) == Some(string@),
                None => self.spec_str_by_ref(idx) is None,
            },
    {
        if idx.0 == StringRef::none().0 {
            return None;
        }
        match self.strings.get(idx.0 as usize) {
            Some(string) => Some(string.as_str()),
            None => None,
        }
    }
}

/// Database variant of a symbfile range record.
#[derive(Debug)]
pub struct SymRange {
    pub func: StringRef,
    pub file: StringRef,
    pub call_file: StringRef,
    pub call_line: Option<u32>,
    pub depth: u16,
    pub line_table: Vec<LineTableEntry>,
}

/// A range record that was read back from storage.
pub type ArchivedSymRange = SymRange;

/// Database variant of a symbfile line table entry.
#[derive(Debug)]
pub struct LineTableEntry {
    pub offset: u32,
    pub line_number: u32,
}

impl Default for LineTableEntry {
    fn default() -> (entry: LineTableEntry)
        ensures
            entry.offset == 0,
            entry.line_number == 0,
    {
        LineTableEntry { offset: 0, line_number: 0 }
    }
}

/// The number of entries up to the first one whose offset lies beyond `offs`.
pub open spec fn entries_reached(table: Seq<LineTableEntry>, offs: int) -> nat
    decreases table.len(),
{
    if table.len() == 0 || table[0].offset > offs {
        0
    } else {
        1 + entries_reached(table.skip(1), offs)
    }
}

impl ArchivedSymRange {
    /// The line number for an address, where the object begins at `start`.
    pub open spec fn spec_line_number_for_va(self, start: VirtAddr, va: VirtAddr) -> Option<u32> {
        let reached = entries_reached(self.line_table@, va - start);
        if va < start || reached == 0 {
            None
        } else {
            Some(self.line_table@[reached - 1].line_number)
        }
    }

    /// Looks up the line number for the given virtual address.
    ///
    /// `sym_va_range` is the range covered by this object. Needs to be passed
    /// in because it's stored outside of this type (in the tree).
    pub fn line_number_for_va(
        &self,
        sym_va_range: Range<VirtAddr>,
        va: VirtAddr,
    ) -> (line: Option<u32>)
        ensures
            line == self.spec_line_number_for_va(sym_va_range.start, va),
    {
        let max_offs: VirtAddr = match va.checked_sub(sym_va_range.start) {
            Some(max_offs) => max_offs,
            None => {
                return None;
            },
        };
        let mut line: Option<u32> = None;
        let mut i: usize = 0;
        let ghost table = self.line_table@;
        assert(table.skip(0) =~= table);
        while i < self.line_table.len()
            invariant
                table == self.line_table@,
                i <= table.len(),
                entries_reached(table, max_offs as int) == i + entries_reached(
                    table.skip(i as int),
                    max_offs as int,
                ),
                line == if i == 0 {
                    None
                } else {
                    Some(table[i - 1].line_number)
                },
            ensures
                entries_reached(table, max_offs as int) == i,
            decreases table.len() - i,
        {
            let lte = &self.line_table[i];
            if lte.offset as VirtAddr > max_offs {
                break;
            }
            assert(table.skip(i as int).skip(1) =~= table.skip(i + 1));
            line = Some(lte.line_number);
            i = i + 1;
        }
        line
    }
}

/// The entries that an address reaches are those up to the first one that lies beyond it.
pub proof fn lemma_entries_reached(table: Seq<LineTableEntry>, offs: int)
    ensures
        ({
            let reached = entries_reached(table, offs);
            &&& reached <= table.len()
            &&& forall|i: int| 0 <= i < reached ==> (#[trigger] table[i]).offset <= offs
            &&& reached < table.len() ==> table[reached as int].offset > offs
        }),
    decreases table.len(),
{
    if table.len() > 0 && table[0].offset <= offs {
        lemma_entries_reached(table.skip(1), offs);
        assert forall|i: int| 0 <= i < entries_reached(table, offs) implies
            (#[trigger] table[i]).offset <= offs by {
            if i > 0 {
                assert(table[i] == table.skip(1)[i - 1]);
            }
        }
    }
}

/// In a line table that is ordered by offset, the line found for an address is that of the last
/// entry that does not lie beyond it; none is found only if all entries lie beyond it.
pub proof fn lemma_line_of_last_entry(range: ArchivedSymRange, start: VirtAddr, va: VirtAddr)
    requires
        start <= va,
        forall|i: int, j: int|
            0 <= i <= j < range.line_table@.len() ==> (#[trigger] range.line_table@[i]).offset <= (
            #[trigger] range.line_table@[j]).offset,
    ensures
        match range.spec_line_number_for_va(start, va) {
            Some(line) => exists|k: int|
                {
                    &&& 0 <= k < range.line_table@.len()
                    &&& (#[trigger] range.line_table@[k]).offset <= va - start
                    &&& line == range.line_table@[k].line_number
                    &&& forall|j: int|
                        k < j < range.line_table@.len() ==>
                            (#[trigger] range.line_table@[j]).offset > va - start
                },
            None => forall|j: int|
                0 <= j < range.line_table@.len() ==>
                    (#[trigger] range.line_table@[j]).offset > va - start,
        },
{
    let table = range.line_table@;
    let reached = entries_reached(table, va - start) as int;
    lemma_entries_reached(table, va - start);
    assert forall|j: int| reached <= j < table.len() implies
        (#[trigger] table[j]).offset > va - start by {
        assert(table[reached].offset <= table[j].offset);
    }
    if reached > 0 {
        assert(table[reached - 1].offset <= va - start);
    }
}

} // verus!
