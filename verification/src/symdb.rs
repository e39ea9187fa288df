//! The store of symbol trees: what its files are called, which trees it remembers, and in what
//! steps a tree is written.

use crate::frame::FileId;
use crate::symtree::ArchivedSymTree;
use crate::text;
use std::collections::HashMap;
use std::sync::Arc;
use vstd::prelude::*;
use vstd::string::StringExecFns;

verus! {

/// Symbol tree that was stored to disk and has been opened.
#[derive(Debug)]
pub struct MappedSymTree {
    tree: ArchivedSymTree,
}

impl MappedSymTree {
    /// The opened tree.
    pub closed spec fn spec_tree(self) -> ArchivedSymTree {
        self.tree
    }

    /// Validates that a file of `len` bytes is large enough to contain an archived symbol tree,
    /// whose root takes `min_size` bytes.
    pub fn check_len(len: usize, min_size: usize) -> (r: Result<(), SymDbError>)
        ensures
            r == if len >= min_size {
                Ok(())
            } else {
                Err(SymDbError::TooSmall { len, min_size })
            },
    {
        if len >= min_size {
            Ok(())
        } else {
            Err(SymDbError::TooSmall { len, min_size })
        }
    }

    /// Wraps a tree that was read from a file.
    pub fn new(tree: ArchivedSymTree) -> (mapped: Self)
        ensures
            mapped.spec_tree() == tree,
    {
        MappedSymTree { tree }
    }
}

impl std::ops::Deref for MappedSymTree {
    type Target = ArchivedSymTree;

    fn deref(&self) -> (tree: &ArchivedSymTree)
        ensures
            *tree == self.spec_tree(),
    {
        &self.tree
    }
}

/// Why a symbol tree could not be read or written.
#[derive(Debug, Clone, Copy, PartialEq, Eq)]
pub enum SymDbError {
    /// The file exists and cannot be opened.
    Open,
    /// The file cannot be mapped.
    Mapping,
    /// The file is too small to hold a tree.
    TooSmall { len: usize, min_size: usize },
    /// The temporary file cannot be created.
    Create,
    /// The tree cannot be written to the temporary file.
    Write,
    /// What was written cannot be flushed.
    Flush,
    /// The temporary file cannot be moved over the final one.
    Move,
}

impl SymDbError {
    /// What is said of the error, besides what the system says of it.
    pub open spec fn spec_context(self) -> Option<Seq<char>> {
        match self {
            SymDbError::Open => Some("failed to open symtree"@),
            SymDbError::Mapping => Some("failed to mmap symtree"@),
            SymDbError::TooSmall { len, min_size } => Some(
                "symtree file too small ("@ + text::decimal(len as nat)
                    + " bytes, need at least "@ + text::decimal(min_size as nat) + ")"@,
            ),
            SymDbError::Create => None,
            SymDbError::Write => Some("failed to write symtree to disk"@),
            SymDbError::Flush => Some("failed to flush symtree to disk"@),
            SymDbError::Move => Some("failed to move symtree to its final location"@),
        }
    }

    /// What is said of the error, besides what the system says of it.
    pub fn context(&self) -> (context: Option<String>)
        ensures
            crate::frame::chars(context) == self.spec_context(),
    {
        let mut out = String::new();
        match self {
            SymDbError::Open => {
                out.append("failed to open symtree");
            },
            SymDbError::Mapping => {
                out.append("failed to mmap symtree");
            },
            SymDbError::TooSmall { len, min_size } => {
                out.append("symtree file too small (");
                text::push_decimal(&mut out, *len as u64);
                out.append(" bytes, need at least ");
                text::push_decimal(&mut out, *min_size as u64);
                out.append(")");
            },
            SymDbError::Create => {
                return None;
            },
            SymDbError::Write => {
                out.append("failed to write symtree to disk");
            },
            SymDbError::Flush => {
                out.append("failed to flush symtree to disk");
            },
            SymDbError::Move => {
                out.append("failed to move symtree to its final location");
            },
        }
        assert(Some(out@) == self.spec_context()) by {
            assert(Seq::<char>::empty() + self.spec_context()->0 =~= self.spec_context()->0);
        }
        Some(out)
    }
}

/// The name of the file that holds the symbols of an executable.
pub open spec fn spec_file_name(file_id: FileId, temp: bool) -> Seq<char> {
    file_id.spec_hex() + ".symtree"@ + if temp {
        ".temp"@
    } else {
        Seq::empty()
    }
}

/// The name of the file that a tree is first written to.
pub open spec fn spec_temp_name(file_id: FileId, unique: u64) -> Seq<char> {
    file_id.spec_hex() + ".symtree.temp."@ + text::decimal(unique as nat)
}

/// The name, within the store's directory, of the file for the given file ID.
pub fn path_for_id(file_id: FileId, temp: bool) -> (name: String)
    ensures
        name@ == spec_file_name(file_id, temp),
{
    let mut name = file_id.format_hex();
    name.append(".symtree");
    if temp {
        name.append(".temp");
    }
    assert(name@ =~= spec_file_name(file_id, temp));
    name
}

/// The name, within the store's directory, of the file that a tree is first written to. `unique`
/// tells concurrent writers of one file ID apart.
pub fn temp_path_for_id(file_id: FileId, unique: u64) -> (name: String)
    ensures
        name@ == spec_temp_name(file_id, unique),
{
    let mut name = file_id.format_hex();
    name.append(".symtree.temp.");
    text::push_decimal(&mut name, unique);
    name
}

/// A tree, or that there is none.
pub type Symbols = Option<Arc<MappedSymTree>>;

/// `Arc::clone` makes another pointer to the same value.
#[verifier::external_body]
fn share(tree: &Arc<MappedSymTree>) -> (shared: Arc<MappedSymTree>)
    ensures
        shared == *tree,
{
    tree.clone()
}

fn share_symbols(symbols: &Symbols) -> (shared: Symbols)
    ensures
        shared == *symbols,
{
    match symbols {
        Some(tree) => Some(share(tree)),
        None => None,
    }
}

/// What came of opening a file of symbols.
pub enum Opened {
    /// It holds a tree.
    Tree(Arc<MappedSymTree>),
    /// There is no such file.
    NotFound,
    /// It could not be opened, for another reason.
    Failed(SymDbError),
}

/// What to do to get the symbols for a file ID.
pub enum Lookup {
    /// They are known.
    Cached(Symbols),
    /// The file of the given name has to be opened. `epoch` is to be handed back once it was.
    Open { name: String, epoch: u64 },
}

/// The symbols that the store remembers, by file ID.
///
/// Symbols are forgotten once new ones were stored. That can happen while a file is being opened to
/// get the old ones: these must not be remembered then. So an epoch is kept for each file ID, which
/// ends whenever its symbols are forgotten.
pub struct SymCache {
    trees: HashMap<u128, Symbols>,
    epochs: HashMap<u128, u64>,
}

/// The current epoch of a file ID.
pub open spec fn epoch_of(epochs: Map<u128, u64>, file_id: FileId) -> u64 {
    if epochs.contains_key(file_id.0) {
        epochs[file_id.0]
    } else {
        0
    }
}

/// The epochs once that of a file ID has ended. The last one there is never ends, and nothing is
/// remembered in it.
pub open spec fn epochs_after_invalidate(
    epochs: Map<u128, u64>,
    file_id: FileId,
) -> Map<u128, u64> {
    let epoch = epoch_of(epochs, file_id);
    epochs.insert(
        file_id.0,
        if epoch < u64::MAX {
            (epoch + 1) as u64
        } else {
            epoch
        },
    )
}

/// What is remembered once the symbols for a file ID were forgotten.
pub open spec fn cache_after_invalidate(
    cache: Map<u128, Symbols>,
    file_id: FileId,
) -> Map<u128, Symbols> {
    cache.remove(file_id.0)
}

/// The symbols that are remembered for a file ID, if any are.
pub open spec fn remembered(cache: Map<u128, Symbols>, file_id: FileId) -> Option<Symbols> {
    if cache.contains_key(file_id.0) {
        Some(cache[file_id.0])
    } else {
        None
    }
}

/// The symbols of a file ID were not forgotten since the given epoch.
pub open spec fn is_current(epochs: Map<u128, u64>, file_id: FileId, epoch: u64) -> bool {
    epoch == epoch_of(epochs, file_id) && epoch < u64::MAX
}

impl View for SymCache {
    type V = Map<u128, Symbols>;

    closed spec fn view(&self) -> Map<u128, Symbols> {
        self.trees@
    }
}

/// What getting the symbols for a file ID returns once its file was opened. Symbols that were
/// remembered meanwhile win over those just opened.
pub open spec fn get_result(
    cache: Map<u128, Symbols>,
    file_id: FileId,
    opened: Opened,
) -> Result<Symbols, SymDbError> {
    match opened {
        Opened::Failed(error) => Err(error),
        Opened::Tree(tree) => Ok(
            if cache.contains_key(file_id.0) {
                cache[file_id.0]
            } else {
                Some(tree)
            },
        ),
        Opened::NotFound => Ok(
            if cache.contains_key(file_id.0) {
                cache[file_id.0]
            } else {
                None
            },
        ),
    }
}

/// What is remembered once the file for a file ID was opened in the given epoch: what was returned,
/// unless that is an error or the epoch has ended.
pub open spec fn cache_after_get(
    cache: Map<u128, Symbols>,
    epochs: Map<u128, u64>,
    file_id: FileId,
    opened: Opened,
    epoch: u64,
) -> Map<u128, Symbols> {
    match get_result(cache, file_id, opened) {
        Ok(symbols) if is_current(epochs, file_id, epoch) => cache.insert(file_id.0, symbols),
        _ => cache,
    }
}

impl SymCache {
    /// The current epoch of each file ID whose symbols were ever forgotten.
    pub closed spec fn spec_epochs(self) -> Map<u128, u64> {
        self.epochs@
    }

    /// Remembers nothing.
    pub fn new() -> (cache: Self)
        ensures
            cache@ == Map::<u128, Symbols>::empty(),
            cache.spec_epochs() == Map::<u128, u64>::empty(),
    {
        broadcast use vstd::std_specs::hash::group_hash_axioms;

        SymCache { trees: HashMap::new(), epochs: HashMap::new() }
    }

    fn epoch(&self, file_id: FileId) -> (epoch: u64)
        ensures
            epoch == epoch_of(self.spec_epochs(), file_id),
    {
        broadcast use vstd::std_specs::hash::group_hash_axioms;

        match self.epochs.get(&file_id.0) {
            Some(epoch) => *epoch,
            None => 0,
        }
    }

    /// First step of getting the symbols for a file ID: they are known, or a file is to be opened.
    pub fn lookup(&self, file_id: FileId) -> (lookup: Lookup)
        ensures
            match lookup {
                Lookup::Cached(symbols) => self@.contains_key(file_id.0) && symbols
                    == self@[file_id.0],
                Lookup::Open { name, epoch } => {
                    &&& !self@.contains_key(file_id.0)
                    &&& name@ == spec_file_name(file_id, false)
                    &&& epoch == epoch_of(self.spec_epochs(), file_id)
                },
            },
            match remembered(self@, file_id) {
                Some(symbols) => lookup == Lookup::Cached(symbols),
                None => lookup is Open,
            },
    {
        broadcast use vstd::std_specs::hash::group_hash_axioms;

        // Fast path: try via cache.
        match self.trees.get(&file_id.0) {
            Some(cached) => Lookup::Cached(share_symbols(cached)),
            None => Lookup::Open {
                name: path_for_id(file_id, false),
                epoch: self.epoch(file_id),
            },
        }
    }

    /// Second step of getting the symbols for a file ID, after their file was opened. `epoch` is
    /// the one that the first step gave. Symbols that new ones may have replaced since then are
    /// returned and not remembered.
    pub fn finish_get(
        &mut self,
        file_id: FileId,
        opened: Opened,
        epoch: u64,
    ) -> (r: Result<Symbols, SymDbError>)
        ensures
            r == get_result(old(self)@, file_id, opened),
            final(self)@ == cache_after_get(
                old(self)@,
                old(self).spec_epochs(),
                file_id,
                opened,
                epoch,
            ),
            final(self).spec_epochs() == old(self).spec_epochs(),
            opened matches Opened::Failed(error) ==> {
                &&& r == Err::<Symbols, SymDbError>(error)
                &&& final(self)@ == old(self)@
            },
            !(opened is Failed) && old(self)@.contains_key(file_id.0) ==> {
                &&& r == Ok::<Symbols, SymDbError>(old(self)@[file_id.0])
                &&& final(self)@ == old(self)@
            },
            !old(self)@.contains_key(file_id.0) ==> {
                &&& opened matches Opened::Tree(tree) ==> r == Ok::<Symbols, SymDbError>(Some(tree))
                &&& opened is NotFound ==> r == Ok::<Symbols, SymDbError>(None)
            },
            forall|id: u128|
                id != file_id.0 ==> {
                    &&& final(self)@.contains_key(id) == #[trigger] old(self)@.contains_key(id)
                    &&& old(self)@.contains_key(id) ==> final(self)@[id] == old(self)@[id]
                },
    {
        broadcast use vstd::std_specs::hash::group_hash_axioms;

        let mapped: Symbols = match opened {
            Opened::Tree(tree) => Some(tree),
            Opened::NotFound => None,
            Opened::Failed(error) => {
                return Err(error);
            },
        };
        // Did another thread beat us to mapping the tree?
        match self.trees.get(&file_id.0) {
            Some(cached) => {
                // Return cached version that won & discard ours.
                let won = share_symbols(cached);
                assert(self@ =~= self@.insert(file_id.0, won));
                Ok(won)
            },
            None => {
                // No: cache the result, unless it is out of date, and return it.
                if epoch == self.epoch(file_id) && epoch < u64::MAX {
                    self.trees.insert(file_id.0, share_symbols(&mapped));
                }
                Ok(mapped)
            },
        }
    }

    /// Forgets the symbols for a file ID, those included that are about to be remembered. Done
    /// once new ones were stored.
    pub fn invalidate(&mut self, file_id: FileId)
        ensures
            final(self)@ == old(self)@.remove(file_id.0),
            final(self)@ == cache_after_invalidate(old(self)@, file_id),
            final(self).spec_epochs() == epochs_after_invalidate(old(self).spec_epochs(), file_id),
    {
        broadcast use vstd::std_specs::hash::group_hash_axioms;

        let epoch = self.epoch(file_id);
        let next: u64 = if epoch < u64::MAX {
            epoch + 1
        } else {
            epoch
        };
        self.trees.remove(&file_id.0);
        self.epochs.insert(file_id.0, next);
    }
}

/// The steps of storing a tree. The contents of files that might already be mapped are not
/// changed: the tree is written to a fresh file, which then replaces the old one.
#[derive(Debug, Clone, Copy, PartialEq, Eq)]
pub enum InsertStep {
    /// Create the temporary file.
    Create,
    /// Write the tree into it.
    Write,
    /// Flush what was written.
    Flush,
    /// Move the temporary file to its final location.
    Move,
    /// Remove the temporary file.
    CleanUp,
    /// Forget the symbols remembered for the file ID.
    Invalidate,
    /// The tree is stored.
    Succeeded,
    /// The tree is not stored.
    Failed(SymDbError),
}

impl InsertStep {
    /// The step that follows this one, given whether this one succeeded.
    pub open spec fn spec_next(self, ok: bool) -> InsertStep {
        match self {
            InsertStep::Create => if ok {
                InsertStep::Write
            } else {
                InsertStep::Failed(SymDbError::Create)
            },
            InsertStep::Write => if ok {
                InsertStep::Flush
            } else {
                InsertStep::Failed(SymDbError::Write)
            },
            InsertStep::Flush => if ok {
                InsertStep::Move
            } else {
                InsertStep::Failed(SymDbError::Flush)
            },
            InsertStep::Move => if ok {
                InsertStep::Invalidate
            } else {
                InsertStep::CleanUp
            },
            InsertStep::CleanUp => InsertStep::Failed(SymDbError::Move),
            InsertStep::Invalidate => InsertStep::Succeeded,
            InsertStep::Succeeded => self,
            InsertStep::Failed(_) => self,
        }
    }

    /// The first step.
    pub open spec fn spec_first() -> InsertStep {
        InsertStep::Create
    }

    /// The first step.
    pub fn first() -> (step: InsertStep)
        ensures
            step == InsertStep::Create,
            step == InsertStep::spec_first(),
    {
        InsertStep::Create
    }

    /// The step that follows this one, given whether this one succeeded. A temporary file that
    /// could not be removed is left behind.
    pub fn next(self, ok: bool) -> (step: InsertStep)
        ensures
            step == self.spec_next(ok),
    {
        match self {
            InsertStep::Create => if ok {
                InsertStep::Write
            } else {
                InsertStep::Failed(SymDbError::Create)
            },
            InsertStep::Write => if ok {
                InsertStep::Flush
            } else {
                InsertStep::Failed(SymDbError::Write)
            },
            InsertStep::Flush => if ok {
                InsertStep::Move
            } else {
                InsertStep::Failed(SymDbError::Flush)
            },
            InsertStep::Move => if ok {
                InsertStep::Invalidate
            } else {
                InsertStep::CleanUp
            },
            InsertStep::CleanUp => InsertStep::Failed(SymDbError::Move),
            InsertStep::Invalidate => InsertStep::Succeeded,
            InsertStep::Succeeded => self,
            InsertStep::Failed(_) => self,
        }
    }
}

} // verus!
