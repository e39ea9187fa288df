//! What comes of looking symbols up, of getting them and of forgetting them.

use crate::frame::FileId;
use crate::laws::names;
use crate::symdb;
use crate::symdb::{InsertStep, Lookup, MappedSymTree, Opened, SymCache, SymDbError, Symbols};
use crate::symtree::ArchivedSymTree;
use crate::text;
use vstd::prelude::*;

verus! {

/// A file is long enough for a tree just where it is not shorter than the least size. What is said
/// of one that is not are both numbers.
pub proof fn lemma_check_len(
    len: usize,
    min_size: usize,
    r: Result<(), SymDbError>,
    context: Option<String>,
)
    requires
        call_ensures(MappedSymTree::check_len, (len, min_size), r),
        r is Err ==> call_ensures(SymDbError::context, (&r->Err_0,), context),
    ensures
        r is Ok <==> len >= min_size,
        r is Err ==> context is Some && context->0@ == "symtree file too small ("@
            + text::decimal(len as nat) + " bytes, need at least "@ + text::decimal(
            min_size as nat,
        ) + ")"@,
{
}

/// What is said of an error is what was being done when it came.
pub proof fn lemma_context(error: SymDbError, context: Option<String>)
    requires
        call_ensures(SymDbError::context, (&error,), context),
    ensures
        error == SymDbError::Create ==> context is None,
        error != SymDbError::Create ==> context is Some,
        error == SymDbError::Open ==> context->0@ == "failed to open symtree"@,
        error == SymDbError::Mapping ==> context->0@ == "failed to mmap symtree"@,
        error == SymDbError::Write ==> context->0@ == "failed to write symtree to disk"@,
        error == SymDbError::Flush ==> context->0@ == "failed to flush symtree to disk"@,
        error == SymDbError::Move ==> context->0@
            == "failed to move symtree to its final location"@,
{
}

/// A tree that was opened is the one that was read.
pub proof fn lemma_mapped(tree: ArchivedSymTree, mapped: MappedSymTree, seen: &ArchivedSymTree)
    requires
        call_ensures(MappedSymTree::new, (tree,), mapped),
        call_ensures(<MappedSymTree as std::ops::Deref>::deref, (&mapped,), seen),
    ensures
        *seen == tree,
{
}

/// Symbols that are remembered are what a lookup gives. Where none are, it gives the name of the
/// file that symbols are read from.
pub proof fn lemma_lookup(cache: SymCache, file_id: FileId, lookup: Lookup, name: String)
    requires
        call_ensures(SymCache::lookup, (&cache, file_id), lookup),
        call_ensures(symdb::path_for_id, (file_id, false), name),
    ensures
        cache@.contains_key(file_id.0) ==> lookup == Lookup::Cached(cache@[file_id.0]),
        !cache@.contains_key(file_id.0) ==> {
            &&& lookup is Open
            &&& lookup->name@ == name@
            &&& lookup->name@.len() == 40
            &&& names::are_digits(lookup->name@.take(32), file_id.0 as int, 16)
            &&& lookup->name@.skip(32) == ".symtree"@
        },
{
    if !cache@.contains_key(file_id.0) {
        names::lemma_path_for_id(file_id, false, name);
        reveal_strlit(".symtree");
        assert(name@.len() == 32 + name@.skip(32).len());
    }
}

/// A cache that was just made remembers nothing, and everything is in its first epoch.
pub proof fn lemma_new_cache(cache: SymCache, file_id: FileId)
    requires
        call_ensures(SymCache::new, (), cache),
    ensures
        !cache@.contains_key(file_id.0),
        symdb::is_current(cache.spec_epochs(), file_id, 0),
{
}

/// Getting symbols returns the error of opening their file, if there was one; else what is
/// remembered, if anything is; else what the file came to.
pub proof fn lemma_get_result(cache: Map<u128, Symbols>, file_id: FileId, opened: Opened)
    ensures
        ({
            let r = symdb::get_result(cache, file_id, opened);
            &&& forall|e: SymDbError| opened == Opened::Failed(e) ==> r == Err::<Symbols, _>(e)
            &&& !(opened is Failed) ==> r is Ok
            &&& !(opened is Failed) && cache.contains_key(file_id.0) ==> r->Ok_0
                == cache[file_id.0]
            &&& !cache.contains_key(file_id.0) && opened is NotFound ==> r->Ok_0 is None
            &&& !cache.contains_key(file_id.0) && opened is Tree ==> r->Ok_0 == Some(opened->Tree_0)
        }),
{
}

/// Getting symbols remembers what is returned, unless that is an error or the symbols were
/// forgotten since the given epoch. Nothing else that is remembered changes.
pub proof fn lemma_cache_after_get(
    cache: Map<u128, Symbols>,
    epochs: Map<u128, u64>,
    file_id: FileId,
    opened: Opened,
    epoch: u64,
    other: u128,
)
    ensures
        ({
            let r = symdb::get_result(cache, file_id, opened);
            let after = symdb::cache_after_get(cache, epochs, file_id, opened, epoch);
            let current = symdb::is_current(epochs, file_id, epoch);
            &&& r is Ok && current ==> after.contains_key(file_id.0) && after[file_id.0] == r->Ok_0
            &&& r is Err || !current ==> after == cache
            &&& other != file_id.0 ==> after.contains_key(other) == cache.contains_key(other)
            &&& other != file_id.0 && cache.contains_key(other) ==> after[other] == cache[other]
        }),
{
}

/// Forgetting the symbols for a file ID ends every epoch in which they could have been looked up,
/// and leaves those of all others, and what is remembered for them, as they were.
pub proof fn lemma_invalidate(
    cache: Map<u128, Symbols>,
    epochs: Map<u128, u64>,
    file_id: FileId,
    epoch: u64,
    other: FileId,
)
    ensures
        ({
            let after = symdb::cache_after_invalidate(cache, file_id);
            let epochs_after = symdb::epochs_after_invalidate(epochs, file_id);
            &&& !after.contains_key(file_id.0)
            &&& epoch <= symdb::epoch_of(epochs, file_id) ==> !symdb::is_current(
                epochs_after,
                file_id,
                epoch,
            )
            &&& other.0 != file_id.0 ==> {
                &&& after.contains_key(other.0) == cache.contains_key(other.0)
                &&& cache.contains_key(other.0) ==> after[other.0] == cache[other.0]
                &&& symdb::epoch_of(epochs_after, other) == symdb::epoch_of(epochs, other)
                &&& symdb::is_current(epochs_after, other, epoch) == symdb::is_current(
                    epochs,
                    other,
                    epoch,
                )
            }
        }),
{
}

/// An insertion begins by creating its file. What comes after each step depends on whether the
/// step succeeded, and names the one that did not. Moving is the only one that is cleaned up
/// after, and only what was moved is forgotten.
pub proof fn lemma_insert_steps(first: InsertStep, step: InsertStep, ok: bool, next: InsertStep)
    requires
        call_ensures(InsertStep::first, (), first),
        call_ensures(InsertStep::next, (step, ok), next),
    ensures
        first is Create,
        next is Write <==> step is Create && ok,
        next is Flush <==> step is Write && ok,
        next is Move <==> step is Flush && ok,
        next is CleanUp <==> step is Move && !ok,
        next is Invalidate <==> step is Move && ok,
        next is Succeeded <==> step is Invalidate || step is Succeeded,
        !(next is Create),
        step is Failed ==> next == step,
        step is Create && !ok ==> next == InsertStep::Failed(SymDbError::Create),
        step is Write && !ok ==> next == InsertStep::Failed(SymDbError::Write),
        step is Flush && !ok ==> next == InsertStep::Failed(SymDbError::Flush),
        step is CleanUp ==> next == InsertStep::Failed(SymDbError::Move),
{
}

/// What finishing a get returns and remembers. An error of opening the file is returned and not
/// remembered. Else what is remembered is returned, or where nothing is, what the file came to.
/// That is then remembered, if no epoch has ended since the given one. Nothing else changes.
pub proof fn lemma_finish_get(
    cache: &mut SymCache,
    file_id: FileId,
    opened: Opened,
    epoch: u64,
    r: Result<Symbols, SymDbError>,
    other: u128,
)
    requires
        call_ensures(SymCache::finish_get, (cache, file_id, opened, epoch), r),
    ensures
        ({
            let (before, after) = (old(cache)@, final(cache)@);
            let id = file_id.0;
            let opened_to: Symbols = match opened {
                Opened::Tree(tree) => Some(tree),
                _ => None,
            };
            let epochs = old(cache).spec_epochs();
            let now: u64 = if epochs.contains_key(id) {
                epochs[id]
            } else {
                0
            };
            &&& forall|e: SymDbError| opened == Opened::Failed(e) ==> r == Err::<Symbols, _>(e)
            &&& opened is Failed ==> after == before
            &&& !(opened is Failed) ==> r is Ok
            &&& !(opened is Failed) && before.contains_key(id) ==> r->Ok_0 == before[id] && after
                == before
            &&& !(opened is Failed) && !before.contains_key(id) ==> {
                &&& r->Ok_0 == opened_to
                &&& epoch == now && now < 0xffff_ffff_ffff_ffff ==> after == before.insert(
                    id,
                    opened_to,
                )
                &&& epoch != now ==> after == before
            }
            &&& other != id ==> after.contains_key(other) == before.contains_key(other)
            &&& other != id && before.contains_key(other) ==> after[other] == before[other]
            &&& final(cache).spec_epochs() == epochs
        }),
{
}

/// Forgetting symbols forgets those of the given file ID and no others.
pub proof fn lemma_invalidate_forgets(cache: &mut SymCache, file_id: FileId, other: u128)
    requires
        call_ensures(SymCache::invalidate, (cache, file_id), ()),
    ensures
        ({
            let (before, after) = (old(cache)@, final(cache)@);
            let (epochs, epochs_after) = (old(cache).spec_epochs(), final(cache).spec_epochs());
            &&& !after.contains_key(file_id.0)
            &&& other != file_id.0 ==> {
                &&& after.contains_key(other) == before.contains_key(other)
                &&& before.contains_key(other) ==> after[other] == before[other]
                &&& epochs_after.contains_key(other) == epochs.contains_key(other)
                &&& epochs.contains_key(other) ==> epochs_after[other] == epochs[other]
            }
        }),
{
}

/// The epochs of one cache have not gone back to those of another.
pub open spec fn is_later(a: SymCache, b: SymCache, file_id: FileId) -> bool {
    symdb::epoch_of(a.spec_epochs(), file_id) <= symdb::epoch_of(b.spec_epochs(), file_id)
}

/// Symbols that were looked up, forgotten and then got from the file that was opened before are
/// returned and not remembered, whatever else happened in between. Looked up and got without
/// having been forgotten, they are.
pub proof fn lemma_overtaken_get(
    looked_up: SymCache,
    lookup: Lookup,
    forgetting: &mut SymCache,
    getting: &mut SymCache,
    unforgotten: &mut SymCache,
    file_id: FileId,
    opened: Opened,
    r: Result<Symbols, SymDbError>,
    r_unforgotten: Result<Symbols, SymDbError>,
)
    requires
        call_ensures(SymCache::lookup, (&looked_up, file_id), lookup),
        lookup is Open,
        is_later(looked_up, *old(forgetting), file_id),
        call_ensures(SymCache::invalidate, (forgetting, file_id), ()),
        is_later(*final(forgetting), *old(getting), file_id),
        call_ensures(SymCache::finish_get, (getting, file_id, opened, lookup->epoch), r),
        old(unforgotten).spec_epochs() == looked_up.spec_epochs(),
        symdb::epoch_of(looked_up.spec_epochs(), file_id) < 0xffff_ffff_ffff_ffff,
        call_ensures(
            SymCache::finish_get,
            (unforgotten, file_id, opened, lookup->epoch),
            r_unforgotten,
        ),
    ensures
        final(getting)@ == old(getting)@,
        r_unforgotten is Ok ==> final(unforgotten)@.contains_key(file_id.0),
        r_unforgotten is Ok ==> final(unforgotten)@[file_id.0] == r_unforgotten->Ok_0,
{
    assert(final(getting)@ =~= old(getting)@);
}

} // verus!
