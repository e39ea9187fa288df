//! What the store of symbol trees promises as a whole: its files and what it remembers of them.
//!
//! Here the disk is one that keeps what was flushed to a file, and a file that holds a tree opens
//! to that tree. Gets and inserts are taken one after another, where nothing else is said.

use crate::frame::FileId;
use crate::symdb;
use crate::symdb::{InsertStep, MappedSymTree, Opened, SymDbError, Symbols};
use crate::text;
use std::sync::Arc;
use vstd::prelude::*;

verus! {

/// The names of the files that symbols are read from tell file IDs apart.
pub proof fn lemma_file_names_differ(a: FileId, b: FileId)
    requires
        a != b,
    ensures
        symdb::spec_file_name(a, false) != symdb::spec_file_name(b, false),
{
    let (name_a, name_b) = (symdb::spec_file_name(a, false), symdb::spec_file_name(b, false));
    text::lemma_hex_len(a.0 as int, 32);
    text::lemma_hex_len(b.0 as int, 32);
    assert(name_a.subrange(0, 32) =~= a.spec_hex());
    assert(name_b.subrange(0, 32) =~= b.spec_hex());
    lemma_ids_differ(a, b);
}

proof fn lemma_ids_differ(a: FileId, b: FileId)
    requires
        a != b,
    ensures
        a.spec_hex() != b.spec_hex(),
{
    if a.spec_hex() == b.spec_hex() {
        reveal_with_fuel(text::hex_values, 33);
        text::lemma_hex_injective(a.0 as int, b.0 as int, 32);
    }
}

/// Writers that differ in the file ID or in their unique number write to different temporary
/// files.
pub proof fn lemma_temp_names_differ(a: FileId, unique_a: u64, b: FileId, unique_b: u64)
    requires
        a != b || unique_a != unique_b,
    ensures
        symdb::spec_temp_name(a, unique_a) != symdb::spec_temp_name(b, unique_b),
{
    let name_a = symdb::spec_temp_name(a, unique_a);
    let name_b = symdb::spec_temp_name(b, unique_b);
    reveal_strlit(".symtree.temp.");
    text::lemma_hex_len(a.0 as int, 32);
    text::lemma_hex_len(b.0 as int, 32);
    assert(name_a.subrange(0, 32) =~= a.spec_hex());
    assert(name_b.subrange(0, 32) =~= b.spec_hex());
    assert(name_a.subrange(46, name_a.len() as int) =~= text::decimal(unique_a as nat));
    assert(name_b.subrange(46, name_b.len() as int) =~= text::decimal(unique_b as nat));
    if name_a == name_b {
        text::lemma_decimal_injective(unique_a as nat, unique_b as nat);
        if a != b {
            lemma_ids_differ(a, b);
        }
    }
}

/// No temporary file is one that symbols are read from.
pub proof fn lemma_temp_names_are_apart(a: FileId, unique: u64, b: FileId)
    ensures
        symdb::spec_temp_name(a, unique) != symdb::spec_file_name(b, false),
{
    reveal_strlit(".symtree.temp.");
    reveal_strlit(".symtree");
    text::lemma_hex_len(a.0 as int, 32);
    text::lemma_hex_len(b.0 as int, 32);
    assert(symdb::spec_temp_name(a, unique).len() >= 46);
    assert(symdb::spec_file_name(b, false).len() == 40);
}

/// The files of a store and the symbols it remembers.
pub ghost struct Store {
    /// What opening each file that exists comes to, by the file's name.
    pub files: Map<Seq<char>, Opened>,
    /// The symbols that are remembered, by file ID.
    pub cache: Map<u128, Symbols>,
    /// The epoch of each file ID whose symbols were ever forgotten.
    pub epochs: Map<u128, u64>,
}

/// What is to be stored.
pub ghost struct Insertion {
    pub file_id: FileId,
    pub unique: u64,
    pub tree: Arc<MappedSymTree>,
}

impl Insertion {
    pub open spec fn temp_name(self) -> Seq<char> {
        symdb::spec_temp_name(self.file_id, self.unique)
    }

    pub open spec fn final_name(self) -> Seq<char> {
        symdb::spec_file_name(self.file_id, false)
    }
}

/// What the symbols in a file are, or why there are none to be had.
pub open spec fn contents(opened: Opened) -> Result<Symbols, SymDbError> {
    match opened {
        Opened::Tree(tree) => Ok(Some(tree)),
        Opened::NotFound => Ok(None),
        Opened::Failed(error) => Err(error),
    }
}

impl Store {
    /// What opening the file for a file ID comes to.
    pub open spec fn on_disk(self, file_id: FileId) -> Opened {
        let name = symdb::spec_file_name(file_id, false);
        if self.files.contains_key(name) {
            self.files[name]
        } else {
            Opened::NotFound
        }
    }

    /// All that is remembered agrees with the files.
    pub open spec fn consistent(self) -> bool {
        forall|file_id: FileId|
            self.cache.contains_key(file_id.0) ==>
                contents(#[trigger] self.on_disk(file_id)) == Ok::<
                Symbols,
                SymDbError,
            >(self.cache[file_id.0])
    }

    /// What getting the symbols for a file ID returns.
    pub open spec fn get(self, file_id: FileId) -> Result<Symbols, SymDbError> {
        match symdb::remembered(self.cache, file_id) {
            Some(symbols) => Ok(symbols),
            None => symdb::get_result(self.cache, file_id, self.on_disk(file_id)),
        }
    }

    /// The store after getting the symbols for a file ID.
    pub open spec fn after_get(self, file_id: FileId) -> Store {
        match symdb::remembered(self.cache, file_id) {
            Some(_) => self,
            None => Store {
                cache: symdb::cache_after_get(
                    self.cache,
                    self.epochs,
                    file_id,
                    self.on_disk(file_id),
                    symdb::epoch_of(self.epochs, file_id),
                ),
                ..self
            },
        }
    }

    /// The store after one step of storing a tree was tried. Until it is flushed, or if that
    /// fails, nothing is known of what the temporary file holds: it opens to `partial`.
    pub open spec fn after_step(
        self,
        insertion: Insertion,
        step: InsertStep,
        ok: bool,
        partial: Opened,
    ) -> Store {
        let temp = insertion.temp_name();
        match step {
            InsertStep::Create => if ok {
                Store { files: self.files.insert(temp, partial), ..self }
            } else {
                self
            },
            InsertStep::Write => Store { files: self.files.insert(temp, partial), ..self },
            InsertStep::Flush => Store {
                files: self.files.insert(
                    temp,
                    if ok {
                        Opened::Tree(insertion.tree)
                    } else {
                        partial
                    },
                ),
                ..self
            },
            InsertStep::Move => if ok {
                Store {
                    files: self.files.remove(temp).insert(
                        insertion.final_name(),
                        self.files[temp],
                    ),
                    ..self
                }
            } else {
                self
            },
            InsertStep::CleanUp => if ok {
                Store { files: self.files.remove(temp), ..self }
            } else {
                self
            },
            InsertStep::Invalidate => Store {
                cache: symdb::cache_after_invalidate(self.cache, insertion.file_id),
                epochs: symdb::epochs_after_invalidate(self.epochs, insertion.file_id),
                ..self
            },
            InsertStep::Succeeded => self,
            InsertStep::Failed(_) => self,
        }
    }

    /// The store after trying the given number of steps of storing a tree, starting with `step`,
    /// and the step that comes then.
    pub open spec fn after_steps(
        self,
        insertion: Insertion,
        step: InsertStep,
        oks: Seq<bool>,
        partial: Opened,
    ) -> (Store, InsertStep)
        decreases oks.len(),
    {
        if oks.len() == 0 {
            (self, step)
        } else {
            self.after_step(insertion, step, oks[0], partial).after_steps(
                insertion,
                step.spec_next(oks[0]),
                oks.skip(1),
                partial,
            )
        }
    }
}

/// Getting symbols returns what the files hold: what is remembered never shows.
pub proof fn lemma_get_returns_what_is_stored(store: Store, file_id: FileId)
    requires
        store.consistent(),
    ensures
        store.get(file_id) == contents(store.on_disk(file_id)),
        store.after_get(file_id).consistent(),
        forall|other: FileId| #[trigger]
            store.after_get(file_id).on_disk(other) == store.on_disk(other),
{
    let after = store.after_get(file_id);
    assert forall|id: FileId| after.cache.contains_key(id.0) implies contents(
        #[trigger] after.on_disk(id),
    ) == Ok::<Symbols, SymDbError>(after.cache[id.0]) by {
        assert(after.on_disk(id) == store.on_disk(id));
        if id.0 == file_id.0 {
            assert(id == file_id);
        }
    }
}

/// Symbols that were got are remembered: getting them again returns the same and opens no file.
/// Only in the last epoch there is, none are that were not before.
pub proof fn lemma_get_is_remembered(store: Store, file_id: FileId)
    requires
        store.get(file_id) is Ok,
        store.cache.contains_key(file_id.0) || symdb::epoch_of(store.epochs, file_id) < u64::MAX,
    ensures
        store.after_get(file_id).cache.contains_key(file_id.0),
        store.after_get(file_id).get(file_id) == store.get(file_id),
        store.after_get(file_id).after_get(file_id) == store.after_get(file_id),
{
}

/// A get that fails is not remembered.
pub proof fn lemma_failure_is_not_remembered(store: Store, file_id: FileId)
    requires
        store.get(file_id) is Err,
    ensures
        store.after_get(file_id) == store,
{
}

/// Of two threads that opened the same file, both return what the first one remembered.
pub proof fn lemma_first_opened_wins(
    cache: Map<u128, Symbols>,
    epochs: Map<u128, u64>,
    file_id: FileId,
    first: Opened,
    second: Opened,
    epoch: u64,
)
    requires
        !(first is Failed),
        !(second is Failed),
        symdb::is_current(epochs, file_id, epoch),
    ensures
        ({
            let after = symdb::cache_after_get(cache, epochs, file_id, first, epoch);
            &&& symdb::get_result(after, file_id, second) == symdb::get_result(
                cache,
                file_id,
                first,
            )
            &&& symdb::cache_after_get(after, epochs, file_id, second, epoch) == after
        }),
{
    let after = symdb::cache_after_get(cache, epochs, file_id, first, epoch);
    assert(symdb::cache_after_get(after, epochs, file_id, second, epoch) =~= after);
}

/// Something that happens to what is remembered.
pub ghost enum CacheEvent {
    /// The get of the symbols for a file ID is finished, after its file was opened.
    Finish { file_id: FileId, opened: Opened, epoch: u64 },
    /// The symbols for a file ID are forgotten.
    Invalidate(FileId),
}

/// What is remembered after some events, and the epochs then.
pub open spec fn cache_after_all(
    cache: Map<u128, Symbols>,
    epochs: Map<u128, u64>,
    events: Seq<CacheEvent>,
) -> (Map<u128, Symbols>, Map<u128, u64>)
    decreases events.len(),
{
    if events.len() == 0 {
        (cache, epochs)
    } else {
        let (cache1, epochs1) = cache_after_all(cache, epochs, events.drop_last());
        match events.last() {
            CacheEvent::Finish { file_id, opened, epoch } => (
                symdb::cache_after_get(cache1, epochs1, file_id, opened, epoch),
                epochs1,
            ),
            CacheEvent::Invalidate(file_id) => (
                symdb::cache_after_invalidate(cache1, file_id),
                symdb::epochs_after_invalidate(epochs1, file_id),
            ),
        }
    }
}

/// Symbols that are remembered stay remembered until new ones are stored for their file ID,
/// whatever is got or stored for others and whatever becomes of the file meanwhile.
pub proof fn lemma_remembered_until_insert(
    cache: Map<u128, Symbols>,
    epochs: Map<u128, u64>,
    events: Seq<CacheEvent>,
    file_id: FileId,
)
    requires
        cache.contains_key(file_id.0),
        !events.contains(CacheEvent::Invalidate(file_id)),
    ensures
        ({
            let after = cache_after_all(cache, epochs, events).0;
            after.contains_key(file_id.0) && after[file_id.0] == cache[file_id.0]
        }),
    decreases events.len(),
{
    if events.len() > 0 {
        let earlier = events.drop_last();
        assert(events[events.len() - 1] == events.last());
        assert forall|i: int| 0 <= i < earlier.len() implies
            earlier[i] != CacheEvent::Invalidate(file_id) by {
            assert(events[i] == earlier[i]);
        }
        lemma_remembered_until_insert(cache, epochs, earlier, file_id);
        if let CacheEvent::Invalidate(other) = events.last() {
            if other.0 == file_id.0 {
                assert(other == file_id);
            }
        }
    }
}

/// A file exists in both stores and holds the same, or exists in neither.
pub open spec fn same_entry(a: Store, b: Store, name: Seq<char>) -> bool {
    &&& a.files.contains_key(name) == b.files.contains_key(name)
    &&& a.files.contains_key(name) ==> a.files[name] == b.files[name]
}

/// What holds of the store while a tree is being stored, before the given step.
spec fn while_storing(before: Store, insertion: Insertion, now: Store, step: InsertStep) -> bool {
    let moved = step is Invalidate || step is Succeeded;
    &&& forall|other: FileId|
        other != insertion.file_id ==> #[trigger] now.on_disk(other) == before.on_disk(other)
    &&& now.on_disk(insertion.file_id) == if moved {
        Opened::Tree(insertion.tree)
    } else {
        before.on_disk(insertion.file_id)
    }
    &&& forall|name: Seq<char>|
        name != insertion.temp_name() && name != insertion.final_name() ==> #[trigger] same_entry(
            now,
            before,
            name,
        )
    &&& now.cache == if step is Succeeded {
        before.cache.remove(insertion.file_id.0)
    } else {
        before.cache
    }
    &&& now.epochs == if step is Succeeded {
        symdb::epochs_after_invalidate(before.epochs, insertion.file_id)
    } else {
        before.epochs
    }
    &&& step is Move ==> now.files.contains_key(insertion.temp_name())
        && now.files[insertion.temp_name()] == Opened::Tree(insertion.tree)
    &&& moved ==> !now.files.contains_key(insertion.temp_name())
}

proof fn lemma_while_storing(
    before: Store,
    insertion: Insertion,
    now: Store,
    step: InsertStep,
    ok: bool,
    partial: Opened,
)
    requires
        while_storing(before, insertion, now, step),
    ensures
        while_storing(
            before,
            insertion,
            now.after_step(insertion, step, ok, partial),
            step.spec_next(ok),
        ),
{
    let next = now.after_step(insertion, step, ok, partial);
    lemma_temp_names_are_apart(insertion.file_id, insertion.unique, insertion.file_id);
    assert forall|other: FileId| other != insertion.file_id implies #[trigger] next.on_disk(other)
        == before.on_disk(other) by {
        lemma_temp_names_are_apart(insertion.file_id, insertion.unique, other);
        lemma_file_names_differ(other, insertion.file_id);
        assert(now.on_disk(other) == before.on_disk(other));
    }
    assert forall|name: Seq<char>|
        name != insertion.temp_name() && name != insertion.final_name() implies
        #[trigger] same_entry(next, before, name) by {
        assert(same_entry(now, before, name));
    }
}

proof fn lemma_after_steps(
    before: Store,
    insertion: Insertion,
    now: Store,
    step: InsertStep,
    oks: Seq<bool>,
    partial: Opened,
)
    requires
        while_storing(before, insertion, now, step),
    ensures
        ({
            let (after, end) = now.after_steps(insertion, step, oks, partial);
            while_storing(before, insertion, after, end)
        }),
    decreases oks.len(),
{
    if oks.len() > 0 {
        lemma_while_storing(before, insertion, now, step, oks[0], partial);
        lemma_after_steps(
            before,
            insertion,
            now.after_step(insertion, step, oks[0], partial),
            step.spec_next(oks[0]),
            oks.skip(1),
            partial,
        );
    }
}

/// However far storing a tree has come, and whatever failed: the symbols of other executables
/// are untouched, and so is every file but the temporary and the final one; the symbols of this
/// executable are the old ones until the tree was moved into place, and the new ones from then on,
/// when the temporary file is gone. What is remembered of them is forgotten, and their epoch ends,
/// if and when storing succeeds.
pub proof fn lemma_insert_is_atomic(
    store: Store,
    insertion: Insertion,
    oks: Seq<bool>,
    partial: Opened,
)
    ensures
        ({
            let first = InsertStep::spec_first();
            let (after, step) = store.after_steps(insertion, first, oks, partial);
            let moved = step is Invalidate || step is Succeeded;
            &&& forall|other: FileId|
                other != insertion.file_id ==>
                    #[trigger] after.on_disk(other) == store.on_disk(other)
            &&& after.on_disk(insertion.file_id) == if moved {
                Opened::Tree(insertion.tree)
            } else {
                store.on_disk(insertion.file_id)
            }
            &&& forall|name: Seq<char>|
                name != insertion.temp_name() && name != insertion.final_name() ==>
                    #[trigger] same_entry(after, store, name)
            &&& after.cache == if step is Succeeded {
                store.cache.remove(insertion.file_id.0)
            } else {
                store.cache
            }
            &&& after.epochs == if step is Succeeded {
                symdb::epochs_after_invalidate(store.epochs, insertion.file_id)
            } else {
                store.epochs
            }
            &&& moved ==> !after.files.contains_key(insertion.temp_name())
        }),
{
    lemma_after_steps(store, insertion, store, InsertStep::spec_first(), oks, partial);
}

/// Symbols that were stored are those that a get returns, whatever was remembered before; those
/// of other executables are returned as before.
pub proof fn lemma_get_after_insert(
    store: Store,
    insertion: Insertion,
    oks: Seq<bool>,
    partial: Opened,
)
    requires
        store.consistent(),
        store.after_steps(insertion, InsertStep::spec_first(), oks, partial).1 is Succeeded,
    ensures
        ({
            let after = store.after_steps(insertion, InsertStep::spec_first(), oks, partial).0;
            &&& after.consistent()
            &&& after.get(insertion.file_id) == Ok::<Symbols, SymDbError>(Some(insertion.tree))
            &&& forall|other: FileId|
                other != insertion.file_id ==> #[trigger] after.get(other) == store.get(other)
        }),
{
    let after = store.after_steps(insertion, InsertStep::spec_first(), oks, partial).0;
    lemma_insert_is_atomic(store, insertion, oks, partial);
    assert forall|id: FileId| after.cache.contains_key(id.0) implies contents(
        #[trigger] after.on_disk(id),
    ) == Ok::<Symbols, SymDbError>(after.cache[id.0]) by {
        assert(id != insertion.file_id);
        assert(after.on_disk(id) == store.on_disk(id));
    }
    assert forall|other: FileId| other != insertion.file_id implies #[trigger] after.get(other)
        == store.get(other) by {
        assert(after.on_disk(other) == store.on_disk(other));
        assert(other.0 != insertion.file_id.0);
    }
}

/// If storing a tree fails, getting symbols returns for every executable what it did before.
pub proof fn lemma_get_after_failed_insert(
    store: Store,
    insertion: Insertion,
    oks: Seq<bool>,
    partial: Opened,
    file_id: FileId,
)
    requires
        store.after_steps(insertion, InsertStep::spec_first(), oks, partial).1 is Failed,
    ensures
        store.after_steps(insertion, InsertStep::spec_first(), oks, partial).0.get(file_id)
            == store.get(file_id),
{
    lemma_insert_is_atomic(store, insertion, oks, partial);
    let after = store.after_steps(insertion, InsertStep::spec_first(), oks, partial).0;
    assert(after.on_disk(file_id) == store.on_disk(file_id));
}

/// If the tree cannot be moved into place, its temporary file is removed again: all files are as
/// they were.
pub proof fn lemma_failed_move_cleans_up(store: Store, insertion: Insertion, partial: Opened)
    requires
        !store.files.contains_key(insertion.temp_name()),
    ensures
        ({
            let oks = seq![true, true, true, false, true];
            let first = InsertStep::spec_first();
            let (after, step) = store.after_steps(insertion, first, oks, partial);
            &&& step == InsertStep::Failed(SymDbError::Move)
            &&& after == store
        }),
{
    let oks = seq![true, true, true, false, true];
    reveal_with_fuel(Store::after_steps, 6);
    let (after, _) = store.after_steps(insertion, InsertStep::spec_first(), oks, partial);
    assert(after.files =~= store.files);
}

/// The step that comes after trying the given steps.
spec fn step_after(step: InsertStep, oks: Seq<bool>) -> InsertStep
    decreases oks.len(),
{
    if oks.len() == 0 {
        step
    } else {
        step_after(step.spec_next(oks[0]), oks.skip(1))
    }
}

proof fn lemma_step_after(
    store: Store,
    insertion: Insertion,
    step: InsertStep,
    oks: Seq<bool>,
    partial: Opened,
)
    ensures
        store.after_steps(insertion, step, oks, partial).1 == step_after(step, oks),
    decreases oks.len(),
{
    if oks.len() > 0 {
        lemma_step_after(
            store.after_step(insertion, step, oks[0], partial),
            insertion,
            step.spec_next(oks[0]),
            oks.skip(1),
            partial,
        );
    }
}

/// Nothing comes after the end.
proof fn lemma_end_stays(end: InsertStep, oks: Seq<bool>)
    requires
        end is Succeeded || end is Failed,
    ensures
        step_after(end, oks) == end,
    decreases oks.len(),
{
    if oks.len() > 0 {
        lemma_end_stays(end, oks.skip(1));
    }
}

/// Storing a tree comes to an end after at most five steps: it fails for the first of creating,
/// writing, flushing and moving the file that fails, and succeeds if none of them does.
pub proof fn lemma_insert_ends(store: Store, insertion: Insertion, oks: Seq<bool>, partial: Opened)
    requires
        oks.len() >= 5,
    ensures
        store.after_steps(insertion, InsertStep::spec_first(), oks, partial).1 == if !oks[0] {
            InsertStep::Failed(SymDbError::Create)
        } else if !oks[1] {
            InsertStep::Failed(SymDbError::Write)
        } else if !oks[2] {
            InsertStep::Failed(SymDbError::Flush)
        } else if !oks[3] {
            InsertStep::Failed(SymDbError::Move)
        } else {
            InsertStep::Succeeded
        },
{
    let create = InsertStep::spec_first();
    lemma_step_after(store, insertion, create, oks, partial);
    let step1 = create.spec_next(oks[0]);
    let step2 = step1.spec_next(oks[1]);
    let step3 = step2.spec_next(oks[2]);
    let step4 = step3.spec_next(oks[3]);
    let step5 = step4.spec_next(oks[4]);
    assert(oks.skip(1).skip(1) =~= oks.skip(2));
    assert(oks.skip(2).skip(1) =~= oks.skip(3));
    assert(oks.skip(3).skip(1) =~= oks.skip(4));
    assert(oks.skip(4).skip(1) =~= oks.skip(5));
    assert(step_after(create, oks) == step_after(step1, oks.skip(1)));
    assert(step_after(step1, oks.skip(1)) == step_after(step2, oks.skip(2)));
    assert(step_after(step2, oks.skip(2)) == step_after(step3, oks.skip(3)));
    assert(step_after(step3, oks.skip(3)) == step_after(step4, oks.skip(4)));
    assert(step_after(step4, oks.skip(4)) == step_after(step5, oks.skip(5)));
    lemma_end_stays(step5, oks.skip(5));
}

} // verus!
