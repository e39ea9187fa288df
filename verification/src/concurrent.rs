//! What the store of symbol trees promises when several threads use it at once.

use crate::frame::FileId;
use crate::store;
use crate::store::{Insertion, Store};
use crate::symdb;
use crate::symdb::{InsertStep, Opened, SymDbError, Symbols};
use vstd::prelude::*;

verus! {

/// What one of the threads does next.
pub ghost enum Event {
    /// The insertion of the given number tries its next step. Until it is flushed, its temporary
    /// file opens to `partial`.
    Step { who: int, ok: bool, partial: Opened },
    /// The symbols for a file ID are looked up. Unless they are remembered, this begins a get.
    Lookup(FileId),
    /// The get of the given number, in the order of beginning, opens its file.
    Open(int),
    /// The get of the given number is finished, if it has opened its file.
    Finish(int),
}

/// A get that has to open a file.
pub ghost struct Get {
    pub file_id: FileId,
    /// The epoch in which the symbols were looked up.
    pub epoch: u64,
    /// What came of opening the file, once it was opened.
    pub opened: Option<Opened>,
}

/// A store in use.
pub ghost struct Run {
    pub store: Store,
    /// The step that comes next, for each insertion.
    pub steps: Seq<InsertStep>,
    /// The gets that were begun so far.
    pub gets: Seq<Get>,
}

impl Run {
    /// A store that is about to be used for some insertions.
    pub open spec fn start(store: Store, insertions: Seq<Insertion>) -> Run {
        Run {
            store,
            steps: Seq::new(insertions.len(), |i: int| InsertStep::spec_first()),
            gets: Seq::empty(),
        }
    }

    /// What the run has come to after one event.
    pub open spec fn after(self, insertions: Seq<Insertion>, event: Event) -> Run {
        match event {
            Event::Step { who, ok, partial } => if 0 <= who < insertions.len() {
                let step = self.steps[who];
                Run {
                    store: self.store.after_step(insertions[who], step, ok, partial),
                    steps: self.steps.update(who, step.spec_next(ok)),
                    ..self
                }
            } else {
                self
            },
            Event::Lookup(file_id) => if symdb::remembered(self.store.cache, file_id) is Some {
                self
            } else {
                let epoch = symdb::epoch_of(self.store.epochs, file_id);
                Run { gets: self.gets.push(Get { file_id, epoch, opened: None }), ..self }
            },
            Event::Open(k) => if 0 <= k < self.gets.len() {
                let opened = Some(self.store.on_disk(self.gets[k].file_id));
                Run { gets: self.gets.update(k, Get { opened, ..self.gets[k] }), ..self }
            } else {
                self
            },
            Event::Finish(k) => if 0 <= k < self.gets.len() {
                match self.gets[k] {
                    Get { file_id, epoch, opened: Some(opened) } => {
                        let (cache, epochs) = (self.store.cache, self.store.epochs);
                        let cache = symdb::cache_after_get(cache, epochs, file_id, opened, epoch);
                        Run { store: Store { cache, ..self.store }, ..self }
                    },
                    _ => self,
                }
            } else {
                self
            },
        }
    }

    /// What the run has come to after some events.
    pub open spec fn after_all(self, insertions: Seq<Insertion>, events: Seq<Event>) -> Run
        decreases events.len(),
    {
        if events.len() == 0 {
            self
        } else {
            self.after_all(insertions, events.drop_last()).after(insertions, events.last())
        }
    }

    /// The event moves a tree for a file ID into place.
    pub open spec fn moves(
        self,
        insertions: Seq<Insertion>,
        event: Event,
        file_id: FileId,
    ) -> bool {
        match event {
            Event::Step { who, ok, partial } => {
                &&& ok
                &&& 0 <= who < insertions.len()
                &&& self.steps[who] is Move
                &&& insertions[who].file_id == file_id
            },
            _ => false,
        }
    }

    /// Some insertion for a file ID has moved its tree into place and has not yet made the store
    /// forget the symbols before it.
    pub open spec fn is_moving(self, insertions: Seq<Insertion>, file_id: FileId) -> bool {
        exists|i: int|
            {
                &&& 0 <= i < insertions.len()
                &&& (#[trigger] insertions[i]).file_id == file_id
                &&& self.steps[i] is Invalidate
            }
    }
}

/// No two insertions have the same unique number.
pub open spec fn told_apart(insertions: Seq<Insertion>) -> bool {
    forall|i: int, j: int|
        0 <= i < j < insertions.len() ==> (#[trigger] insertions[i]).unique != (
        #[trigger] insertions[j]).unique
}

/// `opened` is what the file for a file ID came to at first, or a whole tree inserted for it.
pub open spec fn is_whole(
    first: Store,
    insertions: Seq<Insertion>,
    file_id: FileId,
    opened: Opened,
) -> bool {
    ||| opened == first.on_disk(file_id)
    ||| exists|i: int|
        {
            &&& 0 <= i < insertions.len()
            &&& (#[trigger] insertions[i]).file_id == file_id
            &&& opened == Opened::Tree(insertions[i].tree)
        }
}

/// The symbols are those remembered at first, or come from a file that holds what it held at first
/// or a whole tree inserted for the file ID.
pub open spec fn may_be_got(
    first: Store,
    insertions: Seq<Insertion>,
    file_id: FileId,
    symbols: Symbols,
) -> bool {
    ||| first.cache.contains_key(file_id.0) && symbols == first.cache[file_id.0]
    ||| exists|opened: Opened| #[trigger]
        is_whole(first, insertions, file_id, opened) && store::contents(opened) == Ok::<
            Symbols,
            SymDbError,
        >(symbols)
}

/// The get would be remembered if it were finished now.
spec fn counts(run: Run, get: Get) -> bool {
    get.opened is Some && symdb::is_current(run.store.epochs, get.file_id, get.epoch)
}

/// What holds throughout a run.
spec fn sound(first: Store, insertions: Seq<Insertion>, run: Run) -> bool {
    &&& run.steps.len() == insertions.len()
    &&& forall|id: FileId| is_whole(first, insertions, id, #[trigger] run.store.on_disk(id))
    &&& forall|k: int|
        0 <= k < run.gets.len() ==> {
            let get = #[trigger] run.gets[k];
            &&& get.epoch <= symdb::epoch_of(run.store.epochs, get.file_id)
            &&& get.opened matches Some(opened) ==> is_whole(
                first,
                insertions,
                get.file_id,
                opened,
            )
        }
    &&& forall|id: FileId|
        run.store.cache.contains_key(id.0) ==> #[trigger] may_be_got(
            first,
            insertions,
            id,
            run.store.cache[id.0],
        )
    &&& forall|i: int|
        0 <= i < insertions.len() && #[trigger] run.steps[i] is Move ==> {
            let temp = insertions[i].temp_name();
            run.store.files.contains_key(temp) && run.store.files[temp] == Opened::Tree(
                insertions[i].tree,
            )
        }
}

/// What a step of an insertion does to the files that symbols are read from.
proof fn lemma_step_shows(
    run: Run,
    insertion: Insertion,
    step: InsertStep,
    ok: bool,
    partial: Opened,
)
    requires
        step is Move ==> run.store.files.contains_key(insertion.temp_name())
            && run.store.files[insertion.temp_name()] == Opened::Tree(insertion.tree),
    ensures
        ({
            let after = run.store.after_step(insertion, step, ok, partial);
            forall|id: FileId| #[trigger]
                after.on_disk(id) == if step is Move && ok && id == insertion.file_id {
                    Opened::Tree(insertion.tree)
                } else {
                    run.store.on_disk(id)
                }
        }),
{
    let after = run.store.after_step(insertion, step, ok, partial);
    assert forall|id: FileId| #[trigger]
        after.on_disk(id) == if step is Move && ok && id == insertion.file_id {
            Opened::Tree(insertion.tree)
        } else {
            run.store.on_disk(id)
        } by {
        store::lemma_temp_names_are_apart(insertion.file_id, insertion.unique, id);
        if id != insertion.file_id {
            store::lemma_file_names_differ(id, insertion.file_id);
        }
    }
}

/// A step of an insertion leaves the temporary files of the others alone.
proof fn lemma_step_leaves_others(
    run: Run,
    insertions: Seq<Insertion>,
    who: int,
    other: int,
    ok: bool,
    partial: Opened,
)
    requires
        told_apart(insertions),
        0 <= who < insertions.len(),
        0 <= other < insertions.len(),
        who != other,
    ensures
        ({
            let after = run.store.after_step(insertions[who], run.steps[who], ok, partial);
            let temp = insertions[other].temp_name();
            &&& after.files.contains_key(temp) == run.store.files.contains_key(temp)
            &&& after.files[temp] == run.store.files[temp]
        }),
{
    let (a, b) = (insertions[who], insertions[other]);
    assert(a.unique != b.unique);
    store::lemma_temp_names_differ(a.file_id, a.unique, b.file_id, b.unique);
    store::lemma_temp_names_are_apart(b.file_id, b.unique, a.file_id);
}

proof fn lemma_event_is_sound(first: Store, insertions: Seq<Insertion>, run: Run, event: Event)
    requires
        told_apart(insertions),
        sound(first, insertions, run),
    ensures
        sound(first, insertions, run.after(insertions, event)),
{
    let after = run.after(insertions, event);
    assert forall|id: FileId|
        is_whole(first, insertions, id, #[trigger] after.store.on_disk(id)) by {
        assert(is_whole(first, insertions, id, run.store.on_disk(id)));
        if let Event::Step { who, ok, partial } = event {
            if 0 <= who < insertions.len() {
                lemma_step_shows(run, insertions[who], run.steps[who], ok, partial);
            }
        }
    }
    assert forall|id: FileId| after.store.cache.contains_key(id.0) implies #[trigger] may_be_got(
        first,
        insertions,
        id,
        after.store.cache[id.0],
    ) by {
        if run.store.cache.contains_key(id.0) {
            assert(may_be_got(first, insertions, id, run.store.cache[id.0]));
        } else if let Event::Finish(k) = event {
            let get = run.gets[k];
            assert(id == get.file_id);
            assert(is_whole(first, insertions, id, get.opened->0));
        }
    }
    assert forall|i: int| 0 <= i < insertions.len() && #[trigger] after.steps[i] is Move implies {
        let temp = insertions[i].temp_name();
        after.store.files.contains_key(temp) && after.store.files[temp] == Opened::Tree(
            insertions[i].tree,
        )
    } by {
        if let Event::Step { who, ok, partial } = event {
            if 0 <= who < insertions.len() && i != who {
                assert(run.steps[i] is Move);
                lemma_step_leaves_others(run, insertions, who, i, ok, partial);
            }
        }
    }
    assert forall|k: int| 0 <= k < after.gets.len() implies {
        let get = #[trigger] after.gets[k];
        &&& get.epoch <= symdb::epoch_of(after.store.epochs, get.file_id)
        &&& get.opened matches Some(opened) ==> is_whole(first, insertions, get.file_id, opened)
    } by {
        if k < run.gets.len() {
            let get = run.gets[k];
            assert(get.epoch <= symdb::epoch_of(run.store.epochs, get.file_id));
            assert(is_whole(first, insertions, get.file_id, run.store.on_disk(get.file_id)));
        }
    }
}

proof fn lemma_run_is_sound(first: Store, insertions: Seq<Insertion>, events: Seq<Event>)
    requires
        told_apart(insertions),
    ensures
        sound(first, insertions, Run::start(first, insertions).after_all(insertions, events)),
    decreases events.len(),
{
    if events.len() == 0 {
        let run = Run::start(first, insertions);
        assert forall|id: FileId| run.store.cache.contains_key(id.0) implies
            #[trigger] may_be_got(first, insertions, id, run.store.cache[id.0]) by {}
    } else {
        lemma_run_is_sound(first, insertions, events.drop_last());
        lemma_event_is_sound(
            first,
            insertions,
            Run::start(first, insertions).after_all(insertions, events.drop_last()),
            events.last(),
        );
    }
}

/// However insertions and gets of several threads interleave, and whatever fails: a file that
/// symbols are read from holds what it held at first or a whole tree inserted for its file ID, and
/// so does what is remembered, and with it what a get returns, be it one that begins now or one
/// that was begun before.
pub proof fn lemma_only_whole_trees(
    first: Store,
    insertions: Seq<Insertion>,
    events: Seq<Event>,
    file_id: FileId,
)
    requires
        told_apart(insertions),
    ensures
        ({
            let run = Run::start(first, insertions).after_all(insertions, events);
            let store = run.store;
            &&& is_whole(first, insertions, file_id, store.on_disk(file_id))
            &&& store.cache.contains_key(file_id.0) ==> may_be_got(
                first,
                insertions,
                file_id,
                store.cache[file_id.0],
            )
            &&& store.get(file_id) matches Ok(symbols) ==> may_be_got(
                first,
                insertions,
                file_id,
                symbols,
            )
            &&& forall|k: int|
                0 <= k < run.gets.len() && (#[trigger] run.gets[k]).file_id == file_id ==> (
                run.gets[k].opened matches Some(opened) ==> (symdb::get_result(
                    store.cache,
                    file_id,
                    opened,
                ) matches Ok(symbols) ==> may_be_got(first, insertions, file_id, symbols)))
        }),
{
    lemma_run_is_sound(first, insertions, events);
    let store = Run::start(first, insertions).after_all(insertions, events).store;
    assert(is_whole(first, insertions, file_id, store.on_disk(file_id)));
    if store.cache.contains_key(file_id.0) {
        assert(may_be_got(first, insertions, file_id, store.cache[file_id.0]));
    }
}

/// However insertions and gets of several threads interleave, the file for a file ID changes only
/// when an insertion for it moves its tree into place, and then holds just that tree.
pub proof fn lemma_only_a_move_shows(
    first: Store,
    insertions: Seq<Insertion>,
    events: Seq<Event>,
    event: Event,
    file_id: FileId,
)
    requires
        told_apart(insertions),
    ensures
        ({
            let run = Run::start(first, insertions).after_all(insertions, events);
            let after = run.after(insertions, event).store.on_disk(file_id);
            if run.moves(insertions, event, file_id) {
                after == Opened::Tree(insertions[event->who].tree)
            } else {
                after == run.store.on_disk(file_id)
            }
        }),
{
    lemma_run_is_sound(first, insertions, events);
    let run = Run::start(first, insertions).after_all(insertions, events);
    if let Event::Step { who, ok, partial } = event {
        if 0 <= who < insertions.len() {
            lemma_step_shows(run, insertions[who], run.steps[who], ok, partial);
        }
    }
}

/// What is remembered for a file ID, and what will be, agrees with `opened`.
spec fn agrees(run: Run, file_id: FileId, opened: Opened) -> bool {
    &&& run.store.cache.contains_key(file_id.0) ==> store::contents(opened) == Ok::<
        Symbols,
        SymDbError,
    >(run.store.cache[file_id.0])
    &&& forall|k: int|
        0 <= k < run.gets.len() && (#[trigger] run.gets[k]).file_id == file_id && counts(
            run,
            run.gets[k],
        ) ==> run.gets[k].opened == Some(opened)
}

/// As long as no tree is moved into place for a file ID, what agrees with its file goes on to.
proof fn lemma_event_agrees(
    first: Store,
    insertions: Seq<Insertion>,
    run: Run,
    event: Event,
    file_id: FileId,
)
    requires
        sound(first, insertions, run),
        agrees(run, file_id, run.store.on_disk(file_id)),
        run.after(insertions, event).store.on_disk(file_id) == run.store.on_disk(file_id),
    ensures
        agrees(run.after(insertions, event), file_id, run.store.on_disk(file_id)),
{
    let opened = run.store.on_disk(file_id);
    let after = run.after(insertions, event);
    assert forall|k: int|
        0 <= k < after.gets.len() && (#[trigger] after.gets[k]).file_id == file_id && counts(
            after,
            after.gets[k],
        ) implies after.gets[k].opened == Some(opened) by {
        if k < run.gets.len() {
            assert(run.gets[k].epoch <= symdb::epoch_of(run.store.epochs, file_id));
        }
    }
    if let Event::Finish(k) = event {
        if 0 <= k < run.gets.len() && run.gets[k].file_id.0 == file_id.0 {
            assert(run.gets[k].file_id == file_id);
        }
    }
}

/// Making the store forget the symbols for a file ID leaves nothing that could disagree with its
/// file.
proof fn lemma_invalidate_agrees(
    first: Store,
    insertions: Seq<Insertion>,
    run: Run,
    event: Event,
    opened: Opened,
)
    requires
        sound(first, insertions, run),
        event is Step,
        0 <= event->who < insertions.len(),
        run.steps[event->who] is Invalidate,
    ensures
        agrees(run.after(insertions, event), insertions[event->who].file_id, opened),
{
    let file_id = insertions[event->who].file_id;
    let after = run.after(insertions, event);
    assert forall|k: int|
        0 <= k < after.gets.len() && (#[trigger] after.gets[k]).file_id == file_id implies !counts(
        after,
        after.gets[k],
    ) by {
        assert(run.gets[k].epoch <= symdb::epoch_of(run.store.epochs, file_id));
    }
}

proof fn lemma_run_agrees(
    first: Store,
    insertions: Seq<Insertion>,
    events: Seq<Event>,
    file_id: FileId,
)
    requires
        told_apart(insertions),
        first.consistent(),
    ensures
        ({
            let run = Run::start(first, insertions).after_all(insertions, events);
            run.is_moving(insertions, file_id) || agrees(
                run,
                file_id,
                run.store.on_disk(file_id),
            )
        }),
    decreases events.len(),
{
    let start = Run::start(first, insertions);
    if events.len() == 0 {
        assert(store::contents(first.on_disk(file_id)) == Ok::<Symbols, SymDbError>(
            first.cache[file_id.0],
        ) || !first.cache.contains_key(file_id.0));
    } else {
        let earlier = events.drop_last();
        let event = events.last();
        let run = start.after_all(insertions, earlier);
        let after = run.after(insertions, event);
        lemma_run_agrees(first, insertions, earlier, file_id);
        lemma_run_is_sound(first, insertions, earlier);
        lemma_only_a_move_shows(first, insertions, earlier, event, file_id);
        if run.moves(insertions, event, file_id) {
            let who = event->who;
            assert(insertions[who].file_id == file_id && after.steps[who] is Invalidate);
        } else if agrees(run, file_id, run.store.on_disk(file_id)) {
            lemma_event_agrees(first, insertions, run, event, file_id);
        } else {
            let i = choose|i: int|
                {
                    &&& 0 <= i < insertions.len()
                    &&& (#[trigger] insertions[i]).file_id == file_id
                    &&& run.steps[i] is Invalidate
                };
            if event is Step && event->who == i {
                lemma_invalidate_agrees(
                    first,
                    insertions,
                    run,
                    event,
                    after.store.on_disk(file_id),
                );
            } else {
                assert(insertions[i].file_id == file_id && after.steps[i] is Invalidate);
            }
        }
    }
}

/// However insertions and gets of several threads interleave, and whatever fails: a get that begins
/// while no insertion for its file ID is between moving its tree into place and ending returns what
/// the file holds. What is remembered never shows.
pub proof fn lemma_get_is_up_to_date(
    first: Store,
    insertions: Seq<Insertion>,
    events: Seq<Event>,
    file_id: FileId,
)
    requires
        told_apart(insertions),
        first.consistent(),
        !Run::start(first, insertions).after_all(insertions, events).is_moving(
            insertions,
            file_id,
        ),
    ensures
        ({
            let store = Run::start(first, insertions).after_all(insertions, events).store;
            store.get(file_id) == store::contents(store.on_disk(file_id))
        }),
{
    lemma_run_agrees(first, insertions, events, file_id);
}

/// The event of the given number moves the tree of an insertion into place, and no later event does
/// so for the same file ID.
pub open spec fn moves_last(
    first: Store,
    insertions: Seq<Insertion>,
    events: Seq<Event>,
    moved: int,
) -> bool {
    let start = Run::start(first, insertions);
    let file_id = insertions[events[moved]->who].file_id;
    &&& 0 <= moved < events.len()
    &&& start.after_all(insertions, events.take(moved)).moves(insertions, events[moved], file_id)
    &&& forall|n: int|
        moved < n < events.len() ==> !(#[trigger] start.after_all(
            insertions,
            events.take(n),
        ).moves(insertions, events[n], file_id))
}

proof fn lemma_moves_last_before(
    first: Store,
    insertions: Seq<Insertion>,
    events: Seq<Event>,
    moved: int,
)
    requires
        moves_last(first, insertions, events, moved),
        moved < events.len() - 1,
    ensures
        moves_last(first, insertions, events.drop_last(), moved),
{
    let start = Run::start(first, insertions);
    let file_id = insertions[events[moved]->who].file_id;
    let earlier = events.drop_last();
    assert(earlier.take(moved) =~= events.take(moved));
    assert forall|n: int| moved < n < earlier.len() implies !(#[trigger] start.after_all(
        insertions,
        earlier.take(n),
    ).moves(insertions, earlier[n], file_id)) by {
        assert(earlier.take(n) =~= events.take(n));
        assert(!start.after_all(insertions, events.take(n)).moves(insertions, events[n], file_id));
    }
}

/// What holds after an insertion moved its tree into place, as long as no other does.
proof fn lemma_after_move(
    first: Store,
    insertions: Seq<Insertion>,
    events: Seq<Event>,
    moved: int,
)
    requires
        told_apart(insertions),
        moves_last(first, insertions, events, moved),
    ensures
        ({
            let run = Run::start(first, insertions).after_all(insertions, events);
            let who = events[moved]->who;
            let insertion = insertions[who];
            &&& run.steps[who] is Invalidate || run.steps[who] is Succeeded
            &&& run.store.on_disk(insertion.file_id) == Opened::Tree(insertion.tree)
            &&& run.steps[who] is Succeeded ==> agrees(
                run,
                insertion.file_id,
                Opened::Tree(insertion.tree),
            )
        }),
    decreases events.len(),
{
    let start = Run::start(first, insertions);
    let who = events[moved]->who;
    let insertion = insertions[who];
    let file_id = insertion.file_id;
    let earlier = events.drop_last();
    let event = events.last();
    let run = start.after_all(insertions, earlier);
    assert(earlier =~= events.take(events.len() - 1));
    lemma_run_is_sound(first, insertions, earlier);
    lemma_only_a_move_shows(first, insertions, earlier, event, file_id);
    if moved < events.len() - 1 {
        lemma_moves_last_before(first, insertions, events, moved);
        lemma_after_move(first, insertions, earlier, moved);
        assert(!start.after_all(insertions, events.take(events.len() - 1)).moves(
            insertions,
            events[events.len() - 1],
            file_id,
        ));
        if run.steps[who] is Succeeded {
            lemma_event_agrees(first, insertions, run, event, file_id);
        } else if event is Step && event->who == who {
            lemma_invalidate_agrees(first, insertions, run, event, Opened::Tree(insertion.tree));
        }
    }
}

/// What holds of the gets that begin after an insertion moved its tree into place and succeeded.
proof fn lemma_later_gets(
    first: Store,
    insertions: Seq<Insertion>,
    events: Seq<Event>,
    moved: int,
    begun: int,
)
    requires
        told_apart(insertions),
        moves_last(first, insertions, events, moved),
        moved < begun <= events.len(),
        Run::start(first, insertions).after_all(
            insertions,
            events.take(begun),
        ).steps[events[moved]->who] is Succeeded,
    ensures
        ({
            let start = Run::start(first, insertions);
            let run = start.after_all(insertions, events);
            let who = events[moved]->who;
            let before = start.after_all(insertions, events.take(begun)).gets.len();
            &&& run.steps[who] is Succeeded
            &&& before <= run.gets.len()
            &&& forall|k: int|
                before <= k < run.gets.len() && (#[trigger] run.gets[k]).file_id
                    == insertions[who].file_id ==> run.gets[k].opened is None
                    || run.gets[k].opened == Some(Opened::Tree(insertions[who].tree))
        }),
    decreases events.len(),
{
    if begun == events.len() {
        assert(events.take(begun) =~= events);
    } else {
        let earlier = events.drop_last();
        assert(earlier.take(begun) =~= events.take(begun));
        lemma_moves_last_before(first, insertions, events, moved);
        lemma_later_gets(first, insertions, earlier, moved, begun);
        lemma_after_move(first, insertions, earlier, moved);
        lemma_run_is_sound(first, insertions, earlier);
    }
}

/// Existing symbols are replaced, however insertions and gets of several threads interleave: once
/// an insertion has succeeded, and as long as no other one for its file ID has moved its tree into
/// place since it did, every get that begins returns the inserted tree, be it at once or, where
/// other events come between its steps, whenever it is finished. That another get was on its way
/// while the tree was inserted makes no difference.
///
/// The tree was moved into place by the event of number `moved`, and the insertion had succeeded
/// by the event of number `begun`, from which on gets begin.
pub proof fn lemma_get_returns_what_was_inserted(
    first: Store,
    insertions: Seq<Insertion>,
    events: Seq<Event>,
    moved: int,
    begun: int,
)
    requires
        told_apart(insertions),
        moves_last(first, insertions, events, moved),
        moved < begun <= events.len(),
        Run::start(first, insertions).after_all(
            insertions,
            events.take(begun),
        ).steps[events[moved]->who] is Succeeded,
    ensures
        ({
            let start = Run::start(first, insertions);
            let run = start.after_all(insertions, events);
            let before = start.after_all(insertions, events.take(begun)).gets.len();
            let insertion = insertions[events[moved]->who];
            let inserted = Ok::<Symbols, SymDbError>(Some(insertion.tree));
            &&& run.store.get(insertion.file_id) == inserted
            &&& forall|k: int|
                before <= k < run.gets.len() && (#[trigger] run.gets[k]).file_id
                    == insertion.file_id ==> (run.gets[k].opened matches Some(opened) ==>
                    symdb::get_result(run.store.cache, insertion.file_id, opened) == inserted)
        }),
{
    lemma_later_gets(first, insertions, events, moved, begun);
    lemma_after_move(first, insertions, events, moved);
}

} // verus!
