//! What a split does to the world: the laws of the splitting machine, stated
//! over a model of the caller's side of it.

use vstd::prelude::*;
use vstd::string::*;
use vstd::arithmetic::div_mod::lemma_fundamental_div_mod;
use crate::chunks::{
    chunk_count, chunk_len, chunk_of, lemma_chunk_bounds, lemma_chunk_count_of,
    lemma_chunk_count_rounds_up,
};
use crate::error::ChunkError;
use crate::listing::chunk_names;
use crate::names::{chunk_name, is_chunk_name, lemma_chunk_names_differ, CHUNK_TAG, METADATA_FILE};
use crate::split::{SplitAction, SplitEvent, SplitStage, SplitState};

verus! {

/// The files of a directory: their contents by name.
pub type Files = Map<Seq<char>, Seq<u8>>;

/// The caller's side of a split.
pub struct SplitWorld {
    /// The bytes of the source file; `None` where there is no such file.
    pub source: Option<Seq<u8>>,
    /// How many bytes of the source have been read.
    pub position: nat,
    /// The buffer that the reads fill.
    pub buffer: Seq<u8>,
    /// The record of the source's file name, as it is written when asked for.
    pub record: Seq<u8>,
    /// The target directory; `None` where it does not exist.
    pub target: Option<Files>,
}

impl SplitWorld {
    /// The files that the target directory holds.
    pub open spec fn files(self) -> Files {
        match self.target {
            Some(files) => files,
            None => Map::empty(),
        }
    }

    /// Whether the target directory holds nothing.
    pub open spec fn target_is_empty(self) -> bool {
        forall|name: Seq<char>| !self.files().contains_key(name)
    }

    /// Whether `event` is what a caller reports who did what `action` asked,
    /// without a failure.
    pub open spec fn answers(self, action: SplitAction, event: SplitEvent) -> bool {
        match action {
            SplitAction::CheckSource => event == (SplitEvent::SourceChecked {
                is_file: self.source is Some,
            }),
            SplitAction::PrepareTarget => {
                &&& event matches SplitEvent::TargetListed { entries }
                &&& entries == 0 <==> self.target_is_empty()
            },
            SplitAction::StoreMetadata => event == SplitEvent::Stored,
            SplitAction::StoreChunk { .. } => event == SplitEvent::Stored,
            SplitAction::Read { offset, len } => {
                &&& self.source matches Some(data)
                &&& event matches SplitEvent::Read { count }
                &&& count <= len
                &&& self.position + count <= data.len()
                &&& count == 0 <==> len == 0 || self.position == data.len()
            },
            SplitAction::Finish | SplitAction::Fail(_) => false,
        }
    }

    /// The world after the caller has done what `action` asked, with the
    /// outcome `event`.
    pub open spec fn after(self, action: SplitAction, event: SplitEvent) -> SplitWorld {
        match (action, event) {
            (SplitAction::PrepareTarget, SplitEvent::TargetListed { .. }) => SplitWorld {
                target: Some(self.files()),
                ..self
            },
            (SplitAction::StoreMetadata, SplitEvent::Stored) => SplitWorld {
                target: Some(self.files().insert(METADATA_FILE@, self.record)),
                ..self
            },
            (SplitAction::StoreChunk { index, len }, SplitEvent::Stored) => SplitWorld {
                target: Some(
                    self.files().insert(chunk_name(index as nat), self.buffer.take(len as int)),
                ),
                ..self
            },
            (SplitAction::Read { offset, len }, SplitEvent::Read { count }) => match self.source {
                Some(data) => SplitWorld {
                    position: self.position + count as nat,
                    buffer: self.buffer.take(offset as int) + data.subrange(
                        self.position as int,
                        self.position + count,
                    ) + self.buffer.skip(offset + count),
                    ..self
                },
                None => self,
            },
            _ => self,
        }
    }
}

/// Where the machine and the world stand after the reports `events`.
pub open spec fn run(state: SplitState, world: SplitWorld, events: Seq<SplitEvent>) -> (
    SplitState,
    SplitWorld,
)
    decreases events.len(),
{
    if events.len() == 0 {
        (state, world)
    } else {
        run(
            state.next(events[0]),
            world.after(state.action(), events[0]),
            events.drop_first(),
        )
    }
}

/// Whether each of `events` reports what the world gave when the caller did
/// what the machine asked.
pub open spec fn truthful(state: SplitState, world: SplitWorld, events: Seq<SplitEvent>) -> bool
    decreases events.len(),
{
    events.len() == 0 || {
        &&& world.answers(state.action(), events[0])
        &&& truthful(
            state.next(events[0]),
            world.after(state.action(), events[0]),
            events.drop_first(),
        )
    }
}

/// The directory that holds the record and the first `count` chunks of `data`.
pub open spec fn chunk_directory(record: Seq<u8>, data: Seq<u8>, size: nat, count: nat) -> Files
    decreases count,
{
    if count == 0 {
        Map::<Seq<char>, Seq<u8>>::empty().insert(METADATA_FILE@, record)
    } else {
        chunk_directory(record, data, size, (count - 1) as nat).insert(
            chunk_name((count - 1) as nat),
            chunk_of(data, size, (count - 1) as nat),
        )
    }
}

/// The directory that a split of `data` leaves: the record, and the chunks
/// of `data` under their names.
pub open spec fn split_directory(record: Seq<u8>, data: Seq<u8>, size: nat) -> Files {
    chunk_directory(record, data, size, chunk_count(data.len(), size))
}

/// The record is no chunk file, and every chunk file is one.
pub proof fn lemma_names_apart(index: nat)
    ensures
        !is_chunk_name(METADATA_FILE@),
        is_chunk_name(chunk_name(index)),
        chunk_name(index) != METADATA_FILE@,
{
    reveal_strlit("chunk");
    reveal_strlit("info.json");
    let tag = CHUNK_TAG@;
    let name = chunk_name(index);
    assert(name.subrange(0, tag.len() as int) =~= tag);
    assert(METADATA_FILE@.subrange(0, tag.len() as int)[0] == 'i');
}

/// What the directory of the first `count` chunks holds: the record, and
/// each chunk under its own name, and nothing else.
pub proof fn lemma_chunk_directory_holds(record: Seq<u8>, data: Seq<u8>, size: nat, count: nat)
    ensures
        ({
            let files = chunk_directory(record, data, size, count);
            &&& files[METADATA_FILE@] == record
            &&& forall|name: Seq<char>|
                files.contains_key(name) <==> name == METADATA_FILE@ || chunk_names(
                    count,
                ).contains(name)
            &&& forall|i: int|
                0 <= i < count ==> files[#[trigger] chunk_name(i as nat)] == chunk_of(
                    data,
                    size,
                    i as nat,
                )
        }),
    decreases count,
{
    let files = chunk_directory(record, data, size, count);
    if count == 0 {
        assert forall|name: Seq<char>| files.contains_key(name) <==> name == METADATA_FILE@
            || chunk_names(count).contains(name) by {}
    } else {
        let last = (count - 1) as nat;
        let before = chunk_directory(record, data, size, last);
        lemma_chunk_directory_holds(record, data, size, last);
        lemma_names_apart(last);
        assert forall|name: Seq<char>| files.contains_key(name) <==> name == METADATA_FILE@
            || chunk_names(count).contains(name) by {
            if chunk_names(last).contains(name) {
                let i = choose|i: int| 0 <= i < last && chunk_names(last)[i] == name;
                assert(chunk_names(count)[i] == name);
            }
            if chunk_names(count).contains(name) {
                let i = choose|i: int| 0 <= i < count && chunk_names(count)[i] == name;
                if i < last {
                    assert(chunk_names(last)[i] == name);
                }
            }
            assert(chunk_names(count)[last as int] == chunk_name(last));
        }
        assert forall|i: int| 0 <= i < count implies files[#[trigger] chunk_name(i as nat)]
            == chunk_of(data, size, i as nat) by {
            if i < last {
                lemma_chunk_names_differ(i as nat, last);
            }
        }
    }
}

/// The chunk files of the directory that a split leaves: one for each index
/// below the chunk count, under a name of its own, and no other. Each is as
/// long as the chunk size, but for the last, which holds what is left of the
/// file; none is empty.
pub proof fn lemma_split_directory_chunk_sizes(record: Seq<u8>, data: Seq<u8>, size: nat)
    requires
        size > 0,
    ensures
        ({
            let files = split_directory(record, data, size);
            let count = chunk_count(data.len(), size);
            &&& forall|name: Seq<char>|
                files.contains_key(name) && is_chunk_name(name) <==> chunk_names(count).contains(
                    name,
                )
            &&& chunk_names(count).no_duplicates()
            &&& forall|i: int|
                0 <= i < count ==> (#[trigger] files[chunk_name(i as nat)]).len() == chunk_len(
                    data.len(),
                    size,
                    i as nat,
                )
            &&& forall|i: int|
                0 <= i < count - 1 ==> (#[trigger] files[chunk_name(i as nat)]).len() == size
            &&& count > 0 ==> files[chunk_name((count - 1) as nat)].len() == if data.len() % size
                == 0 {
                size
            } else {
                data.len() % size
            }
        }),
{
    let files = split_directory(record, data, size);
    let count = chunk_count(data.len(), size);
    let names = chunk_names(count);
    lemma_chunk_directory_holds(record, data, size, count);
    lemma_names_apart(0);
    assert forall|name: Seq<char>| files.contains_key(name) && is_chunk_name(name)
        <==> names.contains(name) by {
        if names.contains(name) {
            let i = choose|i: int| 0 <= i < names.len() && names[i] == name;
            lemma_names_apart(i as nat);
        }
    }
    assert forall|i: int, j: int| 0 <= i < names.len() && 0 <= j < names.len() && i
        != j implies names[i] != names[j] by {
        lemma_chunk_names_differ(i as nat, j as nat);
    }
    assert forall|i: int| 0 <= i < count implies (#[trigger] files[chunk_name(i as nat)]).len()
        == chunk_len(data.len(), size, i as nat) by {
        lemma_chunk_bounds(data.len(), size, i as nat);
    }
    assert forall|i: int| 0 <= i < count - 1 implies (#[trigger] files[chunk_name(
        i as nat,
    )]).len() == size by {
        lemma_chunk_bounds(data.len(), size, i as nat);
    }
    if count > 0 {
        lemma_chunk_bounds(data.len(), size, (count - 1) as nat);
        lemma_chunk_count_rounds_up(data.len(), size);
    }
}

/// What holds between machine and world while `data` is being split.
pub open spec fn in_step(state: SplitState, world: SplitWorld, data: Seq<u8>) -> bool {
    let size = state.chunk_size as nat;
    let start = state.index * size;
    &&& state.inv()
    &&& world.source == Some(data)
    &&& world.buffer.len() == size
    &&& match state.stage {
        SplitStage::CheckSource | SplitStage::PrepareTarget | SplitStage::StoreMetadata => {
            world.position == 0 && world.target_is_empty()
        },
        SplitStage::Read | SplitStage::StoreChunk { .. } => {
            &&& world.target == Some(
                chunk_directory(world.record, data, size, state.index as nat),
            )
            &&& world.position == start + state.filled
            &&& world.position <= data.len()
            &&& world.buffer.take(state.filled as int) == data.subrange(
                start as int,
                world.position as int,
            )
            &&& state.stage == (SplitStage::StoreChunk { last: true }) ==> world.position
                == data.len()
        },
        SplitStage::Done => world.target == Some(split_directory(world.record, data, size)),
        SplitStage::Failed(_) => chunk_count(data.len(), size) > usize::MAX,
    }
}

/// A chunk that ends inside the file is a whole one.
proof fn lemma_whole_chunk(len: nat, size: nat, index: nat)
    requires
        size > 0,
        (index + 1) * size <= len,
    ensures
        chunk_len(len, size, index) == size,
        chunk_count(len, size) > index,
{
    lemma_fundamental_div_mod(len as int, size as int);
    let q = len / size;
    if index >= q {
        assert((index + 1) * size >= (q + 1) * size) by (nonlinear_arith)
            requires
                index >= q,
        ;
        assert((q + 1) * size == size * q + size) by (nonlinear_arith);
    }
}

/// One truthful report keeps machine and world in step.
pub proof fn lemma_step_keeps_in_step(
    state: SplitState,
    world: SplitWorld,
    data: Seq<u8>,
    event: SplitEvent,
)
    requires
        in_step(state, world, data),
        world.answers(state.action(), event),
    ensures
        in_step(state.next(event), world.after(state.action(), event), data),
        world.after(state.action(), event).record == world.record,
        state.next(event).chunk_size == state.chunk_size,
{
    let size = state.chunk_size as nat;
    let next = state.next(event);
    let then = world.after(state.action(), event);
    let start = state.index * size;
    match state.stage {
        SplitStage::CheckSource => {},
        SplitStage::PrepareTarget => {},
        SplitStage::StoreMetadata => {
            assert(0 * size == 0);
            assert(world.files() =~= Map::<Seq<char>, Seq<u8>>::empty());
            assert(then.buffer.take(0) =~= data.subrange(0, 0));
        },
        SplitStage::Read => {
            let count = event->Read_count;
            let filled = state.filled + count;
            assert(then.buffer.take(filled) =~= world.buffer.take(state.filled as int)
                + data.subrange(world.position as int, world.position + count));
            assert(then.buffer.take(filled) =~= data.subrange(
                start as int,
                world.position + count,
            ));
            if count == 0 && state.filled == 0 {
                lemma_chunk_count_of(data.len(), size, state.index as nat, 0);
            }
        },
        SplitStage::StoreChunk { last } => {
            let after_one = (state.index + 1) * size;
            assert(after_one == start + size) by (nonlinear_arith)
                requires
                    after_one == (state.index + 1) * size,
                    start == state.index * size,
            ;
            if last {
                lemma_chunk_count_of(data.len(), size, state.index as nat, state.filled as nat);
            } else {
                lemma_whole_chunk(data.len(), size, state.index as nat);
                assert(then.buffer.take(0) =~= data.subrange(after_one as int, after_one as int));
            }
            assert(world.buffer.take(state.filled as int) == chunk_of(
                data,
                size,
                state.index as nat,
            ));
        },
        SplitStage::Done => {},
        SplitStage::Failed(_) => {},
    }
}

/// Truthful reports keep machine and world in step.
pub proof fn lemma_run_keeps_in_step(
    state: SplitState,
    world: SplitWorld,
    data: Seq<u8>,
    events: Seq<SplitEvent>,
)
    requires
        in_step(state, world, data),
        truthful(state, world, events),
    ensures
        in_step(run(state, world, events).0, run(state, world, events).1, data),
        run(state, world, events).1.record == world.record,
        run(state, world, events).0.chunk_size == state.chunk_size,
    decreases events.len(),
{
    if events.len() > 0 {
        lemma_step_keeps_in_step(state, world, data, events[0]);
        lemma_run_keeps_in_step(
            state.next(events[0]),
            world.after(state.action(), events[0]),
            data,
            events.drop_first(),
        );
    }
}

/// A split that runs to its end leaves the record and the chunks of the
/// source in the target directory, each chunk under the name of its index,
/// however many bytes each read brought. It fails only where the source has
/// more chunks than there are indices.
pub proof fn lemma_split_leaves_chunks(
    chunk_size: usize,
    world: SplitWorld,
    data: Seq<u8>,
    events: Seq<SplitEvent>,
)
    requires
        chunk_size > 0,
        world.source == Some(data),
        world.position == 0,
        world.buffer.len() == chunk_size,
        world.target_is_empty(),
        truthful(SplitState::initial(chunk_size), world, events),
    ensures
        ({
            let end = run(SplitState::initial(chunk_size), world, events);
            &&& end.0.stage is Done ==> end.1.target == Some(
                split_directory(world.record, data, chunk_size as nat),
            )
            &&& end.0.stage is Failed ==> chunk_count(data.len(), chunk_size as nat) > usize::MAX
        }),
{
    let start = SplitState::initial(chunk_size);
    assert(in_step(start, world, data));
    lemma_run_keeps_in_step(start, world, data, events);
}

/// An upper bound on the reports that a split still takes: two for each
/// byte that is still to be read, one to read it and one to store the chunk
/// that it may fill, and a few for the steps around them.
pub open spec fn reports_left(state: SplitState, world: SplitWorld, data: Seq<u8>) -> nat {
    let unread = (data.len() - world.position) as nat;
    match state.stage {
        SplitStage::CheckSource => 2 * data.len() + 5,
        SplitStage::PrepareTarget => 2 * data.len() + 4,
        SplitStage::StoreMetadata => 2 * data.len() + 3,
        SplitStage::Read => 2 * unread + 2,
        SplitStage::StoreChunk { last } => if last {
            1
        } else {
            2 * unread + 3
        },
        SplitStage::Done | SplitStage::Failed(_) => 0,
    }
}

/// Every truthful report brings the split nearer to its end.
pub proof fn lemma_step_uses_a_report(
    state: SplitState,
    world: SplitWorld,
    data: Seq<u8>,
    event: SplitEvent,
)
    requires
        in_step(state, world, data),
        world.answers(state.action(), event),
    ensures
        reports_left(state.next(event), world.after(state.action(), event), data) < reports_left(
            state,
            world,
            data,
        ),
{
}

/// A split of a file of `n` bytes takes at most `2 * n + 5` truthful
/// reports: the caller who answers what is asked is told to stop.
pub proof fn lemma_split_ends(
    chunk_size: usize,
    world: SplitWorld,
    data: Seq<u8>,
    events: Seq<SplitEvent>,
)
    requires
        chunk_size > 0,
        world.source == Some(data),
        world.position == 0,
        world.buffer.len() == chunk_size,
        world.target_is_empty(),
        truthful(SplitState::initial(chunk_size), world, events),
    ensures
        events.len() <= 2 * data.len() + 5,
{
    let start = SplitState::initial(chunk_size);
    assert(in_step(start, world, data));
    lemma_run_is_bounded(start, world, data, events);
}

/// Truthful reports are no more than the bound allows.
pub proof fn lemma_run_is_bounded(
    state: SplitState,
    world: SplitWorld,
    data: Seq<u8>,
    events: Seq<SplitEvent>,
)
    requires
        in_step(state, world, data),
        truthful(state, world, events),
    ensures
        events.len() <= reports_left(state, world, data),
    decreases events.len(),
{
    if events.len() > 0 {
        lemma_step_keeps_in_step(state, world, data, events[0]);
        lemma_step_uses_a_report(state, world, data, events[0]);
        lemma_run_is_bounded(
            state.next(events[0]),
            world.after(state.action(), events[0]),
            data,
            events.drop_first(),
        );
    }
}

/// Until the split has ended, the caller can do what is asked: there is a
/// truthful report for it.
pub proof fn lemma_split_goes_on(state: SplitState, world: SplitWorld, data: Seq<u8>)
    requires
        in_step(state, world, data),
        !state.ended(),
    ensures
        exists|event: SplitEvent| world.answers(state.action(), event),
{
    let event = match state.stage {
        SplitStage::CheckSource => SplitEvent::SourceChecked { is_file: true },
        SplitStage::PrepareTarget => SplitEvent::TargetListed { entries: 0 },
        SplitStage::Read => {
            let room = state.chunk_size - state.filled;
            let unread = data.len() - world.position;
            SplitEvent::Read {
                count: if unread < room {
                    unread as usize
                } else {
                    room as usize
                },
            }
        },
        _ => SplitEvent::Stored,
    };
    assert(world.answers(state.action(), event));
}

/// Until a split that began afresh has ended, the caller can do what is
/// asked: after any truthful reports there is a truthful next one.
pub proof fn lemma_split_goes_on_from_the_start(
    chunk_size: usize,
    world: SplitWorld,
    data: Seq<u8>,
    events: Seq<SplitEvent>,
)
    requires
        chunk_size > 0,
        world.source == Some(data),
        world.position == 0,
        world.buffer.len() == chunk_size,
        world.target_is_empty(),
        truthful(SplitState::initial(chunk_size), world, events),
        !run(SplitState::initial(chunk_size), world, events).0.ended(),
    ensures
        exists|event: SplitEvent|
            run(SplitState::initial(chunk_size), world, events).1.answers(
                run(SplitState::initial(chunk_size), world, events).0.action(),
                event,
            ),
{
    let start = SplitState::initial(chunk_size);
    assert(in_step(start, world, data));
    lemma_run_keeps_in_step(start, world, data, events);
    lemma_split_goes_on(run(start, world, events).0, run(start, world, events).1, data);
}

/// How a split ends whose source is a file and whose every step succeeds:
/// with `AlreadyPopulated` if, and only if, the target directory held
/// anything, and then the directory holds what it held; otherwise well, with
/// the record and the chunks of the source in the directory. The source has
/// no more chunks than there are indices.
pub proof fn lemma_split_outcome(
    chunk_size: usize,
    world: SplitWorld,
    data: Seq<u8>,
    events: Seq<SplitEvent>,
)
    requires
        chunk_size > 0,
        world.source == Some(data),
        world.position == 0,
        world.buffer.len() == chunk_size,
        chunk_count(data.len(), chunk_size as nat) <= usize::MAX,
        truthful(SplitState::initial(chunk_size), world, events),
        run(SplitState::initial(chunk_size), world, events).0.ended(),
    ensures
        ({
            let end = run(SplitState::initial(chunk_size), world, events);
            &&& end.0.stage == SplitStage::Failed(ChunkError::AlreadyPopulated)
                <==> !world.target_is_empty()
            &&& !world.target_is_empty() ==> end.1.files() == world.files()
            &&& world.target_is_empty() ==> end.0.stage == SplitStage::Done && end.1.target
                == Some(split_directory(world.record, data, chunk_size as nat))
        }),
{
    let start = SplitState::initial(chunk_size);
    if world.target_is_empty() {
        lemma_split_leaves_chunks(chunk_size, world, data, events);
    } else {
        assert(events.len() > 1) by {
            if events.len() == 1 {
                let rest = events.drop_first();
                assert(rest.len() == 0);
                assert(run(start, world, events) == run(
                    start.next(events[0]),
                    world.after(start.action(), events[0]),
                    rest,
                ));
            }
        }
        lemma_populated_target_is_refused(chunk_size, world, events);
    }
}

/// Where the source is no file, the split ends with `NotFound` once the
/// source has been looked at, and nothing else has been touched: the target
/// directory is neither made nor changed.
pub proof fn lemma_missing_source_fails_first(
    chunk_size: usize,
    world: SplitWorld,
    events: Seq<SplitEvent>,
)
    requires
        world.source is None,
        events.len() > 0,
        truthful(SplitState::initial(chunk_size), world, events),
    ensures
        run(SplitState::initial(chunk_size), world, events).0.stage == SplitStage::Failed(
            ChunkError::NotFound,
        ),
        run(SplitState::initial(chunk_size), world, events).1 == world,
{
    let state = SplitState::initial(chunk_size);
    let rest = events.drop_first();
    assert(truthful(state.next(events[0]), world, rest));
    assert(rest.len() == 0);
    assert(run(state.next(events[0]), world, rest) == (state.next(events[0]), world));
}

/// Where the target directory holds anything, the split ends with
/// `AlreadyPopulated` once the directory has been looked at, and the
/// directory holds what it held.
pub proof fn lemma_populated_target_is_refused(
    chunk_size: usize,
    world: SplitWorld,
    events: Seq<SplitEvent>,
)
    requires
        world.source is Some,
        !world.target_is_empty(),
        events.len() > 1,
        truthful(SplitState::initial(chunk_size), world, events),
    ensures
        run(SplitState::initial(chunk_size), world, events).0.stage == SplitStage::Failed(
            ChunkError::AlreadyPopulated,
        ),
        run(SplitState::initial(chunk_size), world, events).1.files() == world.files(),
        run(SplitState::initial(chunk_size), world, events).1.position == world.position,
{
    let first = SplitState::initial(chunk_size);
    let second = first.next(events[0]);
    let rest = events.drop_first();
    assert(truthful(second, world, rest));
    let third = second.next(rest[0]);
    let then = world.after(second.action(), rest[0]);
    assert(then.files() == world.files());
    assert(truthful(third, then, rest.drop_first()));
    assert(rest.drop_first().len() == 0);
    assert(run(second, world, rest) == run(third, then, rest.drop_first()));
}

} // verus!
