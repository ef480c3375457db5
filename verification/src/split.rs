//! Splitting, as a machine that is told what happened and says what to do
//! next. The caller owns the source file, the target directory and one buffer
//! of the chunk size; the machine decides in which order they are touched,
//! where each read lands in the buffer, and when the buffer becomes a chunk.

use vstd::prelude::*;
use crate::error::ChunkError;

verus! {

/// The size of a chunk: five mebibytes.
pub const CHUNK_SIZE: usize = 5 * 1024 * 1024;

/// What the caller is asked to do.
#[derive(Clone, Copy, Debug, PartialEq, Eq, Structural)]
pub enum SplitAction {
    /// Find out whether the source is an existing regular file.
    CheckSource,
    /// Create the target directory, with its parents, unless it exists, and
    /// count its entries.
    PrepareTarget,
    /// Write the record of the source's file name into the target directory.
    StoreMetadata,
    /// Read up to `len` bytes from the source into the buffer at `offset`.
    Read { offset: usize, len: usize },
    /// Write the first `len` bytes of the buffer as the chunk file with this
    /// index.
    StoreChunk { index: usize, len: usize },
    /// Stop: the file has been split.
    Finish,
    /// Stop: splitting failed.
    Fail(ChunkError),
}

/// What the caller reports back.
#[derive(Clone, Copy, Debug, PartialEq, Eq, Structural)]
pub enum SplitEvent {
    /// The source was looked at.
    SourceChecked { is_file: bool },
    /// The target directory stands and holds this many entries.
    TargetListed { entries: usize },
    /// The file that was to be written has been written.
    Stored,
    /// This many bytes were read; none means that the source has ended.
    Read { count: usize },
    /// What was asked for failed.
    Failed,
}

/// How far splitting has come.
#[derive(Clone, Copy, Debug, PartialEq, Eq, Structural)]
pub enum SplitStage {
    CheckSource,
    PrepareTarget,
    StoreMetadata,
    Read,
    StoreChunk { last: bool },
    Done,
    Failed(ChunkError),
}

/// The state of a split.
#[derive(Clone, Copy, Debug, PartialEq, Eq, Structural)]
pub struct SplitState {
    pub stage: SplitStage,
    /// The size of the buffer, and of every chunk but the last.
    pub chunk_size: usize,
    /// How many bytes of the buffer are waiting to be written.
    pub filled: usize,
    /// The index of the chunk that the buffer will become.
    pub index: usize,
}

impl SplitState {
    /// The state in which a split begins.
    pub open spec fn initial(chunk_size: usize) -> SplitState {
        SplitState { stage: SplitStage::CheckSource, chunk_size, filled: 0, index: 0 }
    }

    /// This state, moved to another stage.
    pub open spec fn at(self, stage: SplitStage) -> SplitState {
        SplitState { stage, ..self }
    }

    /// What holds of every state that a split can reach.
    pub open spec fn inv(self) -> bool {
        &&& self.chunk_size > 0
        &&& self.filled <= self.chunk_size
        &&& match self.stage {
            SplitStage::CheckSource | SplitStage::PrepareTarget | SplitStage::StoreMetadata => {
                self.filled == 0 && self.index == 0
            },
            SplitStage::Read => self.filled < self.chunk_size,
            SplitStage::StoreChunk { last } => {
                self.filled > 0 && (last || self.filled == self.chunk_size)
            },
            SplitStage::Done | SplitStage::Failed(_) => true,
        }
    }

    /// What the caller is to do in this state.
    pub open spec fn action(self) -> SplitAction {
        match self.stage {
            SplitStage::CheckSource => SplitAction::CheckSource,
            SplitStage::PrepareTarget => SplitAction::PrepareTarget,
            SplitStage::StoreMetadata => SplitAction::StoreMetadata,
            SplitStage::Read => SplitAction::Read {
                offset: self.filled,
                len: (self.chunk_size - self.filled) as usize,
            },
            SplitStage::StoreChunk { .. } => SplitAction::StoreChunk {
                index: self.index,
                len: self.filled,
            },
            SplitStage::Done => SplitAction::Finish,
            SplitStage::Failed(error) => SplitAction::Fail(error),
        }
    }

    /// The state after the caller has reported `event`.
    ///
    /// The source is looked at before the target is touched, and the target
    /// must be empty before anything is written. A read that fills the buffer,
    /// or that finds the source at its end with bytes waiting, turns the
    /// buffer into the next chunk; a source that ends with nothing waiting
    /// ends the split. A failure, or a report that answers nothing that was
    /// asked, ends it with `IoFailure`; so does a chunk behind the one with
    /// the largest index that there is.
    pub open spec fn next(self, event: SplitEvent) -> SplitState {
        match (self.stage, event) {
            (SplitStage::Done, _) | (SplitStage::Failed(_), _) => self,
            (SplitStage::CheckSource, SplitEvent::SourceChecked { is_file }) => if is_file {
                self.at(SplitStage::PrepareTarget)
            } else {
                self.at(SplitStage::Failed(ChunkError::NotFound))
            },
            (SplitStage::PrepareTarget, SplitEvent::TargetListed { entries }) => if entries == 0 {
                self.at(SplitStage::StoreMetadata)
            } else {
                self.at(SplitStage::Failed(ChunkError::AlreadyPopulated))
            },
            (SplitStage::StoreMetadata, SplitEvent::Stored) => self.at(SplitStage::Read),
            (SplitStage::Read, SplitEvent::Read { count }) => if count > self.chunk_size
                - self.filled {
                self.at(SplitStage::Failed(ChunkError::IoFailure))
            } else if count == 0 {
                if self.filled == 0 {
                    self.at(SplitStage::Done)
                } else {
                    self.at(SplitStage::StoreChunk { last: true })
                }
            } else {
                let filled = (self.filled + count) as usize;
                if filled == self.chunk_size {
                    SplitState { stage: SplitStage::StoreChunk { last: false }, filled, ..self }
                } else {
                    SplitState { filled, ..self }
                }
            },
            (SplitStage::StoreChunk { last }, SplitEvent::Stored) => if last {
                self.at(SplitStage::Done)
            } else if self.index == usize::MAX {
                self.at(SplitStage::Failed(ChunkError::IoFailure))
            } else {
                SplitState {
                    stage: SplitStage::Read,
                    filled: 0,
                    index: (self.index + 1) as usize,
                    ..self
                }
            },
            _ => self.at(SplitStage::Failed(ChunkError::IoFailure)),
        }
    }

    /// Whether the split has ended, well or badly.
    pub open spec fn ended(self) -> bool {
        self.stage is Done || self.stage is Failed
    }
}

/// A failure ends a split that has not ended, with `IoFailure`; nothing is
/// tried again.
pub proof fn lemma_failure_ends_the_split(state: SplitState)
    requires
        !state.ended(),
    ensures
        state.next(SplitEvent::Failed).stage == SplitStage::Failed(ChunkError::IoFailure),
        state.next(SplitEvent::Failed).action() == SplitAction::Fail(ChunkError::IoFailure),
{
}

/// A split that has ended stays as it is, whatever is reported.
pub proof fn lemma_ended_split_stays(state: SplitState, event: SplitEvent)
    requires
        state.ended(),
    ensures
        state.next(event) == state,
{
}

/// Every report takes a state that a split can reach to another such state.
pub proof fn lemma_next_keeps_inv(state: SplitState, event: SplitEvent)
    requires
        state.inv(),
    ensures
        state.next(event).inv(),
        state.next(event).chunk_size == state.chunk_size,
{
}

/// A split in progress.
pub struct Splitter {
    state: SplitState,
}

impl View for Splitter {
    type V = SplitState;

    closed spec fn view(&self) -> SplitState {
        self.state
    }
}

impl Splitter {
    /// The state is one that a split can reach.
    #[verifier::type_invariant]
    spec fn well_formed(self) -> bool {
        self.state.inv()
    }

    /// Begins a split into chunks of `CHUNK_SIZE` bytes.
    pub fn new() -> (r: Splitter)
        ensures
            r@ == SplitState::initial(CHUNK_SIZE),
    {
        Splitter {
            state: SplitState {
                stage: SplitStage::CheckSource,
                chunk_size: CHUNK_SIZE,
                filled: 0,
                index: 0,
            },
        }
    }

    /// Begins a split into chunks of `chunk_size` bytes. There is no split
    /// into chunks of no bytes.
    pub fn with_chunk_size(chunk_size: usize) -> (r: Option<Splitter>)
        ensures
            r is Some <==> chunk_size > 0,
            r matches Some(splitter) ==> splitter@ == SplitState::initial(chunk_size),
    {
        if chunk_size > 0 {
            Some(
                Splitter {
                    state: SplitState {
                        stage: SplitStage::CheckSource,
                        chunk_size,
                        filled: 0,
                        index: 0,
                    },
                },
            )
        } else {
            None
        }
    }

    /// What the caller is to do now.
    pub fn action(&self) -> (r: SplitAction)
        ensures
            r == self@.action(),
            self@.inv(),
    {
        proof {
            use_type_invariant(self);
        }
        match self.state.stage {
            SplitStage::CheckSource => SplitAction::CheckSource,
            SplitStage::PrepareTarget => SplitAction::PrepareTarget,
            SplitStage::StoreMetadata => SplitAction::StoreMetadata,
            SplitStage::Read => SplitAction::Read {
                offset: self.state.filled,
                len: self.state.chunk_size - self.state.filled,
            },
            SplitStage::StoreChunk { .. } => SplitAction::StoreChunk {
                index: self.state.index,
                len: self.state.filled,
            },
            SplitStage::Done => SplitAction::Finish,
            SplitStage::Failed(error) => SplitAction::Fail(error),
        }
    }

    /// Takes the caller's report of what happened.
    pub fn advance(&mut self, event: SplitEvent)
        ensures
            final(self)@ == old(self)@.next(event),
            final(self)@.inv(),
    {
        proof {
            use_type_invariant(&*self);
        }
        let state = self.state;
        let failed = SplitState { stage: SplitStage::Failed(ChunkError::IoFailure), ..state };
        let next = match state.stage {
            SplitStage::Done => state,
            SplitStage::Failed(_) => state,
            SplitStage::CheckSource => match event {
                SplitEvent::SourceChecked { is_file } => if is_file {
                    SplitState { stage: SplitStage::PrepareTarget, ..state }
                } else {
                    SplitState { stage: SplitStage::Failed(ChunkError::NotFound), ..state }
                },
                _ => failed,
            },
            SplitStage::PrepareTarget => match event {
                SplitEvent::TargetListed { entries } => if entries == 0 {
                    SplitState { stage: SplitStage::StoreMetadata, ..state }
                } else {
                    SplitState { stage: SplitStage::Failed(ChunkError::AlreadyPopulated), ..state }
                },
                _ => failed,
            },
            SplitStage::StoreMetadata => match event {
                SplitEvent::Stored => SplitState { stage: SplitStage::Read, ..state },
                _ => failed,
            },
            SplitStage::Read => match event {
                SplitEvent::Read { count } => if count > state.chunk_size - state.filled {
                    failed
                } else if count == 0 {
                    if state.filled == 0 {
                        SplitState { stage: SplitStage::Done, ..state }
                    } else {
                        SplitState { stage: SplitStage::StoreChunk { last: true }, ..state }
                    }
                } else {
                    let filled: usize = state.filled + count;
                    if filled == state.chunk_size {
                        SplitState { stage: SplitStage::StoreChunk { last: false }, filled, ..state }
                    } else {
                        SplitState { filled, ..state }
                    }
                },
                _ => failed,
            },
            SplitStage::StoreChunk { last } => match event {
                SplitEvent::Stored => if last {
                    SplitState { stage: SplitStage::Done, ..state }
                } else if state.index == usize::MAX {
                    failed
                } else {
                    SplitState {
                        stage: SplitStage::Read,
                        filled: 0,
                        index: state.index + 1,
                        ..state
                    }
                },
                _ => failed,
            },
        };
        self.state = next;
    }
}

} // verus!
