//! The traversal engine as a mathematical state machine: what a walker
//! holds, which answers it accepts, and what each answer leads to.
use vstd::prelude::*;

use crate::config::WalkConfig;
use crate::entry::{EntryView, FileKind};
use crate::error::WalkError;

verus! {

/// A stable identity of a directory: its device and inode numbers, or any
/// other pair of numbers that the platform keeps unique per directory.
#[derive(Debug, Clone, Copy, PartialEq, Eq, Structural)]
pub struct DirIdentity {
    pub device: u64,
    pub inode: u64,
}

/// The single number under which the cycle guard records an identity.
pub open spec fn identity_key(id: DirIdentity) -> u128 {
    (id.device as int * 0x1_0000_0000_0000_0000 + id.inode as int) as u128
}

/// Where the reading of the current directory stands.
pub ghost enum PhaseView {
    /// Between pulls: no directory is open.
    Idle,
    /// The directory is being opened; its children have depth `depth`.
    Opening { depth: usize },
    /// The directory is open and `count` of its items were enumerated.
    Listing { depth: usize, count: usize },
    /// The item limit was reached in strict mode: one more item is asked
    /// for, to tell a directory that ends there from one that goes on.
    Probing { depth: usize },
    /// The own metadata of the item `path` is being read.
    Statting { depth: usize, count: usize, path: Seq<char> },
    /// The item `path` is a link (of kind `link`) whose target is being read.
    Following { depth: usize, count: usize, path: Seq<char>, link: FileKind },
}

/// An answer handed to a walker: a pull by its caller, or the outcome of
/// the filesystem operation it asked for.
pub ghost enum EventView {
    Pull,
    Opened,
    OpenFailed,
    Item(Seq<char>),
    ItemFailed,
    NoMoreItems,
    Metadata(FileKind),
    Target(FileKind, Option<DirIdentity>),
    MetadataFailed,
}

/// What a walker does next: ask for a filesystem operation, hand the caller
/// one result, or signal the end of the walk.
pub ghost enum StepView {
    OpenDir(Seq<char>),
    NextItem,
    ReadLinkMetadata(Seq<char>),
    ReadTargetMetadata(Seq<char>),
    Yielded(Result<EntryView, WalkError>),
    Finished,
}

/// Everything a walker holds.
pub ghost struct WalkerView {
    pub config: WalkConfig,
    /// The work queue: directories waiting to be read, with the depth of
    /// their children, first out at index 0.
    pub queue: Seq<(Seq<char>, usize)>,
    /// The entry buffer: entries of the last directory read, not yet handed out.
    pub buffer: Seq<EntryView>,
    /// Keys of the identities of directories entered through a followed link.
    pub visited: Set<u128>,
    /// Set once an error was handed out in strict mode.
    pub halted: bool,
    pub phase: PhaseView,
}

/// Whether entries at depth `d` may be reported under `config`.
pub open spec fn within_depth(config: WalkConfig, d: usize) -> bool {
    match config.max_depth {
        None => true,
        Some(m) => d <= m,
    }
}

/// Whether an entry may go to the caller: files always, directories only
/// when they are reported.
pub open spec fn passes_yield_policy(config: WalkConfig, e: EntryView) -> bool {
    e.is_dir ==> config.yield_directories
}

/// Every queued directory lies within the depth limit.
pub open spec fn queue_within_depth(config: WalkConfig, queue: Seq<(Seq<char>, usize)>) -> bool {
    forall|i: int| 0 <= i < queue.len() ==> within_depth(config, #[trigger] queue[i].1)
}

/// Every buffered entry lies within the depth limit and may go to the caller.
pub open spec fn buffer_within_policy(config: WalkConfig, buffer: Seq<EntryView>) -> bool {
    forall|i: int|
        0 <= i < buffer.len() ==> {
            &&& within_depth(config, buffer[i].depth)
            &&& passes_yield_policy(config, #[trigger] buffer[i])
        }
}

/// What a step may hand the caller: an entry within the depth limit that
/// passes the yield policy, an error, or nothing.
pub open spec fn output_ok(config: WalkConfig, s: StepView) -> bool {
    s matches StepView::Yielded(Ok(e)) ==> within_depth(config, e.depth)
        && passes_yield_policy(config, e)
}

/// The state of a walker built on `root`, before its first pull: the root
/// waits in the queue, with depth 0 for its children.
pub open spec fn start(root: Seq<char>, config: WalkConfig) -> WalkerView {
    WalkerView {
        config,
        queue: seq![(root, 0usize)],
        buffer: Seq::empty(),
        visited: Set::empty(),
        halted: false,
        phase: PhaseView::Idle,
    }
}

impl WalkerView {
    /// The invariant of every walker.
    pub open spec fn wf(self) -> bool {
        &&& self.holds_bounds()
        &&& self.phase_wf()
    }

    /// The bounds on what the walker holds: the queue stays within its
    /// ceiling (the root alone may exceed a ceiling of 0), every queued
    /// directory and buffered entry lies within the depth limit, and the
    /// buffer holds only entries that may go to the caller.
    pub open spec fn holds_bounds(self) -> bool {
        &&& self.queue.len() <= 1 || self.queue.len() <= self.config.max_queue_size
        &&& queue_within_depth(self.config, self.queue)
        &&& buffer_within_policy(self.config, self.buffer)
        &&& self.halted ==> (self.phase is Idle && !self.config.continue_on_error)
    }

    /// What the present phase guarantees: the open directory lies within the
    /// depth limit, and no more items than the limit were enumerated from it.
    pub open spec fn phase_wf(self) -> bool {
        match self.phase {
            PhaseView::Idle => true,
            PhaseView::Opening { depth } => within_depth(self.config, depth),
            PhaseView::Listing { depth, count } => {
                &&& within_depth(self.config, depth)
                &&& count < self.config.max_entries_per_dir
            },
            PhaseView::Probing { depth } => {
                &&& within_depth(self.config, depth)
                &&& !self.config.continue_on_error
            },
            PhaseView::Statting { depth, count, .. } => {
                &&& within_depth(self.config, depth)
                &&& count <= self.config.max_entries_per_dir
            },
            PhaseView::Following { depth, count, link, .. } => {
                &&& within_depth(self.config, depth)
                &&& count <= self.config.max_entries_per_dir
                &&& link.is_symlink
                &&& self.config.follow_symlinks
            },
        }
    }

    /// Which answers the walker waits for in its present phase.
    pub open spec fn accepts(self, e: EventView) -> bool {
        match self.phase {
            PhaseView::Idle => e is Pull,
            PhaseView::Opening { .. } => e is Opened || e is OpenFailed,
            PhaseView::Listing { .. } => e is Item || e is ItemFailed || e is NoMoreItems,
            PhaseView::Probing { .. } => e is Item || e is ItemFailed || e is NoMoreItems,
            PhaseView::Statting { .. } => e is Metadata || e is MetadataFailed,
            PhaseView::Following { .. } => e is Target || e is MetadataFailed,
        }
    }

    /// Takes the next directory off the queue and asks to open it, or ends
    /// the walk when the queue is empty.
    pub open spec fn advance(self) -> (WalkerView, StepView) {
        if self.queue.len() == 0 {
            (WalkerView { phase: PhaseView::Idle, ..self }, StepView::Finished)
        } else {
            (
                WalkerView {
                    queue: self.queue.drop_first(),
                    phase: PhaseView::Opening { depth: self.queue[0].1 },
                    ..self
                },
                StepView::OpenDir(self.queue[0].0),
            )
        }
    }

    /// Hands out the first buffered entry, or, with an empty buffer, moves
    /// on to the next queued directory.
    pub open spec fn next_output(self) -> (WalkerView, StepView) {
        if self.buffer.len() > 0 {
            (
                WalkerView { buffer: self.buffer.drop_first(), phase: PhaseView::Idle, ..self },
                StepView::Yielded(Ok(self.buffer[0])),
            )
        } else {
            WalkerView { phase: PhaseView::Idle, ..self }.advance()
        }
    }

    /// Hands out `err` and halts the walk for good.
    pub open spec fn halt(self, err: WalkError) -> (WalkerView, StepView) {
        (WalkerView { halted: true, phase: PhaseView::Idle, ..self }, StepView::Yielded(Err(err)))
    }

    /// A directory that cannot be read: skipped, or fatal in strict mode.
    pub open spec fn fail_directory(self, err: WalkError) -> (WalkerView, StepView) {
        if self.config.continue_on_error {
            self.next_output()
        } else {
            self.halt(err)
        }
    }

    /// Asks for the next item of the open directory, unless `count` items
    /// were already enumerated from it: then the directory is done with, or,
    /// in strict mode, one more item is asked for to see whether it exceeds
    /// the limit.
    pub open spec fn list_next(self, depth: usize, count: usize) -> (WalkerView, StepView) {
        if count < self.config.max_entries_per_dir {
            (WalkerView { phase: PhaseView::Listing { depth, count }, ..self }, StepView::NextItem)
        } else if self.config.continue_on_error {
            self.next_output()
        } else {
            (WalkerView { phase: PhaseView::Probing { depth }, ..self }, StepView::NextItem)
        }
    }

    /// An entry that cannot be handled: skipped, or fatal in strict mode.
    pub open spec fn skip_entry(self, depth: usize, count: usize, err: WalkError) -> (
        WalkerView,
        StepView,
    ) {
        if self.config.continue_on_error {
            self.list_next(depth, count)
        } else {
            self.halt(err)
        }
    }

    /// Whether a directory whose children have depth `next` is descended into.
    pub open spec fn descends(self, next: int) -> bool {
        match self.config.max_depth {
            None => true,
            Some(m) => next <= m,
        }
    }

    /// Applies the enqueue and yield policies to an entry of final kind
    /// `kind`, then goes on with the directory.
    pub open spec fn record(self, depth: usize, count: usize, path: Seq<char>, kind: FileKind) -> (
        WalkerView,
        StepView,
    ) {
        let entry = EntryView {
            path,
            depth,
            is_dir: kind.is_dir,
            is_file: kind.is_file,
            is_symlink: kind.is_symlink,
        };
        let descend = kind.is_dir && self.descends(depth + 1);
        let buffer = if passes_yield_policy(self.config, entry) {
            self.buffer.push(entry)
        } else {
            self.buffer
        };
        if kind.is_dir && depth == usize::MAX {
            self.skip_entry(depth, count, WalkError::DepthOverflow)
        } else if descend && self.queue.len() >= self.config.max_queue_size {
            if self.config.continue_on_error {
                WalkerView { buffer, ..self }.list_next(depth, count)
            } else {
                self.halt(WalkError::QueueSizeExceeded)
            }
        } else if descend {
            WalkerView {
                queue: self.queue.push((path, (depth + 1) as usize)),
                buffer,
                ..self
            }.list_next(depth, count)
        } else {
            WalkerView { buffer, ..self }.list_next(depth, count)
        }
    }

    /// The kind under which a followed link is treated, given its target's
    /// kind: a directory or a file when the target is one, else the link's own.
    pub open spec fn resolved(link: FileKind, target: FileKind) -> FileKind {
        if target.is_dir {
            FileKind { is_dir: true, is_file: false, is_symlink: link.is_symlink }
        } else if target.is_file {
            FileKind { is_dir: false, is_file: true, is_symlink: link.is_symlink }
        } else {
            link
        }
    }

    /// The walker with its phase left: what each transition starts from.
    pub open spec fn idle(self) -> WalkerView {
        WalkerView { phase: PhaseView::Idle, ..self }
    }

    /// The walker's answer to `e`: its next state and what it does next.
    pub open spec fn step(self, e: EventView) -> (WalkerView, StepView) {
        let w = self.idle();
        match self.phase {
            PhaseView::Idle => if self.halted {
                (self, StepView::Finished)
            } else {
                self.next_output()
            },
            PhaseView::Opening { depth } => match e {
                EventView::Opened => w.list_next(depth, 0),
                _ => w.fail_directory(WalkError::ReadDirectory),
            },
            PhaseView::Listing { depth, count } => match e {
                EventView::Item(path) => (
                    WalkerView {
                        phase: PhaseView::Statting { depth, count: (count + 1) as usize, path },
                        ..self
                    },
                    StepView::ReadLinkMetadata(path),
                ),
                EventView::ItemFailed => w.skip_entry(depth, count, WalkError::ReadDirectory),
                _ => w.next_output(),
            },
            PhaseView::Probing { .. } => match e {
                EventView::NoMoreItems => w.next_output(),
                _ => w.halt(WalkError::EntryLimitExceeded),
            },
            PhaseView::Statting { depth, count, path } => match e {
                EventView::Metadata(kind) => if kind.is_symlink && self.config.follow_symlinks {
                    (
                        WalkerView {
                            phase: PhaseView::Following { depth, count, path, link: kind },
                            ..self
                        },
                        StepView::ReadTargetMetadata(path),
                    )
                } else {
                    w.record(depth, count, path, kind)
                },
                _ => w.skip_entry(depth, count, WalkError::EntryMetadata),
            },
            PhaseView::Following { depth, count, path, link } => match e {
                EventView::Target(target, id) => if target.is_dir && id is Some
                    && self.visited.contains(identity_key(id->0)) {
                    w.skip_entry(depth, count, WalkError::SymlinkCycle)
                } else if target.is_dir && id is Some {
                    WalkerView {
                        visited: self.visited.insert(identity_key(id->0)),
                        ..w
                    }.record(depth, count, path, Self::resolved(link, target))
                } else {
                    w.record(depth, count, path, Self::resolved(link, target))
                },
                _ => w.skip_entry(depth, count, WalkError::EntryMetadata),
            },
        }
    }
}

/// An entry within the policy keeps the buffer within it.
pub(crate) proof fn lemma_buffer_push(config: WalkConfig, buffer: Seq<EntryView>, entry: EntryView)
    requires
        buffer_within_policy(config, buffer),
        within_depth(config, entry.depth),
        passes_yield_policy(config, entry),
    ensures
        buffer_within_policy(config, buffer.push(entry)),
{
    let b = buffer.push(entry);
    assert forall|i: int| 0 <= i < b.len() implies {
        &&& within_depth(config, #[trigger] b[i].depth)
        &&& passes_yield_policy(config, b[i])
    } by {
        if i < buffer.len() {
            assert(b[i] == buffer[i]);
        } else {
            assert(b[i] == entry);
        }
    }
}

/// The transitions below leave a walker well formed, and hand out only
/// entries within the policy.
pub(crate) proof fn lemma_advance_wf(w: WalkerView)
    requires
        w.holds_bounds(),
        !w.halted,
    ensures
        w.advance().0.wf(),
        output_ok(w.config, w.advance().1),
{
    if w.queue.len() > 0 {
        let q = w.queue.drop_first();
        assert(queue_within_depth(w.config, q)) by {
            assert forall|i: int| 0 <= i < q.len() implies within_depth(
                w.config,
                #[trigger] q[i].1,
            ) by {
                assert(q[i] == w.queue[i + 1]);
            }
        }
        assert(within_depth(w.config, w.queue[0].1));
    }
}

pub(crate) proof fn lemma_next_output_wf(w: WalkerView)
    requires
        w.holds_bounds(),
        !w.halted,
    ensures
        w.next_output().0.wf(),
        output_ok(w.config, w.next_output().1),
{
    if w.buffer.len() > 0 {
        let b = w.buffer.drop_first();
        assert(buffer_within_policy(w.config, b)) by {
            assert forall|i: int| 0 <= i < b.len() implies {
                &&& within_depth(w.config, #[trigger] b[i].depth)
                &&& passes_yield_policy(w.config, b[i])
            } by {
                assert(b[i] == w.buffer[i + 1]);
            }
        }
    }
    lemma_advance_wf(WalkerView { phase: PhaseView::Idle, ..w });
}

pub(crate) proof fn lemma_halt_wf(w: WalkerView, err: WalkError)
    requires
        w.holds_bounds(),
        !w.config.continue_on_error,
    ensures
        w.halt(err).0.wf(),
        output_ok(w.config, w.halt(err).1),
{
}

pub(crate) proof fn lemma_list_next_wf(w: WalkerView, depth: usize, count: usize)
    requires
        w.holds_bounds(),
        !w.halted,
        within_depth(w.config, depth),
    ensures
        w.list_next(depth, count).0.wf(),
        output_ok(w.config, w.list_next(depth, count).1),
{
    if count >= w.config.max_entries_per_dir && w.config.continue_on_error {
        lemma_next_output_wf(w);
    }
}

pub(crate) proof fn lemma_skip_entry_wf(w: WalkerView, depth: usize, count: usize, err: WalkError)
    requires
        w.holds_bounds(),
        !w.halted,
        within_depth(w.config, depth),
    ensures
        w.skip_entry(depth, count, err).0.wf(),
        output_ok(w.config, w.skip_entry(depth, count, err).1),
{
    if w.config.continue_on_error {
        lemma_list_next_wf(w, depth, count);
    } else {
        lemma_halt_wf(w, err);
    }
}

pub(crate) proof fn lemma_record_wf(w: WalkerView, depth: usize, count: usize, path: Seq<char>, kind: FileKind)
    requires
        w.holds_bounds(),
        !w.halted,
        within_depth(w.config, depth),
    ensures
        w.record(depth, count, path, kind).0.wf(),
        output_ok(w.config, w.record(depth, count, path, kind).1),
{
    let entry = EntryView {
        path,
        depth,
        is_dir: kind.is_dir,
        is_file: kind.is_file,
        is_symlink: kind.is_symlink,
    };
    let descend = kind.is_dir && w.descends(depth + 1);
    let buffer = if passes_yield_policy(w.config, entry) {
        w.buffer.push(entry)
    } else {
        w.buffer
    };
    if passes_yield_policy(w.config, entry) {
        lemma_buffer_push(w.config, w.buffer, entry);
    }
    if kind.is_dir && depth == usize::MAX {
        lemma_skip_entry_wf(w, depth, count, WalkError::DepthOverflow);
    } else if descend && w.queue.len() >= w.config.max_queue_size {
        if w.config.continue_on_error {
            let w2 = WalkerView { buffer, ..w };
            assert(w2.holds_bounds());
            lemma_list_next_wf(w2, depth, count);
        } else {
            lemma_halt_wf(w, WalkError::QueueSizeExceeded);
        }
    } else if descend {
        let w2 = WalkerView {
            queue: w.queue.push((path, (depth + 1) as usize)),
            buffer,
            ..w
        };
        assert(queue_within_depth(w.config, w2.queue)) by {
            assert forall|i: int| 0 <= i < w2.queue.len() implies within_depth(
                w.config,
                #[trigger] w2.queue[i].1,
            ) by {
                if i < w.queue.len() {
                    assert(w2.queue[i] == w.queue[i]);
                }
            }
        }
        assert(w2.holds_bounds());
        lemma_list_next_wf(w2, depth, count);
    } else {
        let w2 = WalkerView { buffer, ..w };
        assert(w2.holds_bounds());
        lemma_list_next_wf(w2, depth, count);
    }
}

/// Every answer that a walker accepts leaves it well formed.
pub proof fn lemma_step_wf(w: WalkerView, e: EventView)
    requires
        w.wf(),
        w.accepts(e),
    ensures
        w.step(e).0.wf(),
        output_ok(w.config, w.step(e).1),
{
    let v = w.idle();
    match w.phase {
        PhaseView::Idle => {
            if !w.halted {
                lemma_next_output_wf(w);
            }
        },
        PhaseView::Opening { depth } => {
            lemma_list_next_wf(v, depth, 0);
            if w.config.continue_on_error {
                lemma_next_output_wf(v);
            } else {
                lemma_halt_wf(v, WalkError::ReadDirectory);
            }
        },
        PhaseView::Listing { depth, count } => {
            lemma_skip_entry_wf(v, depth, count, WalkError::ReadDirectory);
            lemma_next_output_wf(v);
        },
        PhaseView::Probing { .. } => {
            lemma_next_output_wf(v);
            lemma_halt_wf(v, WalkError::EntryLimitExceeded);
        },
        PhaseView::Statting { depth, count, path } => {
            lemma_skip_entry_wf(v, depth, count, WalkError::EntryMetadata);
            if let EventView::Metadata(kind) = e {
                lemma_record_wf(v, depth, count, path, kind);
            }
        },
        PhaseView::Following { depth, count, path, link } => {
            lemma_skip_entry_wf(v, depth, count, WalkError::SymlinkCycle);
            lemma_skip_entry_wf(v, depth, count, WalkError::EntryMetadata);
            if let EventView::Target(target, id) = e {
                let kind = WalkerView::resolved(link, target);
                lemma_record_wf(v, depth, count, path, kind);
                if id is Some {
                    lemma_record_wf(
                        WalkerView { visited: w.visited.insert(identity_key(id->0)), ..v },
                        depth,
                        count,
                        path,
                        kind,
                    );
                }
            }
        },
    }
}

} // verus!
