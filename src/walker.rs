//! The walker: the executable traversal engine, proved to follow the state
//! machine of `model` step by step.
use std::collections::{HashSet, VecDeque};
use vstd::prelude::*;

use crate::config::{default_config, WalkConfig};
use crate::entry::{DirEntry, EntryView, FileKind};
use crate::error::WalkError;
use crate::model::{
    identity_key, lemma_step_wf, start, DirIdentity, EventView, PhaseView, StepView, WalkerView,
};

verus! {

broadcast use vstd::std_specs::hash::group_hash_axioms;

/// An answer handed to a walker: a pull by its caller, or the outcome of
/// the filesystem operation named by the walker's last step.
pub enum Event {
    /// The caller asks for the next result.
    Pull,
    /// The directory of `Step::OpenDir` is open for enumeration.
    Opened,
    /// The directory of `Step::OpenDir` could not be opened.
    OpenFailed,
    /// After `Step::NextItem`: the next item of the open directory, by path.
    Item(String),
    /// After `Step::NextItem`: the enumeration reported a failing item.
    ItemFailed,
    /// After `Step::NextItem`: the directory has no more items.
    NoMoreItems,
    /// After `Step::ReadLinkMetadata`: the item's own kind (links not followed).
    Metadata(FileKind),
    /// After `Step::ReadTargetMetadata`: the kind of the link's target, and the
    /// target's identity when it is a directory and the platform gives one.
    Target(FileKind, Option<DirIdentity>),
    /// After `Step::ReadLinkMetadata` or `Step::ReadTargetMetadata`: the
    /// metadata could not be read.
    MetadataFailed,
}

impl View for Event {
    type V = EventView;

    open spec fn view(&self) -> EventView {
        match self {
            Event::Pull => EventView::Pull,
            Event::Opened => EventView::Opened,
            Event::OpenFailed => EventView::OpenFailed,
            Event::Item(path) => EventView::Item(path@),
            Event::ItemFailed => EventView::ItemFailed,
            Event::NoMoreItems => EventView::NoMoreItems,
            Event::Metadata(kind) => EventView::Metadata(*kind),
            Event::Target(kind, id) => EventView::Target(*kind, *id),
            Event::MetadataFailed => EventView::MetadataFailed,
        }
    }
}

/// What a walker does next.
pub enum Step {
    /// Open this directory for enumeration; answer `Opened` or `OpenFailed`.
    OpenDir(String),
    /// Enumerate the next item of the open directory; answer `Item`,
    /// `ItemFailed` or `NoMoreItems`.
    NextItem,
    /// Read this item's metadata without following a link; answer
    /// `Metadata` or `MetadataFailed`.
    ReadLinkMetadata(String),
    /// Read the metadata of this link's target; answer `Target` or
    /// `MetadataFailed`.
    ReadTargetMetadata(String),
    /// One result for the caller; the walker then waits for the next `Pull`.
    Yielded(Result<DirEntry, WalkError>),
    /// The walk is over: every later pull gives `Finished` again.
    Finished,
}

impl View for Step {
    type V = StepView;

    open spec fn view(&self) -> StepView {
        match self {
            Step::OpenDir(path) => StepView::OpenDir(path@),
            Step::NextItem => StepView::NextItem,
            Step::ReadLinkMetadata(path) => StepView::ReadLinkMetadata(path@),
            Step::ReadTargetMetadata(path) => StepView::ReadTargetMetadata(path@),
            Step::Yielded(Ok(entry)) => StepView::Yielded(Ok(entry@)),
            Step::Yielded(Err(err)) => StepView::Yielded(Err(*err)),
            Step::Finished => StepView::Finished,
        }
    }
}

enum Phase {
    Idle,
    Opening { depth: usize },
    Listing { depth: usize, count: usize },
    Probing { depth: usize },
    Statting { depth: usize, count: usize, path: String },
    Following { depth: usize, count: usize, path: String, link: FileKind },
}

impl View for Phase {
    type V = PhaseView;

    closed spec fn view(&self) -> PhaseView {
        match self {
            Phase::Idle => PhaseView::Idle,
            Phase::Opening { depth } => PhaseView::Opening { depth: *depth },
            Phase::Listing { depth, count } => PhaseView::Listing { depth: *depth, count: *count },
            Phase::Probing { depth } => PhaseView::Probing { depth: *depth },
            Phase::Statting { depth, count, path } => PhaseView::Statting {
                depth: *depth,
                count: *count,
                path: path@,
            },
            Phase::Following { depth, count, path, link } => PhaseView::Following {
                depth: *depth,
                count: *count,
                path: path@,
                link: *link,
            },
        }
    }
}

/// The exact integer that records `id` in the cycle guard.
fn identity_key_of(id: DirIdentity) -> (r: u128)
    ensures
        r == identity_key(id),
{
    (id.device as u128) * 0x1_0000_0000_0000_0000u128 + (id.inode as u128)
}

/// A bounded, breadth-first walk over the directory tree under a root.
///
/// The walker performs no I/O itself. Each call of `step` hands it one
/// answer and returns what it does next: a filesystem operation for the
/// driver to carry out and answer, one result for the caller, or the end of
/// the walk. A pull runs from an `Event::Pull` to the next `Step::Yielded`
/// or `Step::Finished`.
///
/// Every walker is well formed (`WalkerView::wf`): `new` makes it so and
/// `step` keeps it so, and no other function changes a walker.
pub struct DirWalker {
    config: WalkConfig,
    queue: VecDeque<(String, usize)>,
    buffer: VecDeque<DirEntry>,
    visited: HashSet<u128>,
    halted: bool,
    phase: Phase,
}

impl View for DirWalker {
    type V = WalkerView;

    closed spec fn view(&self) -> WalkerView {
        WalkerView {
            config: self.config,
            queue: self.queue@.map_values(|q: (String, usize)| (q.0@, q.1)),
            buffer: self.buffer@.map_values(|e: DirEntry| e@),
            visited: self.visited@,
            halted: self.halted,
            phase: self.phase@,
        }
    }
}

impl DirWalker {
    fn advance(&mut self) -> (r: Step)
        ensures
            (final(self)@, r@) == old(self)@.advance(),
    {
        let ghost before = self@;
        match self.queue.pop_front() {
            Some((path, depth)) => {
                self.phase = Phase::Opening { depth };
                assert(self@.queue =~= before.queue.drop_first());
                Step::OpenDir(path)
            },
            None => {
                self.phase = Phase::Idle;
                Step::Finished
            },
        }
    }

    fn next_output(&mut self) -> (r: Step)
        ensures
            (final(self)@, r@) == old(self)@.next_output(),
    {
        let ghost before = self@;
        self.phase = Phase::Idle;
        match self.buffer.pop_front() {
            Some(entry) => {
                assert(self@.buffer =~= before.buffer.drop_first());
                Step::Yielded(Ok(entry))
            },
            None => self.advance(),
        }
    }

    fn halt(&mut self, err: WalkError) -> (r: Step)
        ensures
            (final(self)@, r@) == old(self)@.halt(err),
    {
        self.halted = true;
        self.phase = Phase::Idle;
        Step::Yielded(Err(err))
    }

    fn fail_directory(&mut self, err: WalkError) -> (r: Step)
        ensures
            (final(self)@, r@) == old(self)@.fail_directory(err),
    {
        if self.config.continue_on_error {
            self.next_output()
        } else {
            self.halt(err)
        }
    }

    fn list_next(&mut self, depth: usize, count: usize) -> (r: Step)
        ensures
            (final(self)@, r@) == old(self)@.list_next(depth, count),
    {
        if count < self.config.max_entries_per_dir {
            self.phase = Phase::Listing { depth, count };
            Step::NextItem
        } else if self.config.continue_on_error {
            self.next_output()
        } else {
            self.phase = Phase::Probing { depth };
            Step::NextItem
        }
    }

    fn skip_entry(&mut self, depth: usize, count: usize, err: WalkError) -> (r: Step)
        ensures
            (final(self)@, r@) == old(self)@.skip_entry(depth, count, err),
    {
        if self.config.continue_on_error {
            self.list_next(depth, count)
        } else {
            self.halt(err)
        }
    }

    /// The enqueue and yield policies for one entry of final kind `kind`.
    fn record(&mut self, depth: usize, count: usize, path: String, kind: FileKind) -> (r: Step)
        ensures
            (final(self)@, r@) == old(self)@.record(depth, count, path@, kind),
    {
        let ghost before = self@;
        if kind.is_dir && depth == usize::MAX {
            return self.skip_entry(depth, count, WalkError::DepthOverflow);
        }
        let descend = kind.is_dir && match self.config.max_depth {
            None => true,
            Some(m) => depth + 1 <= m,
        };
        if descend && self.queue.len() >= self.config.max_queue_size
            && !self.config.continue_on_error {
            return self.halt(WalkError::QueueSizeExceeded);
        }
        let enqueue = descend && self.queue.len() < self.config.max_queue_size;
        let report = !kind.is_dir || self.config.yield_directories;
        if enqueue && report {
            self.queue.push_back((path.clone(), depth + 1));
            self.buffer.push_back(DirEntry::new(path, depth, kind));
        } else if enqueue {
            self.queue.push_back((path, depth + 1));
        } else if report {
            self.buffer.push_back(DirEntry::new(path, depth, kind));
        }
        proof {
            let entry = EntryView {
                path: path@,
                depth,
                is_dir: kind.is_dir,
                is_file: kind.is_file,
                is_symlink: kind.is_symlink,
            };
            if enqueue {
                assert(self@.queue =~= before.queue.push((path@, (depth + 1) as usize)));
            } else {
                assert(self@.queue =~= before.queue);
            }
            if report {
                assert(self@.buffer =~= before.buffer.push(entry));
            } else {
                assert(self@.buffer =~= before.buffer);
            }
        }
        self.list_next(depth, count)
    }

    /// Records the identity of a directory entered through a link, and tells
    /// whether it was recorded before.
    fn check_and_mark_visited(&mut self, id: DirIdentity) -> (already: bool)
        ensures
            already == old(self)@.visited.contains(identity_key(id)),
            final(self)@ == (WalkerView {
                visited: old(self)@.visited.insert(identity_key(id)),
                ..old(self)@
            }),
    {
        let key = identity_key_of(id);
        if self.visited.contains(&key) {
            assert(self@.visited.insert(key) =~= self@.visited);
            true
        } else {
            self.visited.insert(key);
            false
        }
    }

    /// Takes the phase out of the walker, leaving it idle.
    fn take_phase(&mut self) -> (phase: Phase)
        ensures
            phase@ == old(self)@.phase,
            final(self)@ == old(self)@.idle(),
    {
        let mut phase = Phase::Idle;
        core::mem::swap(&mut self.phase, &mut phase);
        phase
    }

    fn on_open(&mut self, event: Event) -> (r: Step)
        requires
            old(self)@.phase is Opening,
            old(self)@.accepts(event@),
        ensures
            (final(self)@, r@) == old(self)@.step(event@),
    {
        if let Phase::Opening { depth } = self.take_phase() {
            match event {
                Event::Opened => self.list_next(depth, 0),
                _ => self.fail_directory(WalkError::ReadDirectory),
            }
        } else {
            Step::Finished
        }
    }

    fn on_item(&mut self, event: Event) -> (r: Step)
        requires
            old(self)@.phase is Listing || old(self)@.phase is Probing,
            old(self)@.wf(),
            old(self)@.accepts(event@),
        ensures
            (final(self)@, r@) == old(self)@.step(event@),
    {
        match self.take_phase() {
            Phase::Listing { depth, count } => match event {
                Event::Item(path) => {
                    let request = path.clone();
                    self.phase = Phase::Statting { depth, count: count + 1, path };
                    Step::ReadLinkMetadata(request)
                },
                Event::ItemFailed => self.skip_entry(depth, count, WalkError::ReadDirectory),
                _ => self.next_output(),
            },
            _ => match event {
                Event::NoMoreItems => self.next_output(),
                _ => self.halt(WalkError::EntryLimitExceeded),
            },
        }
    }

    fn on_metadata(&mut self, event: Event) -> (r: Step)
        requires
            old(self)@.phase is Statting,
            old(self)@.accepts(event@),
        ensures
            (final(self)@, r@) == old(self)@.step(event@),
    {
        if let Phase::Statting { depth, count, path } = self.take_phase() {
            match event {
                Event::Metadata(kind) => {
                    if kind.is_symlink && self.config.follow_symlinks {
                        let request = path.clone();
                        self.phase = Phase::Following { depth, count, path, link: kind };
                        Step::ReadTargetMetadata(request)
                    } else {
                        self.record(depth, count, path, kind)
                    }
                },
                _ => self.skip_entry(depth, count, WalkError::EntryMetadata),
            }
        } else {
            Step::Finished
        }
    }

    fn on_target(&mut self, event: Event) -> (r: Step)
        requires
            old(self)@.phase is Following,
            old(self)@.accepts(event@),
        ensures
            (final(self)@, r@) == old(self)@.step(event@),
    {
        if let Phase::Following { depth, count, path, link } = self.take_phase() {
            match event {
                Event::Target(target, id) => {
                    let kind = if target.is_dir {
                        FileKind { is_dir: true, is_file: false, is_symlink: link.is_symlink }
                    } else if target.is_file {
                        FileKind { is_dir: false, is_file: true, is_symlink: link.is_symlink }
                    } else {
                        link
                    };
                    let ghost left = self@;
                    match id {
                        Some(ident) => {
                            if target.is_dir {
                                if self.check_and_mark_visited(ident) {
                                    assert(self@.visited =~= left.visited);
                                    self.skip_entry(depth, count, WalkError::SymlinkCycle)
                                } else {
                                    self.record(depth, count, path, kind)
                                }
                            } else {
                                self.record(depth, count, path, kind)
                            }
                        },
                        None => self.record(depth, count, path, kind),
                    }
                },
                _ => self.skip_entry(depth, count, WalkError::EntryMetadata),
            }
        } else {
            Step::Finished
        }
    }

    /// Hands the walker one answer, which must be of a kind it waits for
    /// (see `accepts`), and returns what it does next, exactly as
    /// `WalkerView::step` says.
    pub fn step(&mut self, event: Event) -> (r: Step)
        requires
            old(self)@.wf(),
            old(self)@.accepts(event@),
        ensures
            final(self)@.wf(),
            (final(self)@, r@) == old(self)@.step(event@),
    {
        proof {
            lemma_step_wf(self@, event@);
        }
        match self.phase {
            Phase::Idle => {
                if self.halted {
                    Step::Finished
                } else {
                    self.next_output()
                }
            },
            Phase::Opening { .. } => self.on_open(event),
            Phase::Listing { .. } | Phase::Probing { .. } => self.on_item(event),
            Phase::Statting { .. } => self.on_metadata(event),
            Phase::Following { .. } => self.on_target(event),
        }
    }
}

impl DirWalker {
    /// A walker over the tree under `root`. No I/O happens here: the root is
    /// opened on the first pull.
    pub fn new(root: &str, config: WalkConfig) -> (r: DirWalker)
        ensures
            r@ == start(root@, config),
            r@.wf(),
    {
        let mut queue: VecDeque<(String, usize)> = VecDeque::new();
        queue.push_back((root.to_owned(), 0));
        let walker = DirWalker {
            config,
            queue,
            buffer: VecDeque::new(),
            visited: HashSet::new(),
            halted: false,
            phase: Phase::Idle,
        };
        assert(walker@.queue =~= start(root@, config).queue);
        assert(walker@.buffer =~= Seq::empty());
        walker
    }

    /// A walker over the tree under `root` with the default policy.
    pub fn from_path(root: &str) -> (r: DirWalker)
        ensures
            r@ == start(root@, default_config()),
            r@.wf(),
    {
        DirWalker::new(root, WalkConfig::default())
    }

    /// Whether the walker waits for an answer of `event`'s kind.
    pub fn accepts(&self, event: &Event) -> (r: bool)
        ensures
            r == self@.accepts(event@),
    {
        match self.phase {
            Phase::Idle => matches!(event, Event::Pull),
            Phase::Opening { .. } => matches!(event, Event::Opened | Event::OpenFailed),
            Phase::Listing { .. } | Phase::Probing { .. } => matches!(
                event,
                Event::Item(_) | Event::ItemFailed | Event::NoMoreItems
            ),
            Phase::Statting { .. } => matches!(event, Event::Metadata(_) | Event::MetadataFailed),
            Phase::Following { .. } => matches!(
                event,
                Event::Target(_, _) | Event::MetadataFailed
            ),
        }
    }
}

/// A walker over the tree under `path` with the default policy.
pub fn walk_dir(path: &str) -> (r: DirWalker)
    ensures
        r@ == start(path@, default_config()),
        r@.wf(),
{
    DirWalker::from_path(path)
}

/// A walker over the tree under `path` that reports entries up to depth `max_depth`.
pub fn walk_dir_max_depth(path: &str, max_depth: usize) -> (r: DirWalker)
    ensures
        r@ == start(path@, WalkConfig { max_depth: Some(max_depth), ..default_config() }),
        r@.wf(),
{
    DirWalker::new(path, WalkConfig::new().max_depth(max_depth))
}

} // verus!
