//! A whole walk over a static tree whose directories all open and whose
//! entries all have readable metadata: it ends, and hands the caller every
//! file of the tree, and every directory when directories are reported, each
//! exactly once.
use vstd::multiset::Multiset;
use vstd::prelude::*;

use crate::config::WalkConfig;
use crate::entry::{EntryView, FileKind};
use crate::model::{passes_yield_policy, start, EventView, PhaseView, StepView, WalkerView};

verus! {

/// A static directory tree: the items of each directory in the order the
/// filesystem lists them, and for each directory a rank (its height will do)
/// that is larger than the rank of each of its subdirectories.
pub ghost struct FsTree {
    pub listing: Map<Seq<char>, Seq<(Seq<char>, FileKind)>>,
    pub rank: Map<Seq<char>, nat>,
}

/// The entry of an item found at `depth`.
pub open spec fn node(item: (Seq<char>, FileKind), depth: usize) -> EntryView {
    EntryView {
        path: item.0,
        depth,
        is_dir: item.1.is_dir,
        is_file: item.1.is_file,
        is_symlink: item.1.is_symlink,
    }
}

impl FsTree {
    /// Every subdirectory has a listing and a smaller rank than its parent,
    /// and no item is a link.
    pub open spec fn wf(self) -> bool {
        forall|p: Seq<char>| #[trigger]
            self.listing.contains_key(p) ==> {
                &&& self.rank.contains_key(p)
                &&& forall|i: int|
                    0 <= i < self.listing[p].len() ==> self.item_ok(p, #[trigger] self.listing[p][i])
            }
    }

    pub open spec fn item_ok(self, p: Seq<char>, item: (Seq<char>, FileKind)) -> bool {
        &&& !item.1.is_symlink
        &&& item.1.is_dir ==> {
            &&& self.listing.contains_key(item.0)
            &&& self.rank.contains_key(item.0)
            &&& self.rank[item.0] < self.rank[p]
        }
    }

    /// Every entry under directory `p`, whose children lie at `depth`.
    pub open spec fn nodes_under(self, p: Seq<char>, depth: usize) -> Multiset<EntryView>
        decreases self.rank[p], 1nat, 0nat,
    {
        if self.listing.contains_key(p) && self.rank.contains_key(p) {
            self.nodes_of(self.listing[p], depth, self.rank[p])
        } else {
            Multiset::empty()
        }
    }

    /// Every entry that `items`, found at `depth`, stand for: each item, and
    /// everything under those that are directories of rank below `bound`.
    pub open spec fn nodes_of(self, items: Seq<(Seq<char>, FileKind)>, depth: usize, bound: nat) -> Multiset<
        EntryView,
    >
        decreases bound, 0nat, items.len(),
    {
        if items.len() == 0 {
            Multiset::empty()
        } else {
            Multiset::singleton(node(items[0], depth)).add(
                self.below(items[0], depth, bound),
            ).add(self.nodes_of(items.drop_first(), depth, bound))
        }
    }

    /// Everything under one item found at `depth`.
    pub open spec fn below(self, item: (Seq<char>, FileKind), depth: usize, bound: nat) -> Multiset<
        EntryView,
    >
        decreases bound, 0nat, 0nat,
    {
        if item.1.is_dir && self.rank.contains_key(item.0) && self.rank[item.0] < bound && depth
            < usize::MAX {
            self.nodes_under(item.0, (depth + 1) as usize)
        } else {
            Multiset::empty()
        }
    }

    /// Everything under the directories of a work queue.
    pub open spec fn queued(self, queue: Seq<(Seq<char>, usize)>) -> Multiset<EntryView>
        decreases queue.len(),
    {
        if queue.len() == 0 {
            Multiset::empty()
        } else {
            self.nodes_under(queue[0].0, queue[0].1).add(self.queued(queue.drop_first()))
        }
    }
}

/// A walk over a tree, answered from the tree: the walker, the directory it
/// reads, its last step (none before the first pull), the entries handed to
/// the caller so far, and the entries it has come across so far, reported or not.
pub ghost struct TreeWalk {
    pub w: WalkerView,
    pub cur: Seq<char>,
    pub last: Option<StepView>,
    pub yielded: Seq<EntryView>,
    pub processed: Multiset<EntryView>,
}

impl FsTree {
    /// What the filesystem answers to the walker's last step; the caller
    /// pulls again after each result.
    pub open spec fn answer(self, tr: TreeWalk) -> EventView {
        match tr.last {
            Some(StepView::OpenDir(_)) => EventView::Opened,
            Some(StepView::NextItem) => match tr.w.phase {
                PhaseView::Listing { count, .. } => if count < self.listing[tr.cur].len() {
                    EventView::Item(self.listing[tr.cur][count as int].0)
                } else {
                    EventView::NoMoreItems
                },
                _ => EventView::NoMoreItems,
            },
            Some(StepView::ReadLinkMetadata(_)) => match tr.w.phase {
                PhaseView::Statting { count, .. } => EventView::Metadata(
                    self.listing[tr.cur][count - 1].1,
                ),
                _ => EventView::MetadataFailed,
            },
            Some(StepView::ReadTargetMetadata(_)) => EventView::MetadataFailed,
            _ => EventView::Pull,
        }
    }

    /// The walk one answer further.
    pub open spec fn next(self, tr: TreeWalk) -> TreeWalk {
        let e = self.answer(tr);
        let (w, s) = tr.w.step(e);
        TreeWalk {
            w,
            cur: match s {
                StepView::OpenDir(p) => p,
                _ => tr.cur,
            },
            last: Some(s),
            yielded: match s {
                StepView::Yielded(Ok(x)) => tr.yielded.push(x),
                _ => tr.yielded,
            },
            processed: match tr.w.phase {
                PhaseView::Statting { depth, count, path } => match e {
                    EventView::Metadata(kind) => tr.processed.insert(node((path, kind), depth)),
                    _ => tr.processed,
                },
                _ => tr.processed,
            },
        }
    }

    /// The walk of the tree under `root` after `n` answers.
    pub open spec fn walk(self, root: Seq<char>, config: WalkConfig, n: nat) -> TreeWalk
        decreases n,
    {
        if n == 0 {
            TreeWalk {
                w: start(root, config),
                cur: root,
                last: None,
                yielded: Seq::empty(),
                processed: Multiset::empty(),
            }
        } else {
            self.next(self.walk(root, config, (n - 1) as nat))
        }
    }

    /// What is still to be come across: everything under the queued
    /// directories, and what is left of the directory being read.
    pub open spec fn pending(self, tr: TreeWalk) -> Multiset<EntryView> {
        self.queued(tr.w.queue).add(
            match tr.w.phase {
                PhaseView::Opening { depth } => self.nodes_under(tr.cur, depth),
                PhaseView::Listing { depth, count } => self.nodes_of(
                    self.listing[tr.cur].subrange(count as int, self.listing[tr.cur].len() as int),
                    depth,
                    self.rank[tr.cur],
                ),
                PhaseView::Statting { depth, count, .. } => self.nodes_of(
                    self.listing[tr.cur].subrange(count - 1, self.listing[tr.cur].len() as int),
                    depth,
                    self.rank[tr.cur],
                ),
                _ => Multiset::empty(),
            },
        )
    }

    /// A measure that every answer before the end decreases.
    pub open spec fn measure(self, tr: TreeWalk) -> nat {
        8 * self.pending(tr).len() + 4 * tr.w.queue.len() + tr.w.buffer.len() + match tr.w.phase {
            PhaseView::Opening { .. } => 3nat,
            PhaseView::Listing { .. } => 2nat,
            PhaseView::Statting { .. } => 1nat,
            _ => 0nat,
        }
    }

    /// The invariant of a walk over the tree under `root`.
    pub open spec fn walk_inv(self, root: Seq<char>, tr: TreeWalk) -> bool {
        let w = tr.w;
        &&& self.accounts(root, tr)
        &&& match w.phase {
            PhaseView::Idle => tr.last is None || tr.last == Some(StepView::Finished) || (
            tr.last matches Some(StepView::Yielded(Ok(_)))),
            PhaseView::Opening { depth } => {
                &&& tr.last == Some(StepView::OpenDir(tr.cur))
                &&& self.listing.contains_key(tr.cur)
                &&& depth <= tr.processed.len()
            },
            PhaseView::Listing { depth, count } => {
                &&& tr.last == Some(StepView::NextItem)
                &&& self.listing.contains_key(tr.cur)
                &&& count <= self.listing[tr.cur].len()
                &&& depth <= tr.processed.len()
            },
            PhaseView::Statting { depth, count, path } => {
                &&& tr.last == Some(StepView::ReadLinkMetadata(path))
                &&& self.listing.contains_key(tr.cur)
                &&& 1 <= count <= self.listing[tr.cur].len()
                &&& self.listing[tr.cur][count - 1].0 == path
                &&& depth <= tr.processed.len()
            },
            _ => false,
        }
        &&& tr.last == Some(StepView::Finished) ==> (w.queue.len() == 0 && w.buffer.len() == 0
            && w.phase is Idle)
    }

    /// The bookkeeping of a walk: every entry of the tree has either been
    /// come across or is still pending; those come across that go to the
    /// caller were handed out or wait in the buffer; the queue and the depths
    /// stay within what was come across.
    pub open spec fn accounts(self, root: Seq<char>, tr: TreeWalk) -> bool {
        let w = tr.w;
        let all = self.nodes_under(root, 0);
        &&& w.wf()
        &&& !w.halted
        &&& w.config.max_depth is None
        &&& all.len() < w.config.max_queue_size
        &&& forall|p: Seq<char>| #[trigger]
            self.listing.contains_key(p) ==> self.listing[p].len() < w.config.max_entries_per_dir
        &&& tr.processed.add(self.pending(tr)) == all
        &&& tr.yielded.to_multiset().add(w.buffer.to_multiset()) == tr.processed.filter(
            |e: EntryView| passes_yield_policy(w.config, e),
        )
        &&& w.queue.len() <= tr.processed.len() + 1
        &&& forall|i: int|
            0 <= i < w.queue.len() ==> {
                &&& self.listing.contains_key(#[trigger] w.queue[i].0)
                &&& w.queue[i].1 <= tr.processed.len()
            }
    }
}

impl FsTree {
    /// The walk after the walker hands out its next entry, or opens the next
    /// queued directory, or ends, from a state where no directory is open.
    pub open spec fn after_output(self, tr: TreeWalk) -> TreeWalk {
        let (w, s) = tr.w.next_output();
        TreeWalk {
            w,
            cur: match s {
                StepView::OpenDir(p) => p,
                _ => tr.cur,
            },
            last: Some(s),
            yielded: match s {
                StepView::Yielded(Ok(x)) => tr.yielded.push(x),
                _ => tr.yielded,
            },
            processed: tr.processed,
        }
    }
}

/// Queuing a directory adds everything under it to what the queue stands for.
pub proof fn lemma_queued_push(t: FsTree, queue: Seq<(Seq<char>, usize)>, x: (Seq<char>, usize))
    ensures
        t.queued(queue.push(x)) =~= t.queued(queue).add(t.nodes_under(x.0, x.1)),
    decreases queue.len(),
{
    broadcast use vstd::multiset::group_multiset_axioms;

    if queue.len() == 0 {
        assert(queue.push(x).drop_first() =~= queue);
        assert(t.queued(queue.push(x).drop_first()) =~= Multiset::empty());
    } else {
        assert(queue.push(x).drop_first() =~= queue.drop_first().push(x));
        lemma_queued_push(t, queue.drop_first(), x);
    }
}

/// Handing out, opening the next directory, or ending keeps the bookkeeping,
/// and, short of the end, lowers the measure.
pub proof fn lemma_after_output(t: FsTree, root: Seq<char>, tr: TreeWalk)
    requires
        t.wf(),
        t.accounts(root, tr),
        tr.w.phase is Idle,
    ensures
        t.walk_inv(root, t.after_output(tr)),
        t.after_output(tr).last != Some(StepView::Finished) ==> t.measure(t.after_output(tr))
            < t.measure(tr),
{
    broadcast use vstd::multiset::group_multiset_axioms;
    broadcast use vstd::seq_lib::group_to_multiset_ensures;

    let w = tr.w;
    let next = t.after_output(tr);
    crate::model::lemma_step_wf(w, EventView::Pull);
    assert(w.step(EventView::Pull) == w.next_output());
    if w.buffer.len() > 0 {
        let b0 = w.buffer[0];
        assert(w.buffer =~= seq![b0] + w.buffer.drop_first());
        assert(w.buffer.remove(0) =~= w.buffer.drop_first());
        assert(w.buffer.to_multiset() =~= w.buffer.drop_first().to_multiset().insert(b0));
        assert(t.pending(next) =~= t.pending(tr));
    } else if w.queue.len() > 0 {
        let q0 = w.queue[0];
        assert(t.queued(w.queue) =~= t.nodes_under(q0.0, q0.1).add(t.queued(w.queue.drop_first())));
        assert(t.pending(next) =~= t.pending(tr));
        assert(t.listing.contains_key(w.queue[0].0));
        assert forall|i: int| 0 <= i < next.w.queue.len() implies {
            &&& t.listing.contains_key(#[trigger] next.w.queue[i].0)
            &&& next.w.queue[i].1 <= next.processed.len()
        } by {
            assert(next.w.queue[i] == w.queue[i + 1]);
        }
    } else {
        assert(t.pending(next) =~= t.pending(tr));
    }
    assert(next.w.wf());
    assert(!next.w.halted);
    assert(next.processed.add(t.pending(next)) == t.nodes_under(root, 0));
    assert(next.yielded.to_multiset().add(next.w.buffer.to_multiset()) == next.processed.filter(
        |e: EntryView| passes_yield_policy(next.w.config, e),
    ));
    assert(next.w.queue.len() <= next.processed.len() + 1);
    assert(t.accounts(root, next));
}

/// A pull with no directory open: as `lemma_after_output`.
pub proof fn lemma_next_idle(t: FsTree, root: Seq<char>, tr: TreeWalk)
    requires
        t.wf(),
        t.walk_inv(root, tr),
        tr.w.phase is Idle,
        tr.last != Some(StepView::Finished),
    ensures
        t.walk_inv(root, t.next(tr)),
        t.next(tr).last != Some(StepView::Finished) ==> t.measure(t.next(tr)) < t.measure(tr),
{
    assert(t.answer(tr) == EventView::Pull);
    assert(t.next(tr) == t.after_output(tr));
    lemma_after_output(t, root, tr);
}

/// The directory opens: what is left of it is all of it.
pub proof fn lemma_next_opening(t: FsTree, root: Seq<char>, tr: TreeWalk)
    requires
        t.wf(),
        t.walk_inv(root, tr),
        tr.w.phase is Opening,
    ensures
        t.walk_inv(root, t.next(tr)),
        t.measure(t.next(tr)) < t.measure(tr),
{
    broadcast use vstd::multiset::group_multiset_axioms;

    let next = t.next(tr);
    let items = t.listing[tr.cur];
    assert(t.answer(tr) == EventView::Opened);
    crate::model::lemma_step_wf(tr.w, EventView::Opened);
    assert(items.len() < tr.w.config.max_entries_per_dir);
    assert(items.subrange(0, items.len() as int) =~= items);
    assert(t.rank.contains_key(tr.cur));
    assert(t.pending(next) =~= t.pending(tr));
    assert(t.accounts(root, next));
}

/// The next item comes, or the directory ends and the walker moves on.
pub proof fn lemma_next_listing(t: FsTree, root: Seq<char>, tr: TreeWalk)
    requires
        t.wf(),
        t.walk_inv(root, tr),
        tr.w.phase is Listing,
    ensures
        t.walk_inv(root, t.next(tr)),
        t.next(tr).last != Some(StepView::Finished) ==> t.measure(t.next(tr)) < t.measure(tr),
{
    broadcast use vstd::multiset::group_multiset_axioms;

    let next = t.next(tr);
    let items = t.listing[tr.cur];
    let count = tr.w.phase->Listing_count;
    crate::model::lemma_step_wf(tr.w, t.answer(tr));
    if count < items.len() {
        assert(t.answer(tr) == EventView::Item(items[count as int].0));
        assert(t.pending(next) =~= t.pending(tr));
        assert(t.accounts(root, next));
    } else {
        assert(t.answer(tr) == EventView::NoMoreItems);
        let idle = TreeWalk { w: tr.w.idle(), ..tr };
        assert(items.subrange(count as int, items.len() as int) =~= Seq::<
            (Seq<char>, FileKind),
        >::empty());
        assert(t.pending(idle) =~= t.pending(tr));
        assert(t.accounts(root, idle));
        assert(next == t.after_output(idle));
        lemma_after_output(t, root, idle);
    }
}

/// An item's kind comes: the item is come across, what lies under a
/// subdirectory moves to the queue, and the entry goes to the buffer when it
/// passes the yield policy.
pub proof fn lemma_next_statting(t: FsTree, root: Seq<char>, tr: TreeWalk)
    requires
        t.wf(),
        t.walk_inv(root, tr),
        tr.w.phase is Statting,
    ensures
        t.walk_inv(root, t.next(tr)),
        t.measure(t.next(tr)) < t.measure(tr),
{
    broadcast use vstd::multiset::group_multiset_axioms;
    broadcast use vstd::seq_lib::group_to_multiset_ensures;

    let w = tr.w;
    let next = t.next(tr);
    let items = t.listing[tr.cur];
    let (depth, count, path) = (
        w.phase->Statting_depth,
        w.phase->Statting_count,
        w.phase->Statting_path,
    );
    let item = items[count - 1];
    let kind = item.1;
    let n = node(item, depth);
    assert(t.item_ok(tr.cur, item));
    assert(item == (path, kind));
    assert(t.answer(tr) == EventView::Metadata(kind));
    crate::model::lemma_step_wf(w, EventView::Metadata(kind));
    let all = t.nodes_under(root, 0);
    let rest = items.subrange(count as int, items.len() as int);
    let here = items.subrange(count - 1, items.len() as int);
    assert(here[0] == item);
    assert(here.drop_first() =~= rest);
    let below = t.below(item, depth, t.rank[tr.cur]);
    assert(t.nodes_of(here, depth, t.rank[tr.cur]) =~= Multiset::singleton(n).add(below).add(
        t.nodes_of(rest, depth, t.rank[tr.cur]),
    ));
    // The entry is still pending, so fewer entries than the whole tree were
    // come across: the depth cannot overflow and the queue has room.
    assert(t.pending(tr).count(n) > 0);
    assert(tr.processed.len() < all.len());
    assert(depth < usize::MAX);
    assert(w.queue.len() < w.config.max_queue_size);
    if kind.is_dir {
        lemma_queued_push(t, w.queue, (path, (depth + 1) as usize));
        assert(below == t.nodes_under(path, (depth + 1) as usize));
    } else {
        assert(below =~= Multiset::empty());
    }
    assert(next.processed == tr.processed.insert(n));
    assert(t.pending(tr) =~= t.pending(next).add(Multiset::singleton(n)));
    assert(next.processed.add(t.pending(next)) =~= all);
    let f = |e: EntryView| passes_yield_policy(w.config, e);
    assert(next.processed.filter(f) =~= tr.processed.filter(f).add(
        if f(n) {
            Multiset::singleton(n)
        } else {
            Multiset::empty()
        },
    ));
    if f(n) {
        assert(next.w.buffer == w.buffer.push(n));
    } else {
        assert(next.w.buffer == w.buffer);
    }
    assert(next.yielded.to_multiset().add(next.w.buffer.to_multiset()) =~= next.processed.filter(
        f,
    ));
    assert forall|i: int| 0 <= i < next.w.queue.len() implies {
        &&& t.listing.contains_key(#[trigger] next.w.queue[i].0)
        &&& next.w.queue[i].1 <= next.processed.len()
    } by {
        if i < w.queue.len() {
            assert(next.w.queue[i] == w.queue[i]);
        }
    }
    assert(t.accounts(root, next));
}

/// One answer keeps the invariant, and, short of the end, lowers the measure;
/// at the end the walk stays as it is.
pub proof fn lemma_next(t: FsTree, root: Seq<char>, tr: TreeWalk)
    requires
        t.wf(),
        t.walk_inv(root, tr),
    ensures
        t.walk_inv(root, t.next(tr)),
        tr.last == Some(StepView::Finished) ==> t.next(tr) == tr,
        tr.last != Some(StepView::Finished) && t.next(tr).last != Some(StepView::Finished)
            ==> t.measure(t.next(tr)) < t.measure(tr),
{
    if tr.last == Some(StepView::Finished) {
        assert(t.answer(tr) == EventView::Pull);
        assert(tr.w.step(EventView::Pull) == (tr.w, StepView::Finished));
    } else {
        match tr.w.phase {
            PhaseView::Idle => lemma_next_idle(t, root, tr),
            PhaseView::Opening { .. } => lemma_next_opening(t, root, tr),
            PhaseView::Listing { .. } => lemma_next_listing(t, root, tr),
            PhaseView::Statting { .. } => lemma_next_statting(t, root, tr),
            _ => {},
        }
    }
}

/// What a walk over the tree needs: a well-formed tree with a listing for
/// the root, no depth limit, and bounds that leave room for all of it.
pub open spec fn walkable(t: FsTree, root: Seq<char>, config: WalkConfig) -> bool {
    &&& t.wf()
    &&& t.listing.contains_key(root)
    &&& config.max_depth is None
    &&& t.nodes_under(root, 0).len() < config.max_queue_size
    &&& forall|p: Seq<char>| #[trigger]
        t.listing.contains_key(p) ==> t.listing[p].len() < config.max_entries_per_dir
}

/// Every walk of a walkable tree keeps the invariant, and lowers the measure
/// with each answer until it ends.
pub proof fn lemma_walk(t: FsTree, root: Seq<char>, config: WalkConfig, n: nat)
    requires
        walkable(t, root, config),
    ensures
        t.walk_inv(root, t.walk(root, config, n)),
        t.walk(root, config, n).w.config == config,
        t.walk(root, config, n).last != Some(StepView::Finished) ==> t.measure(
            t.walk(root, config, n),
        ) + n <= t.measure(t.walk(root, config, 0)),
    decreases n,
{
    broadcast use vstd::multiset::group_multiset_axioms;
    broadcast use vstd::seq_lib::group_to_multiset_ensures;

    if n == 0 {
        let tr = t.walk(root, config, 0);
        assert(tr.w.queue.drop_first() =~= Seq::<(Seq<char>, usize)>::empty());
        assert(t.queued(tr.w.queue.drop_first()) =~= Multiset::empty());
        assert(t.queued(tr.w.queue) =~= t.nodes_under(root, 0));
        assert(t.pending(tr) =~= t.nodes_under(root, 0));
        assert(tr.yielded.to_multiset() =~= Multiset::empty());
        assert(tr.w.buffer.to_multiset() =~= Multiset::empty());
        assert(tr.processed.filter(|e: EntryView| passes_yield_policy(config, e))
            =~= Multiset::empty());
        assert(tr.yielded.to_multiset().add(tr.w.buffer.to_multiset()) =~= Multiset::empty());
        assert(tr.processed.add(t.pending(tr)) =~= t.nodes_under(root, 0));
        assert(tr.w.queue[0] == (root, 0usize));
        assert(tr.w.wf());
        assert(t.accounts(root, tr));
    } else {
        let prev = t.walk(root, config, (n - 1) as nat);
        lemma_walk(t, root, config, (n - 1) as nat);
        lemma_next(t, root, prev);
    }
}

/// A whole walk of a tree: when every directory opens, every entry has
/// readable metadata, nothing is a link, there is no depth limit, and the
/// bounds leave room for the whole tree, the walk ends, after no more
/// answers than eight per entry and four, with no error, having handed the
/// caller every entry of the tree that passes the yield policy, each exactly
/// as often as the tree holds it: every file, and every directory when
/// directories are reported, none otherwise.
pub proof fn law_tree_walk_complete(t: FsTree, root: Seq<char>, config: WalkConfig)
    requires
        walkable(t, root, config),
    ensures
        ({
            let n = 8 * t.nodes_under(root, 0).len() + 5;
            let end = t.walk(root, config, n);
            &&& end.last == Some(StepView::Finished)
            &&& !end.w.halted
            &&& end.yielded.to_multiset() == t.nodes_under(root, 0).filter(
                |e: EntryView| passes_yield_policy(config, e),
            )
            &&& forall|e: EntryView|
                !e.is_dir ==> #[trigger] end.yielded.to_multiset().count(e) == t.nodes_under(
                    root,
                    0,
                ).count(e)
            &&& forall|e: EntryView|
                e.is_dir ==> #[trigger] end.yielded.to_multiset().count(e) == if config.yield_directories {
                    t.nodes_under(root, 0).count(e)
                } else {
                    0
                }
        }),
{
    broadcast use vstd::multiset::group_multiset_axioms;
    broadcast use vstd::seq_lib::group_to_multiset_ensures;

    let all = t.nodes_under(root, 0);
    let n = 8 * all.len() + 5;
    lemma_walk(t, root, config, n);
    let first = t.walk(root, config, 0);
    assert(first.w.queue.drop_first() =~= Seq::<(Seq<char>, usize)>::empty());
    assert(t.queued(first.w.queue.drop_first()) =~= Multiset::empty());
    assert(t.queued(first.w.queue) =~= all);
    assert(t.pending(first) =~= all);
    assert(t.measure(first) == 8 * all.len() + 4);
    let end = t.walk(root, config, n);
    assert(end.last == Some(StepView::Finished));
    assert(t.pending(end) =~= Multiset::empty());
    assert(end.w.buffer.to_multiset() =~= Multiset::empty());
    assert(end.processed =~= all);
    assert(end.yielded.to_multiset() =~= all.filter(
        |e: EntryView| passes_yield_policy(config, e),
    ));
}

/// Whether `other` is `t` with the items of each directory listed in another
/// order.
pub open spec fn reorders(t: FsTree, other: FsTree) -> bool {
    &&& other.rank == t.rank
    &&& other.listing.dom() == t.listing.dom()
    &&& forall|p: Seq<char>| #[trigger]
        t.listing.contains_key(p) ==> other.listing[p].to_multiset() == t.listing[p].to_multiset()
}

/// What one item stands for: itself, and everything under it.
pub open spec fn item_nodes(t: FsTree, item: (Seq<char>, FileKind), depth: usize, bound: nat) -> Multiset<
    EntryView,
> {
    Multiset::singleton(node(item, depth)).add(t.below(item, depth, bound))
}

/// Taking an item out of a listing takes what it stands for out of `nodes_of`.
pub proof fn lemma_nodes_of_remove(
    t: FsTree,
    items: Seq<(Seq<char>, FileKind)>,
    depth: usize,
    bound: nat,
    j: int,
)
    requires
        0 <= j < items.len(),
    ensures
        t.nodes_of(items, depth, bound) =~= t.nodes_of(items.remove(j), depth, bound).add(
            item_nodes(t, items[j], depth, bound),
        ),
    decreases items.len(),
{
    broadcast use vstd::multiset::group_multiset_axioms;

    if j == 0 {
        assert(items.remove(0) =~= items.drop_first());
    } else {
        let shorter = items.remove(j);
        assert(shorter[0] == items[0]);
        assert(shorter.drop_first() =~= items.drop_first().remove(j - 1));
        assert(items.drop_first()[j - 1] == items[j]);
        lemma_nodes_of_remove(t, items.drop_first(), depth, bound, j - 1);
    }
}

/// A listing in another order stands for the same entries.
pub proof fn lemma_nodes_of_permutation(
    t: FsTree,
    items: Seq<(Seq<char>, FileKind)>,
    others: Seq<(Seq<char>, FileKind)>,
    depth: usize,
    bound: nat,
)
    requires
        items.to_multiset() == others.to_multiset(),
    ensures
        t.nodes_of(items, depth, bound) == t.nodes_of(others, depth, bound),
    decreases items.len(),
{
    broadcast use vstd::multiset::group_multiset_axioms;
    broadcast use vstd::seq_lib::group_to_multiset_ensures;

    if items.len() == 0 {
        assert(others.to_multiset().len() == 0);
        assert(others.len() == 0);
    } else {
        let a = items[0];
        assert(others.to_multiset().count(a) > 0);
        assert(others.contains(a));
        let j = choose|j: int| 0 <= j < others.len() && others[j] == a;
        assert(items.remove(0) =~= items.drop_first());
        assert(others.remove(j).to_multiset() =~= others.to_multiset().remove(a));
        assert(items.drop_first().to_multiset() =~= items.to_multiset().remove(a));
        lemma_nodes_of_permutation(t, items.drop_first(), others.remove(j), depth, bound);
        lemma_nodes_of_remove(t, others, depth, bound, j);
    }
}

/// Two trees whose items agree in what lies under them agree on `nodes_of`.
pub proof fn lemma_nodes_of_same_below(
    t: FsTree,
    other: FsTree,
    items: Seq<(Seq<char>, FileKind)>,
    depth: usize,
    bound: nat,
)
    requires
        forall|i: int|
            0 <= i < items.len() ==> t.below(#[trigger] items[i], depth, bound) == other.below(
                items[i],
                depth,
                bound,
            ),
    ensures
        t.nodes_of(items, depth, bound) == other.nodes_of(items, depth, bound),
    decreases items.len(),
{
    if items.len() > 0 {
        assert forall|i: int| 0 <= i < items.drop_first().len() implies t.below(
            #[trigger] items.drop_first()[i],
            depth,
            bound,
        ) == other.below(items.drop_first()[i], depth, bound) by {
            assert(items.drop_first()[i] == items[i + 1]);
        }
        lemma_nodes_of_same_below(t, other, items.drop_first(), depth, bound);
        assert(t.below(items[0], depth, bound) == other.below(items[0], depth, bound));
    }
}

/// A reordered tree holds the same entries under each directory.
pub proof fn lemma_reordered_nodes_under(t: FsTree, other: FsTree, p: Seq<char>, depth: usize)
    requires
        reorders(t, other),
    ensures
        t.nodes_under(p, depth) == other.nodes_under(p, depth),
    decreases t.rank[p],
{
    if t.listing.contains_key(p) && t.rank.contains_key(p) {
        let items = t.listing[p];
        let bound = t.rank[p];
        assert forall|i: int| 0 <= i < items.len() implies t.below(
            #[trigger] items[i],
            depth,
            bound,
        ) == other.below(items[i], depth, bound) by {
            let item = items[i];
            if item.1.is_dir && t.rank.contains_key(item.0) && t.rank[item.0] < bound && depth
                < usize::MAX {
                lemma_reordered_nodes_under(t, other, item.0, (depth + 1) as usize);
            }
        }
        lemma_nodes_of_same_below(t, other, items, depth, bound);
        assert(other.listing.contains_key(p));
        lemma_nodes_of_permutation(other, items, other.listing[p], depth, bound);
    } else {
        assert(!(other.listing.contains_key(p) && other.rank.contains_key(p)));
    }
}

/// Enumeration order: a tree whose directories list their items in other
/// orders is walked as completely, and hands the caller the same entries,
/// each as many times: (path, depth, kind) alike, only the order may differ.
/// Walking the same tree twice is the special case of the same order.
pub proof fn law_tree_walk_order_irrelevant(
    t: FsTree,
    other: FsTree,
    root: Seq<char>,
    config: WalkConfig,
)
    requires
        walkable(t, root, config),
        reorders(t, other),
    ensures
        walkable(other, root, config),
        ({
            let n = 8 * t.nodes_under(root, 0).len() + 5;
            &&& t.walk(root, config, n).last == Some(StepView::Finished)
            &&& other.walk(root, config, n).last == Some(StepView::Finished)
            &&& t.walk(root, config, n).yielded.to_multiset() == other.walk(
                root,
                config,
                n,
            ).yielded.to_multiset()
        }),
{
    broadcast use vstd::seq_lib::group_to_multiset_ensures;

    lemma_reordered_nodes_under(t, other, root, 0);
    assert forall|p: Seq<char>| #[trigger] other.listing.contains_key(p) implies {
        &&& other.rank.contains_key(p)
        &&& forall|i: int|
            0 <= i < other.listing[p].len() ==> other.item_ok(p, #[trigger] other.listing[p][i])
    } by {
        assert(t.listing.contains_key(p));
        assert forall|i: int| 0 <= i < other.listing[p].len() implies other.item_ok(
            p,
            #[trigger] other.listing[p][i],
        ) by {
            let item = other.listing[p][i];
            assert(other.listing[p].to_multiset().count(item) > 0);
            assert(t.listing[p].to_multiset().count(item) > 0);
            assert(t.listing[p].contains(item));
            let k = choose|k: int| 0 <= k < t.listing[p].len() && t.listing[p][k] == item;
            assert(t.item_ok(p, t.listing[p][k]));
        }
    }
    assert forall|p: Seq<char>| #[trigger]
        other.listing.contains_key(p) implies other.listing[p].len()
        < config.max_entries_per_dir by {
        assert(t.listing.contains_key(p));
        assert(other.listing[p].to_multiset().len() == t.listing[p].to_multiset().len());
    }
    assert(other.listing.contains_key(root));
    law_tree_walk_complete(t, root, config);
    law_tree_walk_complete(other, root, config);
}

} // verus!
