//! Properties of every walk, proved over the state machine that the walker
//! follows step by step (`DirWalker::step` ensures exactly `WalkerView::step`).
use vstd::multiset::Multiset;
use vstd::prelude::*;

use crate::config::WalkConfig;
use crate::error::WalkError;
use crate::model::{
    identity_key, lemma_step_wf, start, DirIdentity, EventView, PhaseView, StepView, WalkerView,
};
use crate::entry::{EntryView, FileKind};

verus! {

/// A walker's answers to `events`, one after the other: the state it ends in
/// and each step it took.
pub open spec fn run(w: WalkerView, events: Seq<EventView>) -> (WalkerView, Seq<StepView>)
    decreases events.len(),
{
    if events.len() == 0 {
        (w, Seq::empty())
    } else {
        let (next, s) = w.step(events[0]);
        let (end, rest) = run(next, events.drop_first());
        (end, seq![s] + rest)
    }
}

/// Whether `a` is what is left of `b` after some items were taken off its front.
pub open spec fn is_suffix<T>(a: Seq<T>, b: Seq<T>) -> bool {
    a.len() <= b.len() && a =~= b.subrange(b.len() - a.len(), b.len() as int)
}

/// A new walker is well formed, whatever its root and policy.
pub proof fn law_start_wf(root: Seq<char>, config: WalkConfig)
    ensures
        start(root, config).wf(),
{
}

/// Depth limit and yield policy: an entry handed to the caller never lies
/// deeper than `max_depth`, and is a directory only when directories are
/// reported; files are reported whatever the policy. No directory whose
/// children would lie deeper is ever opened, so pruning happens before I/O.
pub proof fn law_results_respect_policy(w: WalkerView, e: EventView)
    requires
        w.wf(),
        w.accepts(e),
    ensures
        w.step(e).1 matches StepView::Yielded(Ok(entry)) ==> {
            &&& (w.config.max_depth matches Some(k) ==> entry.depth <= k)
            &&& (entry.is_dir ==> w.config.yield_directories)
        },
        w.step(e).1 is OpenDir ==> (w.config.max_depth matches Some(k)
            ==> w.step(e).0.phase->Opening_depth <= k),
{
    lemma_step_wf(w, e);
}

/// Resource bounds: after any answer, the work queue holds no more than
/// `max_queue_size` directories (or the root alone), no more than
/// `max_entries_per_dir` items of the open directory were enumerated, and
/// another item is asked for only while fewer were, or, in strict mode,
/// once more to tell whether the directory exceeds the limit.
pub proof fn law_bounds(w: WalkerView, e: EventView)
    requires
        w.wf(),
        w.accepts(e),
    ensures
        w.step(e).0.queue.len() <= 1 || w.step(e).0.queue.len() <= w.config.max_queue_size,
        w.step(e).0.phase matches PhaseView::Listing { count, .. } ==> count
            < w.config.max_entries_per_dir,
        w.step(e).0.phase matches PhaseView::Statting { count, .. } ==> count
            <= w.config.max_entries_per_dir,
        w.step(e).0.phase matches PhaseView::Following { count, .. } ==> count
            <= w.config.max_entries_per_dir,
        w.step(e).1 is NextItem ==> (w.step(e).0.phase is Listing || (w.step(e).0.phase is Probing
            && !w.config.continue_on_error)),
{
    lemma_step_wf(w, e);
}

/// Error policy: with `continue_on_error` no error ever reaches the caller;
/// without it, handing out an error halts the walker.
pub proof fn law_errors_halt(w: WalkerView, e: EventView)
    requires
        w.wf(),
        w.accepts(e),
    ensures
        w.config.continue_on_error ==> !(w.step(e).1 matches StepView::Yielded(Err(_))),
        w.step(e).1 matches StepView::Yielded(Err(_)) ==> w.step(e).0.halted,
{
}

/// A halted walker ends every later pull at once: it asks for no more I/O,
/// hands out nothing, and stays as it is.
pub proof fn law_halted_walker_stays_finished(w: WalkerView, events: Seq<EventView>)
    requires
        w.wf(),
        w.halted,
    ensures
        run(w, events).0 == w,
        run(w, events).1 =~= Seq::new(events.len(), |i: int| StepView::Finished),
    decreases events.len(),
{
    if events.len() > 0 {
        law_halted_walker_stays_finished(w, events.drop_first());
    }
}

/// Cycle guard: a link whose target directory was already entered through a
/// link is not descended into again, nor reported; in strict mode it halts
/// the walk with `SymlinkCycle`. A directory entered through a link is
/// recorded, and records are never dropped.
pub proof fn law_cycle_guard(w: WalkerView, target: FileKind, id: DirIdentity)
    requires
        w.wf(),
        w.phase is Following,
        target.is_dir,
    ensures
        w.visited.subset_of(w.step(EventView::Target(target, Some(id))).0.visited),
        w.step(EventView::Target(target, Some(id))).0.visited.contains(identity_key(id)),
        w.visited.contains(identity_key(id)) ==> {
            let (next, s) = w.step(EventView::Target(target, Some(id)));
            &&& is_suffix(next.queue, w.queue)
            &&& is_suffix(next.buffer, w.buffer)
            &&& !w.config.continue_on_error ==> s == StepView::Yielded(
                Err(WalkError::SymlinkCycle),
            )
        },
{
    let next = w.step(EventView::Target(target, Some(id)));
    if w.visited.contains(identity_key(id)) {
        assert(w.visited.insert(identity_key(id)) =~= w.visited);
        if let PhaseView::Following { count, .. } = w.phase {
            let v = w.idle();
            if w.config.continue_on_error && count >= w.config.max_entries_per_dir {
                if v.buffer.len() > 0 {
                    assert(next.0.buffer =~= w.buffer.subrange(1, w.buffer.len() as int));
                } else if v.queue.len() > 0 {
                    assert(next.0.queue =~= w.queue.subrange(1, w.queue.len() as int));
                }
            }
        }
    }
}

/// The answers of reading a directory whose items all have readable
/// metadata: the directory opens, then each item comes with its own kind.
pub open spec fn listing_events(items: Seq<(Seq<char>, FileKind)>) -> Seq<EventView>
    decreases items.len(),
{
    if items.len() == 0 {
        seq![EventView::Opened]
    } else {
        let (path, kind) = items.last();
        listing_events(items.drop_last()) + seq![
            EventView::Item(path),
            EventView::Metadata(kind),
        ]
    }
}

/// What the walker asks for meanwhile: the first item, then, for each item,
/// its metadata and the next item.
pub open spec fn listing_requests(items: Seq<(Seq<char>, FileKind)>) -> Seq<StepView>
    decreases items.len(),
{
    if items.len() == 0 {
        seq![StepView::NextItem]
    } else {
        listing_requests(items.drop_last()) + seq![
            StepView::ReadLinkMetadata(items.last().0),
            StepView::NextItem,
        ]
    }
}

/// The values that `f` picks out of `items`, in order.
pub open spec fn collect<A, B>(items: Seq<A>, f: spec_fn(A) -> Option<B>) -> Seq<B>
    decreases items.len(),
{
    if items.len() == 0 {
        Seq::empty()
    } else {
        let rest = collect(items.drop_last(), f);
        match f(items.last()) {
            Some(b) => rest.push(b),
            None => rest,
        }
    }
}

/// The entry that an item found at `depth` gives the caller, if any: every
/// file and other non-directory, and directories when they are reported.
pub open spec fn reported_item(config: WalkConfig, depth: usize, item: (Seq<char>, FileKind)) -> Option<
    EntryView,
> {
    let (path, kind) = item;
    if !kind.is_dir || config.yield_directories {
        Some(
            EntryView {
                path,
                depth,
                is_dir: kind.is_dir,
                is_file: kind.is_file,
                is_symlink: kind.is_symlink,
            },
        )
    } else {
        None
    }
}

/// The directory that an item found at `depth` adds to the work queue, if
/// any: every subdirectory whose children lie within the depth limit.
pub open spec fn descended_item(config: WalkConfig, depth: usize, item: (Seq<char>, FileKind)) -> Option<
    (Seq<char>, usize),
> {
    let (path, kind) = item;
    let within = match config.max_depth {
        None => true,
        Some(m) => depth + 1 <= m,
    };
    if kind.is_dir && within {
        Some((path, (depth + 1) as usize))
    } else {
        None
    }
}

/// The entries that `items`, found at `depth`, give the caller, in order.
pub open spec fn reported(config: WalkConfig, items: Seq<(Seq<char>, FileKind)>, depth: usize) -> Seq<
    EntryView,
> {
    collect(items, |item: (Seq<char>, FileKind)| reported_item(config, depth, item))
}

/// The subdirectories among `items`, found at `depth`, that the walk
/// descends into, in order.
pub open spec fn descended(config: WalkConfig, items: Seq<(Seq<char>, FileKind)>, depth: usize) -> Seq<
    (Seq<char>, usize),
> {
    collect(items, |item: (Seq<char>, FileKind)| descended_item(config, depth, item))
}

/// `collect` picks at most one value per item.
pub proof fn lemma_collect_len<A, B>(items: Seq<A>, f: spec_fn(A) -> Option<B>)
    ensures
        collect(items, f).len() <= items.len(),
    decreases items.len(),
{
    if items.len() > 0 {
        lemma_collect_len(items.drop_last(), f);
    }
}

/// What `f` picks out of one item, as a multiset.
pub open spec fn picked<A, B>(a: A, f: spec_fn(A) -> Option<B>) -> Multiset<B> {
    match f(a) {
        Some(b) => Multiset::singleton(b),
        None => Multiset::empty(),
    }
}

/// Taking an item out of `items` takes what `f` picks from it out of the result.
pub proof fn lemma_collect_remove<A, B>(items: Seq<A>, f: spec_fn(A) -> Option<B>, j: int)
    requires
        0 <= j < items.len(),
    ensures
        collect(items, f).to_multiset() =~= collect(items.remove(j), f).to_multiset().add(
            picked(items[j], f),
        ),
    decreases items.len(),
{
    broadcast use vstd::seq_lib::group_to_multiset_ensures;

    let last = items.len() - 1;
    if j == last {
        assert(items.remove(j) =~= items.drop_last());
    } else {
        let shorter = items.remove(j);
        assert(shorter.drop_last() =~= items.drop_last().remove(j));
        assert(shorter.last() == items.last());
        assert(items.drop_last()[j] == items[j]);
        lemma_collect_remove(items.drop_last(), f, j);
    }
}

/// Items in another order give the same values in another order.
pub proof fn lemma_collect_permutation<A, B>(
    items: Seq<A>,
    others: Seq<A>,
    f: spec_fn(A) -> Option<B>,
)
    requires
        items.to_multiset() == others.to_multiset(),
    ensures
        collect(items, f).to_multiset() == collect(others, f).to_multiset(),
    decreases items.len(),
{
    broadcast use vstd::seq_lib::group_to_multiset_ensures;

    if items.len() == 0 {
        assert(others.to_multiset().len() == 0);
        assert(others.len() == 0);
        assert(collect(others, f) =~= Seq::<B>::empty());
    } else {
        let a = items.last();
        assert(items =~= items.drop_last().push(a));
        assert(others.to_multiset().count(a) > 0);
        assert(others.contains(a));
        let j = choose|j: int| 0 <= j < others.len() && others[j] == a;
        assert(others.remove(j).to_multiset() =~= others.to_multiset().remove(a));
        assert(items.drop_last().to_multiset() =~= items.to_multiset().remove(a));
        lemma_collect_permutation(items.drop_last(), others.remove(j), f);
        lemma_collect_remove(others, f, j);
        lemma_collect_remove(items, f, items.len() - 1);
        assert(items.remove(items.len() - 1) =~= items.drop_last());
    }
}

/// Enumeration order: items of a directory met in another order give the
/// caller the same entries, and the work queue the same directories, each
/// as many times, only in another order.
pub proof fn law_directory_order_irrelevant(
    config: WalkConfig,
    items: Seq<(Seq<char>, FileKind)>,
    others: Seq<(Seq<char>, FileKind)>,
    depth: usize,
)
    requires
        items.to_multiset() == others.to_multiset(),
    ensures
        reported(config, items, depth).to_multiset() == reported(config, others, depth).to_multiset(),
        descended(config, items, depth).to_multiset() == descended(
            config,
            others,
            depth,
        ).to_multiset(),
{
    lemma_collect_permutation(
        items,
        others,
        |item: (Seq<char>, FileKind)| reported_item(config, depth, item),
    );
    lemma_collect_permutation(
        items,
        others,
        |item: (Seq<char>, FileKind)| descended_item(config, depth, item),
    );
}

/// Answering `a` and then `b` is answering `a + b`.
pub proof fn lemma_run_concat(w: WalkerView, a: Seq<EventView>, b: Seq<EventView>)
    ensures
        run(w, a + b).0 == run(run(w, a).0, b).0,
        run(w, a + b).1 == run(w, a).1 + run(run(w, a).0, b).1,
    decreases a.len(),
{
    if a.len() == 0 {
        assert(a + b =~= b);
        assert(run(w, a).1 + run(run(w, a).0, b).1 =~= run(w, b).1);
    } else {
        let (next, s) = w.step(a[0]);
        assert((a + b)[0] == a[0]);
        assert((a + b).drop_first() =~= a.drop_first() + b);
        lemma_run_concat(next, a.drop_first(), b);
        let r1 = run(next, a.drop_first()).1;
        let r2 = run(run(next, a.drop_first()).0, b).1;
        assert(seq![s] + (r1 + r2) =~= (seq![s] + r1) + r2);
    }
}

/// Reading one directory: when the directory opens and each of its items
/// has readable metadata (no link among them, if links are followed), and
/// the bounds leave room for all of them, the walker buffers exactly the
/// entries that go to the caller, every file among them, enqueues exactly
/// the subdirectories within the depth limit, and asks for nothing but the
/// items and their metadata.
pub proof fn law_directory_read(w: WalkerView, items: Seq<(Seq<char>, FileKind)>)
    requires
        w.wf(),
        w.phase is Opening,
        w.phase->Opening_depth < usize::MAX,
        items.len() < w.config.max_entries_per_dir,
        w.queue.len() + items.len() <= w.config.max_queue_size,
        w.config.follow_symlinks ==> forall|i: int|
            0 <= i < items.len() ==> !(#[trigger] items[i]).1.is_symlink,
    ensures
        run(w, listing_events(items)).0 == (WalkerView {
            queue: w.queue + descended(w.config, items, w.phase->Opening_depth),
            buffer: w.buffer + reported(w.config, items, w.phase->Opening_depth),
            phase: PhaseView::Listing {
                depth: w.phase->Opening_depth,
                count: items.len() as usize,
            },
            ..w
        }),
        run(w, listing_events(items)).1 == listing_requests(items),
    decreases items.len(),
{
    let depth = w.phase->Opening_depth;
    if items.len() == 0 {
        reveal_with_fuel(run, 2);
        assert(w.queue + descended(w.config, items, depth) =~= w.queue);
        assert(w.buffer + reported(w.config, items, depth) =~= w.buffer);
    } else {
        let prefix = items.drop_last();
        let (path, kind) = items.last();
        assert forall|i: int| 0 <= i < prefix.len() implies !(#[trigger] prefix[i]).1.is_symlink
            || !w.config.follow_symlinks by {
            assert(prefix[i] == items[i]);
        }
        assert(!kind.is_symlink || !w.config.follow_symlinks) by {
            assert(items[items.len() - 1] == items.last());
        }
        law_directory_read(w, prefix);
        lemma_collect_len(prefix, |item: (Seq<char>, FileKind)| descended_item(w.config, depth, item));
        let mid = run(w, listing_events(prefix)).0;
        let tail = seq![EventView::Item(path), EventView::Metadata(kind)];
        lemma_run_concat(w, listing_events(prefix), tail);
        reveal_with_fuel(run, 3);
        assert(tail.drop_first().drop_first() =~= Seq::<EventView>::empty());
        assert(tail.drop_first()[0] == EventView::Metadata(kind));
        let entry = EntryView {
            path,
            depth,
            is_dir: kind.is_dir,
            is_file: kind.is_file,
            is_symlink: kind.is_symlink,
        };
        assert(w.queue + descended(w.config, items, depth) =~= if kind.is_dir && mid.descends(
            depth + 1,
        ) {
            (w.queue + descended(w.config, prefix, depth)).push((path, (depth + 1) as usize))
        } else {
            w.queue + descended(w.config, prefix, depth)
        });
        assert(w.buffer + reported(w.config, items, depth) =~= if !kind.is_dir
            || w.config.yield_directories {
            (w.buffer + reported(w.config, prefix, depth)).push(entry)
        } else {
            w.buffer + reported(w.config, prefix, depth)
        });
        assert(run(mid, tail).1 =~= seq![
            StepView::ReadLinkMetadata(path),
            StepView::NextItem,
        ]);
    }
}

/// Handing out: an idle walker answers each of `k` pulls with the next
/// buffered entry, in the order the entries were found, and asks for no I/O
/// while its buffer lasts.
pub proof fn law_buffer_drains(w: WalkerView, k: nat)
    requires
        w.wf(),
        w.phase is Idle,
        !w.halted,
        k <= w.buffer.len(),
    ensures
        run(w, Seq::new(k, |i: int| EventView::Pull)).0 == (WalkerView {
            buffer: w.buffer.subrange(k as int, w.buffer.len() as int),
            ..w
        }),
        run(w, Seq::new(k, |i: int| EventView::Pull)).1 == Seq::new(
            k,
            |i: int| StepView::Yielded(Ok(w.buffer[i])),
        ),
    decreases k,
{
    let pulls = Seq::new(k, |i: int| EventView::Pull);
    if k == 0 {
        assert(w.buffer.subrange(0, w.buffer.len() as int) =~= w.buffer);
        assert(Seq::new(k, |i: int| StepView::Yielded(Ok(w.buffer[i]))) =~= Seq::<StepView>::empty());
    } else {
        let (next, s) = w.step(EventView::Pull);
        assert(pulls[0] == EventView::Pull);
        lemma_step_wf(w, EventView::Pull);
        assert(pulls.drop_first() =~= Seq::new((k - 1) as nat, |i: int| EventView::Pull));
        law_buffer_drains(next, (k - 1) as nat);
        assert(next.buffer =~= w.buffer.drop_first());
        assert(next.buffer.subrange((k - 1) as int, next.buffer.len() as int) =~= w.buffer.subrange(
            k as int,
            w.buffer.len() as int,
        ));
        assert(seq![s] + Seq::new((k - 1) as nat, |i: int| StepView::Yielded(Ok(next.buffer[i])))
            =~= Seq::new(k, |i: int| StepView::Yielded(Ok(w.buffer[i]))));
    }
}

} // verus!
