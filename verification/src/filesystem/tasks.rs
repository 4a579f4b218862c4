//! Storage tasks and the three-priority scheduler.
//!
//! Every operation on the store is a [`FilesystemTask`] value.  The
//! scheduler keeps one FIFO queue per priority; a task is polled from
//! the highest non-empty queue, so `Low` is served only when `High` and
//! `Normal` are empty, and starvation is permitted by design.  Feeding
//! the scheduler from channels and handing polled tasks to the worker is
//! the caller's business.

use vstd::prelude::*;
use std::collections::VecDeque;
use crate::filesystem::header::FilesystemHeader;
use crate::pages::page::PageHeader;

verus! {

#[derive(Debug, Clone)]
/// Low-level filesystem operation task.
///
/// Replies are not part of the task: the worker returns a
/// [`FilesystemTaskResponse`] for every task it executes, and whoever
/// runs the worker routes it back to the requester.
pub enum FilesystemTask {
    /// Read the cached filesystem header.
    ReadFilesystemHeader,
    /// Replace the filesystem header, in cache and on disk.
    WriteFilesystemHeader { header: FilesystemHeader },
    /// Append a fresh zeroed page; its header points back at the parent
    /// if one is given, but the parent is left untouched.
    CreatePage { parent_page_number: Option<u32> },
    /// Make `page_number`'s header point forward at `next_page_number`.
    LinkPageForward { page_number: u32, next_page_number: u32 },
    /// Read the 9-byte header of a page.
    ReadPageHeader { page_number: u32 },
    /// Overwrite the 9-byte header of a page.
    WritePageHeader { page_number: u32, header: PageHeader },
    /// Read from a page's body; yields at most `page_size - offset`
    /// bytes, and none at all when `offset` is past the body.
    ReadPage { page_number: u32, offset: u64, length: u64 },
    /// Write into a page's body; whatever does not fit before the body
    /// ends comes back in the response.
    WritePage { page_number: u32, offset: u64, bytes: Vec<u8> },
}

#[derive(Debug, Clone)]
/// What the worker hands back after executing one task.
pub enum FilesystemTaskResponse {
    /// The cached filesystem header.
    Header(FilesystemHeader),
    /// The number of a freshly created page.
    PageCreated(u32),
    /// A page's parsed header.
    PageHeader(PageHeader),
    /// Bytes read from a page body.
    Bytes(Vec<u8>),
    /// The bytes a page-body write could not fit.
    Tail(Vec<u8>),
    /// Nothing to report.
    Done,
}

#[derive(Default, Debug, Clone, Copy, PartialEq, Eq, Hash, Structural)]
pub enum FilesystemTaskPriority {
    /// Task will be executed before all the other operations.
    High,
    #[default]
    /// Task will be executed after earlier operations were finished.
    Normal,
    /// Task will be executed when all the other operations were
    /// performed.
    Low,
}

#[derive(Debug, Clone)]
/// Three FIFO queues, one per priority.
pub struct FilesystemTasksScheduler {
    tasks_high: VecDeque<FilesystemTask>,
    tasks_normal: VecDeque<FilesystemTask>,
    tasks_low: VecDeque<FilesystemTask>,
}

impl FilesystemTasksScheduler {
    /// The queued high-priority tasks, front first.
    pub closed spec fn high(&self) -> Seq<FilesystemTask> {
        self.tasks_high@
    }

    /// The queued normal-priority tasks, front first.
    pub closed spec fn normal(&self) -> Seq<FilesystemTask> {
        self.tasks_normal@
    }

    /// The queued low-priority tasks, front first.
    pub closed spec fn low(&self) -> Seq<FilesystemTask> {
        self.tasks_low@
    }

    /// The queue a priority selects.
    pub open spec fn queue(&self, priority: FilesystemTaskPriority) -> Seq<FilesystemTask> {
        match priority {
            FilesystemTaskPriority::High => self.high(),
            FilesystemTaskPriority::Normal => self.normal(),
            FilesystemTaskPriority::Low => self.low(),
        }
    }

    /// Create an empty scheduler.
    pub fn new() -> (r: Self)
        ensures
            r.high() == Seq::<FilesystemTask>::empty(),
            r.normal() == Seq::<FilesystemTask>::empty(),
            r.low() == Seq::<FilesystemTask>::empty(),
    {
        FilesystemTasksScheduler {
            tasks_high: VecDeque::new(),
            tasks_normal: VecDeque::new(),
            tasks_low: VecDeque::new(),
        }
    }

    /// Push a task to the back of its priority's queue.
    pub fn push(&mut self, task: FilesystemTask, priority: FilesystemTaskPriority)
        ensures
            final(self).queue(priority) == old(self).queue(priority).push(task),
            forall|p: FilesystemTaskPriority|
                p != priority ==> final(self).queue(p) == old(self).queue(p),
    {
        match priority {
            FilesystemTaskPriority::High => self.tasks_high.push_back(task),
            FilesystemTaskPriority::Normal => self.tasks_normal.push_back(task),
            FilesystemTaskPriority::Low => self.tasks_low.push_back(task),
        }
    }

    /// Push a task to the front of its priority's queue, so that the
    /// next poll at this priority returns it again.
    pub fn push_front(&mut self, task: FilesystemTask, priority: FilesystemTaskPriority)
        ensures
            final(self).queue(priority) == seq![task] + old(self).queue(priority),
            forall|p: FilesystemTaskPriority|
                p != priority ==> final(self).queue(p) == old(self).queue(p),
    {
        match priority {
            FilesystemTaskPriority::High => self.tasks_high.push_front(task),
            FilesystemTaskPriority::Normal => self.tasks_normal.push_front(task),
            FilesystemTaskPriority::Low => self.tasks_low.push_front(task),
        }
    }

    /// Take the front task of the highest non-empty queue, if any: every
    /// queued `High` task is polled before any `Normal` one, and every
    /// `Normal` before any `Low`.
    pub fn poll(&mut self) -> (r: Option<(FilesystemTask, FilesystemTaskPriority)>)
        ensures
            old(self).high().len() > 0 ==> {
                &&& r == Some((old(self).high()[0], FilesystemTaskPriority::High))
                &&& final(self).high() == old(self).high().drop_first()
                &&& final(self).normal() == old(self).normal()
                &&& final(self).low() == old(self).low()
            },
            old(self).high().len() == 0 && old(self).normal().len() > 0 ==> {
                &&& r == Some((old(self).normal()[0], FilesystemTaskPriority::Normal))
                &&& final(self).high() == old(self).high()
                &&& final(self).normal() == old(self).normal().drop_first()
                &&& final(self).low() == old(self).low()
            },
            old(self).high().len() == 0 && old(self).normal().len() == 0 && old(self).low().len()
                > 0 ==> {
                &&& r == Some((old(self).low()[0], FilesystemTaskPriority::Low))
                &&& final(self).high() == old(self).high()
                &&& final(self).normal() == old(self).normal()
                &&& final(self).low() == old(self).low().drop_first()
            },
            old(self).high().len() == 0 && old(self).normal().len() == 0 && old(self).low().len()
                == 0 ==> {
                &&& r is None
                &&& final(self).high() == old(self).high()
                &&& final(self).normal() == old(self).normal()
                &&& final(self).low() == old(self).low()
            },
            spec_poll_step(*old(self), *final(self), r),
    {
        if let Some(task) = self.tasks_high.pop_front() {
            proof {
                assert(final(self).high() =~= old(self).high().drop_first());
            }
            return Some((task, FilesystemTaskPriority::High));
        }
        if let Some(task) = self.tasks_normal.pop_front() {
            proof {
                assert(final(self).normal() =~= old(self).normal().drop_first());
            }
            return Some((task, FilesystemTaskPriority::Normal));
        }
        if let Some(task) = self.tasks_low.pop_front() {
            proof {
                assert(final(self).low() =~= old(self).low().drop_first());
            }
            return Some((task, FilesystemTaskPriority::Low));
        }
        None
    }
}


/// One poll's whole effect, exactly as [`FilesystemTasksScheduler::poll`]
/// ensures it: the head of the highest non-empty queue comes off, the
/// other queues stand still, and an empty scheduler returns nothing.
pub open spec fn spec_poll_step(
    pre: FilesystemTasksScheduler,
    post: FilesystemTasksScheduler,
    r: Option<(FilesystemTask, FilesystemTaskPriority)>,
) -> bool {
    &&& (pre.high().len() > 0 ==> r == Some((pre.high()[0], FilesystemTaskPriority::High))
        && post.high() == pre.high().drop_first() && post.normal() == pre.normal() && post.low()
        == pre.low())
    &&& (pre.high().len() == 0 && pre.normal().len() > 0 ==> r == Some(
        (pre.normal()[0], FilesystemTaskPriority::Normal),
    ) && post.high() == pre.high() && post.normal() == pre.normal().drop_first() && post.low()
        == pre.low())
    &&& (pre.high().len() == 0 && pre.normal().len() == 0 && pre.low().len() > 0 ==> r == Some(
        (pre.low()[0], FilesystemTaskPriority::Low),
    ) && post.high() == pre.high() && post.normal() == pre.normal() && post.low()
        == pre.low().drop_first())
    &&& (pre.high().len() == 0 && pre.normal().len() == 0 && pre.low().len() == 0 ==> r is None
        && post.high() == pre.high() && post.normal() == pre.normal() && post.low() == pre.low())
}

/// The order in which a scheduler left alone drains: all High tasks in
/// FIFO order, then all Normal, then all Low.
pub open spec fn spec_drain_order(s: &FilesystemTasksScheduler) -> Seq<
    (FilesystemTask, FilesystemTaskPriority),
> {
    s.high().map_values(|t: FilesystemTask| (t, FilesystemTaskPriority::High)) + s.normal()
        .map_values(|t: FilesystemTask| (t, FilesystemTaskPriority::Normal)) + s.low().map_values(
        |t: FilesystemTask| (t, FilesystemTaskPriority::Low),
    )
}

/// Law: one poll takes exactly the head of the drain order.  By
/// induction, with no pushes interleaved, repeated polling returns every
/// High task (in enqueue order) before every Normal task, and every
/// Normal before every Low: the linearization the scheduler promises.
pub proof fn lemma_poll_follows_drain_order(
    pre: FilesystemTasksScheduler,
    post: FilesystemTasksScheduler,
    r: Option<(FilesystemTask, FilesystemTaskPriority)>,
)
    requires
        spec_poll_step(pre, post, r),
    ensures
        spec_drain_order(&pre).len() > 0 ==> r == Some(spec_drain_order(&pre)[0])
            && spec_drain_order(&post) == spec_drain_order(&pre).drop_first(),
        spec_drain_order(&pre).len() == 0 ==> r is None && spec_drain_order(&post)
            == spec_drain_order(&pre),
{
    if spec_drain_order(&pre).len() > 0 {
        assert(spec_drain_order(&post) =~= spec_drain_order(&pre).drop_first());
    }
}


/// Law: repeated polling linearizes the scheduler.  Any run of `n`
/// successive successful polls, with no pushes in between, returns
/// exactly the first `n` entries of the initial state's drain order:
/// every High task (in enqueue order) before every Normal one, and
/// every Normal before every Low.
pub proof fn lemma_polls_linearize(
    states: Seq<FilesystemTasksScheduler>,
    results: Seq<(FilesystemTask, FilesystemTaskPriority)>,
)
    requires
        states.len() == results.len() + 1,
        forall|j: int|
            0 <= j < results.len() ==> spec_poll_step(
                states[j],
                states[j + 1],
                Some(#[trigger] results[j]),
            ),
    ensures
        results.len() <= spec_drain_order(&states[0]).len(),
        forall|j: int|
            0 <= j < results.len() ==> #[trigger] results[j] == spec_drain_order(&states[0])[j],
    decreases results.len(),
{
    if results.len() > 0 {
        assert(spec_poll_step(states[0], states[1], Some(results[0])));
        lemma_poll_follows_drain_order(states[0], states[1], Some(results[0]));
        let tail_states = states.drop_first();
        let tail_results = results.drop_first();
        assert forall|j: int| 0 <= j < tail_results.len() implies spec_poll_step(
            tail_states[j],
            tail_states[j + 1],
            Some(#[trigger] tail_results[j]),
        ) by {
            assert(tail_results[j] == results[j + 1]);
            assert(spec_poll_step(states[j + 1], states[j + 1 + 1], Some(results[j + 1])));
            assert(tail_states[j] == states[j + 1] && tail_states[j + 1] == states[j + 2]);
        }
        lemma_polls_linearize(tail_states, tail_results);
        assert forall|j: int| 0 <= j < results.len() implies #[trigger] results[j]
            == spec_drain_order(&states[0])[j] by {
            if j > 0 {
                assert(tail_results[j - 1] == spec_drain_order(&tail_states[0])[j - 1]);
                assert(spec_drain_order(&states[1]) == spec_drain_order(&states[0]).drop_first());
            }
        }
    }
}

} // verus!
