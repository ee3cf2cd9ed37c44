//! What the background workers report to the window while they load sprite
//! sources, and the per-worker status line that those reports keep.
use vstd::prelude::*;

verus! {

/// A report of a background worker, by its number.
pub enum BackgroundWorkerViewFeedback {
    /// The worker has started a work, described by the message.
    BeginWork(usize, String),
    /// The worker has finished its work.
    EndWork(usize),
}

impl BackgroundWorkerViewFeedback {
    /// The number of the worker that sent the report.
    pub open spec fn spec_worker(&self) -> usize {
        match *self {
            BackgroundWorkerViewFeedback::BeginWork(n, _) => n,
            BackgroundWorkerViewFeedback::EndWork(n) => n,
        }
    }

    /// The number of the worker that sent the report.
    pub fn worker(&self) -> (r: usize)
        ensures
            r == self.spec_worker(),
    {
        match self {
            BackgroundWorkerViewFeedback::BeginWork(n, _) => *n,
            BackgroundWorkerViewFeedback::EndWork(n) => *n,
        }
    }
}

/// The status line of a worker after the report: the message of its work while
/// it works, nothing when it is idle.
pub open spec fn status_after(vf: BackgroundWorkerViewFeedback) -> Option<Seq<char>> {
    match vf {
        BackgroundWorkerViewFeedback::BeginWork(_, msg) => Some(msg@),
        BackgroundWorkerViewFeedback::EndWork(_) => None,
    }
}

/// The status lines as text.
pub open spec fn status_view(status: Seq<Option<String>>) -> Seq<Option<Seq<char>>> {
    status.map_values(|s: Option<String>| match s {
        Some(m) => Some(m@),
        None => None,
    })
}

/// Records a report in the status lines, one per worker: the line of the
/// reporting worker takes the message of its new work, or is cleared when the
/// work ends; the other lines stay.
pub fn apply_view_feedback(status: &mut Vec<Option<String>>, vf: BackgroundWorkerViewFeedback)
    requires
        vf.spec_worker() < old(status)@.len(),
    ensures
        status_view(final(status)@) == status_view(old(status)@).update(
            vf.spec_worker() as int,
            status_after(vf),
        ),
{
    let ghost before = status@;
    let ghost w = vf.spec_worker();
    let ghost after = status_after(vf);
    match vf {
        BackgroundWorkerViewFeedback::BeginWork(n, msg) => {
            status.set(n, Some(msg));
        },
        BackgroundWorkerViewFeedback::EndWork(n) => {
            status.set(n, None);
        },
    }
    assert(status_view(status@) =~= status_view(before).update(w as int, after));
}

/// A work that began and then ended leaves the worker's line empty, whatever it
/// held before; the other lines are as they were.
pub proof fn lemma_begin_then_end(status: Seq<Option<Seq<char>>>, n: usize, msg: Seq<char>)
    requires
        n < status.len(),
    ensures
        status.update(n as int, Some(msg)).update(n as int, None) == status.update(n as int, None),
        forall|k: int|
            0 <= k < status.len() && k != n ==> #[trigger] status.update(n as int, Some(msg)).update(
                n as int,
                None,
            )[k] == status[k],
{
    assert(status.update(n as int, Some(msg)).update(n as int, None) =~= status.update(n as int, None));
}

} // verus!
