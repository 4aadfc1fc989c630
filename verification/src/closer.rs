//! The deferred closer: finished file handles go to a worker that drops them,
//! so that no hashing worker waits for a close.
//!
//! The channel and the worker thread are the caller's. The closer knows
//! whether a channel is attached, and decides for each handle what the caller
//! does next: start a worker, enqueue the handle, or nothing more.
use vstd::prelude::*;

verus! {

/// What the caller reports of the step that it took for a handle.
#[derive(Debug, Clone, Copy, PartialEq, Eq, Structural)]
pub enum CloserEvent {
    /// A worker was started and its channel attached.
    Started,
    /// The handle was enqueued.
    Enqueued,
    /// The channel refused the handle: its worker is gone.
    Refused,
}

/// What the caller does next with a handle.
#[derive(Debug, Clone, Copy, PartialEq, Eq, Structural)]
pub enum CloserAction {
    /// Start a worker with a new channel, and attach the channel.
    StartWorker,
    /// Enqueue the handle on the attached channel.
    Enqueue,
    /// Nothing: the handle is with a worker.
    Done,
}

/// The state of the closing service: whether a channel is attached.
#[derive(Debug, Clone, Copy, PartialEq, Eq, Structural)]
pub struct FileCloser {
    pub attached: bool,
}

impl FileCloser {
    /// The closer after `report`, if any: a started worker attaches a channel,
    /// a refusal detaches it.
    pub open spec fn after(self, report: Option<CloserEvent>) -> FileCloser {
        match report {
            Some(CloserEvent::Started) => FileCloser { attached: true },
            Some(CloserEvent::Refused) => FileCloser { attached: false },
            _ => self,
        }
    }

    /// What the caller does next with a handle, after `report`: nothing once the
    /// handle is enqueued; else it enqueues where a channel is attached, and
    /// starts a worker where none is.
    pub open spec fn next_action(self, report: Option<CloserEvent>) -> CloserAction {
        if report == Some(CloserEvent::Enqueued) {
            CloserAction::Done
        } else if self.after(report).attached {
            CloserAction::Enqueue
        } else {
            CloserAction::StartWorker
        }
    }

    /// A closer without a channel.
    pub fn new() -> (closer: FileCloser)
        ensures
            !closer.attached,
    {
        FileCloser { attached: false }
    }
}

/// Decides the next step for a handle that is to be released. The first call
/// for a handle passes no report, and each later one what came of the step
/// before.
pub fn deferred_file_drop(
    closer: &mut FileCloser,
    report: Option<CloserEvent>,
) -> (action: CloserAction)
    ensures
        *final(closer) == old(closer).after(report),
        action == old(closer).next_action(report),
{
    match report {
        Some(CloserEvent::Enqueued) => {
            return CloserAction::Done;
        },
        Some(CloserEvent::Started) => {
            closer.attached = true;
        },
        Some(CloserEvent::Refused) => {
            closer.attached = false;
        },
        None => {},
    }
    if closer.attached {
        CloserAction::Enqueue
    } else {
        CloserAction::StartWorker
    }
}

/// Detaches the channel. The worker drains what was enqueued and ends; the
/// next handle starts a new one.
pub fn stop_file_closer_thread(closer: &mut FileCloser)
    ensures
        !final(closer).attached,
{
    closer.attached = false;
}

/// The closer and the action after each of `reports` in turn, for one handle,
/// beginning with the first call, which has no report.
pub open spec fn handled(
    closer: FileCloser,
    reports: Seq<CloserEvent>,
) -> (FileCloser, CloserAction)
    decreases reports.len(),
{
    if reports.len() == 0 {
        (closer, closer.next_action(None))
    } else {
        let before = handled(closer, reports.drop_last()).0;
        (before.after(Some(reports.last())), before.next_action(Some(reports.last())))
    }
}

/// The caller reports what it was asked to do: a start after `StartWorker`,
/// an enqueue or a refusal after `Enqueue`, and nothing after `Done`.
pub open spec fn answers(closer: FileCloser, reports: Seq<CloserEvent>) -> bool
    decreases reports.len(),
{
    if reports.len() == 0 {
        true
    } else {
        &&& answers(closer, reports.drop_last())
        &&& match handled(closer, reports.drop_last()).1 {
            CloserAction::StartWorker => reports.last() == CloserEvent::Started,
            CloserAction::Enqueue => reports.last() != CloserEvent::Started,
            CloserAction::Done => false,
        }
    }
}

/// No handle is dropped on the way, and no second worker is started beside
/// one that is attached: the closer is done with a handle only once the handle
/// is enqueued; it asks for a worker only where no channel is attached; and
/// where the caller starts the worker, the next step is to enqueue.
pub proof fn lemma_handle_reaches_worker(closer: FileCloser, reports: Seq<CloserEvent>)
    requires
        answers(closer, reports),
    ensures
        handled(closer, reports).1 == CloserAction::Done <==> reports.len() > 0 && reports.last()
            == CloserEvent::Enqueued,
        handled(closer, reports).1 == CloserAction::StartWorker ==> !handled(
            closer,
            reports,
        ).0.attached,
        handled(closer, reports).1 == CloserAction::Enqueue ==> handled(closer, reports).0.attached,
        reports.len() > 0 && reports.last() == CloserEvent::Started ==> handled(closer, reports).1
            == CloserAction::Enqueue,
{
}

} // verus!
