//! Decode worker decisions: request coalescing, deduplication, shutdown, and
//! last-write-wins adoption of results.
//!
//! The worker's inbox is a single-slot mailbox in effect: on each wake the
//! embedding program drains everything pending and hands the batch to
//! [`WorkerCore::step`], which decides what to do. Only the most recently
//! submitted grid is decoded; intermediate submissions are superseded and
//! never individually decoded. A stop request always wins, and a grid equal
//! to the one decoded last is skipped. On the consumer side,
//! [`apply_messages`] adopts the newest buffer in a drained batch of replies,
//! also last-write-wins.
//!
//! The decode itself, the channels, and the thread are the embedding
//! program's; every decision between them is made here.

use vstd::prelude::*;

verus! {

use crate::FRAGMENT_SIZE;
use crate::codes::Codes;

/// A request to the decode worker.
pub enum ToWorker {
    /// Terminate the worker loop.
    Stop,
    /// An owned snapshot of the grid to decode.
    SetCodes { codes: Codes },
}

/// A reply from the decode worker.
pub enum ToApp {
    /// A decode failure, forwarded as a warning; the worker carries on.
    Error(String),
    /// A freshly stitched buffer at the native rate.
    Samples(Vec<i64>),
}

/// What the worker does after draining its inbox.
pub enum WorkerAction {
    /// Exit the loop so the thread terminates.
    Stop,
    /// Decode this grid and post the result.
    Decode(Codes),
    /// Nothing to do until the next message.
    Idle,
}

/// Whether a drained batch holds a stop request.
pub open spec fn has_stop(batch: Seq<ToWorker>) -> bool {
    exists|i: int| 0 <= i < batch.len() && batch[i] is Stop
}

/// The grid of the most recent submission in a drained batch, if any.
pub open spec fn last_submitted(batch: Seq<ToWorker>) -> Option<Codes>
    decreases batch.len(),
{
    if batch.len() == 0 {
        None
    } else if batch.last() is SetCodes {
        Some(batch.last()->codes)
    } else {
        last_submitted(batch.drop_last())
    }
}

/// A grid must be decoded when it differs from the one decoded last.
pub open spec fn wants_decode(prev: Option<Codes>, c: Codes) -> bool {
    !(prev matches Some(p) && p.same_grid(&c))
}

/// Coalescing is sound: the most recent submission is itself a submission,
/// and where there is none, nothing in the batch submitted a grid. Together
/// with [`WorkerCore::step`]'s contract this says the worker never decodes a
/// grid that was never submitted, and decodes the newest one where it decodes
/// at all.
pub proof fn lemma_last_submitted_is_submitted(batch: Seq<ToWorker>)
    ensures
        match last_submitted(batch) {
            Some(c) => exists|i: int|
                0 <= i < batch.len() && #[trigger] batch[i] is SetCodes && batch[i]->codes == c,
            None => forall|i: int| 0 <= i < batch.len() ==> !(#[trigger] batch[i] is SetCodes),
        },
    decreases batch.len(),
{
    if batch.len() == 0 {
    } else if batch.last() is SetCodes {
        assert(batch[batch.len() - 1] is SetCodes);
    } else {
        lemma_last_submitted_is_submitted(batch.drop_last());
        match last_submitted(batch.drop_last()) {
            Some(c) => {
                let i = choose|i: int|
                    0 <= i < batch.drop_last().len() && #[trigger] batch.drop_last()[i] is SetCodes
                        && batch.drop_last()[i]->codes == c;
                assert(batch[i] is SetCodes && batch[i]->codes == c);
            },
            None => {
                assert forall|i: int| 0 <= i < batch.len() implies
                    !(#[trigger] batch[i] is SetCodes) by {
                    if i < batch.len() - 1 {
                        assert(batch.drop_last()[i] == batch[i]);
                    }
                }
            },
        }
    }
}

/// The worker's persistent decision state: the grid it decoded last.
pub struct WorkerCore {
    prev_codes: Option<Codes>,
}

impl WorkerCore {
    /// The grid decoded last, if any.
    pub closed spec fn prev(&self) -> Option<Codes> {
        self.prev_codes
    }

    /// A worker that has decoded nothing yet.
    pub fn new() -> (r: WorkerCore)
        ensures
            r.prev() is None,
    {
        WorkerCore { prev_codes: None }
    }

    /// Decide what to do with a drained batch of requests. A stop request
    /// always stops the worker. Otherwise only the most recent submission
    /// matters: it is decoded unless it equals the grid decoded last, in
    /// which case the worker stays idle.
    pub fn step(&mut self, batch: &Vec<ToWorker>) -> (action: WorkerAction)
        ensures
            action is Stop <==> has_stop(batch@),
            has_stop(batch@) ==> final(self).prev() == old(self).prev(),
            !has_stop(batch@) ==> match last_submitted(batch@) {
                Some(c) => {
                    &&& (wants_decode(old(self).prev(), c) ==> {
                        &&& action matches WorkerAction::Decode(d) && d.same_grid(&c)
                        &&& final(self).prev() matches Some(p) && p.same_grid(&c)
                    })
                    &&& (!wants_decode(old(self).prev(), c) ==> {
                        &&& action is Idle
                        &&& final(self).prev() == old(self).prev()
                    })
                },
                None => action is Idle && final(self).prev() == old(self).prev(),
            },
    {
        let n = batch.len();
        let mut newest: Option<usize> = None;
        let mut i: usize = 0;
        while i < n
            invariant
                n == batch@.len(),
                i <= n,
                !has_stop(batch@.take(i as int)),
                match newest {
                    Some(j) => j < i && batch@[j as int] is SetCodes
                        && last_submitted(batch@.take(i as int))
                            == Some(batch@[j as int]->codes),
                    None => last_submitted(batch@.take(i as int)) is None,
                },
            decreases n - i,
        {
            let ghost prefix = batch@.take(i as int);
            match &batch[i] {
                ToWorker::Stop => {
                    proof {
                        assert(batch@[i as int] is Stop);
                    }
                    return WorkerAction::Stop;
                },
                ToWorker::SetCodes { codes: _ } => {
                    newest = Some(i);
                },
            }
            i = i + 1;
            proof {
                let cur = batch@.take(i as int);
                assert(cur.drop_last() =~= prefix);
                assert(cur.last() == batch@[i - 1]);
                assert forall|k: int| 0 <= k < i implies !(cur[k] is Stop) by {
                    if k < i - 1 {
                        assert(prefix[k] == cur[k]);
                        assert(!(prefix[k] is Stop));
                    }
                }
            }
        }
        proof {
            assert(batch@.take(n as int) =~= batch@);
        }
        match newest {
            None => WorkerAction::Idle,
            Some(j) => {
                let c = match &batch[j] {
                    ToWorker::SetCodes { codes } => codes,
                    ToWorker::Stop => unreached(),
                };
                let same = match &self.prev_codes {
                    Some(p) => p == c,
                    None => false,
                };
                if same {
                    WorkerAction::Idle
                } else {
                    self.prev_codes = Some(c.duplicate());
                    WorkerAction::Decode(c.duplicate())
                }
            },
        }
    }
}

/// The newest buffer in a drained batch of worker replies, if any.
pub open spec fn last_samples(msgs: Seq<ToApp>) -> Option<Seq<i64>>
    decreases msgs.len(),
{
    if msgs.len() == 0 {
        None
    } else if msgs.last() is Samples {
        Some(msgs.last()->Samples_0@)
    } else {
        last_samples(msgs.drop_last())
    }
}

/// Adopt the newest buffer in a drained batch of replies, last write wins;
/// errors are warnings and leave the cached buffer alone. Returns whether the
/// cache was updated.
pub fn apply_messages(samples: &mut Vec<i64>, msgs: Vec<ToApp>) -> (updated: bool)
    ensures
        match last_samples(msgs@) {
            Some(s) => updated && final(samples)@ == s,
            None => !updated && final(samples)@ == old(samples)@,
        },
{
    let ghost all = msgs@;
    let mut rest = msgs;
    loop
        invariant
            samples@ == old(samples)@,
            last_samples(rest@) == last_samples(all),
        ensures
            match last_samples(all) {
                Some(s) => samples@ == old(samples)@ && rest@.len() > 0
                    && rest@.last() is Samples && rest@.last()->Samples_0@ == s,
                None => samples@ == old(samples)@ && rest@.len() == 0,
            },
        decreases rest@.len(),
    {
        let ghost before = rest@;
        match rest.pop() {
            None => {
                break;
            },
            Some(ToApp::Samples(v)) => {
                proof {
                    assert(before.drop_last() =~= rest@);
                    assert(before.last() is Samples);
                }
                rest.push(ToApp::Samples(v));
                proof {
                    assert(rest@ =~= before);
                }
                break;
            },
            Some(ToApp::Error(_)) => {
                proof {
                    assert(before.drop_last() =~= rest@);
                    assert(!(before.last() is Samples));
                }
            },
        }
    }
    match rest.pop() {
        Some(ToApp::Samples(v)) => {
            *samples = v;
            true
        },
        _ => false,
    }
}

/// The silent buffer playback starts from: one fragment of zeros.
pub fn initial_samples() -> (r: Vec<i64>)
    ensures
        r@.len() == FRAGMENT_SIZE,
        forall|i: int| 0 <= i < r@.len() ==> #[trigger] r@[i] == 0i64,
{
    let mut r: Vec<i64> = Vec::new();
    let mut i: usize = 0;
    while i < FRAGMENT_SIZE
        invariant
            i <= FRAGMENT_SIZE,
            r@.len() == i,
            forall|j: int| 0 <= j < i ==> #[trigger] r@[j] == 0i64,
        decreases FRAGMENT_SIZE - i,
    {
        r.push(0i64);
        i = i + 1;
    }
    r
}

} // verus!
