//! Durable inbox: two FIFO queues (next turn, next step) with durable push
//! and batch claim.
//!
//! Inputs that arrive in the middle of a turn are queued like any other and
//! are not lost. A claim takes at most `max` items from the front of one
//! queue in one write: a claimed batch is gone from the queue and is never
//! handed out again (claiming is at-most-once; executing is not). Reading and
//! writing the snapshot is left to the caller, who persists
//! [`DurableInbox::state`] after each push or claim.

use vstd::prelude::*;
use crate::text::{push_str, push_decimal, decimal};
use crate::durable_schedule::{ScheduleDelivery, ScheduleError};

verus! {

/// The stable code family of inbox errors.
#[derive(Debug, Clone, Copy, PartialEq, Eq, Structural)]
pub enum InboxErrorCode {
    InvalidInput,
    Io,
    Corrupt,
}

pub open spec fn inbox_code_text(c: InboxErrorCode) -> Seq<char> {
    match c {
        InboxErrorCode::InvalidInput => "inbox_invalid_input"@,
        InboxErrorCode::Io => "inbox_io"@,
        InboxErrorCode::Corrupt => "inbox_corrupt"@,
    }
}

impl InboxErrorCode {
    /// The stable code string.
    pub fn as_str(self) -> (s: &'static str)
        ensures
            s@ == inbox_code_text(self),
    {
        match self {
            InboxErrorCode::InvalidInput => "inbox_invalid_input",
            InboxErrorCode::Io => "inbox_io",
            InboxErrorCode::Corrupt => "inbox_corrupt",
        }
    }
}

/// A failure of the inbox.
#[derive(Debug, Clone, PartialEq, Eq)]
pub enum InboxError {
    InvalidInput { reason: String },
    Io { operation: &'static str, reason: String },
    Corrupt { reason: String },
}

pub open spec fn inbox_error_code(e: InboxError) -> InboxErrorCode {
    match e {
        InboxError::InvalidInput { .. } => InboxErrorCode::InvalidInput,
        InboxError::Io { .. } => InboxErrorCode::Io,
        InboxError::Corrupt { .. } => InboxErrorCode::Corrupt,
    }
}

impl InboxError {
    /// The code this error belongs to.
    pub fn code(&self) -> (c: InboxErrorCode)
        ensures
            c == inbox_error_code(*self),
    {
        match self {
            InboxError::InvalidInput { .. } => InboxErrorCode::InvalidInput,
            InboxError::Io { .. } => InboxErrorCode::Io,
            InboxError::Corrupt { .. } => InboxErrorCode::Corrupt,
        }
    }
}

/// One of the two queues.
#[derive(Debug, Clone, Copy, PartialEq, Eq, Structural)]
pub enum InboxQueue {
    /// Handled at the next turn.
    NextTurn,
    /// Handled at the next step.
    NextStep,
}

/// One durable input.
#[derive(Debug, Clone, PartialEq, Eq)]
pub struct InboxItem {
    /// Assigned from the write number when pushed empty.
    pub id: String,
    pub queue: InboxQueue,
    /// Opaque origin.
    pub source: String,
    /// The turn it belongs to, carried and not interpreted.
    pub turn: Option<u64>,
    pub enqueued_at_ms: i64,
    /// Opaque, non-empty payload.
    pub payload: String,
}

#[verifier::ext_equal]
pub struct ItemView {
    pub id: Seq<char>,
    pub queue: InboxQueue,
    pub source: Seq<char>,
    pub turn: Option<u64>,
    pub enqueued_at_ms: i64,
    pub payload: Seq<char>,
}

impl View for InboxItem {
    type V = ItemView;

    open spec fn view(&self) -> ItemView {
        ItemView {
            id: self.id@,
            queue: self.queue,
            source: self.source@,
            turn: self.turn,
            enqueued_at_ms: self.enqueued_at_ms,
            payload: self.payload@,
        }
    }
}

pub open spec fn item_views(v: Seq<InboxItem>) -> Seq<ItemView> {
    v.map_values(|i: InboxItem| i@)
}

/// The persistent part of an inbox: the last write number and both queues.
#[derive(Debug, Clone, PartialEq, Eq)]
pub struct InboxState {
    pub write_seq: u64,
    pub next_turn: Vec<InboxItem>,
    pub next_step: Vec<InboxItem>,
}

/// The inbox: its state.
pub struct DurableInbox {
    state: InboxState,
}

pub open spec fn bump_seq(n: u64) -> u64 {
    if n == u64::MAX { n } else { (n + 1) as u64 }
}

/// The id given to an item pushed with an empty id at write number `n`.
pub open spec fn assigned_id(n: u64) -> Seq<char> {
    "inbox-"@ + decimal(n as nat)
}

/// The item as stored by a push at write number `n`.
pub open spec fn stored_item(item: ItemView, n: u64) -> ItemView {
    if item.id.len() == 0 {
        ItemView { id: assigned_id(n), ..item }
    } else {
        item
    }
}

impl DurableInbox {
    /// The last applied write number.
    pub closed spec fn seq_view(&self) -> u64 {
        self.state.write_seq
    }

    /// The items waiting in a queue, oldest first.
    pub closed spec fn queue_view(&self, q: InboxQueue) -> Seq<ItemView> {
        match q {
            InboxQueue::NextTurn => item_views(self.state.next_turn@),
            InboxQueue::NextStep => item_views(self.state.next_step@),
        }
    }

    /// An inbox over a state read back from a snapshot.
    pub fn open(state: InboxState) -> (s: DurableInbox)
        ensures
            s.seq_view() == state.write_seq,
            s.queue_view(InboxQueue::NextTurn) == item_views(state.next_turn@),
            s.queue_view(InboxQueue::NextStep) == item_views(state.next_step@),
    {
        DurableInbox { state }
    }

    /// An empty inbox.
    pub fn empty() -> (s: DurableInbox)
        ensures
            s.seq_view() == 0,
            s.queue_view(InboxQueue::NextTurn).len() == 0,
            s.queue_view(InboxQueue::NextStep).len() == 0,
    {
        let s = DurableInbox { state: InboxState { write_seq: 0, next_turn: Vec::new(), next_step: Vec::new() } };
        proof {
            assert(item_views(s.state.next_turn@).len() == 0);
            assert(item_views(s.state.next_step@).len() == 0);
        }
        s
    }

    /// The state, for persisting.
    pub fn state(&self) -> (st: &InboxState)
        ensures
            st.write_seq == self.seq_view(),
            item_views(st.next_turn@) == self.queue_view(InboxQueue::NextTurn),
            item_views(st.next_step@) == self.queue_view(InboxQueue::NextStep),
    {
        &self.state
    }

    /// The last applied write number.
    pub fn write_seq(&self) -> (n: u64)
        ensures
            n == self.seq_view(),
    {
        self.state.write_seq
    }

    /// How many items wait in a queue.
    pub fn pending(&self, queue: InboxQueue) -> (n: usize)
        ensures
            n == self.queue_view(queue).len(),
    {
        match queue {
            InboxQueue::NextTurn => self.state.next_turn.len(),
            InboxQueue::NextStep => self.state.next_step.len(),
        }
    }

    /// The items waiting in a queue, oldest first.
    pub fn items(&self, queue: InboxQueue) -> (r: &[InboxItem])
        ensures
            item_views(r@) == self.queue_view(queue),
    {
        match queue {
            InboxQueue::NextTurn => self.state.next_turn.as_slice(),
            InboxQueue::NextStep => self.state.next_step.as_slice(),
        }
    }

    /// Durable push (inputs that arrive mid-turn go through here too): an
    /// empty payload is refused; otherwise the write number advances, an
    /// empty id becomes `inbox-<write number>`, and the item joins the back
    /// of its queue.
    pub fn push(&mut self, item: InboxItem) -> (r: Result<InboxItem, InboxError>)
        ensures
            r is Err <==> item.payload@.len() == 0,
            r is Err ==> r->Err_0 is InvalidInput && final(self).seq_view()
                == old(self).seq_view() && forall|q: InboxQueue| #[trigger] final(self).queue_view(q)
                == old(self).queue_view(q),
            r is Ok ==> {
                let n = bump_seq(old(self).seq_view());
                let stored = stored_item(item@, n);
                &&& r->Ok_0@ == stored
                &&& final(self).seq_view() == n
                &&& final(self).queue_view(item.queue) == old(self).queue_view(item.queue).push(stored)
                &&& forall|q: InboxQueue| q != item.queue ==> #[trigger] final(self).queue_view(q)
                    == old(self).queue_view(q)
            },
    {
        if item.payload.as_str().is_empty() {
            let mut reason = String::new();
            push_str(&mut reason, "inbox payload must not be empty");
            return Err(InboxError::InvalidInput { reason });
        }
        let n = if self.state.write_seq == u64::MAX { self.state.write_seq } else { self.state.write_seq + 1 };
        let mut item = item;
        if item.id.as_str().is_empty() {
            let mut id = String::new();
            push_str(&mut id, "inbox-");
            push_decimal(&mut id, n);
            item.id = id;
        }
        let stored = InboxItem {
            id: item.id.clone(),
            queue: item.queue,
            source: item.source.clone(),
            turn: item.turn,
            enqueued_at_ms: item.enqueued_at_ms,
            payload: item.payload.clone(),
        };
        let ghost sv = stored@;
        let ghost turn0 = item_views(self.state.next_turn@);
        let ghost step0 = item_views(self.state.next_step@);
        self.state.write_seq = n;
        match item.queue {
            InboxQueue::NextTurn => {
                self.state.next_turn.push(stored);
                proof {
                    assert(item_views(self.state.next_turn@) =~= turn0.push(sv));
                }
            },
            InboxQueue::NextStep => {
                self.state.next_step.push(stored);
                proof {
                    assert(item_views(self.state.next_step@) =~= step0.push(sv));
                }
            },
        }
        Ok(item)
    }

    /// Claims up to `max` items from the front of one queue in one write;
    /// the write number advances only when something was taken.
    pub fn claim(&mut self, queue: InboxQueue, max: usize) -> (r: Result<Vec<InboxItem>, InboxError>)
        ensures
            r is Ok,
            ({
                let before = old(self).queue_view(queue);
                let n = if max < before.len() { max as int } else { before.len() as int };
                &&& item_views(r->Ok_0@) == before.take(n)
                &&& final(self).queue_view(queue) == before.skip(n)
                &&& final(self).seq_view() == if n > 0 { bump_seq(old(self).seq_view()) } else { old(self).seq_view() }
                &&& forall|q: InboxQueue| q != queue ==> #[trigger] final(self).queue_view(q)
                    == old(self).queue_view(q)
            }),
    {
        let ghost before = self.queue_view(queue);
        let taken = match queue {
            InboxQueue::NextTurn => take_front(&mut self.state.next_turn, max),
            InboxQueue::NextStep => take_front(&mut self.state.next_step, max),
        };
        if taken.len() > 0 {
            self.state.write_seq = if self.state.write_seq == u64::MAX {
                self.state.write_seq
            } else {
                self.state.write_seq + 1
            };
        }
        Ok(taken)
    }
}

/// Removes and returns the first `min(max, len)` items, in order.
fn take_front(v: &mut Vec<InboxItem>, max: usize) -> (taken: Vec<InboxItem>)
    ensures
        ({
            let n = if max < old(v)@.len() { max as int } else { old(v)@.len() as int };
            &&& taken@ == old(v)@.take(n)
            &&& final(v)@ == old(v)@.skip(n)
            &&& item_views(taken@) == item_views(old(v)@).take(n)
            &&& item_views(final(v)@) == item_views(old(v)@).skip(n)
        }),
{
    let ghost orig = v@;
    let n: usize = if max < v.len() { max } else { v.len() };
    let mut rest = v.split_off(n);
    std::mem::swap(v, &mut rest);
    proof {
        assert(rest@ =~= orig.take(n as int));
        assert(v@ =~= orig.skip(n as int));
        assert(item_views(rest@) =~= item_views(orig).take(n as int));
        assert(item_views(v@) =~= item_views(orig).skip(n as int));
    }
    rest
}

/// A failure while moving schedule deliveries into the inbox.
#[derive(Debug, Clone, PartialEq, Eq)]
pub enum WireError {
    Schedule(ScheduleError),
    Inbox(InboxError),
}

/// Pushes one next-step item per delivery, in order, with source
/// `schedule:<id>` and the given encoded payload; stops at the first push
/// that fails (an empty payload).
pub fn wire_deliveries_into_inbox(
    inbox: &mut DurableInbox,
    deliveries: &[ScheduleDelivery],
    payloads: Vec<String>,
    turn: Option<u64>,
    now_ms: i64,
) -> (r: Result<Vec<InboxItem>, WireError>)
    requires
        deliveries@.len() == payloads@.len(),
    ensures
        r is Ok <==> forall|i: int| 0 <= i < payloads@.len() ==> (#[trigger] payloads@[i])@.len() > 0,
        r is Ok ==> r->Ok_0@.len() == deliveries@.len() && forall|i: int| 0 <= i < deliveries@.len() ==> {
            let item = #[trigger] r->Ok_0@[i];
            &&& item@.queue == InboxQueue::NextStep
            &&& item@.source == "schedule:"@ + deliveries@[i].schedule_id@
            &&& item@.payload == payloads@[i]@
            &&& item@.turn == turn
            &&& item@.enqueued_at_ms == now_ms
        },
        r is Ok ==> final(inbox).queue_view(InboxQueue::NextStep) == old(inbox).queue_view(
            InboxQueue::NextStep,
        ) + item_views(r->Ok_0@),
{
    let mut pushed: Vec<InboxItem> = Vec::new();
    let mut i: usize = 0;
    let ghost q0 = inbox.queue_view(InboxQueue::NextStep);
    proof {
        assert(item_views(pushed@) =~= Seq::<ItemView>::empty());
        assert(q0 + item_views(pushed@) =~= q0);
    }
    while i < deliveries.len()
        invariant
            deliveries@.len() == payloads@.len(),
            i <= deliveries@.len(),
            pushed@.len() == i,
            forall|k: int| 0 <= k < i ==> (#[trigger] payloads@[k])@.len() > 0,
            forall|k: int| 0 <= k < i ==> {
                let item = #[trigger] pushed@[k];
                &&& item@.queue == InboxQueue::NextStep
                &&& item@.source == "schedule:"@ + deliveries@[k].schedule_id@
                &&& item@.payload == payloads@[k]@
                &&& item@.turn == turn
                &&& item@.enqueued_at_ms == now_ms
            },
            inbox.queue_view(InboxQueue::NextStep) == q0 + item_views(pushed@),
        decreases deliveries@.len() - i,
    {
        let mut source = String::new();
        push_str(&mut source, "schedule:");
        push_str(&mut source, deliveries[i].schedule_id.as_str());
        let item = InboxItem {
            id: String::new(),
            queue: InboxQueue::NextStep,
            source,
            turn,
            enqueued_at_ms: now_ms,
            payload: payloads[i].clone(),
        };
        let ghost before = item_views(pushed@);
        match inbox.push(item) {
            Ok(stored) => {
                let ghost sv = stored@;
                pushed.push(stored);
                proof {
                    assert(item_views(pushed@) =~= before.push(sv));
                    assert(q0 + item_views(pushed@) =~= (q0 + before).push(sv));
                }
            },
            Err(e) => {
                return Err(WireError::Inbox(e));
            },
        }
        i = i + 1;
    }
    Ok(pushed)
}

/// Consecutive claims hand out consecutive, disjoint batches: what the first
/// takes, then what the second takes, then what stays, is the queue as it
/// was.
pub proof fn claims_never_hand_out_an_item_twice(queue: Seq<ItemView>, first: nat, second: nat)
    ensures
        ({
            let n1 = if first < queue.len() { first as int } else { queue.len() as int };
            let after = queue.skip(n1);
            let n2 = if second < after.len() { second as int } else { after.len() as int };
            queue.take(n1) + after.take(n2) + after.skip(n2) == queue
        }),
{
    let n1 = if first < queue.len() { first as int } else { queue.len() as int };
    let after = queue.skip(n1);
    let n2 = if second < after.len() { second as int } else { after.len() as int };
    assert(queue.take(n1) + after.take(n2) + after.skip(n2) =~= queue);
}

} // verus!
