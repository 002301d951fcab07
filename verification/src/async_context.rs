//! Four-layer asynchronous context pipeline.
//!
//! One flat message array gets polluted by long tasks and bulky tool output,
//! so messages are split by lifetime into four isolated layers:
//! - ephemeral: visible for one inference round, destroyed afterwards;
//! - durable: facts that go to the session history;
//! - summary: tiny status lines that keep the thread of long tasks;
//! - notification: alerts and dashboard events, held until consumed.
//!
//! Every layer is bounded; past its bound the oldest message leaves.

use std::collections::VecDeque;
use vstd::prelude::*;
use vstd::string::StrSliceExecFns;

verus! {

broadcast use vstd::string::group_string_axioms;

/// The lifetime layer of a message.
#[derive(Debug, Clone, Copy, PartialEq, Eq, Hash, Structural)]
pub enum AsyncArrayKind {
    /// Visible in the current inference round only.
    EphemeralAsyncUser,
    /// A fact kept in the session history.
    DurableSyncUser,
    /// A very short task summary, kept for the long thread.
    SummaryStatusUser,
    /// A dashboard notification, held until consumed.
    NotificationHUDUser,
}

/// A message of the pipeline.
#[derive(Debug, Clone, PartialEq)]
pub struct AsyncContextMessage {
    /// Identifier.
    pub id: String,
    /// Lifetime layer.
    pub kind: AsyncArrayKind,
    /// Role.
    pub role: String,
    /// Content.
    pub content: String,
    /// Timestamp, in milliseconds.
    pub timestamp_ms: u64,
    /// Rough token count: a quarter of the characters, plus one.
    pub token_estimate: usize,
}

/// Characters counted per token.
pub const CHARS_PER_TOKEN: usize = 4;

/// A message as plain values.
pub open spec fn message_view(m: AsyncContextMessage) -> (Seq<char>, AsyncArrayKind, Seq<char>, Seq<char>, u64, usize) {
    (m.id@, m.kind, m.role@, m.content@, m.timestamp_ms, m.token_estimate)
}

/// Messages as plain values.
pub open spec fn message_views(s: Seq<AsyncContextMessage>) -> Seq<(Seq<char>, AsyncArrayKind, Seq<char>, Seq<char>, u64, usize)> {
    s.map_values(|m: AsyncContextMessage| message_view(m))
}

impl AsyncContextMessage {
    /// A message; its token estimate is `characters / 4 + 1`.
    pub fn new(id: &str, kind: AsyncArrayKind, role: &str, content: &str, timestamp_ms: u64) -> (m: Self)
        ensures
            m.id@ == id@,
            m.kind == kind,
            m.role@ == role@,
            m.content@ == content@,
            m.timestamp_ms == timestamp_ms,
            m.token_estimate == content@.len() / 4 + 1,
    {
        let token_estimate = content.unicode_len() / CHARS_PER_TOKEN + 1;
        AsyncContextMessage {
            id: id.to_owned(),
            kind,
            role: role.to_owned(),
            content: content.to_owned(),
            timestamp_ms,
            token_estimate,
        }
    }
}

fn clone_message(m: &AsyncContextMessage) -> (r: AsyncContextMessage)
    ensures
        message_view(r) == message_view(*m),
{
    AsyncContextMessage {
        id: m.id.clone(),
        kind: m.kind,
        role: m.role.clone(),
        content: m.content.clone(),
        timestamp_ms: m.timestamp_ms,
        token_estimate: m.token_estimate,
    }
}

/// Bound of the ephemeral layer.
pub const MAX_EPHEMERAL_QUEUE: usize = 256;

/// Bound of the durable layer (older facts are expected to be stored already).
pub const MAX_DURABLE_HISTORY: usize = 1024;

/// Bound of the summary layer.
pub const MAX_SUMMARY_HISTORY: usize = 512;

/// `s` with `m` appended, then cut from the front to at most `cap` messages.
pub open spec fn pushed_bounded(s: Seq<AsyncContextMessage>, m: AsyncContextMessage, cap: nat) -> Seq<AsyncContextMessage> {
    let t = s.push(m);
    if t.len() > cap {
        t.skip(t.len() - cap)
    } else {
        t
    }
}

/// The four-layer pipeline.
#[derive(Debug, Clone)]
pub struct AsyncContextPipeline {
    ephemeral_queue: Vec<AsyncContextMessage>,
    durable_history: Vec<AsyncContextMessage>,
    summary_history: Vec<AsyncContextMessage>,
    hud_notifications: VecDeque<AsyncContextMessage>,
    max_hud_items: usize,
}

fn push_bounded(layer: &mut Vec<AsyncContextMessage>, msg: AsyncContextMessage, cap: usize)
    ensures
        final(layer)@ == pushed_bounded(old(layer)@, msg, cap as nat),
{
    let ghost t = old(layer)@.push(msg);
    layer.push(msg);
    assert(layer@ =~= t.skip(0));
    while layer.len() > cap
        invariant
            t.len() > cap ==> layer@.len() >= cap,
            t.len() <= cap ==> layer@ == t,
            t.len() >= layer@.len(),
            layer@ == t.skip(t.len() - layer@.len()),
        decreases layer@.len(),
    {
        let ghost before = layer@;
        let _ = layer.remove(0);
        assert(layer@ =~= t.skip(t.len() - layer@.len()));
    }
    proof {
        if t.len() <= cap {
            assert(layer@ =~= t);
        }
    }
}

impl AsyncContextPipeline {
    /// The ephemeral layer.
    pub closed spec fn ephemeral(&self) -> Seq<AsyncContextMessage> {
        self.ephemeral_queue@
    }

    /// The durable layer.
    pub closed spec fn durable(&self) -> Seq<AsyncContextMessage> {
        self.durable_history@
    }

    /// The summary layer.
    pub closed spec fn summaries(&self) -> Seq<AsyncContextMessage> {
        self.summary_history@
    }

    /// The notification layer.
    pub closed spec fn notifications(&self) -> Seq<AsyncContextMessage> {
        self.hud_notifications@
    }

    /// The notification bound.
    pub closed spec fn hud_cap(&self) -> usize {
        self.max_hud_items
    }

    /// An empty pipeline holding at most `max_hud_items` notifications (at least one).
    pub fn new(max_hud_items: usize) -> (p: Self)
        ensures
            p.ephemeral() == Seq::<AsyncContextMessage>::empty(),
            p.durable() == Seq::<AsyncContextMessage>::empty(),
            p.summaries() == Seq::<AsyncContextMessage>::empty(),
            p.notifications() == Seq::<AsyncContextMessage>::empty(),
            p.hud_cap() == if max_hud_items < 1 {
                1
            } else {
                max_hud_items
            },
    {
        AsyncContextPipeline {
            ephemeral_queue: Vec::new(),
            durable_history: Vec::new(),
            summary_history: Vec::new(),
            hud_notifications: VecDeque::new(),
            max_hud_items: if max_hud_items < 1 {
                1
            } else {
                max_hud_items
            },
        }
    }

    /// Adds a message to its layer; past the layer's bound the oldest leaves.
    /// A full notification layer drops its oldest before the new one enters.
    pub fn push_message(&mut self, msg: AsyncContextMessage)
        ensures
            final(self).hud_cap() == old(self).hud_cap(),
            match msg.kind {
                AsyncArrayKind::EphemeralAsyncUser => final(self).ephemeral() == pushed_bounded(
                    old(self).ephemeral(),
                    msg,
                    MAX_EPHEMERAL_QUEUE as nat,
                ) && final(self).durable() == old(self).durable() && final(self).summaries() == old(self).summaries()
                    && final(self).notifications() == old(self).notifications(),
                AsyncArrayKind::DurableSyncUser => final(self).durable() == pushed_bounded(
                    old(self).durable(),
                    msg,
                    MAX_DURABLE_HISTORY as nat,
                ) && final(self).ephemeral() == old(self).ephemeral() && final(self).summaries() == old(
                    self,
                ).summaries() && final(self).notifications() == old(self).notifications(),
                AsyncArrayKind::SummaryStatusUser => final(self).summaries() == pushed_bounded(
                    old(self).summaries(),
                    msg,
                    MAX_SUMMARY_HISTORY as nat,
                ) && final(self).ephemeral() == old(self).ephemeral() && final(self).durable() == old(self).durable()
                    && final(self).notifications() == old(self).notifications(),
                AsyncArrayKind::NotificationHUDUser => final(self).notifications() == (if old(self).notifications().len()
                    >= old(self).hud_cap() && old(self).notifications().len() > 0 {
                    old(self).notifications().drop_first()
                } else {
                    old(self).notifications()
                }).push(msg) && final(self).ephemeral() == old(self).ephemeral() && final(self).durable() == old(
                    self,
                ).durable() && final(self).summaries() == old(self).summaries(),
            },
    {
        match msg.kind {
            AsyncArrayKind::EphemeralAsyncUser => {
                push_bounded(&mut self.ephemeral_queue, msg, MAX_EPHEMERAL_QUEUE);
            },
            AsyncArrayKind::DurableSyncUser => {
                push_bounded(&mut self.durable_history, msg, MAX_DURABLE_HISTORY);
            },
            AsyncArrayKind::SummaryStatusUser => {
                push_bounded(&mut self.summary_history, msg, MAX_SUMMARY_HISTORY);
            },
            AsyncArrayKind::NotificationHUDUser => {
                if self.hud_notifications.len() >= self.max_hud_items {
                    let _ = self.hud_notifications.pop_front();
                }
                self.hud_notifications.push_back(msg);
            },
        }
    }

    /// The context for the current round: summaries, then durable facts,
    /// then unconsumed notifications, then the ephemeral messages.
    pub fn assemble_prompt_context(&self) -> (r: Vec<AsyncContextMessage>)
        ensures
            message_views(r@) == message_views(self.summaries()) + message_views(self.durable()) + message_views(
                self.notifications(),
            ) + message_views(self.ephemeral()),
    {
        let mut r: Vec<AsyncContextMessage> = Vec::new();
        append_all(&mut r, &self.summary_history);
        append_all(&mut r, &self.durable_history);
        let mut i: usize = 0;
        let ghost base = message_views(r@);
        while i < self.hud_notifications.len()
            invariant
                i <= self.hud_notifications@.len(),
                message_views(r@) == base + message_views(self.hud_notifications@.take(i as int)),
            decreases self.hud_notifications@.len() - i,
        {
            let ghost before = r@;
            let m = clone_message(&self.hud_notifications[i]);
            r.push(m);
            proof {
                assert(message_views(r@) =~= message_views(before).push(message_view(m)));
                assert(self.hud_notifications@.take(i as int + 1) =~= self.hud_notifications@.take(i as int).push(
                    self.hud_notifications@[i as int],
                ));
                assert(message_views(self.hud_notifications@.take(i as int + 1)) =~= message_views(
                    self.hud_notifications@.take(i as int),
                ).push(message_view(self.hud_notifications@[i as int])));
            }
            i = i + 1;
        }
        assert(self.hud_notifications@.take(i as int) =~= self.hud_notifications@);
        append_all(&mut r, &self.ephemeral_queue);
        r
    }

    /// After an inference round: every ephemeral message is destroyed, and
    /// the notifications too when `clear_hud`. Returns how many ephemeral
    /// messages were destroyed.
    pub fn post_inference_cleanup(&mut self, clear_hud: bool) -> (n: usize)
        ensures
            n == old(self).ephemeral().len(),
            final(self).ephemeral() == Seq::<AsyncContextMessage>::empty(),
            final(self).durable() == old(self).durable(),
            final(self).summaries() == old(self).summaries(),
            final(self).notifications() == if clear_hud {
                Seq::<AsyncContextMessage>::empty()
            } else {
                old(self).notifications()
            },
            final(self).hud_cap() == old(self).hud_cap(),
    {
        let cleared = self.ephemeral_queue.len();
        self.ephemeral_queue.clear();
        if clear_hud {
            self.hud_notifications.clear();
        }
        cleared
    }

    /// The durable facts, for permanent storage.
    pub fn export_durable_facts(&self) -> (s: &[AsyncContextMessage])
        ensures
            s@ == self.durable(),
    {
        self.durable_history.as_slice()
    }

    /// The summary records.
    pub fn export_summary_records(&self) -> (s: &[AsyncContextMessage])
        ensures
            s@ == self.summaries(),
    {
        self.summary_history.as_slice()
    }

    /// Number of messages in all four layers.
    pub fn total_messages_count(&self) -> (n: usize)
        requires
            self.ephemeral().len() + self.durable().len() + self.summaries().len() + self.notifications().len()
                <= usize::MAX,
        ensures
            n == self.ephemeral().len() + self.durable().len() + self.summaries().len() + self.notifications().len(),
    {
        self.ephemeral_queue.len() + self.durable_history.len() + self.summary_history.len()
            + self.hud_notifications.len()
    }
}

impl Default for AsyncContextPipeline {
    /// An empty pipeline with a notification bound of zero (each new
    /// notification then replaces the previous one).
    fn default() -> (p: Self)
        ensures
            p.ephemeral() == Seq::<AsyncContextMessage>::empty(),
            p.durable() == Seq::<AsyncContextMessage>::empty(),
            p.summaries() == Seq::<AsyncContextMessage>::empty(),
            p.notifications() == Seq::<AsyncContextMessage>::empty(),
            p.hud_cap() == 0,
    {
        AsyncContextPipeline {
            ephemeral_queue: Vec::new(),
            durable_history: Vec::new(),
            summary_history: Vec::new(),
            hud_notifications: VecDeque::new(),
            max_hud_items: 0,
        }
    }
}

fn append_all(r: &mut Vec<AsyncContextMessage>, src: &Vec<AsyncContextMessage>)
    ensures
        message_views(final(r)@) == message_views(old(r)@) + message_views(src@),
{
    let ghost base = message_views(r@);
    let mut i: usize = 0;
    while i < src.len()
        invariant
            i <= src@.len(),
            message_views(r@) == base + message_views(src@.take(i as int)),
        decreases src@.len() - i,
    {
        let ghost before = r@;
        let m = clone_message(&src[i]);
        r.push(m);
        proof {
            assert(message_views(r@) =~= message_views(before).push(message_view(m)));
            assert(src@.take(i as int + 1) =~= src@.take(i as int).push(src@[i as int]));
            assert(message_views(src@.take(i as int + 1)) =~= message_views(src@.take(i as int)).push(
                message_view(src@[i as int]),
            ));
        }
        i = i + 1;
    }
    assert(src@.take(i as int) =~= src@);
}

/// Every bounded layer stays within its bound and keeps the newest messages:
/// the message just added is always the last one.
pub proof fn layers_keep_the_newest(s: Seq<AsyncContextMessage>, m: AsyncContextMessage, cap: nat)
    requires
        cap > 0,
    ensures
        pushed_bounded(s, m, cap).len() <= cap,
        pushed_bounded(s, m, cap).len() > 0,
        pushed_bounded(s, m, cap).last() == m,
        s.len() < cap ==> pushed_bounded(s, m, cap) == s.push(m),
{
}

} // verus!
