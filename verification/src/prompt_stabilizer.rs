//! Byte-stable prompt prefixes and single-point dynamic injection.
//!
//! The system prompt, persona and confirmed history form an unchanging
//! prefix; fast-changing ambient state (time, device, mood) is injected only
//! at the top of the newest user message, so provider prompt caches keep
//! hitting.

use vstd::prelude::*;
use vstd::string::StrSliceExecFns;
use crate::text::{push_char, push_str, str_eq};

verus! {

broadcast use vstd::string::group_string_axioms;

/// Message role.
#[derive(Debug, Clone, Copy, PartialEq, Eq, Structural)]
pub enum StabilizedRole {
    /// System.
    System,
    /// User.
    User,
    /// Assistant.
    Assistant,
}

/// A normalised message.
#[derive(Debug, Clone, PartialEq, Eq)]
pub struct StabilizedMessage {
    /// Role.
    pub role: StabilizedRole,
    /// Content.
    pub content: String,
}

/// A message as plain values.
pub open spec fn msg_view(m: StabilizedMessage) -> (StabilizedRole, Seq<char>) {
    (m.role, m.content@)
}

/// Messages as plain values.
pub open spec fn msg_views(s: Seq<StabilizedMessage>) -> Seq<(StabilizedRole, Seq<char>)> {
    s.map_values(|m: StabilizedMessage| msg_view(m))
}

/// Ambient state injected before the newest user message only.
#[derive(Debug, Clone, PartialEq, Eq, Default)]
pub struct EphemeralContextSnapshot {
    /// Current time, as text.
    pub current_time_str: String,
    /// Device status.
    pub device_status: String,
    /// Mood.
    pub active_mood: String,
}

/// The injected block of a snapshot.
pub open spec fn block_text(e: EphemeralContextSnapshot) -> Seq<char> {
    "[Ephemeral Context: Time="@ + e.current_time_str@ + ", Device="@ + e.device_status@ + ", Mood="@ + e.active_mood@
        + "]"@
}

impl EphemeralContextSnapshot {
    /// `[Ephemeral Context: Time=…, Device=…, Mood=…]`.
    pub fn render_block(&self) -> (s: String)
        ensures
            s@ == block_text(*self),
    {
        let mut s = String::from_str("[Ephemeral Context: Time=");
        push_str(&mut s, self.current_time_str.as_str());
        push_str(&mut s, ", Device=");
        push_str(&mut s, self.device_status.as_str());
        push_str(&mut s, ", Mood=");
        push_str(&mut s, self.active_mood.as_str());
        push_str(&mut s, "]");
        s
    }
}

/// Prompt cache stabilizer.
#[derive(Debug, Clone, Copy, Default)]
pub struct PromptCacheStabilizer;

fn clone_message(m: &StabilizedMessage) -> (r: StabilizedMessage)
    ensures
        msg_view(r) == msg_view(*m),
{
    StabilizedMessage { role: m.role, content: m.content.clone() }
}

fn same_message(a: &StabilizedMessage, b: &StabilizedMessage) -> (r: bool)
    ensures
        r == (msg_view(*a) == msg_view(*b)),
{
    a.role == b.role && str_eq(a.content.as_str(), b.content.as_str())
}

/// Content bytes (UTF-8) of the first `n` messages.
pub open spec fn bytes_total(s: Seq<StabilizedMessage>, n: int) -> nat
    decreases n,
{
    if n <= 0 || n > s.len() {
        0
    } else {
        bytes_total(s, n - 1) + vstd::utf8::encode_utf8(s[n - 1].content@).len()
    }
}

/// Length of the common leading run of equal messages.
pub open spec fn common_prefix(a: Seq<StabilizedMessage>, b: Seq<StabilizedMessage>, i: int) -> int
    decreases a.len() - i,
{
    if i < 0 || i >= a.len() || i >= b.len() || msg_view(a[i]) != msg_view(b[i]) {
        i
    } else {
        common_prefix(a, b, i + 1)
    }
}

impl PromptCacheStabilizer {
    /// A stabilizer.
    pub fn new() -> (s: Self) {
        PromptCacheStabilizer
    }

    /// Assembles the messages: the system prompt first, the history
    /// unchanged, then the newest user input with the ambient block on its
    /// first line.
    pub fn assemble_messages(
        system_prompt: &str,
        history: &[StabilizedMessage],
        latest_user_input: &str,
        ephemeral: &EphemeralContextSnapshot,
    ) -> (r: Vec<StabilizedMessage>)
        ensures
            msg_views(r@) == seq![(StabilizedRole::System, system_prompt@)] + msg_views(history@) + seq![
                (StabilizedRole::User, block_text(*ephemeral) + seq!['\n'] + latest_user_input@),
            ],
    {
        let mut assembled: Vec<StabilizedMessage> = Vec::new();
        assembled.push(StabilizedMessage { role: StabilizedRole::System, content: system_prompt.to_owned() });
        let ghost base = msg_views(assembled@);
        assert(base =~= seq![(StabilizedRole::System, system_prompt@)]);
        let mut i: usize = 0;
        while i < history.len()
            invariant
                i <= history@.len(),
                msg_views(assembled@) == base + msg_views(history@.take(i as int)),
            decreases history@.len() - i,
        {
            let ghost before = assembled@;
            let m = clone_message(&history[i]);
            assembled.push(m);
            proof {
                assert(msg_views(assembled@) =~= msg_views(before).push(msg_view(m)));
                assert(history@.take(i as int + 1) =~= history@.take(i as int).push(history@[i as int]));
                assert(msg_views(history@.take(i as int + 1)) =~= msg_views(history@.take(i as int)).push(
                    msg_view(history@[i as int]),
                ));
            }
            i = i + 1;
        }
        assert(history@.take(i as int) =~= history@);
        let mut payload = ephemeral.render_block();
        push_char(&mut payload, '\n');
        push_str(&mut payload, latest_user_input);
        assert(payload@ =~= block_text(*ephemeral) + seq!['\n'] + latest_user_input@);
        let ghost before = assembled@;
        let last = StabilizedMessage { role: StabilizedRole::User, content: payload };
        assembled.push(last);
        assert(msg_views(assembled@) =~= msg_views(before).push(msg_view(last)));
        assert(msg_views(assembled@) =~= seq![(StabilizedRole::System, system_prompt@)] + msg_views(history@) + seq![
            (StabilizedRole::User, block_text(*ephemeral) + seq!['\n'] + latest_user_input@),
        ]);
        assembled
    }

    /// The byte counts behind the cache-prefix ratio: `(content bytes of the
    /// leading messages equal in both, content bytes of all of current)`;
    /// `(0, 0)` when either side is empty.
    pub fn cache_prefix_bytes(previous: &[StabilizedMessage], current: &[StabilizedMessage]) -> (r: (usize, usize))
        requires
            bytes_total(current@, current@.len() as int) <= usize::MAX,
        ensures
            previous@.len() == 0 || current@.len() == 0 ==> r == (0usize, 0usize),
            previous@.len() > 0 && current@.len() > 0 ==> r.0 == bytes_total(current@, common_prefix(previous@, current@, 0))
                && r.1 == bytes_total(current@, current@.len() as int),
    {
        if previous.len() == 0 || current.len() == 0 {
            return (0, 0);
        }
        let mut total: usize = 0;
        let mut i: usize = 0;
        while i < current.len()
            invariant
                i <= current@.len(),
                bytes_total(current@, current@.len() as int) <= usize::MAX,
                total == bytes_total(current@, i as int),
            decreases current@.len() - i,
        {
            proof {
                lemma_bytes_total_monotone(current@, i as int + 1, current@.len() as int);
            }
            total = total + current[i].content.as_str().len();
            i = i + 1;
        }
        let mut matching: usize = 0;
        let mut k: usize = 0;
        while k < previous.len() && k < current.len() && same_message(&previous[k], &current[k])
            invariant
                k <= current@.len(),
                bytes_total(current@, current@.len() as int) <= usize::MAX,
                matching == bytes_total(current@, k as int),
                common_prefix(previous@, current@, 0) == common_prefix(previous@, current@, k as int),
            decreases current@.len() - k,
        {
            proof {
                lemma_bytes_total_monotone(current@, k as int + 1, current@.len() as int);
            }
            matching = matching + current[k].content.as_str().len();
            k = k + 1;
        }
        (matching, total)
    }
}

proof fn lemma_bytes_total_monotone(s: Seq<StabilizedMessage>, a: int, b: int)
    requires
        0 <= a <= b <= s.len(),
    ensures
        bytes_total(s, a) <= bytes_total(s, b),
    decreases b - a,
{
    if a < b {
        lemma_bytes_total_monotone(s, a, b - 1);
    }
}

/// Parts ordered by tier (stable): every part of tier 0 in input order, then
/// tier 1, and so on.
pub open spec fn of_tier(parts: Seq<(u8, Seq<char>)>, t: int) -> Seq<Seq<char>>
    decreases parts.len(),
{
    if parts.len() == 0 {
        seq![]
    } else if parts.last().0 == t {
        of_tier(parts.drop_last(), t).push(parts.last().1)
    } else {
        of_tier(parts.drop_last(), t)
    }
}

/// The parts of tiers `t..=255`, tier by tier.
pub open spec fn tiered_from(parts: Seq<(u8, Seq<char>)>, t: int) -> Seq<Seq<char>>
    decreases 256 - t,
{
    if t > 255 {
        seq![]
    } else {
        of_tier(parts, t) + tiered_from(parts, t + 1)
    }
}

/// Contents concatenated, each closed by a newline unless it ends with one.
pub open spec fn lines_text(cs: Seq<Seq<char>>) -> Seq<char>
    decreases cs.len(),
{
    if cs.len() == 0 {
        seq![]
    } else {
        let c = cs.last();
        lines_text(cs.drop_last()) + c + if c.len() > 0 && c.last() == '\n' {
            seq![]
        } else {
            seq!['\n']
        }
    }
}

/// Tiered system-prompt assembly: parts ordered by tier (lower first, equal
/// tiers in input order), concatenated, each closed by a newline.
pub fn assemble_tiered(parts: &[(u8, &str)]) -> (s: String)
    ensures
        s@ == lines_text(tiered_from(parts@.map_values(|p: (u8, &str)| (p.0, p.1@)), 0)),
{
    let ghost pv = parts@.map_values(|p: (u8, &str)| (p.0, p.1@));
    let mut s = String::new();
    let mut t: u16 = 0;
    let ghost mut done: Seq<Seq<char>> = seq![];
    assert(tiered_from(pv, 0) =~= done + tiered_from(pv, 0));
    while t <= 255
        invariant
            t <= 256,
            pv == parts@.map_values(|p: (u8, &str)| (p.0, p.1@)),
            s@ == lines_text(done),
            done + tiered_from(pv, t as int) == tiered_from(pv, 0),
        decreases 256 - t,
    {
        let mut i: usize = 0;
        let ghost base = done;
        while i < parts.len()
            invariant
                i <= parts@.len(),
                t <= 255,
                pv == parts@.map_values(|p: (u8, &str)| (p.0, p.1@)),
                s@ == lines_text(done),
                done == base + of_tier(pv.take(i as int), t as int),
            decreases parts@.len() - i,
        {
            assert(pv.take(i as int + 1).drop_last() =~= pv.take(i as int));
            let (tier, content) = parts[i];
            if tier as u16 == t {
                push_str(&mut s, content);
                let n = content.unicode_len();
                let ends_nl = n > 0 && content.get_char(n - 1) == '\n';
                if !ends_nl {
                    push_char(&mut s, '\n');
                }
                proof {
                    done = done.push(content@);
                    assert(done.drop_last() =~= base + of_tier(pv.take(i as int), t as int));
                }
            }
            i = i + 1;
        }
        assert(pv.take(i as int) =~= pv);
        assert(done + tiered_from(pv, t as int + 1) =~= base + tiered_from(pv, t as int));
        t = t + 1;
    }
    assert(done + tiered_from(pv, 256) =~= done);
    s
}

} // verus!
