//! Advisory notices for consecutive identical tool calls.
//!
//! A loop that re-issues one tool call with identical arguments burns rounds
//! without progress. The detector notices the pattern and produces advisory
//! text that rides along with the tool result; it never blocks a call and
//! never changes the result itself.
//!
//! Two calls are identical when the tool name and the full arguments match
//! after canonical serialization: object keys in increasing order at every
//! depth, array order kept, nothing omitted. Only consecutive occurrences of
//! one key count; a different key starts a new streak of one, a user message
//! clears the streak, and excluded tools neither count nor clear. A reminder
//! fires exactly when the streak equals a configured threshold (default
//! 3 / 5 / 8); the largest threshold gets the detailed wording.

use vstd::prelude::*;
use crate::text::{push_str, push_char, push_decimal, decimal, lex_lt, lex_less, str_eq, chars_of,
    lemma_lex_lt_irreflexive, lemma_lex_lt_transitive, lemma_lex_lt_total};
use crate::context_budget::hex_char;

verus! {

broadcast use vstd::string::group_string_axioms;

/// Marks where the advisory context starts after the untouched result text.
pub const RESULT_CONTEXT_MARKER: &'static str = "[repetition-advisory]";

// ---------------------------------------------------------------------------
// Argument values
// ---------------------------------------------------------------------------

/// A JSON value as the detector reads it. Numbers carry their JSON text.
#[derive(Debug, PartialEq, Eq)]
pub enum JsonValue {
    Null,
    Bool(bool),
    /// The JSON rendering of a number, e.g. `1` or `2.5`.
    Number(String),
    Str(String),
    Array(Vec<JsonValue>),
    Object(JsonObject),
}

/// A JSON object: entries in strictly increasing key order (the order of
/// the keys' UTF-8 bytes), each key once.
#[derive(Debug, PartialEq, Eq)]
pub struct JsonObject {
    entries: Vec<(String, JsonValue)>,
}

/// How `serde_json` writes one character inside a string literal: `"` and
/// `\` behind a backslash; backspace, tab, line feed, form feed and carriage
/// return as `\b`, `\t`, `\n`, `\f`, `\r`; any other character below
/// U+0020 as `\u00` and two lowercase hex digits; everything else as itself.
pub open spec fn json_char(c: char) -> Seq<char> {
    if c == '"' || c == '\\' {
        seq!['\\', c]
    } else if c == '\u{8}' {
        seq!['\\', 'b']
    } else if c == '\t' {
        seq!['\\', 't']
    } else if c == '\n' {
        seq!['\\', 'n']
    } else if c == '\u{c}' {
        seq!['\\', 'f']
    } else if c == '\r' {
        seq!['\\', 'r']
    } else if (c as u32) < 0x20 {
        seq!['\\', 'u', '0', '0', hex_char((c as u32 / 16) as nat), hex_char((c as u32 % 16) as nat)]
    } else {
        seq![c]
    }
}

/// The escaped characters of a string, in order.
pub open spec fn json_chars(s: Seq<char>) -> Seq<char>
    decreases s.len(),
{
    if s.len() == 0 {
        seq![]
    } else {
        json_chars(s.drop_last()) + json_char(s.last())
    }
}

/// The JSON string literal of `s`, as `serde_json` writes it: the escaped
/// characters between double quotes.
pub open spec fn json_string_text(s: Seq<char>) -> Seq<char> {
    seq!['"'] + json_chars(s) + seq!['"']
}

/// Renders a string as a JSON string literal.
///
/// Trusted: calls `serde_json::to_string` on a `&str`, which never fails
/// there and writes the quoted literal that its escape table gives
/// ([`json_string_text`]).
#[verifier::external_body]
fn json_string(s: &str) -> (t: String)
    ensures
        t@ == json_string_text(s@),
{
    match serde_json::to_string(s) {
        Ok(t) => t,
        Err(_) => String::new(),
    }
}

pub open spec fn bool_text(b: bool) -> Seq<char> {
    if b { "true"@ } else { "false"@ }
}

/// Canonical serialization: scalars as JSON text, arrays in order, objects
/// with their entries in key order, no whitespace.
pub closed spec fn canonical(v: JsonValue) -> Seq<char>
    decreases v,
{
    match v {
        JsonValue::Null => "null"@,
        JsonValue::Bool(b) => bool_text(b),
        JsonValue::Number(t) => t@,
        JsonValue::Str(s) => json_string_text(s@),
        JsonValue::Array(items) => seq!['['] + canonical_items(items@) + seq![']'],
        JsonValue::Object(o) => seq!['{'] + canonical_entries(o.entries@) + seq!['}'],
    }
}

/// Array elements, comma separated.
pub closed spec fn canonical_items(items: Seq<JsonValue>) -> Seq<char>
    decreases items,
{
    if items.len() == 0 {
        Seq::empty()
    } else {
        let before = canonical_items(items.drop_last());
        let sep: Seq<char> = if items.len() > 1 { seq![','] } else { Seq::empty() };
        before + sep + canonical(items.last())
    }
}

/// Object entries as `"key":value`, comma separated.
pub closed spec fn canonical_entries(es: Seq<(String, JsonValue)>) -> Seq<char>
    decreases es,
{
    if es.len() == 0 {
        Seq::empty()
    } else {
        let before = canonical_entries(es.drop_last());
        let sep: Seq<char> = if es.len() > 1 { seq![','] } else { Seq::empty() };
        before + sep + json_string_text(es.last().0@) + seq![':'] + canonical(es.last().1)
    }
}

/// Entries in strictly increasing key order.
pub open spec fn keys_increasing(es: Seq<(String, JsonValue)>) -> bool {
    forall|i: int, j: int| 0 <= i < j < es.len() ==> lex_lt(#[trigger] es[i].0@, #[trigger] es[j].0@)
}

impl JsonObject {
    pub closed spec fn view_entries(&self) -> Seq<(String, JsonValue)> {
        self.entries@
    }

    pub closed spec fn wf(&self) -> bool {
        keys_increasing(self.entries@)
    }

    /// An empty object.
    pub fn new() -> (o: JsonObject)
        ensures
            o.wf(),
            o.view_entries().len() == 0,
    {
        JsonObject { entries: Vec::new() }
    }

    /// Sets `key` to `value`: replaces the value of an existing key in place,
    /// otherwise inserts the entry at its place in key order.
    pub fn insert(&mut self, key: String, value: JsonValue)
        requires
            old(self).wf(),
        ensures
            final(self).wf(),
            ({
                let es = old(self).view_entries();
                if exists|i: int| 0 <= i < es.len() && #[trigger] es[i].0@ == key@ {
                    exists|i: int|
                        0 <= i < es.len() && #[trigger] es[i].0@ == key@ && final(self).view_entries()
                            == es.update(i, (es[i].0, value))
                } else {
                    exists|p: int|
                        0 <= p <= es.len() && final(self).view_entries() == es.insert(p, (key, value))
                }
            }),
    {
        let ghost es = self.entries@;
        let mut i: usize = 0;
        while i < self.entries.len() && lex_less(self.entries[i].0.as_str(), key.as_str())
            invariant
                es == self.entries@,
                keys_increasing(es),
                i <= es.len(),
                forall|k: int| 0 <= k < i ==> lex_lt(#[trigger] es[k].0@, key@),
            decreases es.len() - i,
        {
            i = i + 1;
        }
        if i < self.entries.len() && str_eq(self.entries[i].0.as_str(), key.as_str()) {
            let old_key = self.entries[i].0.clone();
            self.entries.set(i, (old_key, value));
            proof {
                assert(self.entries@ =~= es.update(i as int, (es[i as int].0, value)));
                assert forall|a: int, b: int| 0 <= a < b < self.entries@.len() implies lex_lt(
                    #[trigger] self.entries@[a].0@,
                    #[trigger] self.entries@[b].0@,
                ) by {
                    assert(lex_lt(es[a].0@, es[b].0@));
                }
            }
        } else {
            proof {
                if i < es.len() {
                    assert(es[i as int].0@ != key@);
                    lemma_lex_lt_total(es[i as int].0@, key@);
                    assert forall|k: int| i <= k < es.len() implies lex_lt(key@, #[trigger] es[k].0@) by {
                        if k > i {
                            assert(lex_lt(es[i as int].0@, es[k].0@));
                            lemma_lex_lt_transitive(key@, es[i as int].0@, es[k].0@);
                        }
                    }
                }
                assert forall|k: int| 0 <= k < es.len() implies es[k].0@ != key@ by {
                    if k < i {
                        lemma_lex_lt_irreflexive(key@);
                    } else {
                        assert(lex_lt(key@, es[k].0@));
                        lemma_lex_lt_irreflexive(key@);
                    }
                }
            }
            let ghost entry = (key, value);
            self.entries.insert(i, (key, value));
            proof {
                let n = self.entries@;
                assert(n == es.insert(i as int, entry));
                assert forall|a: int, b: int| 0 <= a < b < n.len() implies lex_lt(
                    #[trigger] n[a].0@,
                    #[trigger] n[b].0@,
                ) by {
                    if b < i {
                        assert(lex_lt(es[a].0@, es[b].0@));
                    } else if b == i {
                    } else if a < i {
                        assert(lex_lt(es[a].0@, es[b - 1].0@));
                    } else if a == i {
                    } else {
                        assert(lex_lt(es[a - 1].0@, es[b - 1].0@));
                    }
                }
            }
        }
    }

    /// The number of entries.
    pub fn len(&self) -> (n: usize)
        ensures
            n == self.view_entries().len(),
    {
        self.entries.len()
    }
}

impl JsonValue {
    /// An object built from entries in any order; a repeated key keeps its
    /// last value.
    pub fn object(entries: Vec<(String, JsonValue)>) -> (v: JsonValue)
        ensures
            v is Object,
            v->Object_0.wf(),
    {
        let mut o = JsonObject::new();
        let mut entries = entries;
        while entries.len() > 0
            invariant
                o.wf(),
            decreases entries@.len(),
        {
            let (k, val) = entries.remove(0);
            o.insert(k, val);
        }
        JsonValue::Object(o)
    }
}

/// Appends the canonical serialization of `v`.
fn write_canonical(v: &JsonValue, out: &mut String)
    ensures
        final(out)@ == old(out)@ + canonical(*v),
    decreases v,
{
    match v {
        JsonValue::Null => push_str(out, "null"),
        JsonValue::Bool(b) => if *b {
            push_str(out, "true")
        } else {
            push_str(out, "false")
        },
        JsonValue::Number(t) => push_str(out, t.as_str()),
        JsonValue::Str(s) => {
            let quoted = json_string(s.as_str());
            push_str(out, quoted.as_str());
        },
        JsonValue::Array(items) => {
            let ghost start = out@;
            push_char(out, '[');
            let mut i: usize = 0;
            proof {
                assert(items@.take(0) =~= Seq::<JsonValue>::empty());
            }
            while i < items.len()
                invariant
                    *v == JsonValue::Array(*items),
                    i <= items@.len(),
                    out@ == start + seq!['['] + canonical_items(items@.take(i as int)),
                decreases items@.len() - i,
            {
                let ghost before = out@;
                if i > 0 {
                    push_char(out, ',');
                }
                proof {
                    assert(decreases_to!(*v => (*v)->Array_0));
                    assert((*v)->Array_0 == *items);
                    assert(decreases_to!(*items => items@));
                    assert(decreases_to!(items@ => items@[i as int]));
                    assert(decreases_to!(*v => items@[i as int]));
                }
                write_canonical(&items[i], out);
                proof {
                    let t = items@.take(i + 1);
                    assert(t.drop_last() =~= items@.take(i as int));
                    assert(t.last() == items@[i as int]);
                    let sep: Seq<char> = if t.len() > 1 { seq![','] } else { Seq::empty() };
                    assert(out@ =~= start + seq!['['] + (canonical_items(items@.take(i as int)) + sep
                        + canonical(items@[i as int])));
                }
                i = i + 1;
            }
            push_char(out, ']');
            proof {
                assert(items@.take(items@.len() as int) =~= items@);
            }
        },
        JsonValue::Object(o) => {
            let ghost start = out@;
            let es = &o.entries;
            push_char(out, '{');
            let mut i: usize = 0;
            proof {
                assert(es@.take(0) =~= Seq::<(String, JsonValue)>::empty());
            }
            while i < es.len()
                invariant
                    *v == JsonValue::Object(*o),
                    es == &o.entries,
                    i <= es@.len(),
                    out@ == start + seq!['{'] + canonical_entries(es@.take(i as int)),
                decreases es@.len() - i,
            {
                if i > 0 {
                    push_char(out, ',');
                }
                let quoted = json_string(es[i].0.as_str());
                push_str(out, quoted.as_str());
                push_char(out, ':');
                proof {
                    assert(decreases_to!(*v => (*v)->Object_0));
                    assert((*v)->Object_0 == *o);
                    assert(decreases_to!(*o => o.entries));
                    assert(decreases_to!(o.entries => o.entries@));
                    assert(i < o.entries@.len());
                    assert(decreases_to!(o.entries@ => o.entries@[i as int]));
                    assert(decreases_to!(o.entries@[i as int] => o.entries@[i as int].1));
                    assert(decreases_to!(*v => es@[i as int].1));
                }
                write_canonical(&es[i].1, out);
                proof {
                    let t = es@.take(i + 1);
                    assert(t.drop_last() =~= es@.take(i as int));
                    assert(t.last() == es@[i as int]);
                    let sep: Seq<char> = if t.len() > 1 { seq![','] } else { Seq::empty() };
                    assert(out@ =~= start + seq!['{'] + (canonical_entries(es@.take(i as int)) + sep
                        + json_string_text(es@[i as int].0@) + seq![':'] + canonical(es@[i as int].1)));
                }
                i = i + 1;
            }
            push_char(out, '}');
            proof {
                assert(es@.take(es@.len() as int) =~= es@);
            }
        },
    }
}

/// The canonical serialization of the full arguments: the identity input,
/// never truncated.
pub fn canonical_arguments(arguments: &JsonValue) -> (s: String)
    ensures
        s@ == canonical(*arguments),
{
    let mut out = String::new();
    write_canonical(arguments, &mut out);
    proof {
        assert(out@ =~= canonical(*arguments));
    }
    out
}

/// The identity of a call: tool name, a unit separator, and the canonical
/// full arguments.
pub open spec fn chain_key_text(tool_name: Seq<char>, arguments: JsonValue) -> Seq<char> {
    tool_name + seq!['\u{1f}'] + canonical(arguments)
}

/// The chain key of a call.
pub fn chain_key(tool_name: &str, arguments: &JsonValue) -> (k: String)
    ensures
        k@ == chain_key_text(tool_name@, *arguments),
{
    let mut k = String::new();
    push_str(&mut k, tool_name);
    push_char(&mut k, '\u{1f}');
    let canonical_text = canonical_arguments(arguments);
    push_str(&mut k, canonical_text.as_str());
    k
}

/// The display preview: the canonical text, cut to `max_chars` characters
/// with an ellipsis appended when it is longer.
pub open spec fn preview_text(canonical_text: Seq<char>, max_chars: nat) -> Seq<char> {
    if canonical_text.len() <= max_chars {
        canonical_text
    } else {
        canonical_text.take(max_chars as int).push('…')
    }
}

/// The parameter preview, for display only.
pub fn params_preview(arguments: &JsonValue, max_chars: usize) -> (p: String)
    ensures
        p@ == preview_text(canonical(*arguments), max_chars as nat),
{
    let canonical_text = canonical_arguments(arguments);
    let cs = chars_of(canonical_text.as_str());
    if cs.len() <= max_chars {
        return canonical_text;
    }
    let mut preview = String::new();
    let mut i: usize = 0;
    while i < max_chars
        invariant
            i <= max_chars,
            max_chars < cs@.len(),
            preview@ == cs@.take(i as int),
        decreases max_chars - i,
    {
        push_char(&mut preview, cs[i]);
        proof {
            assert(cs@.take(i + 1) =~= cs@.take(i as int).push(cs@[i as int]));
        }
        i = i + 1;
    }
    push_char(&mut preview, '…');
    preview
}

// ---------------------------------------------------------------------------
// Policy and detector
// ---------------------------------------------------------------------------

/// How strongly a reminder is worded.
#[derive(Debug, Clone, Copy, PartialEq, Eq, Structural)]
pub enum AdvisoryLevel {
    /// A short nudge at the lower thresholds.
    Gentle,
    /// The full reminder at the largest threshold.
    Detailed,
}

/// One reminder.
#[derive(Debug, Clone, PartialEq, Eq)]
pub struct RepetitionAdvisory {
    pub tool_name: String,
    /// The streak length that fired it.
    pub occurrence: u32,
    pub level: AdvisoryLevel,
    /// The truncated parameter preview.
    pub params_preview: String,
    /// The advisory body carried to the model.
    pub text: String,
}

/// Thresholds, excluded tools and preview budget.
#[derive(Debug, Clone, PartialEq, Eq)]
pub struct RepetitionPolicy {
    /// Streak counts at which a reminder fires; the largest is detailed. An
    /// empty list disables reminders.
    pub thresholds: Vec<u32>,
    /// Tools that are never counted and never clear a streak.
    pub excluded_tools: Vec<String>,
    /// Characters of the displayed parameter preview.
    pub preview_chars: usize,
}

impl Default for RepetitionPolicy {
    fn default() -> (p: RepetitionPolicy)
        ensures
            p.thresholds@ == seq![3u32, 5u32, 8u32],
            p.excluded_tools@.len() == 0,
            p.preview_chars == 120,
    {
        RepetitionPolicy { thresholds: vec![3, 5, 8], excluded_tools: Vec::new(), preview_chars: 120 }
    }
}

/// Whether `tool` is on the exclusion list.
pub open spec fn excluded(tools: Seq<String>, tool: Seq<char>) -> bool {
    exists|i: int| 0 <= i < tools.len() && #[trigger] tools[i]@ == tool
}

/// The reminder level at a streak count: none unless the count is a
/// threshold; detailed at the largest threshold, gentle otherwise.
pub open spec fn level_at(thresholds: Seq<u32>, occurrence: u32) -> Option<AdvisoryLevel> {
    if !thresholds.contains(occurrence) {
        None
    } else if forall|k: int| 0 <= k < thresholds.len() ==> #[trigger] thresholds[k] <= occurrence {
        Some(AdvisoryLevel::Detailed)
    } else {
        Some(AdvisoryLevel::Gentle)
    }
}

impl RepetitionPolicy {
    /// Replaces the thresholds.
    pub fn with_thresholds(self, thresholds: Vec<u32>) -> (p: RepetitionPolicy)
        ensures
            p.thresholds@ == thresholds@,
            p.excluded_tools@ == self.excluded_tools@,
            p.preview_chars == self.preview_chars,
    {
        let mut p = self;
        p.thresholds = thresholds;
        p
    }

    /// Replaces the exclusion list.
    pub fn with_excluded_tools(self, tools: Vec<String>) -> (p: RepetitionPolicy)
        ensures
            p.thresholds@ == self.thresholds@,
            p.excluded_tools@ == tools@,
            p.preview_chars == self.preview_chars,
    {
        let mut p = self;
        p.excluded_tools = tools;
        p
    }

    /// Replaces the preview budget.
    pub fn with_preview_chars(self, chars: usize) -> (p: RepetitionPolicy)
        ensures
            p.thresholds@ == self.thresholds@,
            p.excluded_tools@ == self.excluded_tools@,
            p.preview_chars == chars,
    {
        let mut p = self;
        p.preview_chars = chars;
        p
    }

    /// Whether a tool is excluded from counting and from clearing.
    pub fn is_excluded(&self, tool_name: &str) -> (r: bool)
        ensures
            r == excluded(self.excluded_tools@, tool_name@),
    {
        let mut i: usize = 0;
        while i < self.excluded_tools.len()
            invariant
                i <= self.excluded_tools@.len(),
                forall|k: int| 0 <= k < i ==> self.excluded_tools@[k]@ != tool_name@,
            decreases self.excluded_tools@.len() - i,
        {
            if str_eq(self.excluded_tools[i].as_str(), tool_name) {
                return true;
            }
            i = i + 1;
        }
        false
    }

    /// The reminder level for a streak count, if that count is a threshold.
    pub fn level_for(&self, occurrence: u32) -> (r: Option<AdvisoryLevel>)
        ensures
            r == level_at(self.thresholds@, occurrence),
    {
        let t = &self.thresholds;
        let mut found = false;
        let mut largest = true;
        let mut i: usize = 0;
        while i < t.len()
            invariant
                i <= t@.len(),
                found == exists|k: int| 0 <= k < i && t@[k] == occurrence,
                largest == forall|k: int| 0 <= k < i ==> #[trigger] t@[k] <= occurrence,
            decreases t@.len() - i,
        {
            if t[i] == occurrence {
                found = true;
            }
            if t[i] > occurrence {
                largest = false;
            }
            i = i + 1;
        }
        if !found {
            proof {
                assert(!t@.contains(occurrence));
            }
            None
        } else {
            proof {
                let k = choose|k: int| 0 <= k < t@.len() && t@[k] == occurrence;
                assert(t@.contains(occurrence));
            }
            if largest {
                Some(AdvisoryLevel::Detailed)
            } else {
                Some(AdvisoryLevel::Gentle)
            }
        }
    }
}

/// The gentle reminder.
pub open spec fn gentle_text(occurrence: u32, tool: Seq<char>) -> Seq<char> {
    "同一工具调用已连续重复 "@ + decimal(occurrence as nat) + " 次（工具 "@ + tool
        + "，参数完全相同）。本提醒不影响本次执行与结果。若继续原样重复很可能原地打转，建议调整参数或换一个角度后再试。"@
}

/// The detailed reminder: the attempt count, the parameter preview, and the
/// suggestion to change angle or ask the user.
pub open spec fn detailed_text(occurrence: u32, tool: Seq<char>, preview: Seq<char>) -> Seq<char> {
    "同一工具调用已连续重复 "@ + decimal(occurrence as nat) + " 次（工具 "@ + tool + "，参数完全相同）。已尝试次数："@
        + decimal(occurrence as nat) + "。参数预览："@ + preview
        + "。本提醒不影响本次执行与结果。继续原样重复几乎必然原地打转：请换一个角度处理当前问题，或直接向用户询问下一步该怎么做。"@
}

pub open spec fn advisory_body(level: AdvisoryLevel, occurrence: u32, tool: Seq<char>, preview: Seq<char>) -> Seq<char> {
    match level {
        AdvisoryLevel::Gentle => gentle_text(occurrence, tool),
        AdvisoryLevel::Detailed => detailed_text(occurrence, tool, preview),
    }
}

fn advisory_text(level: AdvisoryLevel, tool_name: &str, occurrence: u32, params_preview: &str) -> (t: String)
    ensures
        t@ == advisory_body(level, occurrence, tool_name@, params_preview@),
{
    let mut t = String::new();
    push_str(&mut t, "同一工具调用已连续重复 ");
    push_decimal(&mut t, occurrence as u64);
    push_str(&mut t, " 次（工具 ");
    push_str(&mut t, tool_name);
    match level {
        AdvisoryLevel::Gentle => {
            push_str(
                &mut t,
                "，参数完全相同）。本提醒不影响本次执行与结果。若继续原样重复很可能原地打转，建议调整参数或换一个角度后再试。",
            );
        },
        AdvisoryLevel::Detailed => {
            push_str(&mut t, "，参数完全相同）。已尝试次数：");
            push_decimal(&mut t, occurrence as u64);
            push_str(&mut t, "。参数预览：");
            push_str(&mut t, params_preview);
            push_str(
                &mut t,
                "。本提醒不影响本次执行与结果。继续原样重复几乎必然原地打转：请换一个角度处理当前问题，或直接向用户询问下一步该怎么做。",
            );
        },
    }
    t
}

/// Streak state of one session.
pub struct RepetitionDetector {
    policy: RepetitionPolicy,
    streak_key: Option<String>,
    streak_tool: String,
    streak_preview: String,
    streak: u32,
}

pub open spec fn opt_view(o: Option<String>) -> Option<Seq<char>> {
    match o {
        Some(s) => Some(s@),
        None => None,
    }
}

pub open spec fn bump32(n: u32) -> u32 {
    if n == u32::MAX { n } else { (n + 1) as u32 }
}

impl RepetitionDetector {
    pub closed spec fn policy_view(&self) -> RepetitionPolicy {
        self.policy
    }

    /// The running chain key.
    pub closed spec fn key_view(&self) -> Option<Seq<char>> {
        opt_view(self.streak_key)
    }

    /// The tool and preview of the running streak.
    pub closed spec fn tool_view(&self) -> Seq<char> {
        self.streak_tool@
    }

    pub closed spec fn preview_view(&self) -> Seq<char> {
        self.streak_preview@
    }

    pub closed spec fn streak_view(&self) -> u32 {
        self.streak
    }

    /// A detector with no streak under one policy.
    pub fn new(policy: RepetitionPolicy) -> (d: RepetitionDetector)
        ensures
            d.policy_view() == policy,
            d.key_view() is None,
            d.streak_view() == 0,
            d.tool_view().len() == 0,
            d.preview_view().len() == 0,
    {
        RepetitionDetector {
            policy,
            streak_key: None,
            streak_tool: String::new(),
            streak_preview: String::new(),
            streak: 0,
        }
    }

    /// The active policy.
    pub fn policy(&self) -> (p: &RepetitionPolicy)
        ensures
            *p == self.policy_view(),
    {
        &self.policy
    }

    /// The current consecutive count.
    pub fn streak(&self) -> (n: u32)
        ensures
            n == self.streak_view(),
    {
        self.streak
    }

    /// The running chain key, if any.
    pub fn streak_key(&self) -> (k: Option<&str>)
        ensures
            match k {
                Some(s) => self.key_view() == Some(s@),
                None => self.key_view() is None,
            },
    {
        match &self.streak_key {
            Some(k) => Some(k.as_str()),
            None => None,
        }
    }

    /// A user message clears the streak.
    pub fn observe_user_message(&mut self)
        ensures
            final(self).policy_view() == old(self).policy_view(),
            final(self).key_view() is None,
            final(self).streak_view() == 0,
            final(self).tool_view().len() == 0,
            final(self).preview_view().len() == 0,
    {
        self.streak_key = None;
        self.streak_tool = String::new();
        self.streak_preview = String::new();
        self.streak = 0;
    }

    /// Observes one executed call and returns a reminder when the streak
    /// reaches a threshold. Excluded tools change nothing. The call itself
    /// is never blocked here.
    pub fn observe_tool_call(&mut self, tool_name: &str, arguments: &JsonValue) -> (r: Option<RepetitionAdvisory>)
        ensures
            final(self).policy_view() == old(self).policy_view(),
            excluded(old(self).policy_view().excluded_tools@, tool_name@) ==> r is None && final(self).key_view()
                == old(self).key_view() && final(self).streak_view() == old(self).streak_view()
                && final(self).tool_view() == old(self).tool_view() && final(self).preview_view()
                == old(self).preview_view(),
            !excluded(old(self).policy_view().excluded_tools@, tool_name@) ==> {
                let key = chain_key_text(tool_name@, *arguments);
                let same = old(self).key_view() == Some(key);
                let streak = if same { bump32(old(self).streak_view()) } else { 1u32 };
                let preview = if same {
                    old(self).preview_view()
                } else {
                    preview_text(canonical(*arguments), old(self).policy_view().preview_chars as nat)
                };
                &&& final(self).key_view() == Some(key)
                &&& final(self).streak_view() == streak
                &&& final(self).tool_view() == if same { old(self).tool_view() } else { tool_name@ }
                &&& final(self).preview_view() == preview
                &&& match level_at(old(self).policy_view().thresholds@, streak) {
                    None => r is None,
                    Some(level) => r is Some && r->0.tool_name@ == tool_name@ && r->0.occurrence == streak
                        && r->0.level == level && r->0.params_preview@ == preview && r->0.text@
                        == advisory_body(level, streak, tool_name@, preview),
                }
            },
    {
        if self.policy.is_excluded(tool_name) {
            return None;
        }
        let key = chain_key(tool_name, arguments);
        let same = match &self.streak_key {
            Some(k) => str_eq(k.as_str(), key.as_str()),
            None => false,
        };
        if same {
            self.streak = if self.streak == u32::MAX { self.streak } else { self.streak + 1 };
        } else {
            self.streak_key = Some(key);
            let mut tool = String::new();
            push_str(&mut tool, tool_name);
            self.streak_tool = tool;
            self.streak_preview = params_preview(arguments, self.policy.preview_chars);
            self.streak = 1;
        }
        let level = match self.policy.level_for(self.streak) {
            Some(level) => level,
            None => {
                return None;
            },
        };
        let text = advisory_text(level, tool_name, self.streak, self.streak_preview.as_str());
        let mut tool = String::new();
        push_str(&mut tool, tool_name);
        Some(
            RepetitionAdvisory {
                tool_name: tool,
                occurrence: self.streak,
                level,
                params_preview: self.streak_preview.clone(),
                text,
            },
        )
    }
}

impl Default for RepetitionDetector {
    fn default() -> (d: RepetitionDetector)
        ensures
            d.policy_view().thresholds@ == seq![3u32, 5u32, 8u32],
            d.policy_view().excluded_tools@.len() == 0,
            d.policy_view().preview_chars == 120,
            d.key_view() is None,
            d.streak_view() == 0,
    {
        RepetitionDetector::new(RepetitionPolicy::default())
    }
}

/// The transported message text: the untouched result rendering, a blank
/// line, the marker line, then the advisory body.
pub fn append_result_context(rendered_result: &str, advisory: &RepetitionAdvisory) -> (t: String)
    ensures
        t@ == rendered_result@ + "\n\n"@ + RESULT_CONTEXT_MARKER@ + "\n"@ + advisory.text@,
{
    let mut t = String::new();
    push_str(&mut t, rendered_result);
    push_str(&mut t, "\n\n");
    push_str(&mut t, RESULT_CONTEXT_MARKER);
    push_str(&mut t, "\n");
    push_str(&mut t, advisory.text.as_str());
    t
}

} // verus!
