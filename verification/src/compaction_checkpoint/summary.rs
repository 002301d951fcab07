//! The summary surface: a fixed eight-section template, the request handed
//! to the summary writer, and the accept-or-refuse validation.
//!
//! The one call that writes prose happens outside this library; its answer
//! is only ever accepted by [`validate_summary`], which refuses anything
//! empty, off-template, not strictly smaller than what it replaces, or that
//! drops a prior summary's key facts. A refusal means no compaction at all.

use vstd::prelude::*;
use vstd::string::StrSliceExecFns;
use crate::cron::{split_chars, split_on, trim, trim_start, trim_end, trimmed, views, lemma_trim_shape};
use crate::context_budget::all_ws;
use crate::text::{
    chars_of, find_chars, first_occurrence, is_whitespace_char, push_char, push_decimal, push_str, string_from_chars,
    is_ws, occurs, occurs_at, lemma_first_occurrence_at,
};

verus! {

broadcast use vstd::string::group_string_axioms;

/// The fixed section headers, in template order: intent, concepts, files,
/// errors, to-dos, current state, next steps, key facts.
pub const SUMMARY_SECTION_HEADERS: [&'static str; 8] = [
    "## 意图",
    "## 概念",
    "## 文件",
    "## 错误",
    "## 待办",
    "## 当前",
    "## 下一步",
    "## 关键",
];

/// Header `i` of the template.
pub open spec fn header(i: int) -> Seq<char> {
    if i == 0 {
        "## 意图"@
    } else if i == 1 {
        "## 概念"@
    } else if i == 2 {
        "## 文件"@
    } else if i == 3 {
        "## 错误"@
    } else if i == 4 {
        "## 待办"@
    } else if i == 5 {
        "## 当前"@
    } else if i == 6 {
        "## 下一步"@
    } else {
        "## 关键"@
    }
}

fn header_str(i: usize) -> (s: &'static str)
    requires
        i < 8,
    ensures
        s@ == header(i as int),
{
    if i == 0 {
        "## 意图"
    } else if i == 1 {
        "## 概念"
    } else if i == 2 {
        "## 文件"
    } else if i == 3 {
        "## 错误"
    } else if i == 4 {
        "## 待办"
    } else if i == 5 {
        "## 当前"
    } else if i == 6 {
        "## 下一步"
    } else {
        "## 关键"
    }
}

/// The eight template sections.
#[derive(Debug, Clone, PartialEq, Eq, Default)]
pub struct SummarySections {
    /// What the conversation is trying to do.
    pub intent: String,
    /// Concepts, decisions and constraints established.
    pub concepts: String,
    /// Files, paths and resources named.
    pub files: String,
    /// Errors hit and how they were resolved or left.
    pub errors: String,
    /// Open to-dos.
    pub todos: String,
    /// Where things stand.
    pub current: String,
    /// Immediate next steps.
    pub next: String,
    /// Key facts that must survive compaction.
    pub keys: String,
}

/// Body `i` of the sections.
pub open spec fn body(s: SummarySections, i: int) -> Seq<char> {
    if i == 0 {
        s.intent@
    } else if i == 1 {
        s.concepts@
    } else if i == 2 {
        s.files@
    } else if i == 3 {
        s.errors@
    } else if i == 4 {
        s.todos@
    } else if i == 5 {
        s.current@
    } else if i == 6 {
        s.next@
    } else {
        s.keys@
    }
}

/// The template text from section `i` on: each header, a newline, the
/// trimmed body, a newline.
pub open spec fn rendered_from(s: SummarySections, i: int) -> Seq<char>
    decreases 8 - i,
{
    if i >= 8 {
        seq![]
    } else {
        header(i) + seq!['\n'] + trim(body(s, i)) + seq!['\n'] + rendered_from(s, i + 1)
    }
}

/// Where section `i` ends, given that its body starts at `start` in `rest`:
/// at the next header, or at the end.
pub open spec fn section_end(rest: Seq<char>, start: int, i: int) -> int {
    if i < 7 {
        let g = first_occurrence(rest.skip(start), header(i + 1));
        if g >= 0 {
            start + g
        } else {
            rest.len() as int
        }
    } else {
        rest.len() as int
    }
}

/// The trimmed bodies of sections `i..8` read from `rest`, each header
/// searched after the previous section; none when a header is missing.
pub open spec fn parse_bodies(rest: Seq<char>, i: int) -> Option<Seq<Seq<char>>>
    decreases 8 - i,
{
    if i >= 8 {
        Some(seq![])
    } else {
        let f = first_occurrence(rest, header(i));
        if f < 0 {
            None
        } else {
            let start = f + header(i).len();
            let end = section_end(rest, start, i);
            match parse_bodies(rest.skip(end), i + 1) {
                Some(bs) => Some(seq![trim(rest.subrange(start, end))] + bs),
                None => None,
            }
        }
    }
}

/// The trimmed, non-empty lines of `ls`.
pub open spec fn kept_lines(ls: Seq<Seq<char>>) -> Seq<Seq<char>>
    decreases ls.len(),
{
    if ls.len() == 0 {
        seq![]
    } else {
        let prev = kept_lines(ls.drop_last());
        let t = trim(ls.last());
        if t.len() > 0 {
            prev.push(t)
        } else {
            prev
        }
    }
}

/// The key facts of a summary text: the trimmed non-empty lines of its
/// key-facts section; none when it is off-template.
pub open spec fn key_lines_of(text: Seq<char>) -> Seq<Seq<char>> {
    match parse_bodies(text, 0) {
        Some(bs) => kept_lines(split_on(bs[7], '\n')),
        None => seq![],
    }
}

proof fn lemma_header_plain(i: int)
    requires
        0 <= i < 8,
    ensures
        header(i).len() > 0,
        forall|k: int| 0 <= k < header(i).len() ==> header(i)[k] != '\n',
{
    reveal_strlit("## 意图");
    reveal_strlit("## 概念");
    reveal_strlit("## 文件");
    reveal_strlit("## 错误");
    reveal_strlit("## 待办");
    reveal_strlit("## 当前");
    reveal_strlit("## 下一步");
    reveal_strlit("## 关键");
}

/// A trimmed body between two newlines trims back to itself.
proof fn lemma_trim_padded(t: Seq<char>)
    requires
        t.len() == 0 || (!is_ws(t[0]) && !is_ws(t.last())),
    ensures
        trim(seq!['\n'] + t + seq!['\n']) == t,
{
    let a = seq!['\n'] + t + seq!['\n'];
    assert(is_ws('\n'));
    assert(a.drop_first() =~= t + seq!['\n']);
    let b = t + seq!['\n'];
    if t.len() == 0 {
        assert(b =~= seq!['\n']);
        assert(b.drop_first() =~= Seq::<char>::empty());
        assert(trim_start(b) == trim_start(b.drop_first()));
        assert(trim_start(a) == Seq::<char>::empty());
    } else {
        assert(b[0] == t[0]);
        assert(trim_start(b) == b);
        assert(trim_start(a) == b);
        assert(b.drop_last() =~= t);
        assert(trim_end(b) == trim_end(t));
        assert(trim_end(t) == t);
    }
}

/// After a newline-wrapped body that does not hold `h`, the first `h` is
/// the one that follows the body.
proof fn lemma_next_header_at(t: Seq<char>, r: Seq<char>, h: Seq<char>)
    requires
        h.len() > 0,
        forall|k: int| 0 <= k < h.len() ==> h[k] != '\n',
        !occurs(t, h),
        h.len() <= r.len(),
        r.subrange(0, h.len() as int) == h,
    ensures
        first_occurrence(seq!['\n'] + t + seq!['\n'] + r, h) == t.len() + 2,
{
    let a = seq!['\n'] + t + seq!['\n'];
    let x = a + r;
    assert(x =~= seq!['\n'] + t + seq!['\n'] + r);
    assert(x.subrange(a.len() as int, (a.len() + h.len()) as int) =~= r.subrange(0, h.len() as int));
    assert forall|p: int| 0 <= p < a.len() implies !occurs_at(x, h, p) by {
        if occurs_at(x, h, p) {
            let w = x.subrange(p, p + h.len());
            if p == 0 {
                assert(w[0] == x[0]);
            } else if p + h.len() > a.len() - 1 {
                assert(w[a.len() - 1 - p] == x[a.len() - 1]);
            } else {
                assert(t.subrange(p - 1, p - 1 + h.len()) =~= w);
                assert(occurs_at(t, h, p - 1));
            }
        }
    }
    lemma_first_occurrence_at(x, h, a.len() as int);
}

/// The rendered text from section `i` on parses back to the trimmed bodies
/// of those sections, when no body holds the header after it.
#[verifier::rlimit(40)]
proof fn lemma_rendered_parses(s: SummarySections, i: int)
    requires
        0 <= i <= 8,
        forall|j: int| i <= j < 7 ==> !occurs(#[trigger] trim(body(s, j)), header(j + 1)),
    ensures
        parse_bodies(rendered_from(s, i), i) == Some(Seq::new((8 - i) as nat, |k: int| trim(body(s, i + k)))),
    decreases 8 - i,
{
    if i < 8 {
        lemma_rendered_parses(s, i + 1);
        let h = header(i);
        let t = trim(body(s, i));
        let r = rendered_from(s, i + 1);
        let a = seq!['\n'] + t + seq!['\n'];
        let rest = rendered_from(s, i);
        lemma_header_plain(i);
        lemma_trim_shape(body(s, i));
        assert(rest =~= h + (a + r));
        assert(rest.subrange(0, h.len() as int) =~= h);
        lemma_first_occurrence_at(rest, h, 0);
        let start = h.len() as int;
        assert(rest.skip(start) =~= a + r);
        lemma_trim_padded(t);
        if i < 7 {
            let h2 = header(i + 1);
            lemma_header_plain(i + 1);
            assert(r =~= h2 + (seq!['\n'] + trim(body(s, i + 1)) + seq!['\n'] + rendered_from(s, i + 2)));
            assert(r.subrange(0, h2.len() as int) =~= h2);
            assert(!occurs(t, h2));
            lemma_next_header_at(t, r, h2);
            assert(a + r =~= seq!['\n'] + t + seq!['\n'] + r);
            let end = start + a.len();
            assert(rest.subrange(start, end) =~= a);
            assert(rest.skip(end) =~= r);
        } else {
            assert(r =~= Seq::<char>::empty());
            assert(rest.subrange(start, rest.len() as int) =~= a);
            assert(rest.skip(rest.len() as int) =~= Seq::<char>::empty());
        }
        assert(seq![t] + Seq::new((8 - (i + 1)) as nat, |k: int| trim(body(s, i + 1 + k))) =~= Seq::new(
            (8 - i) as nat,
            |k: int| trim(body(s, i + k)),
        ));
    }
}

/// Rendering the sections and parsing the text back gives every section's
/// trimmed body, provided no body holds the header of the section after it.
pub proof fn rendered_sections_parse_back(s: SummarySections)
    requires
        forall|j: int| 0 <= j < 7 ==> !occurs(#[trigger] trim(body(s, j)), header(j + 1)),
    ensures
        ({
            let bs = parse_bodies(rendered_from(s, 0), 0);
            &&& bs is Some
            &&& forall|i: int| 0 <= i < 8 ==> bs->Some_0[i] == trim(#[trigger] body(s, i))
        }),
{
    lemma_rendered_parses(s, 0);
}

fn body_of(s: &SummarySections, i: usize) -> (b: &String)
    requires
        i < 8,
    ensures
        b@ == body(*s, i as int),
{
    if i == 0 {
        &s.intent
    } else if i == 1 {
        &s.concepts
    } else if i == 2 {
        &s.files
    } else if i == 3 {
        &s.errors
    } else if i == 4 {
        &s.todos
    } else if i == 5 {
        &s.current
    } else if i == 6 {
        &s.next
    } else {
        &s.keys
    }
}

fn sub_chars(v: &Vec<char>, a: usize, b: usize) -> (r: Vec<char>)
    requires
        a <= b <= v@.len(),
    ensures
        r@ == v@.subrange(a as int, b as int),
{
    let mut r: Vec<char> = Vec::new();
    let mut i: usize = a;
    while i < b
        invariant
            a <= i <= b <= v@.len(),
            r@ == v@.subrange(a as int, i as int),
        decreases b - i,
    {
        r.push(v[i]);
        assert(v@.subrange(a as int, i as int + 1) =~= v@.subrange(a as int, i as int).push(v@[i as int]));
        i = i + 1;
    }
    r
}

impl SummarySections {
    /// The sections rendered into the fixed template text.
    pub fn render(&self) -> (out: String)
        ensures
            out@ == rendered_from(*self, 0),
    {
        let mut out = String::new();
        let mut i: usize = 0;
        while i < 8
            invariant
                i <= 8,
                out@ + rendered_from(*self, i as int) == rendered_from(*self, 0),
            decreases 8 - i,
        {
            let ghost before = out@;
            push_str(&mut out, header_str(i));
            push_char(&mut out, '\n');
            let b = body_of(self, i);
            let cs = chars_of(b.as_str());
            let t = trimmed(cs.as_slice());
            let ts = string_from_chars(t.as_slice());
            push_str(&mut out, ts.as_str());
            push_char(&mut out, '\n');
            assert(out@ + rendered_from(*self, i as int + 1) =~= before + rendered_from(*self, i as int));
            i = i + 1;
        }
        assert(out@ + rendered_from(*self, 8) =~= out@);
        out
    }

    /// Parses template text back into sections; `None` when a header is
    /// missing or out of order.
    pub fn parse(text: &str) -> (r: Option<Self>)
        ensures
            match parse_bodies(text@, 0) {
                Some(bs) => r matches Some(s) && forall|i: int| 0 <= i < 8 ==> body(s, i) == bs[i],
                None => r is None,
            },
    {
        let mut rest = chars_of(text);
        let mut bodies: Vec<Vec<char>> = Vec::new();
        let mut i: usize = 0;
        proof {
            assert(views(bodies@) =~= Seq::<Seq<char>>::empty());
            assert(parse_bodies(text@, 0) == match parse_bodies(rest@, 0) {
                Some(bs) => Some(views(bodies@) + bs),
                None => None::<Seq<Seq<char>>>,
            }) by {
                match parse_bodies(rest@, 0) {
                    Some(bs) => {
                        assert(views(bodies@) + bs =~= bs);
                    },
                    None => {},
                }
            }
        }
        while i < 8
            invariant
                i <= 8,
                views(bodies@).len() == i,
                parse_bodies(text@, 0) == match parse_bodies(rest@, i as int) {
                    Some(bs) => Some(views(bodies@) + bs),
                    None => None::<Seq<Seq<char>>>,
                },
            decreases 8 - i,
        {
            let h = chars_of(header_str(i));
            let f = match find_chars(rest.as_slice(), h.as_slice()) {
                Some(f) => f,
                None => {
                    return None;
                },
            };
            proof {
                lemma_occurrence_fits(rest@, h@);
            }
            let rest_len = rest.len();
            assert(f + h@.len() <= rest_len);
            let start = f + h.len();
            let end: usize = if i < 7 {
                let tail = sub_chars(&rest, start, rest.len());
                assert(tail@ =~= rest@.skip(start as int));
                let next = chars_of(header_str(i + 1));
                match find_chars(tail.as_slice(), next.as_slice()) {
                    Some(g) => {
                        proof {
                            lemma_occurrence_fits(tail@, next@);
                        }
                        assert(start + g <= rest_len);
                        start + g
                    },
                    None => rest.len(),
                }
            } else {
                rest.len()
            };
            let piece = sub_chars(&rest, start, end);
            let body = trimmed(piece.as_slice());
            let ghost before = bodies@;
            let ghost body_view = body@;
            bodies.push(body);
            let new_rest = sub_chars(&rest, end, rest.len());
            proof {
                assert(new_rest@ =~= rest@.skip(end as int));
                assert(views(bodies@) =~= views(before).push(body_view));
                match parse_bodies(new_rest@, i as int + 1) {
                    Some(bs) => {
                        assert(views(bodies@) + bs =~= views(before) + (seq![body_view] + bs));
                    },
                    None => {},
                }
            }
            rest = new_rest;
            i = i + 1;
        }
        let ghost bs = views(bodies@);
        assert(bs + seq![] =~= bs);
        let s = SummarySections {
            intent: string_from_chars(bodies[0].as_slice()),
            concepts: string_from_chars(bodies[1].as_slice()),
            files: string_from_chars(bodies[2].as_slice()),
            errors: string_from_chars(bodies[3].as_slice()),
            todos: string_from_chars(bodies[4].as_slice()),
            current: string_from_chars(bodies[5].as_slice()),
            next: string_from_chars(bodies[6].as_slice()),
            keys: string_from_chars(bodies[7].as_slice()),
        };
        Some(s)
    }

    /// The key-facts section of a summary, split into trimmed non-empty
    /// lines: a new summary must carry every one of them.
    pub fn key_lines(text: &str) -> (r: Vec<String>)
        ensures
            r@.map_values(|s: String| s@) == key_lines_of(text@),
    {
        match SummarySections::parse(text) {
            None => {
                let r: Vec<String> = Vec::new();
                assert(r@.map_values(|s: String| s@) =~= Seq::<Seq<char>>::empty());
                r
            },
            Some(sections) => {
                let keys = chars_of(sections.keys.as_str());
                let lines = split_chars(keys.as_slice(), '\n');
                let ghost ls = views(lines@);
                let mut r: Vec<String> = Vec::new();
                let mut i: usize = 0;
                assert(r@.map_values(|s: String| s@) =~= Seq::<Seq<char>>::empty());
                while i < lines.len()
                    invariant
                        i <= lines@.len(),
                        ls == views(lines@),
                        r@.map_values(|s: String| s@) == kept_lines(ls.take(i as int)),
                    decreases lines@.len() - i,
                {
                    assert(ls.take(i as int + 1).drop_last() =~= ls.take(i as int));
                    let t = trimmed(lines[i].as_slice());
                    if t.len() > 0 {
                        let ghost before = r@;
                        let ts = string_from_chars(t.as_slice());
                        r.push(ts);
                        assert(r@.map_values(|s: String| s@) =~= before.map_values(|s: String| s@).push(ts@));
                    }
                    i = i + 1;
                }
                assert(ls.take(i as int) =~= ls);
                r
            },
        }
    }
}

proof fn lemma_occurrence_fits(hay: Seq<char>, needle: Seq<char>)
    ensures
        first_occurrence(hay, needle) >= 0 ==> first_occurrence(hay, needle) + needle.len() <= hay.len(),
{
    lemma_occurrence_from_fits(hay, needle, 0);
}

proof fn lemma_occurrence_from_fits(hay: Seq<char>, needle: Seq<char>, i: int)
    ensures
        crate::text::first_occurrence_from(hay, needle, i) >= 0 ==> crate::text::first_occurrence_from(hay, needle, i)
            + needle.len() <= hay.len() && crate::text::first_occurrence_from(hay, needle, i) >= i,
    decreases hay.len() - i,
{
    if i >= 0 && i + needle.len() <= hay.len() && !crate::text::occurs_at(hay, needle, i) && i < hay.len() {
        lemma_occurrence_from_fits(hay, needle, i + 1);
    }
}

/// Material for one summary call: the real conversation prefix being
/// replaced, earlier summaries folded into the same span, and the template.
#[derive(Debug, Clone, PartialEq, Eq)]
pub struct SummaryRequest {
    /// The replaced conversation prefix, rendered as transcript text.
    pub transcript: String,
    /// Earlier checkpoint summaries inside the replaced span, to be merged.
    pub prior_summaries: Vec<String>,
    /// The fixed template the answer must follow.
    pub template: String,
}

/// The template with every body empty.
pub open spec fn blank_template() -> Seq<char>
    decreases 8int,
{
    blank_from(0)
}

/// The blank template from section `i` on.
pub open spec fn blank_from(i: int) -> Seq<char>
    decreases 8 - i,
{
    if i >= 8 {
        seq![]
    } else {
        header(i) + seq!['\n', '\n'] + blank_from(i + 1)
    }
}

/// The opening instructions of a summary prompt.
pub open spec fn prompt_intro() -> Seq<char> {
    "Summarize the conversation prefix below into the fixed eight-section template.\nMerge every prior compaction summary into the new summary: keep all key facts,\ndrop what is stale.\n\n"@
}

/// Prior summaries, each trimmed and followed by a newline.
pub open spec fn priors_text(ps: Seq<Seq<char>>) -> Seq<char>
    decreases ps.len(),
{
    if ps.len() == 0 {
        seq![]
    } else {
        priors_text(ps.drop_last()) + trim(ps.last()) + seq!['\n']
    }
}

/// The prompt for a request: instructions, template, prior summaries (when
/// there are any), then the transcript.
pub open spec fn prompt_of(transcript: Seq<char>, priors: Seq<Seq<char>>, template: Seq<char>) -> Seq<char> {
    prompt_intro() + "--- template ---\n"@ + template + (if priors.len() > 0 {
        "--- prior compaction summaries ---\n"@ + priors_text(priors)
    } else {
        seq![]
    }) + "--- transcript ---\n"@ + transcript
}

impl SummaryRequest {
    /// A request over one rendered transcript prefix, with the blank template.
    pub fn new(transcript: &str) -> (r: Self)
        ensures
            r.transcript@ == transcript@,
            r.prior_summaries@.len() == 0,
            r.template@ == blank_template(),
    {
        let mut template = String::new();
        let mut i: usize = 0;
        while i < 8
            invariant
                i <= 8,
                template@ + blank_from(i as int) == blank_from(0),
            decreases 8 - i,
        {
            let ghost before = template@;
            push_str(&mut template, header_str(i));
            push_char(&mut template, '\n');
            push_char(&mut template, '\n');
            assert(template@ + blank_from(i as int + 1) =~= before + blank_from(i as int));
            i = i + 1;
        }
        assert(template@ + blank_from(8) =~= template@);
        SummaryRequest { transcript: transcript.to_owned(), prior_summaries: Vec::new(), template }
    }

    /// The same request with one more earlier summary to merge.
    pub fn with_prior_summary(self, prior: &str) -> (r: Self)
        ensures
            r.transcript@ == self.transcript@,
            r.template@ == self.template@,
            r.prior_summaries@.map_values(|s: String| s@) == self.prior_summaries@.map_values(|s: String| s@).push(
                prior@,
            ),
    {
        let mut r = self;
        let ghost before = r.prior_summaries@;
        r.prior_summaries.push(prior.to_owned());
        assert(r.prior_summaries@.map_values(|s: String| s@) =~= before.map_values(|s: String| s@).push(prior@));
        r
    }

    /// The prompt handed to the summary writer: deterministic for identical inputs.
    pub fn render_prompt(&self) -> (out: String)
        ensures
            out@ == prompt_of(
                self.transcript@,
                self.prior_summaries@.map_values(|s: String| s@),
                self.template@,
            ),
    {
        let mut out = String::from_str(
            "Summarize the conversation prefix below into the fixed eight-section template.\nMerge every prior compaction summary into the new summary: keep all key facts,\ndrop what is stale.\n\n",
        );
        push_str(&mut out, "--- template ---\n");
        push_str(&mut out, self.template.as_str());
        let ghost after_template = out@;
        let ghost ps = self.prior_summaries@.map_values(|s: String| s@);
        if self.prior_summaries.len() > 0 {
            push_str(&mut out, "--- prior compaction summaries ---\n");
            let ghost base = out@;
            let mut i: usize = 0;
            while i < self.prior_summaries.len()
                invariant
                    i <= self.prior_summaries@.len(),
                    ps == self.prior_summaries@.map_values(|s: String| s@),
                    out@ == base + priors_text(ps.take(i as int)),
                decreases self.prior_summaries@.len() - i,
            {
                assert(ps.take(i as int + 1).drop_last() =~= ps.take(i as int));
                let cs = chars_of(self.prior_summaries[i].as_str());
                let t = trimmed(cs.as_slice());
                let ts = string_from_chars(t.as_slice());
                push_str(&mut out, ts.as_str());
                push_char(&mut out, '\n');
                i = i + 1;
            }
            assert(ps.take(i as int) =~= ps);
        }
        let ghost after_priors = out@;
        push_str(&mut out, "--- transcript ---\n");
        push_str(&mut out, self.transcript.as_str());
        proof {
            assert(after_priors =~= after_template + (if ps.len() > 0 {
                "--- prior compaction summaries ---\n"@ + priors_text(ps)
            } else {
                seq![]
            }));
        }
        out
    }
}

/// Why a summary attempt produced nothing usable; every variant means: do
/// not compact, leave the session untouched.
#[derive(Debug, Clone, PartialEq, Eq)]
pub enum SummaryError {
    /// The summary provider could not be reached.
    Unavailable(String),
    /// The summary call failed.
    Failed(String),
    /// The answer is empty.
    Empty,
    /// The answer does not follow the fixed template.
    TemplateMismatch,
    /// The answer is not strictly smaller than what it replaces.
    NotSmaller {
        /// Characters of the produced summary.
        summary_chars: usize,
        /// Characters of the material it replaces.
        replaced_chars: usize,
    },
    /// A prior summary's key facts were not carried over.
    PriorKeyFactsDropped,
}

/// The message of a summary error.
pub open spec fn error_text(e: SummaryError) -> Seq<char> {
    match e {
        SummaryError::Unavailable(r) => "summary unavailable: "@ + r@,
        SummaryError::Failed(r) => "summary failed: "@ + r@,
        SummaryError::Empty => "summary is empty"@,
        SummaryError::TemplateMismatch => "summary does not follow the fixed template"@,
        SummaryError::NotSmaller { summary_chars, replaced_chars } => "summary is not smaller than what it replaces ("@
            + crate::text::decimal(summary_chars as nat) + " >= "@ + crate::text::decimal(replaced_chars as nat) + ")"@,
        SummaryError::PriorKeyFactsDropped => "summary dropped key facts of a prior summary"@,
    }
}

impl SummaryError {
    /// The error's message.
    pub fn to_string(&self) -> (s: String)
        ensures
            s@ == error_text(*self),
    {
        match self {
            SummaryError::Unavailable(r) => {
                let mut s = String::from_str("summary unavailable: ");
                push_str(&mut s, r.as_str());
                s
            },
            SummaryError::Failed(r) => {
                let mut s = String::from_str("summary failed: ");
                push_str(&mut s, r.as_str());
                s
            },
            SummaryError::Empty => String::from_str("summary is empty"),
            SummaryError::TemplateMismatch => String::from_str("summary does not follow the fixed template"),
            SummaryError::NotSmaller { summary_chars, replaced_chars } => {
                let mut s = String::from_str("summary is not smaller than what it replaces (");
                push_decimal(&mut s, *summary_chars as u64);
                push_str(&mut s, " >= ");
                push_decimal(&mut s, *replaced_chars as u64);
                push_char(&mut s, ')');
                proof {
                    reveal_strlit(")");
                }
                s
            },
            SummaryError::PriorKeyFactsDropped => String::from_str("summary dropped key facts of a prior summary"),
        }
    }
}

/// Total characters of the prior summaries.
pub open spec fn priors_len(ps: Seq<Seq<char>>) -> nat
    decreases ps.len(),
{
    if ps.len() == 0 {
        0
    } else {
        priors_len(ps.drop_last()) + ps.last().len()
    }
}

/// Every key fact of every prior summary occurs in `summary`.
pub open spec fn keeps_prior_keys(summary: Seq<char>, ps: Seq<Seq<char>>) -> bool {
    forall|p: int, k: int|
        0 <= p < ps.len() && 0 <= k < key_lines_of(ps[p]).len() ==> first_occurrence(
            summary,
            #[trigger] key_lines_of(ps[p])[k],
        ) >= 0
}

/// The verdict on a summary: empty, off-template, not smaller than the
/// replaced text plus the prior summaries, or missing a prior key fact, in
/// that order of checks; accepted otherwise.
pub open spec fn verdict(summary: Seq<char>, replaced: Seq<char>, ps: Seq<Seq<char>>) -> Result<(), SummaryError> {
    if all_ws(summary) {
        Err(SummaryError::Empty)
    } else if parse_bodies(summary, 0) is None {
        Err(SummaryError::TemplateMismatch)
    } else if summary.len() >= replaced.len() + priors_len(ps) {
        Err(
            SummaryError::NotSmaller {
                summary_chars: summary.len() as usize,
                replaced_chars: (replaced.len() + priors_len(ps)) as usize,
            },
        )
    } else if !keeps_prior_keys(summary, ps) {
        Err(SummaryError::PriorKeyFactsDropped)
    } else {
        Ok(())
    }
}

fn contains_all(summary: &Vec<char>, keys: &Vec<String>) -> (b: bool)
    ensures
        b == forall|k: int| 0 <= k < keys@.len() ==> first_occurrence(summary@, #[trigger] keys@[k]@) >= 0,
{
    let mut k: usize = 0;
    while k < keys.len()
        invariant
            k <= keys@.len(),
            forall|j: int| 0 <= j < k ==> first_occurrence(summary@, #[trigger] keys@[j]@) >= 0,
        decreases keys@.len() - k,
    {
        let kc = chars_of(keys[k].as_str());
        if find_chars(summary.as_slice(), kc.as_slice()).is_none() {
            return false;
        }
        k = k + 1;
    }
    true
}

/// Accept-or-refuse check of a produced summary against the text it
/// replaces and the prior summaries in the same span. Nothing has been
/// written yet, so a refusal leaves no partial state.
pub fn validate_summary(summary: &str, replaced_text: &str, prior_summaries: &[String]) -> (r: Result<(), SummaryError>)
    requires
        replaced_text@.len() + priors_len(prior_summaries@.map_values(|s: String| s@)) <= usize::MAX,
    ensures
        r == verdict(summary@, replaced_text@, prior_summaries@.map_values(|s: String| s@)),
{
    let sc = chars_of(summary);
    let mut blank = true;
    let mut i: usize = 0;
    while i < sc.len()
        invariant
            i <= sc@.len(),
            sc@ == summary@,
            blank == (forall|j: int| 0 <= j < i ==> crate::text::is_ws(sc@[j])),
        decreases sc@.len() - i,
    {
        if !is_whitespace_char(sc[i]) {
            blank = false;
        }
        i = i + 1;
    }
    if blank {
        return Err(SummaryError::Empty);
    }
    assert(!all_ws(summary@));
    if SummarySections::parse(summary).is_none() {
        return Err(SummaryError::TemplateMismatch);
    }
    assert(parse_bodies(summary@, 0) is Some);
    let ghost ps = prior_summaries@.map_values(|s: String| s@);
    let mut replaced_chars: usize = replaced_text.unicode_len();
    let mut p: usize = 0;
    while p < prior_summaries.len()
        invariant
            p <= prior_summaries@.len(),
            ps == prior_summaries@.map_values(|s: String| s@),
            replaced_text@.len() + priors_len(ps) <= usize::MAX,
            replaced_chars == replaced_text@.len() + priors_len(ps.take(p as int)),
        decreases prior_summaries@.len() - p,
    {
        assert(ps.take(p as int + 1).drop_last() =~= ps.take(p as int));
        proof {
            lemma_priors_len_prefix(ps, p as int + 1);
        }
        replaced_chars = replaced_chars + prior_summaries[p].as_str().unicode_len();
        p = p + 1;
    }
    assert(ps.take(p as int) =~= ps);
    let summary_chars = sc.len();
    if summary_chars >= replaced_chars {
        return Err(SummaryError::NotSmaller { summary_chars, replaced_chars });
    }
    let mut q: usize = 0;
    while q < prior_summaries.len()
        invariant
            q <= prior_summaries@.len(),
            ps == prior_summaries@.map_values(|s: String| s@),
            sc@ == summary@,
            !all_ws(summary@),
            parse_bodies(summary@, 0) is Some,
            summary@.len() < replaced_text@.len() + priors_len(ps),
            forall|a: int, k: int|
                0 <= a < q && 0 <= k < key_lines_of(ps[a]).len() ==> first_occurrence(
                    summary@,
                    #[trigger] key_lines_of(ps[a])[k],
                ) >= 0,
        decreases prior_summaries@.len() - q,
    {
        let keys = SummarySections::key_lines(prior_summaries[q].as_str());
        assert(ps[q as int] == prior_summaries@[q as int]@);
        if !contains_all(&sc, &keys) {
            proof {
                let k = choose|k: int| 0 <= k < keys@.len() && first_occurrence(summary@, #[trigger] keys@[k]@) < 0;
                assert(keys@.map_values(|s: String| s@)[k] == keys@[k]@);
                assert(keys@.map_values(|s: String| s@).len() == keys@.len());
                assert(key_lines_of(ps[q as int])[k] == keys@[k]@);
                assert(0 <= k < key_lines_of(ps[q as int]).len());
                assert(first_occurrence(summary@, key_lines_of(ps[q as int])[k]) < 0);
                assert(!keeps_prior_keys(summary@, ps));
            }
            return Err(SummaryError::PriorKeyFactsDropped);
        }
        proof {
            assert forall|a: int, k: int|
                0 <= a < q + 1 && 0 <= k < key_lines_of(ps[a]).len() implies first_occurrence(
                summary@,
                #[trigger] key_lines_of(ps[a])[k],
            ) >= 0 by {
                if a == q {
                    assert(keys@.map_values(|s: String| s@)[k] == keys@[k]@);
                }
            }
        }
        q = q + 1;
    }
    Ok(())
}

proof fn lemma_priors_len_prefix(ps: Seq<Seq<char>>, n: int)
    requires
        0 <= n <= ps.len(),
    ensures
        priors_len(ps.take(n)) <= priors_len(ps),
    decreases ps.len() - n,
{
    if n < ps.len() {
        lemma_priors_len_prefix(ps, n + 1);
        assert(ps.take(n + 1).drop_last() =~= ps.take(n));
    } else {
        assert(ps.take(n) =~= ps);
    }
}

} // verus!
