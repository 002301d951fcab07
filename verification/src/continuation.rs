//! Segment edits with core protection, and the file names of stored
//! continuation snapshots.
//!
//! An edit that would remove or replace a core segment refuses the whole
//! batch: nothing is applied and the first offending action is reported.
//! Otherwise every segment, in order, takes the last action that names it
//! (retain, remove, or replace its content); segments no action names are
//! kept.

use vstd::prelude::*;
use crate::text::{push_char, push_str, chars_of, str_eq};
use crate::context_rot::{Segment, SegmentView, segment_views};
use crate::context_budget::path_join;

verus! {

broadcast use vstd::string::group_string_axioms;

/// One edit of the segment named `block_id`.
#[derive(Debug, Clone, PartialEq, Eq)]
pub enum EditAction {
    Retain { block_id: String },
    Remove { block_id: String },
    Replace { block_id: String, new_content: String },
}

/// Why a batch of edits was refused.
#[derive(Debug, Clone, PartialEq, Eq)]
pub enum SegmentEditError {
    /// An action would remove a core segment.
    CoreSegmentRemoveDenied { block_id: String },
    /// An action would replace a core segment (an empty replacement too).
    CoreSegmentReplaceDenied { block_id: String },
}

impl SegmentEditError {
    /// The message of this error.
    pub fn message(&self) -> (m: String)
        ensures
            m@ == match self {
                SegmentEditError::CoreSegmentRemoveDenied { block_id } => "O-1 拒绝: 核心保护段 '"@
                    + block_id@ + "' 不可被 Remove"@,
                SegmentEditError::CoreSegmentReplaceDenied { block_id } => "O-1 拒绝: 核心保护段 '"@
                    + block_id@ + "' 不可被 Replace (含替换为空)"@,
            },
    {
        let mut m = String::new();
        push_str(&mut m, "O-1 拒绝: 核心保护段 '");
        match self {
            SegmentEditError::CoreSegmentRemoveDenied { block_id } => {
                push_str(&mut m, block_id.as_str());
                push_str(&mut m, "' 不可被 Remove");
            },
            SegmentEditError::CoreSegmentReplaceDenied { block_id } => {
                push_str(&mut m, block_id.as_str());
                push_str(&mut m, "' 不可被 Replace (含替换为空)");
            },
        }
        m
    }
}

/// The segment an action names.
pub open spec fn action_id(a: EditAction) -> Seq<char> {
    match a {
        EditAction::Retain { block_id } => block_id@,
        EditAction::Remove { block_id } => block_id@,
        EditAction::Replace { block_id, .. } => block_id@,
    }
}

/// Some core segment has this name.
pub open spec fn names_core(ss: Seq<SegmentView>, name: Seq<char>) -> bool {
    exists|i: int| 0 <= i < ss.len() && (#[trigger] ss[i]).core && ss[i].name == name
}

/// The action removes or replaces a core segment.
pub open spec fn violates(ss: Seq<SegmentView>, a: EditAction) -> bool {
    !(a is Retain) && names_core(ss, action_id(a))
}

/// The last action that names `name`.
pub open spec fn last_action(actions: Seq<EditAction>, name: Seq<char>) -> Option<EditAction>
    decreases actions.len(),
{
    if actions.len() == 0 {
        None
    } else if action_id(actions.last()) == name {
        Some(actions.last())
    } else {
        last_action(actions.drop_last(), name)
    }
}

/// The segments after the edits.
pub open spec fn edited(ss: Seq<SegmentView>, actions: Seq<EditAction>) -> Seq<SegmentView>
    decreases ss.len(),
{
    if ss.len() == 0 {
        seq![]
    } else {
        let prev = edited(ss.drop_last(), actions);
        let s = ss.last();
        match last_action(actions, s.name) {
            Some(EditAction::Remove { .. }) => prev,
            Some(EditAction::Replace { new_content, .. }) => prev.push(SegmentView { content: new_content@, ..s }),
            _ => prev.push(s),
        }
    }
}

/// Applies a batch of edits.
pub struct SegmentEditor;

fn clone_segment(s: &Segment) -> (c: Segment)
    ensures
        c@ == s@,
{
    Segment { name: s.name.clone(), content: s.content.clone(), core: s.core, age_turns: s.age_turns }
}

fn targets_core(segments: &[Segment], id: &String) -> (b: bool)
    ensures
        b == names_core(segment_views(segments@), id@),
{
    let ghost ss = segment_views(segments@);
    let mut i: usize = 0;
    while i < segments.len()
        invariant
            ss == segment_views(segments@),
            i <= ss.len(),
            forall|k: int| 0 <= k < i ==> !((#[trigger] ss[k]).core && ss[k].name == id@),
        decreases ss.len() - i,
    {
        if segments[i].core && str_eq(segments[i].name.as_str(), id.as_str()) {
            proof {
                assert(ss[i as int].core && ss[i as int].name == id@);
            }
            return true;
        }
        i = i + 1;
    }
    false
}

impl SegmentEditor {
    /// Applies `actions` to `segments`. Any action that removes or replaces
    /// a core segment refuses the whole batch with an error naming the
    /// first such action; otherwise each segment, in order, takes the last
    /// action that names it, and segments no action names are kept.
    pub fn apply(segments: &[Segment], actions: &[EditAction]) -> (r: Result<Vec<Segment>, SegmentEditError>)
        ensures
            r is Err <==> exists|k: int| 0 <= k < actions@.len() && violates(segment_views(segments@), #[trigger] actions@[k]),
            r is Err ==> exists|k: int|
                0 <= k < actions@.len() && violates(segment_views(segments@), #[trigger] actions@[k]) && (forall|j: int|
                    0 <= j < k ==> !violates(segment_views(segments@), #[trigger] actions@[j])) && match r->Err_0 {
                    SegmentEditError::CoreSegmentRemoveDenied { block_id } => actions@[k] is Remove && block_id@
                        == action_id(actions@[k]),
                    SegmentEditError::CoreSegmentReplaceDenied { block_id } => actions@[k] is Replace && block_id@
                        == action_id(actions@[k]),
                },
            r is Ok ==> segment_views(r->Ok_0@) == edited(segment_views(segments@), actions@),
    {
        let ghost ss = segment_views(segments@);
        let mut k: usize = 0;
        while k < actions.len()
            invariant
                ss == segment_views(segments@),
                k <= actions@.len(),
                forall|j: int| 0 <= j < k ==> !violates(ss, #[trigger] actions@[j]),
            decreases actions@.len() - k,
        {
            match &actions[k] {
                EditAction::Retain { .. } => {},
                EditAction::Remove { block_id } => {
                    if targets_core(segments, block_id) {
                        return Err(SegmentEditError::CoreSegmentRemoveDenied { block_id: block_id.clone() });
                    }
                },
                EditAction::Replace { block_id, .. } => {
                    if targets_core(segments, block_id) {
                        return Err(SegmentEditError::CoreSegmentReplaceDenied { block_id: block_id.clone() });
                    }
                },
            }
            k = k + 1;
        }
        let mut out: Vec<Segment> = Vec::new();
        let mut i: usize = 0;
        proof {
            assert(ss.take(0) =~= Seq::<SegmentView>::empty());
        }
        while i < segments.len()
            invariant
                ss == segment_views(segments@),
                i <= ss.len(),
                segment_views(out@) == edited(ss.take(i as int), actions@),
            decreases ss.len() - i,
        {
            let ghost before = segment_views(out@);
            proof {
                assert(ss.take(i + 1).drop_last() =~= ss.take(i as int));
                assert(ss.take(i + 1).last() == segments@[i as int]@);
            }
            let found = last_action_for(actions, &segments[i].name);
            match found {
                Some(a) => match &actions[a] {
                    EditAction::Remove { .. } => {},
                    EditAction::Replace { new_content, .. } => {
                        let mut c = clone_segment(&segments[i]);
                        c.content = new_content.clone();
                        let ghost cv = c@;
                        out.push(c);
                        proof {
                            assert(segment_views(out@) =~= before.push(cv));
                        }
                    },
                    EditAction::Retain { .. } => {
                        let c = clone_segment(&segments[i]);
                        let ghost cv = c@;
                        out.push(c);
                        proof {
                            assert(segment_views(out@) =~= before.push(cv));
                        }
                    },
                },
                None => {
                    let c = clone_segment(&segments[i]);
                    let ghost cv = c@;
                    out.push(c);
                    proof {
                        assert(segment_views(out@) =~= before.push(cv));
                    }
                },
            }
            i = i + 1;
        }
        proof {
            assert(ss.take(ss.len() as int) =~= ss);
        }
        Ok(out)
    }
}

/// The index of the last action that names `name`.
fn last_action_for(actions: &[EditAction], name: &String) -> (r: Option<usize>)
    ensures
        match r {
            Some(a) => a < actions@.len() && last_action(actions@, name@) == Some(actions@[a as int]),
            None => last_action(actions@, name@) is None,
        },
{
    let mut k: usize = actions.len();
    proof {
        assert(actions@.take(k as int) =~= actions@);
    }
    while k > 0
        invariant
            k <= actions@.len(),
            last_action(actions@, name@) == last_action(actions@.take(k as int), name@),
        decreases k,
    {
        let id = match &actions[k - 1] {
            EditAction::Retain { block_id } => block_id,
            EditAction::Remove { block_id } => block_id,
            EditAction::Replace { block_id, .. } => block_id,
        };
        proof {
            assert(actions@.take(k as int).last() == actions@[k - 1]);
            assert(actions@.take(k as int).drop_last() =~= actions@.take(k - 1));
        }
        if str_eq(id.as_str(), name.as_str()) {
            return Some(k - 1);
        }
        k = k - 1;
    }
    None
}

// ---------------------------------------------------------------------------
// Snapshot file names
// ---------------------------------------------------------------------------

pub open spec fn safe_id_char(c: char) -> bool {
    ('0' <= c && c <= '9') || ('a' <= c && c <= 'z') || ('A' <= c && c <= 'Z') || c == '-' || c == '_'
}

/// The characters of `s` that may stand in a file name, in order.
pub open spec fn safe_chars(s: Seq<char>) -> Seq<char> {
    s.filter(|c: char| safe_id_char(c))
}

/// The file-name segment of a snapshot id: its ASCII letters, digits, `-`
/// and `_`, at most 120 of them; `snapshot` when none remain.
pub open spec fn safe_segment(id: Seq<char>) -> Seq<char> {
    let kept = safe_chars(id);
    let cut = if kept.len() <= 120 { kept } else { kept.take(120) };
    if cut.len() == 0 { "snapshot"@ } else { cut }
}

/// The file-name segment of a snapshot id, which can never leave the store
/// directory: no separator, no dot.
pub fn sanitize_snapshot_id(id: &str) -> (s: String)
    ensures
        s@ == safe_segment(id@),
{
    let cs = chars_of(id);
    let mut out = String::new();
    let mut count: usize = 0;
    let mut i: usize = 0;
    proof {
        assert(cs@.take(0).filter(|c: char| safe_id_char(c)) =~= Seq::<char>::empty());
    }
    while i < cs.len() && count < 120
        invariant
            cs@ == id@,
            i <= cs@.len(),
            count == out@.len(),
            out@.len() <= 120,
            out@ == safe_chars(cs@.take(i as int)),
        decreases cs@.len() - i,
    {
        let c = cs[i];
        proof {
            assert(cs@.take(i + 1).drop_last() =~= cs@.take(i as int));
            assert(cs@.take(i + 1).last() == c);
            cs@.take(i as int).lemma_filter_push(c, |c: char| safe_id_char(c));
            assert(cs@.take(i as int).push(c) =~= cs@.take(i + 1));
        }
        if ('0' <= c && c <= '9') || ('a' <= c && c <= 'z') || ('A' <= c && c <= 'Z') || c == '-' || c == '_' {
            push_char(&mut out, c);
            count = count + 1;
        }
        i = i + 1;
    }
    proof {
        if i == cs@.len() {
            assert(cs@.take(i as int) =~= cs@);
        } else {
            lemma_safe_chars_prefix(cs@, i as int);
        }
    }
    if count == 0 {
        let mut s = String::new();
        push_str(&mut s, "snapshot");
        return s;
    }
    out
}

proof fn lemma_safe_chars_prefix(s: Seq<char>, i: int)
    requires
        0 <= i <= s.len(),
    ensures
        safe_chars(s.take(i)).len() <= safe_chars(s).len(),
        safe_chars(s).take(safe_chars(s.take(i)).len() as int) == safe_chars(s.take(i)),
    decreases s.len() - i,
{
    if i == s.len() {
        assert(s.take(i) =~= s);
        assert(safe_chars(s).take(safe_chars(s).len() as int) =~= safe_chars(s));
    } else {
        let t = s.take(i + 1);
        s.take(i).lemma_filter_push(s[i], |c: char| safe_id_char(c));
        assert(s.take(i).push(s[i]) =~= t);
        lemma_safe_chars_prefix(s, i + 1);
        let a = safe_chars(s.take(i));
        let b = safe_chars(t);
        assert(b.take(a.len() as int) =~= a);
        assert(safe_chars(s).take(a.len() as int) =~= safe_chars(s).take(b.len() as int).take(a.len() as int));
    }
}

/// The directory of snapshot files; reading and writing them is the
/// caller's part.
#[derive(Debug, Clone, PartialEq, Eq)]
pub struct FileContinuationStore {
    dir: String,
}

impl FileContinuationStore {
    pub closed spec fn dir_view(&self) -> Seq<char> {
        self.dir@
    }

    /// A store rooted at `dir`.
    pub fn new(dir: &str) -> (s: FileContinuationStore)
        ensures
            s.dir_view() == dir@,
    {
        let mut d = String::new();
        push_str(&mut d, dir);
        FileContinuationStore { dir: d }
    }

    /// The root directory.
    pub fn dir(&self) -> (d: &str)
        ensures
            d@ == self.dir_view(),
    {
        self.dir.as_str()
    }

    /// The file of a snapshot: `<dir>/<safe segment of id>.json`.
    pub fn path_for(&self, id: &str) -> (p: String)
        ensures
            p@ == path_join(self.dir_view(), safe_segment(id@) + ".json"@),
    {
        let mut p = String::new();
        push_str(&mut p, self.dir.as_str());
        let dc = chars_of(self.dir.as_str());
        if dc.len() > 0 && dc[dc.len() - 1] != '/' {
            push_char(&mut p, '/');
        }
        let seg = sanitize_snapshot_id(id);
        push_str(&mut p, seg.as_str());
        push_str(&mut p, ".json");
        proof {
            let d = self.dir_view();
            if d.len() > 0 && d.last() != '/' {
                assert(p@ =~= d + seq!['/'] + (safe_segment(id@) + ".json"@));
            } else {
                assert(p@ =~= d + (safe_segment(id@) + ".json"@));
            }
        }
        p
    }
}

/// A snapshot file name is its safe segment and `.json`: it holds no path
/// separator and cannot be `.` or `..`, so it stays inside the directory.
pub proof fn snapshot_files_stay_in_their_directory(id: Seq<char>)
    ensures
        forall|k: int| 0 <= k < safe_segment(id).len() ==> safe_id_char(#[trigger] safe_segment(id)[k]),
        safe_segment(id).len() > 0,
{
    let kept = safe_chars(id);
    id.filter_lemma(|c: char| safe_id_char(c));
    reveal_strlit("snapshot");
    if kept.len() > 120 {
        assert forall|k: int| 0 <= k < kept.take(120).len() implies safe_id_char(#[trigger] kept.take(120)[k]) by {
            assert(kept.take(120)[k] == kept[k]);
        }
    }
}

} // verus!
