//! Fold placeholders: a marker kind plus the original payload.
//!
//! A placeholder embeds only the payload's UTF-8 byte length; the payload
//! itself is kept in the marker and restored by `unfold`.

use vstd::prelude::*;
use crate::text::{push_str, push_decimal, decimal};
use crate::output_retention::{byte_len, str_byte_len};

verus! {

/// Kind of collapse a marker stands for.
#[derive(Debug, Clone, Copy, PartialEq, Eq, Structural)]
pub enum MarkerKind {
    /// Full content replaced.
    Full,
    /// Head-tail collapse; the middle is the payload.
    HeadTail,
    /// Semantic fold of a low-relevance segment.
    Semantic,
}

/// The placeholder's tag for a kind.
pub open spec fn tag(kind: MarkerKind) -> Seq<char> {
    match kind {
        MarkerKind::Full => "FOLDED"@,
        MarkerKind::HeadTail => "HEADTAIL"@,
        MarkerKind::Semantic => "SEMANTIC"@,
    }
}

/// The placeholder text: `<<TAG:{bytes} bytes>>`.
pub open spec fn placeholder(kind: MarkerKind, payload_bytes: nat) -> Seq<char> {
    "<<"@ + tag(kind) + ":"@ + decimal(payload_bytes) + " bytes>>"@
}

impl MarkerKind {
    /// Diagnostic format template (the `{}` is not interpolated).
    pub fn placeholder_format(&self) -> (s: &'static str)
        ensures
            s@ == match *self {
                MarkerKind::Full => "<<FOLDED:{}>>"@,
                MarkerKind::HeadTail => "<<HEADTAIL:{}>>"@,
                MarkerKind::Semantic => "<<SEMANTIC:{}>>"@,
            },
    {
        match self {
            MarkerKind::Full => "<<FOLDED:{}>>",
            MarkerKind::HeadTail => "<<HEADTAIL:{}>>",
            MarkerKind::Semantic => "<<SEMANTIC:{}>>",
        }
    }
}

/// A lossless fold placeholder: kind and original payload.
#[derive(Debug, Clone, PartialEq, Eq)]
pub struct FoldMarker {
    /// Collapse kind.
    pub kind: MarkerKind,
    /// Original text restored on unfold.
    pub payload: String,
}

/// The placeholder of a marker.
pub open spec fn marker_placeholder(m: FoldMarker) -> Seq<char> {
    placeholder(m.kind, byte_len(m.payload@))
}

impl FoldMarker {
    /// A marker holding `payload`.
    pub fn new(kind: MarkerKind, payload: &str) -> (m: Self)
        ensures
            m.kind == kind,
            m.payload@ == payload@,
    {
        FoldMarker { kind, payload: payload.to_owned() }
    }

    /// The placeholder string, carrying the payload's byte length.
    pub fn format_placeholder(&self) -> (s: String)
        ensures
            s@ == marker_placeholder(*self),
    {
        let len = str_byte_len(self.payload.as_str());
        let mut s = String::from_str("<<");
        match self.kind {
            MarkerKind::Full => push_str(&mut s, "FOLDED"),
            MarkerKind::HeadTail => push_str(&mut s, "HEADTAIL"),
            MarkerKind::Semantic => push_str(&mut s, "SEMANTIC"),
        }
        push_str(&mut s, ":");
        push_decimal(&mut s, len as u64);
        push_str(&mut s, " bytes>>");
        s
    }
}

} // verus!
