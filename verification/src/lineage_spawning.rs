//! The specializations and nurturing phases of spawned progeny, the
//! parent's signature a progeny carries, and the check that its inherited
//! value hash is still the parent's.

use vstd::prelude::*;
use crate::text::push_str;
use crate::context_budget::{hex_digits, push_hex};

verus! {

/// What a progeny specializes in.
#[derive(Debug, Clone, Copy, PartialEq, Eq, Structural)]
pub enum ProgenySpecialization {
    ScientificDiscovery,
    SoftwareEngineering,
    EmbodiedCompanion,
    SecurityArbitration,
}

/// The three-phase nurturing lifecycle.
#[derive(Debug, Clone, Copy, PartialEq, Eq, Structural)]
pub enum NurturingPhase {
    /// Read-only shadow evaluation.
    Phase1Shadowing,
    /// Gradual delegation with mentor review.
    Phase2DualCoSign,
    /// Autonomous execution.
    Phase3Emancipated,
}

/// The signature a parent gives its progeny: `sig_parent_<parent>_` and the
/// first four bytes of the parent's value hash as two-digit lowercase hex,
/// in brackets and separated by `, `.
pub open spec fn signature_text(parent_id: Seq<char>, hash: Seq<u8>) -> Seq<char> {
    "sig_parent_"@ + parent_id + "_["@ + hex_digits(hash[0] as nat, 2) + ", "@ + hex_digits(hash[1] as nat, 2)
        + ", "@ + hex_digits(hash[2] as nat, 2) + ", "@ + hex_digits(hash[3] as nat, 2) + "]"@
}

/// The parent's signature for a progeny spawned under `parent_id`.
pub fn parent_signature(parent_id: &str, hash: &[u8; 32]) -> (s: String)
    ensures
        s@ == signature_text(parent_id@, hash@),
{
    let mut s = String::new();
    push_str(&mut s, "sig_parent_");
    push_str(&mut s, parent_id);
    push_str(&mut s, "_[");
    push_hex(&mut s, hash[0] as u32, 2);
    push_str(&mut s, ", ");
    push_hex(&mut s, hash[1] as u32, 2);
    push_str(&mut s, ", ");
    push_hex(&mut s, hash[2] as u32, 2);
    push_str(&mut s, ", ");
    push_hex(&mut s, hash[3] as u32, 2);
    push_str(&mut s, "]");
    s
}

/// Whether a progeny's inherited value hash is still its parent's: every
/// byte is compared (the differences are OR-ed together), so the time
/// taken does not depend on where they differ.
pub fn hashes_match(inherited: &[u8; 32], parent: &[u8; 32]) -> (r: bool)
    ensures
        r == (inherited@ == parent@),
{
    let mut diff: u8 = 0;
    let mut i: usize = 0;
    while i < 32
        invariant
            i <= 32,
            inherited@.len() == 32,
            parent@.len() == 32,
            (diff == 0) == (forall|j: int| 0 <= j < i ==> inherited@[j] == parent@[j]),
        decreases 32 - i,
    {
        let a = inherited[i];
        let b = parent[i];
        let d = a ^ b;
        assert((a ^ b == 0) == (a == b)) by (bit_vector);
        assert(((diff | d) == 0) == (diff == 0 && d == 0)) by (bit_vector);
        diff = diff | d;
        i = i + 1;
    }
    proof {
        if diff == 0 {
            assert(inherited@ =~= parent@);
        }
    }
    diff == 0
}

} // verus!
