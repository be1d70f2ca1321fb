//! Provenance metadata attached to every node, edge, and fact.

use crate::ontology::clone_strings;
use crate::value::{f32_bits_finite, f32_bits_is_finite};
use vstd::prelude::*;

verus! {

/// Provenance metadata attached to every node, edge, and fact.
/// Multiple facts may compete for the same subject; readers can weight by
/// confidence/timestamp. `confidence` and `cost` hold the bit patterns of `f32` values.
#[derive(Debug)]
pub struct Provenance {
    pub agent: String,
    pub model: String,
    pub confidence: u32,
    pub cost: u32,
    pub timestamp: u64,
    pub evidence: Vec<String>,
}

/// The abstract value of a `Provenance`.
pub struct ProvenanceView {
    pub agent: Seq<char>,
    pub model: Seq<char>,
    pub confidence: u32,
    pub cost: u32,
    pub timestamp: u64,
    pub evidence: Seq<Seq<char>>,
}

impl View for Provenance {
    type V = ProvenanceView;

    open spec fn view(&self) -> ProvenanceView {
        ProvenanceView {
            agent: self.agent@,
            model: self.model@,
            confidence: self.confidence,
            cost: self.cost,
            timestamp: self.timestamp,
            evidence: crate::ontology::string_views(self.evidence@),
        }
    }
}

impl Provenance {
    pub fn new(agent: &str, model: &str, confidence: u32, cost: u32, timestamp: u64, evidence: Vec<String>) -> (p: Self)
        ensures
            p.agent@ == agent@,
            p.model@ == model@,
            p.confidence == confidence,
            p.cost == cost,
            p.timestamp == timestamp,
            p.evidence == evidence,
    {
        Provenance { agent: agent.to_owned(), model: model.to_owned(), confidence, cost, timestamp, evidence }
    }
}

impl Clone for Provenance {
    fn clone(&self) -> (r: Self)
        ensures
            r@ == self@,
    {
        let evidence = clone_strings(&self.evidence);
        let r = Provenance {
            agent: self.agent.clone(),
            model: self.model.clone(),
            confidence: self.confidence,
            cost: self.cost,
            timestamp: self.timestamp,
            evidence,
        };
        proof {
            assert(r@.evidence =~= self@.evidence);
        }
        r
    }
}

/// Whether `c` is whitespace in the sense of `str::trim`.
pub open spec fn is_trim_space(c: char) -> bool {
    crate::app_config::is_unicode_whitespace(c)
}

/// Whether `s` is empty once trimmed: every character is whitespace.
pub open spec fn blank(s: Seq<char>) -> bool {
    forall|i: int| 0 <= i < s.len() ==> is_trim_space(#[trigger] s[i])
}

/// Whether `s` is empty once trimmed.
pub fn is_blank(s: &str) -> (r: bool)
    ensures
        r == blank(s@),
{
    let mut chars = s.chars();
    let ghost total = s@;
    let ghost mut seen: int = 0;
    loop
        invariant
            vstd::std_specs::iter::IteratorSpec::obeys_prophetic_iter_laws(&chars),
            total == s@,
            0 <= seen <= total.len(),
            vstd::std_specs::iter::IteratorSpec::remaining(&chars) == total.skip(seen),
            forall|i: int| 0 <= i < seen ==> is_trim_space(#[trigger] total[i]),
        decreases total.len() - seen,
    {
        let ghost before = vstd::std_specs::iter::IteratorSpec::remaining(&chars);
        match chars.next() {
            Some(c) => {
                proof {
                    assert(c == total[seen]);
                    seen = seen + 1;
                    assert(total.skip(seen) =~= before.drop_first());
                }
                if !crate::app_config::is_unicode_whitespace_exec(c) {
                    proof {
                        assert(!is_trim_space(total[seen - 1]));
                    }
                    return false;
                }
            },
            None => {
                proof {
                    assert(before.len() == 0);
                    assert(seen == total.len());
                    assert(blank(total));
                }
                return true;
            },
        }
    }
}

/// The `f32` with bit pattern `bits` lies in `0.0..=1.0` (which holds for `-0.0`, and not
/// for NaN).
pub open spec fn f32_bits_unit_interval(bits: u32) -> bool {
    bits <= 0x3f80_0000u32 || bits == 0x8000_0000u32
}

/// The `f32` with bit pattern `bits` is below `0.0` (false for `-0.0` and for NaN).
pub open spec fn f32_bits_negative(bits: u32) -> bool {
    bits > 0x8000_0000u32 && bits <= 0xff80_0000u32
}

/// A provenance the store accepts: named agent and model, a finite confidence in
/// `0.0..=1.0`, and a finite, non-negative cost.
pub open spec fn provenance_valid(p: ProvenanceView) -> bool {
    &&& !blank(p.agent)
    &&& !blank(p.model)
    &&& f32_bits_finite(p.confidence)
    &&& f32_bits_unit_interval(p.confidence)
    &&& f32_bits_finite(p.cost)
    &&& !f32_bits_negative(p.cost)
}

/// Checks that a provenance names its agent and model and carries a finite confidence
/// in `0.0..=1.0` and a finite, non-negative cost.
pub fn provenance_is_valid(p: &Provenance) -> (r: bool)
    ensures
        r == provenance_valid(p@),
{
    !is_blank(p.agent.as_str()) && !is_blank(p.model.as_str()) && f32_bits_is_finite(p.confidence)
        && (p.confidence <= 0x3f80_0000u32 || p.confidence == 0x8000_0000u32) && f32_bits_is_finite(p.cost)
        && !(p.cost > 0x8000_0000u32 && p.cost <= 0xff80_0000u32)
}

} // verus!
