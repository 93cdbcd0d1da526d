//! Streaming log template mining.
//!
//! Raw log lines are tokenized into whitespace-separated atoms, turned into
//! records, and routed into log groups held by a two-level index keyed on
//! line length and first token. A similarity threshold decides whether a
//! line is absorbed by an existing group (generalizing its template) or
//! starts a new group.

use vstd::prelude::*;

pub mod drains;
pub mod ids;
pub mod interning;
pub mod log_group;
pub mod record;
pub mod regexes;

verus! {

/// The configuration failures this library reports.
#[derive(Clone, Copy, Debug, PartialEq, Eq, Structural)]
pub enum DrainError {
    /// A supplied pattern was refused by the regex engine.
    InvalidRegex,
    /// A similarity threshold with denominator zero.
    ZeroDenominator,
}

/// A streaming log template miner over a single-layer index: raw lines in,
/// a growing set of log groups out.
#[derive(Debug)]
pub struct SimpleDrain {
    /// The index doing the work.
    pub layer: drains::simple::SingleLayer,
}

impl SimpleDrain {
    /// The underlying index is well-formed.
    pub open spec fn wf(&self) -> bool {
        self.layer.wf()
    }

    /// Compiles the supplied domain patterns; fails exactly when one of
    /// them is refused by the regex engine.
    pub fn new(domain: Vec<String>) -> (r: Result<SimpleDrain, DrainError>)
        ensures
            r is Ok <==> (forall|i: int|
                0 <= i < domain@.len() ==> regexes::regex_valid(#[trigger] domain@[i]@)),
            (r matches Ok(d) ==> {
                &&& d.wf()
                &&& d.layer.threshold == (drains::simple::Threshold { numer: 1u64, denom: 2u64 })
                &&& d.layer.base_layer@.len() == 0
                &&& interning::interner_strings(d.layer.strings).len() == 0
                &&& d.layer.domain@.len() == domain@.len()
            }),
    {
        match drains::simple::SingleLayer::new(domain) {
            Ok(layer) => Ok(SimpleDrain { layer }),
            Err(e) => Err(e),
        }
    }

    /// Replaces the threshold by `numerator / denominator`; a zero
    /// denominator is refused and leaves the index unchanged.
    pub fn set_threshold(&mut self, numerator: u64, denominator: u64) -> (r: Result<
        (),
        DrainError,
    >)
        ensures
            r is Ok <==> denominator != 0,
            denominator != 0 ==> ({
                &&& final(self).layer.threshold == (drains::simple::Threshold {
                    numer: numerator,
                    denom: denominator,
                })
                &&& final(self).layer.base_layer == old(self).layer.base_layer
                &&& final(self).layer.strings == old(self).layer.strings
                &&& final(self).layer.domain == old(self).layer.domain
            }),
            denominator == 0 ==> *final(self) == *old(self) && r == Err::<(), DrainError>(
                DrainError::ZeroDenominator,
            ),
            old(self).wf() ==> final(self).wf(),
    {
        self.layer.set_threshold(numerator, denominator)
    }

    /// Routes one raw line exactly as [`drains::simple::SingleLayer::process_line`]
    /// says: reports whether a new group was opened.
    pub fn process_line(&mut self, line: String) -> (r: Result<bool, DrainError>)
        requires
            old(self).wf(),
            interning::interner_strings(old(self).layer.strings).len() + line@.len()
                < interning::interner_capacity(),
        ensures
            final(self).wf(),
            r is Ok,
            final(self).layer.threshold == old(self).layer.threshold,
            final(self).layer.domain == old(self).layer.domain,
            record::tokens::spec_atoms(line@).len() == 0 ==> ({
                &&& r == Ok::<bool, DrainError>(false)
                &&& interning::interner_strings(final(self).layer.strings)
                    == interning::interner_strings(old(self).layer.strings)
                &&& final(self).layer.base_layer == old(self).layer.base_layer
            }),
            record::tokens::spec_atoms(line@).len() > 0 ==> drains::simple::routed(
                old(self).layer,
                final(self).layer,
                line@,
                r,
            ),
    {
        self.layer.process_line(line)
    }

    /// The groups, one inner list per length bucket, insertion order kept
    /// within each entry.
    pub fn iter_groups(&self) -> (r: Vec<Vec<&log_group::LogGroup>>)
        ensures
            r@.len() == self.layer.base_layer@.len(),
            forall|i: int|
                0 <= i < r@.len() ==> (#[trigger] r@[i])@.map_values(
                    |g: &log_group::LogGroup| *g,
                ) == drains::simple::flat_entries(self.layer.base_layer@[i].entries@),
    {
        self.layer.iter_groups()
    }

    /// Resolves a symbol of this drain's interner back to its string.
    pub fn resolve(&self, sym: usize) -> (r: String)
        requires
            sym < interning::interner_strings(self.layer.strings).len(),
        ensures
            r@ == interning::interner_strings(self.layer.strings)[sym as int],
    {
        self.layer.resolve(sym)
    }
}

} // verus!
