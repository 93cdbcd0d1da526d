//! The single-layer drain index: a two-level map from line length to first
//! token to candidate log groups, with an exact rational similarity
//! threshold deciding absorption.

use vstd::prelude::*;

use regex::Regex;

use crate::DrainError;
use crate::interning::Interner;
use crate::interning::interner_capacity;
use crate::interning::interner_strings;
use crate::interning::interner_wf;
use crate::log_group::LogGroup;
use crate::log_group::spec_discovered;
use crate::record::Record;
use crate::record::record_syms_valid;
use crate::record::spec_sim_score;
use crate::record::tokens::Token;
use crate::record::tokens::TypedToken;
use crate::record::tokens::lemma_atoms_count;
use crate::record::tokens::lemma_atoms_from_props;
use crate::record::tokens::lemma_model_props;
use crate::record::tokens::line_first_sym;
use crate::record::tokens::line_token_seq;
use crate::record::tokens::model_strs_from;
use crate::record::tokens::spec_atoms;
use crate::record::tokens::spec_token_eq;
use crate::record::tokens::stream_tokens;
use crate::record::tokens::tokenizes;
use crate::regexes::compile_regex;
use crate::regexes::regex_valid;

verus! {

/// An exact rational similarity threshold.
#[derive(Clone, Copy, Debug, PartialEq, Eq, Structural)]
pub struct Threshold {
    pub numer: u64,
    pub denom: u64,
}

/// Whether a score of `score` over a length of `len` strictly exceeds the
/// rational `numer / denom`, compared exactly by cross-multiplication.
pub open spec fn spec_absorbs(score: int, len: int, numer: int, denom: int) -> bool {
    score * denom > numer * len
}

/// Thresholds naming the same rational decide every line alike.
pub proof fn lemma_threshold_equivalent(
    score: int,
    len: int,
    n1: int,
    d1: int,
    n2: int,
    d2: int,
)
    requires
        d1 > 0,
        d2 > 0,
        n1 * d2 == n2 * d1,
    ensures
        spec_absorbs(score, len, n1, d1) == spec_absorbs(score, len, n2, d2),
{
    assert((score * d1 > n1 * len) == (score * d2 > n2 * len)) by (nonlinear_arith)
        requires
            d1 > 0,
            d2 > 0,
            n1 * d2 == n2 * d1,
    ;
}

/// Decides `score / len > t` without rounding: both sides are cross-
/// multiplied in 128-bit arithmetic, which cannot overflow on 64-bit
/// operands.
pub fn exceeds_threshold(score: u64, len: usize, t: &Threshold) -> (r: bool)
    ensures
        r == spec_absorbs(score as int, len as int, t.numer as int, t.denom as int),
{
    proof {
        assert((score as u128) * (t.denom as u128) <= (u64::MAX as u128) * (u64::MAX as u128))
            by (nonlinear_arith)
            requires
                score <= u64::MAX,
                t.denom <= u64::MAX,
        ;
        assert((t.numer as u128) * (len as u128) <= (u64::MAX as u128) * (u64::MAX as u128))
            by (nonlinear_arith)
            requires
                t.numer <= u64::MAX,
                len <= u64::MAX,
        ;
    }
    (score as u128) * (t.denom as u128) > (t.numer as u128) * (len as u128)
}

/// One list of candidate groups, keyed by the symbol of their first token.
#[derive(Clone, Debug)]
pub struct SymBucket {
    pub first: usize,
    pub groups: Vec<LogGroup>,
}

/// One second-level map, keyed by line length.
#[derive(Clone, Debug)]
pub struct LengthBucket {
    pub length: usize,
    pub entries: Vec<SymBucket>,
}

/// Every group of the bucket belongs there: it is well-formed, its
/// template has the bucket's length, and its first token is the concrete
/// string value the bucket is keyed on — so the `(length, first-token)`
/// home of a group never changes.
pub open spec fn sym_bucket_wf(sb: SymBucket, length: int, strs: Seq<Seq<char>>) -> bool {
    &&& sb.first < strs.len()
    &&& sb.groups@.len() > 0
    &&& forall|k: int|
        0 <= k < sb.groups@.len() ==> {
            let g = #[trigger] sb.groups@[k];
            &&& g.wf()
            &&& g.event.inner@.len() == length
            &&& g.event.inner@[0].1 == Token::Value(TypedToken::String(sb.first))
            &&& record_syms_valid(g.event, strs)
            &&& forall|e: int|
                0 <= e < g.examples@.len() ==> record_syms_valid(#[trigger] g.examples@[e], strs)
        }
}

/// Distinct first-token keys, and every entry well-formed for the
/// bucket's length.
pub open spec fn length_bucket_wf(b: LengthBucket, strs: Seq<Seq<char>>) -> bool {
    &&& b.length > 0
    &&& forall|i: int, j: int|
        0 <= i < j < b.entries@.len() ==> (#[trigger] b.entries@[i]).first != (
        #[trigger] b.entries@[j]).first
    &&& forall|i: int| 0 <= i < b.entries@.len() ==> sym_bucket_wf(
            #[trigger] b.entries@[i],
            b.length as int,
            strs,
        )
}

/// The index of the first length bucket holding `len`, if any.
pub open spec fn find_len_idx(base: Seq<LengthBucket>, len: int, i: int) -> Option<int>
    decreases base.len() - i,
{
    if i < 0 || i >= base.len() {
        None
    } else if base[i].length == len {
        Some(i)
    } else {
        find_len_idx(base, len, i + 1)
    }
}

/// The index of the first entry keyed on `first`, if any.
pub open spec fn find_sym_idx(entries: Seq<SymBucket>, first: int, i: int) -> Option<int>
    decreases entries.len() - i,
{
    if i < 0 || i >= entries.len() {
        None
    } else if entries[i].first == first {
        Some(i)
    } else {
        find_sym_idx(entries, first, i + 1)
    }
}

/// The best similarity score over the first `k` candidate groups, with the
/// index of the earliest group achieving it: a later group wins only with
/// a strictly greater score.
pub open spec fn spec_best(groups: Seq<LogGroup>, toks: Seq<Token>, k: int) -> (nat, int)
    decreases k,
{
    if k <= 0 {
        (0nat, 0int)
    } else {
        let prev = spec_best(groups, toks, k - 1);
        let sc = spec_sim_score(toks, stream_tokens(groups[k - 1].event.inner@));
        if sc > prev.0 {
            (sc, k - 1)
        } else {
            prev
        }
    }
}

/// The best candidate is a true maximum, and ties go to the earliest
/// group: no candidate scores above it, and every earlier candidate
/// scores strictly below it.
pub proof fn lemma_spec_best_is_max(groups: Seq<LogGroup>, toks: Seq<Token>, k: int)
    requires
        0 < k <= groups.len(),
    ensures
        forall|j: int|
            0 <= j < k ==> spec_sim_score(
                toks,
                stream_tokens(#[trigger] groups[j].event.inner@),
            ) <= spec_best(groups, toks, k).0,
        forall|j: int|
            0 <= j < spec_best(groups, toks, k).1 ==> spec_sim_score(
                toks,
                stream_tokens(#[trigger] groups[j].event.inner@),
            ) < spec_best(groups, toks, k).0,
    decreases k,
{
    if k == 1 {
        assert(spec_best(groups, toks, 0) == (0nat, 0int));
    } else {
        lemma_spec_best_is_max(groups, toks, k - 1);
        let prev = spec_best(groups, toks, k - 1);
        let sc = spec_sim_score(toks, stream_tokens(groups[k - 1].event.inner@));
        if sc > prev.0 {
            assert forall|j: int| 0 <= j < k - 1 implies spec_sim_score(
                toks,
                stream_tokens(#[trigger] groups[j].event.inner@),
            ) < sc by {
                assert(spec_sim_score(toks, stream_tokens(groups[j].event.inner@)) <= prev.0);
            }
        }
    }
}

/// A group just opened around the tokenization of `line`: its template is
/// that tokenization, nothing absorbed, nothing generalized.
pub open spec fn group_opened(g: LogGroup, line: Seq<char>, strs0: Seq<Seq<char>>) -> bool {
    &&& tokenizes(g.event.inner@, line, strs0)
    &&& g.examples@ == Seq::<Record>::empty()
    &&& g.variables@ == Seq::<(usize, Token)>::empty()
    &&& g.id == g.event.uid
}

/// How absorbing the record `rc` changes one group: `rc` joins the
/// examples, the newly disagreeing positions join the variables, and the
/// template is generalized at exactly those positions.
pub open spec fn group_absorbed(g0: LogGroup, g1: LogGroup, rc: Record) -> bool {
    let discovered = spec_discovered(
        stream_tokens(g0.event.inner@),
        g0.variables@,
        stream_tokens(rc.inner@),
    );
    &&& g1.id == g0.id
    &&& g1.examples@ == g0.examples@.push(rc)
    &&& g1.variables@ == g0.variables@ + discovered.map_values(
        |p: int| (p as usize, Token::Wildcard),
    )
    &&& g0.variables@.is_prefix_of(g1.variables@)
    &&& g1.event.uid == g0.event.uid
    &&& g1.event.inner@.len() == g0.event.inner@.len()
    &&& forall|p: int|
        0 <= p < g0.event.inner@.len() ==> (#[trigger] g1.event.inner@[p]) == if discovered.contains(
            p,
        ) {
            (g0.event.inner@[p].0, Token::Wildcard)
        } else {
            g0.event.inner@[p]
        }
}

/// The two base layers agree everywhere except possibly in the group list
/// of the entry at `(li, si)`, whose key and length also stay.
pub open spec fn base_updated_at(
    b0: Seq<LengthBucket>,
    b1: Seq<LengthBucket>,
    li: int,
    si: int,
) -> bool {
    &&& 0 <= li < b0.len()
    &&& 0 <= si < b0[li].entries@.len()
    &&& b1.len() == b0.len()
    &&& forall|x: int| 0 <= x < b0.len() && x != li ==> b1[x] == b0[x]
    &&& b1[li].length == b0[li].length
    &&& b1[li].entries@.len() == b0[li].entries@.len()
    &&& forall|y: int|
        0 <= y < b0[li].entries@.len() && y != si ==> b1[li].entries@[y] == b0[li].entries@[y]
    &&& b1[li].entries@[si].first == b0[li].entries@[si].first
}

/// Under well-formedness every group lives in exactly one bucket: a group
/// stored at `(li, si)` fits the keys of a bucket at `(lj, sj)` only if
/// the two places are the same, since its template pins length and first
/// token down and bucket keys are distinct.
pub proof fn lemma_bucket_uniqueness(d: SingleLayer, li: int, si: int, gi: int, lj: int, sj: int)
    requires
        d.wf(),
        0 <= li < d.base_layer@.len(),
        0 <= si < d.base_layer@[li].entries@.len(),
        0 <= gi < d.base_layer@[li].entries@[si].groups@.len(),
        0 <= lj < d.base_layer@.len(),
        0 <= sj < d.base_layer@[lj].entries@.len(),
        d.base_layer@[lj].length == d.base_layer@[li].entries@[si].groups@[gi].event.inner@.len(),
        d.base_layer@[li].entries@[si].groups@[gi].event.inner@[0].1 == Token::Value(
            TypedToken::String(d.base_layer@[lj].entries@[sj].first),
        ),
    ensures
        li == lj,
        si == sj,
{
    let g = d.base_layer@[li].entries@[si].groups@[gi];
    assert(d.base_layer@[li].length == g.event.inner@.len());
    assert(li == lj);
    assert(g.event.inner@[0].1 == Token::Value(
        TypedToken::String(d.base_layer@[li].entries@[si].first),
    ));
    assert(si == sj);
}

/// A bucket well-formed against some interner contents stays well-formed
/// when the interner grows.
proof fn lemma_bucket_wf_grow(b: LengthBucket, strs0: Seq<Seq<char>>, strs1: Seq<Seq<char>>)
    requires
        length_bucket_wf(b, strs0),
        strs0.is_prefix_of(strs1),
    ensures
        length_bucket_wf(b, strs1),
{
    assert forall|i: int| 0 <= i < b.entries@.len() implies sym_bucket_wf(
        #[trigger] b.entries@[i],
        b.length as int,
        strs1,
    ) by {
        assert(sym_bucket_wf(b.entries@[i], b.length as int, strs0));
    }
}

proof fn lemma_find_len_none(base: Seq<LengthBucket>, len: int, i: int)
    requires
        0 <= i,
        find_len_idx(base, len, i) is None,
    ensures
        forall|j: int| i <= j < base.len() ==> (#[trigger] base[j]).length != len,
    decreases base.len() - i,
{
    if i < base.len() {
        lemma_find_len_none(base, len, i + 1);
    }
}

proof fn lemma_find_len_some(base: Seq<LengthBucket>, len: int, i: int)
    requires
        0 <= i,
        find_len_idx(base, len, i) is Some,
    ensures
        ({
            let x = find_len_idx(base, len, i)->Some_0;
            i <= x < base.len() && base[x].length == len
        }),
    decreases base.len() - i,
{
    if i < base.len() && base[i].length != len {
        lemma_find_len_some(base, len, i + 1);
    }
}

proof fn lemma_find_sym_none(entries: Seq<SymBucket>, first: int, i: int)
    requires
        0 <= i,
        find_sym_idx(entries, first, i) is None,
    ensures
        forall|j: int| i <= j < entries.len() ==> (#[trigger] entries[j]).first != first,
    decreases entries.len() - i,
{
    if i < entries.len() {
        lemma_find_sym_none(entries, first, i + 1);
    }
}

proof fn lemma_find_sym_some(entries: Seq<SymBucket>, first: int, i: int)
    requires
        0 <= i,
        find_sym_idx(entries, first, i) is Some,
    ensures
        ({
            let x = find_sym_idx(entries, first, i)->Some_0;
            i <= x < entries.len() && entries[x].first == first
        }),
    decreases entries.len() - i,
{
    if i < entries.len() && entries[i].first != first {
        lemma_find_sym_some(entries, first, i + 1);
    }
}

/// The best candidate over a nonempty prefix is inside the prefix, and its
/// recorded score is its group's actual score.
proof fn lemma_spec_best_bounds(groups: Seq<LogGroup>, toks: Seq<Token>, k: int)
    requires
        0 < k <= groups.len(),
    ensures
        ({
            let b = spec_best(groups, toks, k);
            &&& 0 <= b.1 < k
            &&& b.0 == spec_sim_score(toks, stream_tokens(groups[b.1].event.inner@))
        }),
    decreases k,
{
    if k == 1 {
        assert(spec_best(groups, toks, 0) == (0nat, 0int));
    } else {
        lemma_spec_best_bounds(groups, toks, k - 1);
    }
}

/// Absorption keeps a group in its bucket: the first template token stays
/// the concrete value the bucket is keyed on, and every symbol of the
/// grown group still resolves.
proof fn lemma_absorbed_group_keeps_home(
    g0: LogGroup,
    g1: LogGroup,
    rc: Record,
    strs: Seq<Seq<char>>,
)
    requires
        group_absorbed(g0, g1, rc),
        g0.event.inner@.len() > 0,
        rc.inner@.len() == g0.event.inner@.len(),
        stream_tokens(rc.inner@)[0] == g0.event.inner@[0].1,
        record_syms_valid(g0.event, strs),
        record_syms_valid(rc, strs),
        forall|e: int|
            0 <= e < g0.examples@.len() ==> record_syms_valid(#[trigger] g0.examples@[e], strs),
    ensures
        g1.event.inner@[0].1 == g0.event.inner@[0].1,
        record_syms_valid(g1.event, strs),
        forall|e: int|
            0 <= e < g1.examples@.len() ==> record_syms_valid(#[trigger] g1.examples@[e], strs),
{
    let ev = stream_tokens(g0.event.inner@);
    let cand = stream_tokens(rc.inner@);
    let discovered = spec_discovered(ev, g0.variables@, cand);
    crate::log_group::lemma_discover_props(ev, g0.variables@, cand, 0);
    if discovered.contains(0) {
        let k = choose|k: int| 0 <= k < discovered.len() && discovered[k] == 0;
        assert(!spec_token_eq(ev[0], cand[0]));
        assert(ev[0] == g0.event.inner@[0].1);
        crate::record::lemma_token_eq_reflexive(ev[0]);
    }
    assert(g1.event.inner@[0] == g0.event.inner@[0]);
    assert forall|k: int|
        0 <= k < g1.event.inner@.len() implies ((#[trigger] g1.event.inner@[k]).1 matches
    Token::Value(TypedToken::String(s)) ==> s < strs.len()) by {
        if discovered.contains(k) {
            assert(g1.event.inner@[k].1 == Token::Wildcard);
        } else {
            assert(g1.event.inner@[k] == g0.event.inner@[k]);
        }
    }
    assert forall|e: int| 0 <= e < g1.examples@.len() implies record_syms_valid(
        #[trigger] g1.examples@[e],
        strs,
    ) by {
        if e < g0.examples@.len() {
            assert(g1.examples@[e] == g0.examples@[e]);
        } else {
            assert(g1.examples@[e] == rc);
        }
    }
}

/// The groups of the first `j` entries of a length bucket, concatenated in
/// entry order, each entry's groups in insertion order.
pub open spec fn flat_upto(es: Seq<SymBucket>, j: int) -> Seq<LogGroup>
    decreases j,
{
    if j <= 0 {
        Seq::empty()
    } else {
        flat_upto(es, j - 1) + es[j - 1].groups@
    }
}

/// All groups of a length bucket, flattened.
pub open spec fn flat_entries(es: Seq<SymBucket>) -> Seq<LogGroup> {
    flat_upto(es, es.len() as int)
}

/// How a line with at least one atom is routed: the interner grows by the
/// line's atoms, and the bucket map changes exactly as the located or
/// created `(length, first-token)` bucket and the threshold decision say.
pub open spec fn routed(
    pre: SingleLayer,
    post: SingleLayer,
    line: Seq<char>,
    r: Result<bool, crate::DrainError>,
) -> bool {
    ({
                let strs0 = interner_strings(pre.strings);
                let ats_len = spec_atoms(line).len() as int;
                let toks = line_token_seq(line, strs0);
                let key = line_first_sym(line, strs0);
                let b0 = pre.base_layer@;
                let b1 = post.base_layer@;
                &&& interner_strings(post.strings) == model_strs_from(
                    line,
                    spec_atoms(line),
                    strs0,
                )
                &&& match find_len_idx(b0, ats_len, 0) {
                    None => {
                        &&& r == Ok::<bool, DrainError>(true)
                        &&& b1.len() == b0.len() + 1
                        &&& forall|x: int| 0 <= x < b0.len() ==> b1[x] == b0[x]
                        &&& b1.last().length == ats_len
                        &&& b1.last().entries@.len() == 1
                        &&& b1.last().entries@[0].first == key
                        &&& b1.last().entries@[0].groups@.len() == 1
                        &&& group_opened(b1.last().entries@[0].groups@[0], line, strs0)
                    },
                    Some(li) => match find_sym_idx(b0[li].entries@, key, 0) {
                        None => {
                            &&& r == Ok::<bool, DrainError>(true)
                            &&& b1.len() == b0.len()
                            &&& forall|x: int| 0 <= x < b0.len() && x != li ==> b1[x] == b0[x]
                            &&& b1[li].length == b0[li].length
                            &&& b1[li].entries@.len() == b0[li].entries@.len() + 1
                            &&& forall|y: int|
                                0 <= y < b0[li].entries@.len() ==> b1[li].entries@[y]
                                    == b0[li].entries@[y]
                            &&& b1[li].entries@.last().first == key
                            &&& b1[li].entries@.last().groups@.len() == 1
                            &&& group_opened(b1[li].entries@.last().groups@[0], line, strs0)
                        },
                        Some(si) => ({
                            let groups0 = b0[li].entries@[si].groups@;
                            let groups1 = b1[li].entries@[si].groups@;
                            let best = spec_best(groups0, toks, groups0.len() as int);
                            &&& base_updated_at(b0, b1, li, si)
                            &&& if spec_absorbs(
                                best.0 as int,
                                ats_len,
                                pre.threshold.numer as int,
                                pre.threshold.denom as int,
                            ) {
                                &&& r == Ok::<bool, DrainError>(false)
                                &&& groups1.len() == groups0.len()
                                &&& forall|k: int|
                                    0 <= k < groups0.len() && k != best.1 ==> groups1[k]
                                        == groups0[k]
                                &&& exists|rc: Record|
                                    tokenizes(rc.inner@, line, strs0) && #[trigger] group_absorbed(
                                        groups0[best.1],
                                        groups1[best.1],
                                        rc,
                                    )
                            } else {
                                &&& r == Ok::<bool, DrainError>(true)
                                &&& groups1.len() == groups0.len() + 1
                                &&& forall|k: int|
                                    0 <= k < groups0.len() ==> groups1[k] == groups0[k]
                                &&& group_opened(groups1.last(), line, strs0)
                            }
                        }),
                    },
                }
            })
}

/// A single-layer drain index: optional domain prefilters, the two-level
/// bucket map, the similarity threshold, and the interner every record of
/// this index was built against.
#[derive(Debug)]
pub struct SingleLayer {
    /// Optional caller-supplied prefilter patterns; compiled but not
    /// further specified.
    pub domain: Vec<Regex>,
    /// Length, then first-token symbol, then candidate groups.
    pub base_layer: Vec<LengthBucket>,
    /// The similarity threshold as an exact rational.
    pub threshold: Threshold,
    /// The interner all records of this index share.
    pub strings: Interner,
}

impl SingleLayer {
    /// A positive threshold denominator, a duplicate-free interner,
    /// distinct length keys, and every bucket well-formed: in particular
    /// every group sits in exactly the one bucket its template's length
    /// and first token name.
    pub open spec fn wf(&self) -> bool {
        &&& self.threshold.denom > 0
        &&& interner_wf(self.strings)
        &&& forall|i: int, j: int|
            0 <= i < j < self.base_layer@.len() ==> (#[trigger] self.base_layer@[i]).length != (
            #[trigger] self.base_layer@[j]).length
        &&& forall|i: int|
            0 <= i < self.base_layer@.len() ==> length_bucket_wf(
                #[trigger] self.base_layer@[i],
                interner_strings(self.strings),
            )
    }

    /// Compiles the supplied domain patterns; fails exactly when one of
    /// them is refused by the regex engine. A fresh index holds no groups
    /// and the threshold one half.
    #[verifier::loop_isolation(false)]
    pub fn new(domain: Vec<String>) -> (r: Result<SingleLayer, DrainError>)
        ensures
            r is Ok <==> (forall|i: int|
                0 <= i < domain@.len() ==> regex_valid(#[trigger] domain@[i]@)),
            (r matches Ok(d) ==> {
                &&& d.wf()
                &&& d.threshold == (Threshold { numer: 1u64, denom: 2u64 })
                &&& d.base_layer@.len() == 0
                &&& interner_strings(d.strings).len() == 0
                &&& d.domain@.len() == domain@.len()
            }),
    {
        let n = domain.len();
        let mut patterns: Vec<Regex> = Vec::new();
        let mut i: usize = 0;
        while i < n
            invariant
                i <= n,
                patterns@.len() == i,
                forall|j: int| 0 <= j < i ==> regex_valid(#[trigger] domain@[j]@),
            decreases n - i,
        {
            match compile_regex(domain[i].as_str()) {
                Ok(re) => patterns.push(re),
                Err(_) => {
                    return Err(DrainError::InvalidRegex);
                },
            }
            i = i + 1;
        }
        Ok(
            SingleLayer {
                domain: patterns,
                base_layer: Vec::new(),
                threshold: Threshold { numer: 1u64, denom: 2u64 },
                strings: Interner::new(),
            },
        )
    }

    /// Replaces the threshold by `numerator / denominator`; a zero
    /// denominator is refused and leaves the index unchanged.
    pub fn set_threshold(&mut self, numerator: u64, denominator: u64) -> (r: Result<
        (),
        DrainError,
    >)
        ensures
            r is Ok <==> denominator != 0,
            denominator != 0 ==> ({
                &&& final(self).threshold == (Threshold { numer: numerator, denom: denominator })
                &&& final(self).base_layer == old(self).base_layer
                &&& final(self).strings == old(self).strings
                &&& final(self).domain == old(self).domain
            }),
            denominator == 0 ==> *final(self) == *old(self) && r == Err::<(), DrainError>(
                DrainError::ZeroDenominator,
            ),
            old(self).wf() ==> final(self).wf(),
    {
        if denominator == 0 {
            Err(DrainError::ZeroDenominator)
        } else {
            self.threshold = Threshold { numer: numerator, denom: denominator };
            Ok(())
        }
    }

    /// Routes one raw line. A line with no atoms is a no-op. Otherwise the
    /// line's `(length, first-token)` bucket is located (or created, which
    /// opens a group and reports an addition); within the bucket the
    /// best-scoring candidate wins, earliest-inserted on ties, and the line
    /// is absorbed exactly when its score over its length strictly exceeds
    /// the threshold, else it opens a new group at the end of the bucket.
    pub fn process_line(&mut self, line: String) -> (r: Result<bool, DrainError>)
        requires
            old(self).wf(),
            interner_strings(old(self).strings).len() + line@.len() < interner_capacity(),
        ensures
            final(self).wf(),
            r is Ok,
            final(self).threshold == old(self).threshold,
            final(self).domain == old(self).domain,
            spec_atoms(line@).len() == 0 ==> ({
                &&& r == Ok::<bool, DrainError>(false)
                &&& interner_strings(final(self).strings) == interner_strings(old(self).strings)
                &&& final(self).base_layer == old(self).base_layer
            }),
            spec_atoms(line@).len() > 0 ==> routed(*old(self), *final(self), line@, r),
    {
        let ghost l = line@;
        let ghost strs0 = interner_strings(old(self).strings);
        if line.as_str().is_empty() {
            return Ok(false);
        }
        proof {
            lemma_atoms_from_props(l, 0);
            lemma_atoms_count(l, 0);
            lemma_model_props(l, spec_atoms(l), strs0);
        }
        let ghost strs1 = model_strs_from(l, spec_atoms(l), strs0);
        let ghost toks = line_token_seq(l, strs0);
        let new_record = Record::new(&mut self.strings, line);
        proof {
            assert(stream_tokens(new_record.inner@) =~= toks);
        }
        let length = new_record.len();
        if length == 0 {
            return Ok(false);
        }
        let first = match new_record.first(&mut self.strings) {
            Some(f) => f,
            None => {
                proof {
                    assert(false);
                }
                0
            },
        };
        proof {
            assert(first as int == line_first_sym(l, strs0));
            assert(first < strs1.len());
            assert forall|i: int|
                0 <= i < self.base_layer@.len() implies length_bucket_wf(
                #[trigger] self.base_layer@[i],
                strs1,
            ) by {
                lemma_bucket_wf_grow(self.base_layer@[i], strs0, strs1);
            }
        }
        let lio = self.find_length_bucket(length);
        match lio {
            None => {
                proof {
                    lemma_find_len_none(self.base_layer@, length as int, 0);
                }
                let group = LogGroup::new(new_record);
                let entry = SymBucket { first, groups: vec![group] };
                self.base_layer.push(LengthBucket { length, entries: vec![entry] });
                Ok(true)
            },
            Some(li) => {
                proof {
                    lemma_find_len_some(old(self).base_layer@, length as int, 0);
                }
                let sio = Self::find_sym_bucket(&self.base_layer[li].entries, first);
                match sio {
                    None => {
                        proof {
                            lemma_find_sym_none(
                                self.base_layer@[li as int].entries@,
                                first as int,
                                0,
                            );
                        }
                        let group = LogGroup::new(new_record);
                        self.base_layer[li].entries.push(SymBucket { first, groups: vec![group] });
                        Ok(true)
                    },
                    Some(si) => {
                        proof {
                            lemma_find_sym_some(
                                old(self).base_layer@[li as int].entries@,
                                first as int,
                                0,
                            );
                        }
                        let ghost groups0 = self.base_layer@[li as int].entries@[si as int].groups@;
                        let n = self.base_layer[li].entries[si].groups.len();
                        let mut best_score: u64 = 0;
                        let mut best_idx: usize = 0;
                        let mut k: usize = 0;
                        while k < n
                            invariant
                                k <= n,
                                n == groups0.len(),
                                groups0 == self.base_layer@[li as int].entries@[si as int].groups@,
                                li < self.base_layer@.len(),
                                si < self.base_layer@[li as int].entries@.len(),
                                best_idx <= k,
                                spec_best(groups0, toks, k as int) == (
                                    best_score as nat,
                                    best_idx as int,
                                ),
                                toks == stream_tokens(new_record.inner@),
                            decreases n - k,
                        {
                            let sc = new_record.calc_sim_score(
                                self.base_layer[li].entries[si].groups[k].event(),
                            );
                            if sc > best_score {
                                best_score = sc;
                                best_idx = k;
                            }
                            k = k + 1;
                        }
                        proof {
                            lemma_spec_best_bounds(groups0, toks, n as int);
                        }
                        if exceeds_threshold(best_score, length, &self.threshold) {
                            let ghost rc = new_record;
                            let ghost g0 = groups0[best_idx as int];
                            self.base_layer[li].entries[si].groups[best_idx].add_example(
                                new_record,
                            );
                            proof {
                                let g1 =
                                    self.base_layer@[li as int].entries@[si as int].groups@[best_idx as int];
                                assert(group_absorbed(g0, g1, rc));
                                lemma_absorbed_group_keeps_home(g0, g1, rc, strs1);
                                assert forall|i: int|
                                    0 <= i < self.base_layer@.len() implies length_bucket_wf(
                                    #[trigger] self.base_layer@[i],
                                    interner_strings(self.strings),
                                ) by {
                                    if i != li as int {
                                        assert(length_bucket_wf(self.base_layer@[i], strs1));
                                    } else {
                                        let b = self.base_layer@[i];
                                        assert forall|y: int|
                                            0 <= y < b.entries@.len() implies sym_bucket_wf(
                                            #[trigger] b.entries@[y],
                                            b.length as int,
                                            strs1,
                                        ) by {
                                            if y != si as int {
                                                assert(sym_bucket_wf(
                                                    b.entries@[y],
                                                    b.length as int,
                                                    strs1,
                                                ));
                                            } else {
                                                let sb = b.entries@[y];
                                                assert forall|gk: int|
                                                    0 <= gk < sb.groups@.len() implies {
                                                    let g = #[trigger] sb.groups@[gk];
                                                    &&& g.wf()
                                                    &&& g.event.inner@.len() == b.length as int
                                                    &&& g.event.inner@[0].1 == Token::Value(
                                                        TypedToken::String(sb.first),
                                                    )
                                                    &&& record_syms_valid(g.event, strs1)
                                                    &&& forall|e: int|
                                                        0 <= e < g.examples@.len()
                                                            ==> record_syms_valid(
                                                            #[trigger] g.examples@[e],
                                                            strs1,
                                                        )
                                                } by {
                                                    if gk != best_idx as int {
                                                        assert(sb.groups@[gk] == groups0[gk]);
                                                    }
                                                }
                                            }
                                        }
                                    }
                                }
                            }
                            Ok(false)
                        } else {
                            self.base_layer[li].entries[si].groups.push(LogGroup::new(new_record));
                            Ok(true)
                        }
                    },
                }
            },
        }
    }

    /// The groups, one inner list per length bucket, insertion order kept
    /// within each entry.
    #[verifier::loop_isolation(false)]
    pub fn iter_groups(&self) -> (r: Vec<Vec<&LogGroup>>)
        ensures
            r@.len() == self.base_layer@.len(),
            forall|i: int|
                0 <= i < r@.len() ==> (#[trigger] r@[i])@.map_values(|g: &LogGroup| *g)
                    == flat_entries(self.base_layer@[i].entries@),
    {
        let nb = self.base_layer.len();
        let mut results: Vec<Vec<&LogGroup>> = Vec::new();
        let mut i: usize = 0;
        while i < nb
            invariant
                i <= nb,
                results@.len() == i,
                forall|x: int|
                    0 <= x < i ==> (#[trigger] results@[x])@.map_values(|g: &LogGroup| *g)
                        == flat_entries(self.base_layer@[x].entries@),
            decreases nb - i,
        {
            let ghost es = self.base_layer@[i as int].entries@;
            let mut groups: Vec<&LogGroup> = Vec::new();
            let ne = self.base_layer[i].entries.len();
            let mut j: usize = 0;
            while j < ne
                invariant
                    j <= ne,
                    ne == es.len(),
                    es == self.base_layer@[i as int].entries@,
                    i < nb,
                    groups@.map_values(|g: &LogGroup| *g) == flat_upto(es, j as int),
                decreases ne - j,
            {
                let ng = self.base_layer[i].entries[j].groups.len();
                let mut k: usize = 0;
                while k < ng
                    invariant
                        k <= ng,
                        ng == es[j as int].groups@.len(),
                        j < ne,
                        groups@.map_values(|g: &LogGroup| *g) == flat_upto(es, j as int) + es[
                            j as int
                        ].groups@.take(k as int),
                    decreases ng - k,
                {
                    let ghost prev = groups@;
                    groups.push(&self.base_layer[i].entries[j].groups[k]);
                    proof {
                        assert(groups@.map_values(|g: &LogGroup| *g) =~= prev.map_values(
                            |g: &LogGroup| *g,
                        ).push(es[j as int].groups@[k as int]));
                        assert(es[j as int].groups@.take(k + 1) =~= es[j as int].groups@.take(
                            k as int,
                        ).push(es[j as int].groups@[k as int]));
                        assert(groups@.map_values(|g: &LogGroup| *g) =~= flat_upto(es, j as int)
                            + es[j as int].groups@.take(k + 1));
                    }
                    k = k + 1;
                }
                proof {
                    assert(es[j as int].groups@.take(ng as int) =~= es[j as int].groups@);
                    assert(flat_upto(es, j + 1) == flat_upto(es, j as int) + es[j as int].groups@);
                }
                j = j + 1;
            }
            results.push(groups);
            i = i + 1;
        }
        results
    }

    /// Resolves a symbol of this index's interner back to its string;
    /// a symbol this interner never produced is a caller fault, excluded
    /// by the precondition.
    pub fn resolve(&self, sym: usize) -> (r: String)
        requires
            sym < interner_strings(self.strings).len(),
        ensures
            r@ == interner_strings(self.strings)[sym as int],
    {
        match self.strings.resolve(sym) {
            Some(s) => s,
            None => {
                proof {
                    assert(false);
                }
                String::new()
            },
        }
    }

    /// The first length bucket holding `length`, if any.
    fn find_length_bucket(&self, length: usize) -> (r: Option<usize>)
        ensures
            r is Some ==> r->Some_0 < self.base_layer@.len() && Some(r->Some_0 as int)
                == find_len_idx(self.base_layer@, length as int, 0),
            r is None ==> find_len_idx(self.base_layer@, length as int, 0) is None,
    {
        let n = self.base_layer.len();
        let mut i: usize = 0;
        while i < n
            invariant
                i <= n,
                n == self.base_layer@.len(),
                find_len_idx(self.base_layer@, length as int, 0) == find_len_idx(
                    self.base_layer@,
                    length as int,
                    i as int,
                ),
            decreases n - i,
        {
            if self.base_layer[i].length == length {
                return Some(i);
            }
            i = i + 1;
        }
        None
    }

    /// The first entry of a length bucket keyed on `first`, if any.
    fn find_sym_bucket(entries: &Vec<SymBucket>, first: usize) -> (r: Option<usize>)
        ensures
            r is Some ==> r->Some_0 < entries@.len() && Some(r->Some_0 as int) == find_sym_idx(
                entries@,
                first as int,
                0,
            ),
            r is None ==> find_sym_idx(entries@, first as int, 0) is None,
    {
        let n = entries.len();
        let mut i: usize = 0;
        while i < n
            invariant
                i <= n,
                n == entries@.len(),
                find_sym_idx(entries@, first as int, 0) == find_sym_idx(
                    entries@,
                    first as int,
                    i as int,
                ),
            decreases n - i,
        {
            if entries[i].first == first {
                return Some(i);
            }
            i = i + 1;
        }
        None
    }
}

} // verus!
