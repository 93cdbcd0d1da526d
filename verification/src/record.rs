//! Records: a tokenized log line together with a unique id, and the
//! similarity score between two records.

use vstd::prelude::*;

pub mod tokens;

use crate::ids::Ksuid;
use crate::interning::Interner;
use crate::interning::interner_capacity;
use crate::interning::interner_strings;
use crate::interning::interner_wf;
use crate::interning::lemma_intern_pins_symbol;
use crate::interning::spec_intern_strs;
use crate::interning::spec_intern_sym;
use self::tokens::Token;
use self::tokens::TokenStream;
use self::tokens::TypedToken;
use self::tokens::append_i64_dec;
use self::tokens::append_token_text;
use self::tokens::grok_name;
use self::tokens::model_strs_from;
use self::tokens::lemma_model_props;
use self::tokens::spec_atoms;
use self::tokens::spec_grok_name;
use self::tokens::spec_i64_dec;
use self::tokens::spec_token_eq;
use self::tokens::spec_token_text;
use self::tokens::stream_tokens;
use self::tokens::tokenizes;

verus! {

/// An immutable logical line: an interned token stream plus a fresh id.
#[derive(Clone, Debug)]
pub struct Record {
    pub inner: TokenStream,
    pub uid: Ksuid,
}

/// Every string-valued token of the record carries a symbol the interner
/// contents `strs` can resolve.
pub open spec fn record_syms_valid(r: Record, strs: Seq<Seq<char>>) -> bool {
    forall|k: int|
        0 <= k < r.inner@.len() ==> ((#[trigger] r.inner@[k]).1 matches Token::Value(
            TypedToken::String(s),
        ) ==> s < strs.len())
}

/// The number of positions below both lengths whose tokens agree under the
/// token equality relation, counted from position `i` on.
pub open spec fn sim_from(a: Seq<Token>, b: Seq<Token>, i: int) -> nat
    decreases a.len() - i,
{
    if i < 0 || i >= a.len() || i >= b.len() {
        0
    } else {
        (if spec_token_eq(a[i], b[i]) {
            1nat
        } else {
            0nat
        }) + sim_from(a, b, i + 1)
    }
}

/// The similarity score of two token sequences.
pub open spec fn spec_sim_score(a: Seq<Token>, b: Seq<Token>) -> nat {
    sim_from(a, b, 0)
}

/// Every token equals itself under the token equality relation.
pub proof fn lemma_token_eq_reflexive(t: Token)
    ensures
        spec_token_eq(t, t),
{
    match t {
        Token::Wildcard => {},
        Token::TypedMatch(_) => {},
        Token::Value(_) => {},
    }
}

proof fn lemma_sim_from_bound(a: Seq<Token>, b: Seq<Token>, i: int)
    requires
        0 <= i,
    ensures
        i <= a.len() && i <= b.len() ==> sim_from(a, b, i) <= a.len() - i && sim_from(a, b, i)
            <= b.len() - i,
    decreases a.len() - i,
{
    if i < a.len() && i < b.len() {
        lemma_sim_from_bound(a, b, i + 1);
    }
}

/// The similarity score is at most the length of either sequence.
pub proof fn lemma_sim_score_bound(a: Seq<Token>, b: Seq<Token>)
    ensures
        spec_sim_score(a, b) <= a.len(),
        spec_sim_score(a, b) <= b.len(),
{
    lemma_sim_from_bound(a, b, 0);
}

proof fn lemma_sim_from_prefix(a: Seq<Token>, b: Seq<Token>, i: int, k: int)
    requires
        0 <= i <= k,
        k <= a.len(),
        k <= b.len(),
        forall|j: int| i <= j < k ==> a[j] == b[j],
    ensures
        sim_from(a, b, i) >= k - i,
    decreases k - i,
{
    if i < k {
        lemma_token_eq_reflexive(a[i]);
        lemma_sim_from_prefix(a, b, i + 1, k);
    }
}

/// Two sequences sharing a common prefix of identical tokens of length `k`
/// score at least `k`.
pub proof fn lemma_sim_score_common_prefix(a: Seq<Token>, b: Seq<Token>, k: int)
    requires
        0 <= k <= a.len(),
        k <= b.len(),
        forall|j: int| 0 <= j < k ==> a[j] == b[j],
    ensures
        spec_sim_score(a, b) >= k,
{
    lemma_sim_from_prefix(a, b, 0, k);
}

/// Interning a text a duplicate-free interner already holds at `idx`
/// yields `idx` again, wherever the text stands in an atom list.
proof fn lemma_model_sym_of_present(
    line: Seq<char>,
    ats: Seq<(int, int)>,
    strs: Seq<Seq<char>>,
    j: int,
    t: Seq<char>,
    idx: int,
)
    requires
        strs.no_duplicates(),
        0 <= j < ats.len(),
        tokens::atom_text(line, ats[j]) == t,
        0 <= idx < strs.len(),
        strs[idx] == t,
    ensures
        tokens::model_syms_from(line, ats, strs)[j] == idx,
    decreases ats.len(),
{
    let t0 = tokens::atom_text(line, ats[0]);
    let strs1 = spec_intern_strs(strs, t0);
    assert(tokens::model_syms_from(line, ats, strs) == seq![spec_intern_sym(strs, t0)]
        + tokens::model_syms_from(line, ats.drop_first(), strs1));
    if j == 0 {
        assert(strs.contains(t));
        assert(strs[strs.index_of(t)] == t);
        assert(strs.index_of(t) == idx);
        assert(tokens::model_syms_from(line, ats, strs)[0] == spec_intern_sym(strs, t0));
    } else {
        if strs.contains(t0) {
            assert(strs[strs.index_of(t0)] == t0);
        }
        assert(strs1[spec_intern_sym(strs, t0)] == t0);
        lemma_intern_pins_symbol(strs, t0, spec_intern_sym(strs, t0));
        assert(strs1[idx] == t);
        assert(ats.drop_first()[j - 1] == ats[j]);
        lemma_model_props(line, ats.drop_first(), strs1);
        lemma_model_sym_of_present(line, ats.drop_first(), strs1, j - 1, t, idx);
        assert(tokens::model_syms_from(line, ats, strs)[j] == tokens::model_syms_from(
            line,
            ats.drop_first(),
            strs1,
        )[j - 1]);
    }
}

/// Records built from two lines whose first `k` atoms are textually
/// identical — the second tokenized against the interner as the first
/// left it — score at least `k`.
pub proof fn lemma_sim_score_shared_atom_prefix(
    l1: Seq<char>,
    l2: Seq<char>,
    strs0: Seq<Seq<char>>,
    k: int,
)
    requires
        strs0.no_duplicates(),
        0 <= k <= spec_atoms(l1).len(),
        k <= spec_atoms(l2).len(),
        forall|j: int|
            0 <= j < k ==> tokens::atom_text(l1, #[trigger] spec_atoms(l1)[j]) == tokens::atom_text(
                l2,
                spec_atoms(l2)[j],
            ),
    ensures
        ({
            let strs1 = model_strs_from(l1, spec_atoms(l1), strs0);
            spec_sim_score(
                tokens::line_token_seq(l1, strs0),
                tokens::line_token_seq(l2, strs1),
            ) >= k
        }),
{
    let ats1 = spec_atoms(l1);
    let ats2 = spec_atoms(l2);
    let strs1 = model_strs_from(l1, ats1, strs0);
    let a = tokens::line_token_seq(l1, strs0);
    let b = tokens::line_token_seq(l2, strs1);
    lemma_model_props(l1, ats1, strs0);
    assert forall|j: int| 0 <= j < k implies a[j] == b[j] by {
        let sym1 = tokens::model_syms_from(l1, ats1, strs0)[j];
        assert(strs1[sym1] == tokens::atom_text(l1, ats1[j]));
        lemma_model_sym_of_present(
            l2,
            ats2,
            strs1,
            j,
            tokens::atom_text(l1, ats1[j]),
            sym1,
        );
    }
    lemma_sim_score_common_prefix(a, b, k);
}

impl Record {
    /// Tokenizes a raw line against the interner and pairs the stream with
    /// a fresh id.
    pub fn new(interner: &mut Interner, line: String) -> (r: Record)
        requires
            interner_wf(*old(interner)),
            interner_strings(*old(interner)).len() + line@.len() < interner_capacity(),
        ensures
            tokenizes(r.inner@, line@, interner_strings(*old(interner))),
            interner_strings(*final(interner)) == model_strs_from(
                line@,
                spec_atoms(line@),
                interner_strings(*old(interner)),
            ),
            interner_wf(*final(interner)),
            interner_strings(*old(interner)).is_prefix_of(interner_strings(*final(interner))),
            record_syms_valid(r, interner_strings(*final(interner))),
            r.inner@.len() == spec_atoms(line@).len(),
    {
        let stream = TokenStream::from_unicode_line(interner, line.as_str());
        proof {
            lemma_model_props(line@, spec_atoms(line@), interner_strings(*old(interner)));
        }
        Record { inner: stream, uid: Ksuid::new() }
    }

    /// Counts the positions at which this record and the candidate hold
    /// equal tokens, under the token equality relation.
    #[verifier::loop_isolation(false)]
    pub fn calc_sim_score(&self, candidate: &Record) -> (score: u64)
        ensures
            score == spec_sim_score(stream_tokens(self.inner@), stream_tokens(candidate.inner@)),
    {
        let ghost a = stream_tokens(self.inner@);
        let ghost b = stream_tokens(candidate.inner@);
        let n = if self.inner.inner.len() <= candidate.inner.inner.len() {
            self.inner.inner.len()
        } else {
            candidate.inner.inner.len()
        };
        let mut score: u64 = 0;
        let mut i: usize = 0;
        while i < n
            invariant
                n <= a.len(),
                n <= b.len(),
                n == a.len() || n == b.len(),
                i <= n,
                score <= i,
                score + sim_from(a, b, i as int) == spec_sim_score(a, b),
            decreases n - i,
        {
            if tokens::token_eq(&self.inner.inner[i].1, &candidate.inner.inner[i].1) {
                score = score + 1;
            }
            i = i + 1;
        }
        score
    }

    /// The symbol form of the first token, for index keying; nothing for an
    /// empty record.
    pub fn first(&self, interner: &mut Interner) -> (r: Option<usize>)
        requires
            interner_wf(*old(interner)),
            interner_strings(*old(interner)).len() < interner_capacity(),
        ensures
            self.inner@.len() == 0 ==> r is None && *final(interner) == *old(interner),
            self.inner@.len() > 0 ==> (match self.inner@[0].1 {
                Token::Value(TypedToken::String(s)) => r == Some(s) && *final(interner) == *old(
                    interner,
                ),
                _ => ({
                    let strs = interner_strings(*old(interner));
                    let txt = spec_token_intern_text(self.inner@[0].1);
                    &&& interner_strings(*final(interner)) == spec_intern_strs(strs, txt)
                    &&& r == Some(spec_intern_sym(strs, txt) as usize)
                    &&& interner_wf(*final(interner))
                }),
            }),
    {
        let t = self.inner.first();
        match t {
            None => None,
            Some(tok) => Some(token_symbol(interner, &tok)),
        }
    }

    /// The number of tokens.
    pub fn len(&self) -> (n: usize)
        ensures
            n == self.inner@.len(),
    {
        self.inner.len()
    }

    /// Whether the record holds no tokens.
    pub fn is_empty(&self) -> (r: bool)
        ensures
            r == (self.inner@.len() == 0),
    {
        self.inner.len() == 0
    }

    /// Resolves a symbol against an interner; nothing for a symbol this
    /// interner never produced.
    pub fn resolve(interner: &Interner, sym: usize) -> (r: Option<String>)
        ensures
            match r {
                Some(s) => sym < interner_strings(*interner).len() && s@ == interner_strings(
                    *interner,
                )[sym as int],
                None => sym >= interner_strings(*interner).len(),
            },
    {
        interner.resolve(sym)
    }

    /// Hands the record to a consuming iteration state over its rendered
    /// token texts.
    pub fn into_iter(self) -> (r: IntoIter)
        ensures
            r.record == self,
            r.index == 0,
    {
        IntoIter { record: self, index: 0 }
    }

    /// A borrowing iteration state over the record's tokens.
    pub fn iter(&self) -> (r: RefIterator<'_>)
        ensures
            r.record == self,
            r.index == 0,
    {
        RefIterator { record: self, index: 0 }
    }
}

/// The text a non-string token is interned under when converted to a
/// symbol: `*` for a wildcard, the class name for a type class, the
/// decimal representation for an integer value. A string value already
/// carries its symbol, so no text is interned for it.
pub open spec fn spec_token_intern_text(t: Token) -> Seq<char> {
    match t {
        Token::Wildcard => "*"@,
        Token::TypedMatch(g) => spec_grok_name(g),
        Token::Value(TypedToken::String(_)) => Seq::empty(),
        Token::Value(TypedToken::Int(i)) => spec_i64_dec(i as int),
    }
}

/// The symbol of one token: a string value keeps its symbol, every other
/// token is interned under its rendered text.
fn token_symbol(interner: &mut Interner, t: &Token) -> (sym: usize)
    requires
        interner_wf(*old(interner)),
        interner_strings(*old(interner)).len() < interner_capacity(),
    ensures
        match *t {
            Token::Value(TypedToken::String(s)) => sym == s && *final(interner) == *old(interner),
            _ => ({
                let strs = interner_strings(*old(interner));
                let txt = spec_token_intern_text(*t);
                &&& interner_strings(*final(interner)) == spec_intern_strs(strs, txt)
                &&& sym == spec_intern_sym(strs, txt) as usize
                &&& interner_wf(*final(interner))
            }),
        },
{
    let ghost strs = interner_strings(*interner);
    match t {
        Token::Value(TypedToken::String(s)) => *s,
        Token::Value(TypedToken::Int(i)) => {
            let mut text = String::new();
            append_i64_dec(&mut text, *i);
            proof {
                assert(text@ =~= spec_i64_dec(*i as int));
            }
            let sym = interner.intern(text.as_str());
            proof {
                lemma_intern_pins_symbol(strs, text@, sym as int);
            }
            sym
        },
        Token::Wildcard => {
            let sym = interner.intern("*");
            proof {
                lemma_intern_pins_symbol(strs, "*"@, sym as int);
            }
            sym
        },
        Token::TypedMatch(g) => {
            let name = grok_name(*g);
            let sym = interner.intern(name.as_str());
            proof {
                lemma_intern_pins_symbol(strs, name@, sym as int);
            }
            sym
        },
    }
}

/// Consuming iteration state: yields the rendered text of each token in
/// order.
pub struct IntoIter {
    pub record: Record,
    pub index: usize,
}

impl IntoIter {
    /// The rendered text of the next token, advancing the position;
    /// nothing once every token has been yielded.
    pub fn next(&mut self, interner: &Interner) -> (r: Option<String>)
        requires
            record_syms_valid(old(self).record, interner_strings(*interner)),
        ensures
            old(self).index < old(self).record.inner@.len() ==> ({
                &&& r is Some
                &&& r->Some_0@ == spec_token_text(
                    old(self).record.inner@[old(self).index as int].1,
                    interner_strings(*interner),
                )
                &&& final(self).index == old(self).index + 1
                &&& final(self).record == old(self).record
            }),
            old(self).index >= old(self).record.inner@.len() ==> r is None && *final(self) == *old(
                self,
            ),
    {
        let n = self.record.inner.len();
        if self.index >= n {
            return None;
        }
        let t = self.record.inner.get_token_at_index(self.index);
        match t {
            None => None,
            Some(tok) => {
                let mut text = String::new();
                append_token_text(&mut text, interner, &tok);
                proof {
                    assert(text@ =~= spec_token_text(
                        old(self).record.inner@[old(self).index as int].1,
                        interner_strings(*interner),
                    ));
                }
                self.index = self.index + 1;
                Some(text)
            },
        }
    }
}

/// Borrowing iteration state: yields the tokens in order.
pub struct RefIterator<'a> {
    pub record: &'a Record,
    pub index: usize,
}

impl<'a> RefIterator<'a> {
    /// The next token, advancing the position; nothing once every token
    /// has been yielded.
    pub fn next(&mut self) -> (r: Option<Token>)
        ensures
            old(self).index < old(self).record.inner@.len() ==> ({
                &&& r == Some(old(self).record.inner@[old(self).index as int].1)
                &&& final(self).index == old(self).index + 1
                &&& final(self).record == old(self).record
            }),
            old(self).index >= old(self).record.inner@.len() ==> r is None && *final(self) == *old(
                self,
            ),
    {
        let n = self.record.inner.len();
        if self.index >= n {
            return None;
        }
        let t = self.record.inner.get_token_at_index(self.index);
        match t {
            None => None,
            Some(tok) => {
                self.index = self.index + 1;
                Some(tok)
            },
        }
    }
}

} // verus!
