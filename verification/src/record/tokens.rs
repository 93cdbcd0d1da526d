//! Tokens: atom type classes (grokkers), typed tokens, and token streams.

use vstd::prelude::*;
use crate::interning::Interner;
use crate::interning::interner_capacity;
use crate::interning::interner_strings;
use crate::interning::interner_wf;
use crate::interning::lemma_intern_pins_symbol;
use crate::interning::spec_intern_strs;
use crate::interning::spec_intern_sym;

verus! {

/// The fixed, ordered enumeration of atom type classes. Ambiguous regex
/// match sets are arbitrated back to a single variant by position, so the
/// order of the variants is part of the interface.
#[derive(Clone, Copy, Debug, Hash, PartialEq, Eq, Structural)]
pub enum Grokker {
    Base10Integer,
    Base10Float,
    Base16Integer,
    Base16Float,
    UUID,
    MAC,
    IPv6,
    IPv4,
    Hostname,
    Month,
    Day,
}

/// The anchored regex pattern of each type class, as a sequence of characters.
pub open spec fn spec_pattern(g: Grokker) -> Seq<char> {
    match g {
        Grokker::Base10Integer => r"^(?:[+-]?(?:[0-9]+))$"@,
        Grokker::Base10Float => r"^(?:[+-]?(?:(?:[0-9]+(?:\.[0-9]+))|(?:\.[0-9]+)))$"@,
        Grokker::Base16Integer => r"^(?:[+-]?(?:0x)?(?:[0-9A-Fa-f]+))$"@,
        Grokker::Base16Float => r"^(?:[+-]?(?:0x)?(?:[0-9A-Fa-f]+)(?:\.[0-9A-Fa-f]+))$"@,
        Grokker::UUID => r"^[A-Fa-f0-9]{8}-(?:[A-Fa-f0-9]{4}-){3}[A-Fa-f0-9]{12}$"@,
        Grokker::MAC => r"^(?:(?:[A-Fa-f0-9]{2}:){5}[A-Fa-f0-9]{2})$"@,
        Grokker::IPv6 => r"^((([0-9A-Fa-f]{1,4}:){7}([0-9A-Fa-f]{1,4}|:))|(([0-9A-Fa-f]{1,4}:){6}(:[0-9A-Fa-f]{1,4}|((25[0-5]|2[0-4]\d|1\d\d|[1-9]?\d)(\.(25[0-5]|2[0-4]\d|1\d\d|[1-9]?\d)){3})|:))|(([0-9A-Fa-f]{1,4}:){5}(((:[0-9A-Fa-f]{1,4}){1,2})|:((25[0-5]|2[0-4]\d|1\d\d|[1-9]?\d)(\.(25[0-5]|2[0-4]\d|1\d\d|[1-9]?\d)){3})|:))|(([0-9A-Fa-f]{1,4}:){4}(((:[0-9A-Fa-f]{1,4}){1,3})|((:[0-9A-Fa-f]{1,4})?:((25[0-5]|2[0-4]\d|1\d\d|[1-9]?\d)(\.(25[0-5]|2[0-4]\d|1\d\d|[1-9]?\d)){3}))|:))|(([0-9A-Fa-f]{1,4}:){3}(((:[0-9A-Fa-f]{1,4}){1,4})|((:[0-9A-Fa-f]{1,4}){0,2}:((25[0-5]|2[0-4]\d|1\d\d|[1-9]?\d)(\.(25[0-5]|2[0-4]\d|1\d\d|[1-9]?\d)){3}))|:))|(([0-9A-Fa-f]{1,4}:){2}(((:[0-9A-Fa-f]{1,4}){1,5})|((:[0-9A-Fa-f]{1,4}){0,3}:((25[0-5]|2[0-4]\d|1\d\d|[1-9]?\d)(\.(25[0-5]|2[0-4]\d|1\d\d|[1-9]?\d)){3}))|:))|(([0-9A-Fa-f]{1,4}:){1}(((:[0-9A-Fa-f]{1,4}){1,6})|((:[0-9A-Fa-f]{1,4}){0,4}:((25[0-5]|2[0-4]\d|1\d\d|[1-9]?\d)(\.(25[0-5]|2[0-4]\d|1\d\d|[1-9]?\d)){3}))|:))|(:(((:[0-9A-Fa-f]{1,4}){1,7})|((:[0-9A-Fa-f]{1,4}){0,5}:((25[0-5]|2[0-4]\d|1\d\d|[1-9]?\d)(\.(25[0-5]|2[0-4]\d|1\d\d|[1-9]?\d)){3}))|:)))(%.+)?$"@,
        Grokker::IPv4 => r"^(?:(?:[0-1]?[0-9]{1,2}|2[0-4][0-9]|25[0-5])[.](?:[0-1]?[0-9]{1,2}|2[0-4][0-9]|25[0-5])[.](?:[0-1]?[0-9]{1,2}|2[0-4][0-9]|25[0-5])[.](?:[0-1]?[0-9]{1,2}|2[0-4][0-9]|25[0-5]))$"@,
        Grokker::Hostname => r"^(?:[0-9A-Za-z][0-9A-Za-z-]{0,62})(?:\.(?:[0-9A-Za-z][0-9A-Za-z-]{0,62}))*(\.?|\b)$"@,
        Grokker::Month => "^(?:[Jj]an(?:uary|uar)?|[Ff]eb(?:ruary|ruar)?|[Mm](?:a|\u{c3}\u{a4})?r(?:ch|z)?|[Aa]pr(?:il)?|[Mm]a(?:y|i)?|[Jj]un(?:e|i)?|[Jj]ul(?:y)?|[Aa]ug(?:ust)?|[Ss]ep(?:tember)?|[Oo](?:c|k)?t(?:ober)?|[Nn]ov(?:ember)?|[Dd]e(?:c|z)(?:ember)?)$"@,
        Grokker::Day => r"^(?:Mon(?:day)?|Tue(?:sday)?|Wed(?:nesday)?|Thu(?:rsday)?|Fri(?:day)?|Sat(?:urday)?|Sun(?:day)?)$"@,
    }
}

impl Grokker {
    /// The anchored regex pattern recognizing atoms of this type class.
    #[must_use]
    pub fn to_pattern(self) -> (r: String)
        ensures
            r@ == spec_pattern(self),
    {
        match self {
            Grokker::Base10Integer => String::from_str(r"^(?:[+-]?(?:[0-9]+))$"),
            Grokker::Base10Float => String::from_str(
                r"^(?:[+-]?(?:(?:[0-9]+(?:\.[0-9]+))|(?:\.[0-9]+)))$",
            ),
            Grokker::Base16Integer => String::from_str(r"^(?:[+-]?(?:0x)?(?:[0-9A-Fa-f]+))$"),
            Grokker::Base16Float => String::from_str(
                r"^(?:[+-]?(?:0x)?(?:[0-9A-Fa-f]+)(?:\.[0-9A-Fa-f]+))$",
            ),
            Grokker::UUID => String::from_str(
                r"^[A-Fa-f0-9]{8}-(?:[A-Fa-f0-9]{4}-){3}[A-Fa-f0-9]{12}$",
            ),
            Grokker::MAC => String::from_str(r"^(?:(?:[A-Fa-f0-9]{2}:){5}[A-Fa-f0-9]{2})$"),
            Grokker::IPv6 => String::from_str(
                r"^((([0-9A-Fa-f]{1,4}:){7}([0-9A-Fa-f]{1,4}|:))|(([0-9A-Fa-f]{1,4}:){6}(:[0-9A-Fa-f]{1,4}|((25[0-5]|2[0-4]\d|1\d\d|[1-9]?\d)(\.(25[0-5]|2[0-4]\d|1\d\d|[1-9]?\d)){3})|:))|(([0-9A-Fa-f]{1,4}:){5}(((:[0-9A-Fa-f]{1,4}){1,2})|:((25[0-5]|2[0-4]\d|1\d\d|[1-9]?\d)(\.(25[0-5]|2[0-4]\d|1\d\d|[1-9]?\d)){3})|:))|(([0-9A-Fa-f]{1,4}:){4}(((:[0-9A-Fa-f]{1,4}){1,3})|((:[0-9A-Fa-f]{1,4})?:((25[0-5]|2[0-4]\d|1\d\d|[1-9]?\d)(\.(25[0-5]|2[0-4]\d|1\d\d|[1-9]?\d)){3}))|:))|(([0-9A-Fa-f]{1,4}:){3}(((:[0-9A-Fa-f]{1,4}){1,4})|((:[0-9A-Fa-f]{1,4}){0,2}:((25[0-5]|2[0-4]\d|1\d\d|[1-9]?\d)(\.(25[0-5]|2[0-4]\d|1\d\d|[1-9]?\d)){3}))|:))|(([0-9A-Fa-f]{1,4}:){2}(((:[0-9A-Fa-f]{1,4}){1,5})|((:[0-9A-Fa-f]{1,4}){0,3}:((25[0-5]|2[0-4]\d|1\d\d|[1-9]?\d)(\.(25[0-5]|2[0-4]\d|1\d\d|[1-9]?\d)){3}))|:))|(([0-9A-Fa-f]{1,4}:){1}(((:[0-9A-Fa-f]{1,4}){1,6})|((:[0-9A-Fa-f]{1,4}){0,4}:((25[0-5]|2[0-4]\d|1\d\d|[1-9]?\d)(\.(25[0-5]|2[0-4]\d|1\d\d|[1-9]?\d)){3}))|:))|(:(((:[0-9A-Fa-f]{1,4}){1,7})|((:[0-9A-Fa-f]{1,4}){0,5}:((25[0-5]|2[0-4]\d|1\d\d|[1-9]?\d)(\.(25[0-5]|2[0-4]\d|1\d\d|[1-9]?\d)){3}))|:)))(%.+)?$",
            ),
            Grokker::IPv4 => String::from_str(
                r"^(?:(?:[0-1]?[0-9]{1,2}|2[0-4][0-9]|25[0-5])[.](?:[0-1]?[0-9]{1,2}|2[0-4][0-9]|25[0-5])[.](?:[0-1]?[0-9]{1,2}|2[0-4][0-9]|25[0-5])[.](?:[0-1]?[0-9]{1,2}|2[0-4][0-9]|25[0-5]))$",
            ),
            Grokker::Hostname => String::from_str(
                r"^(?:[0-9A-Za-z][0-9A-Za-z-]{0,62})(?:\.(?:[0-9A-Za-z][0-9A-Za-z-]{0,62}))*(\.?|\b)$",
            ),
            Grokker::Month => String::from_str(
                "^(?:[Jj]an(?:uary|uar)?|[Ff]eb(?:ruary|ruar)?|[Mm](?:a|\u{c3}\u{a4})?r(?:ch|z)?|[Aa]pr(?:il)?|[Mm]a(?:y|i)?|[Jj]un(?:e|i)?|[Jj]ul(?:y)?|[Aa]ug(?:ust)?|[Ss]ep(?:tember)?|[Oo](?:c|k)?t(?:ober)?|[Nn]ov(?:ember)?|[Dd]e(?:c|z)(?:ember)?)$",
            ),
            Grokker::Day => String::from_str(
                r"^(?:Mon(?:day)?|Tue(?:sday)?|Wed(?:nesday)?|Thu(?:rsday)?|Fri(?:day)?|Sat(?:urday)?|Sun(?:day)?)$",
            ),
        }
    }
}

/// The number of type classes.
pub open spec fn grok_count() -> int {
    11
}

/// The type class at a given position of the fixed order, used to translate
/// regex set match indices back to variants.
pub open spec fn grok_at(idx: int) -> Grokker {
    if idx == 0 {
        Grokker::Base10Integer
    } else if idx == 1 {
        Grokker::Base10Float
    } else if idx == 2 {
        Grokker::Base16Integer
    } else if idx == 3 {
        Grokker::Base16Float
    } else if idx == 4 {
        Grokker::UUID
    } else if idx == 5 {
        Grokker::MAC
    } else if idx == 6 {
        Grokker::IPv6
    } else if idx == 7 {
        Grokker::IPv4
    } else if idx == 8 {
        Grokker::Hostname
    } else if idx == 9 {
        Grokker::Month
    } else {
        Grokker::Day
    }
}

impl Grokker {
    /// Translates a regex set match index back to the variant at that
    /// position of the fixed order; indices past the last variant yield
    /// nothing.
    pub fn from_match_index(idx: usize) -> (r: Option<Grokker>)
        ensures
            r == if idx < grok_count() {
                Some(grok_at(idx as int))
            } else {
                None::<Grokker>
            },
    {
        match idx {
            0 => Some(Grokker::Base10Integer),
            1 => Some(Grokker::Base10Float),
            2 => Some(Grokker::Base16Integer),
            3 => Some(Grokker::Base16Float),
            4 => Some(Grokker::UUID),
            5 => Some(Grokker::MAC),
            6 => Some(Grokker::IPv6),
            7 => Some(Grokker::IPv4),
            8 => Some(Grokker::Hostname),
            9 => Some(Grokker::Month),
            10 => Some(Grokker::Day),
            _ => None,
        }
    }
}

/// The patterns of all type classes, in the fixed order.
pub open spec fn grok_pattern_seq() -> Seq<Seq<char>> {
    Seq::new(grok_count() as nat, |i: int| spec_pattern(grok_at(i)))
}

/// Builds the pattern list of all type classes, in the fixed order.
pub fn grok_patterns() -> (v: Vec<String>)
    ensures
        v@.len() == grok_count(),
        forall|i: int| 0 <= i < v@.len() ==> (#[trigger] v@[i])@ == grok_pattern_seq()[i],
{
    let mut v: Vec<String> = Vec::new();
    v.push(Grokker::Base10Integer.to_pattern());
    v.push(Grokker::Base10Float.to_pattern());
    v.push(Grokker::Base16Integer.to_pattern());
    v.push(Grokker::Base16Float.to_pattern());
    v.push(Grokker::UUID.to_pattern());
    v.push(Grokker::MAC.to_pattern());
    v.push(Grokker::IPv6.to_pattern());
    v.push(Grokker::IPv4.to_pattern());
    v.push(Grokker::Hostname.to_pattern());
    v.push(Grokker::Month.to_pattern());
    v.push(Grokker::Day.to_pattern());
    v
}

/// A typed, concrete token value.
#[derive(Clone, Copy, Debug, PartialEq, Eq, Structural)]
pub enum TypedToken {
    /// An atom held as an interned symbol.
    String(usize),
    /// An atom holding a whole number only.
    Int(i64),
}

/// One position of a token stream.
#[derive(Clone, Copy, Debug, PartialEq, Eq, Structural)]
pub enum Token {
    /// Matches any other token.
    Wildcard,
    /// Matches any value of the inner type class.
    TypedMatch(Grokker),
    /// A concrete value.
    Value(TypedToken),
}

/// The token equality relation of similarity scoring and variable
/// discovery: wildcards match everything, type classes match each other by
/// variant and match concrete values that could belong to them, concrete
/// values match by value.
pub open spec fn spec_token_eq(a: Token, b: Token) -> bool {
    match (a, b) {
        (Token::Wildcard, _) => true,
        (_, Token::Wildcard) => true,
        (Token::TypedMatch(g), Token::TypedMatch(h)) => g == h,
        (Token::TypedMatch(g), Token::Value(v)) => spec_typed_value_eq(g, v),
        (Token::Value(v), Token::TypedMatch(g)) => spec_typed_value_eq(g, v),
        (Token::Value(v), Token::Value(w)) => v == w,
    }
}

/// Whether a concrete value could belong to a type class: an integer value
/// to either integer class; an interned string to none, since tokenization
/// hands a string value out only for atoms no type class recognized.
pub open spec fn spec_typed_value_eq(g: Grokker, v: TypedToken) -> bool {
    match v {
        TypedToken::String(_) => false,
        TypedToken::Int(_) => g == Grokker::Base10Integer || g == Grokker::Base16Integer,
    }
}

/// Decides the token equality relation.
pub fn token_eq(a: &Token, b: &Token) -> (r: bool)
    ensures
        r == spec_token_eq(*a, *b),
{
    match (a, b) {
        (Token::Wildcard, _) => true,
        (_, Token::Wildcard) => true,
        (Token::TypedMatch(g), Token::TypedMatch(h)) => g == h,
        (Token::TypedMatch(g), Token::Value(v)) => typed_value_eq(*g, v),
        (Token::Value(v), Token::TypedMatch(g)) => typed_value_eq(*g, v),
        (Token::Value(v), Token::Value(w)) => v == w,
    }
}

fn typed_value_eq(g: Grokker, v: &TypedToken) -> (r: bool)
    ensures
        r == spec_typed_value_eq(g, *v),
{
    match v {
        TypedToken::String(_) => false,
        TypedToken::Int(_) => g == Grokker::Base10Integer || g == Grokker::Base16Integer,
    }
}

/// The wildcard token equals every token, on either side.
pub proof fn lemma_wildcard_reflexive(t: Token)
    ensures
        spec_token_eq(Token::Wildcard, t),
        spec_token_eq(t, Token::Wildcard),
{
}

/// Byte-free positions of an atom inside the original line, in characters;
/// used only for stable re-rendering.
#[derive(Clone, Copy, Debug, PartialEq, Eq, Structural)]
pub struct Offset {
    pub start: usize,
    pub end: usize,
}

/// The characters ASCII whitespace splitting breaks a line on.
pub open spec fn spec_is_ws(c: char) -> bool {
    c == ' ' || c == '\t' || c == '\n' || c == '\u{c}' || c == '\r'
}

fn is_ascii_ws(c: char) -> (r: bool)
    ensures
        r == spec_is_ws(c),
{
    c == ' ' || c == '\t' || c == '\n' || c == '\u{c}' || c == '\r'
}

/// The position where the atom starting at `i` ends: the first position at
/// or past `i` holding whitespace, or the end of the line.
pub open spec fn atom_end(line: Seq<char>, i: int) -> int
    decreases line.len() - i,
{
    if i < 0 || i >= line.len() {
        i
    } else if spec_is_ws(line[i]) {
        i
    } else {
        atom_end(line, i + 1)
    }
}

pub proof fn lemma_atom_end(line: Seq<char>, i: int)
    requires
        0 <= i <= line.len(),
    ensures
        i <= atom_end(line, i) <= line.len(),
        forall|k: int| i <= k < atom_end(line, i) ==> !spec_is_ws(line[k]),
        atom_end(line, i) == line.len() || spec_is_ws(line[atom_end(line, i)]),
        i < line.len() && !spec_is_ws(line[i]) ==> atom_end(line, i) > i,
    decreases line.len() - i,
{
    if i < line.len() && !spec_is_ws(line[i]) {
        lemma_atom_end(line, i + 1);
    }
}

/// The whitespace-separated atoms of `line` at or past position `i`, as
/// half-open character ranges.
pub open spec fn atoms_from(line: Seq<char>, i: int) -> Seq<(int, int)>
    decreases line.len() - i,
    when i >= 0
    via atoms_from_dec
{
    if i >= line.len() {
        Seq::empty()
    } else if spec_is_ws(line[i]) {
        atoms_from(line, i + 1)
    } else {
        seq![(i, atom_end(line, i))] + atoms_from(line, atom_end(line, i))
    }
}

#[via_fn]
proof fn atoms_from_dec(line: Seq<char>, i: int) {
    if 0 <= i < line.len() && !spec_is_ws(line[i]) {
        lemma_atom_end(line, i);
    }
}

/// The whitespace-separated atoms of a whole line.
pub open spec fn spec_atoms(line: Seq<char>) -> Seq<(int, int)> {
    atoms_from(line, 0)
}

/// The text of one atom.
pub open spec fn atom_text(line: Seq<char>, a: (int, int)) -> Seq<char> {
    line.subrange(a.0, a.1)
}

/// Every atom is a nonempty in-bounds range, atoms do not overlap, and
/// consecutive atoms are separated by at least one character.
pub proof fn lemma_atoms_from_props(line: Seq<char>, i: int)
    requires
        0 <= i <= line.len(),
    ensures
        forall|k: int|
            0 <= k < atoms_from(line, i).len() ==> {
                let a = #[trigger] atoms_from(line, i)[k];
                i <= a.0 < a.1 <= line.len()
            },
        forall|k: int|
            0 <= k && k + 1 < atoms_from(line, i).len() ==> (#[trigger] atoms_from(line, i)[k]).1
                < atoms_from(line, i)[k + 1].0,
    decreases line.len() - i,
{
    if i >= line.len() {
    } else if spec_is_ws(line[i]) {
        lemma_atoms_from_props(line, i + 1);
        assert(atoms_from(line, i) == atoms_from(line, i + 1));
    } else {
        lemma_atom_end(line, i);
        let e = atom_end(line, i);
        lemma_atoms_from_props(line, e);
        let rest = atoms_from(line, e);
        let all = atoms_from(line, i);
        assert(all == seq![(i, e)] + rest);
        if rest.len() > 0 {
            // the next atom starts past the whitespace that ended this one
            lemma_atoms_from_start_not_ws(line, e);
            assert(e < line.len() && spec_is_ws(line[e]));
            assert(rest[0].0 > e);
        }
        assert forall|k: int| 0 <= k < all.len() implies {
            let a = #[trigger] all[k];
            i <= a.0 < a.1 <= line.len()
        } by {
            if k == 0 {
                assert(all[0] == (i, e));
            } else {
                assert(all[k] == rest[k - 1]);
            }
        }
        assert forall|k: int| 0 <= k && k + 1 < all.len() implies (#[trigger] all[k]).1 < all[k
            + 1].0 by {
            if k == 0 {
                assert(all[0] == (i, e));
                assert(all[1] == rest[0]);
            } else {
                assert(all[k] == rest[k - 1]);
                assert(all[k + 1] == rest[k]);
            }
        }
    }
}

/// The first atom at or past `i` starts on a non-whitespace character.
pub proof fn lemma_atoms_from_start_not_ws(line: Seq<char>, i: int)
    requires
        0 <= i <= line.len(),
        atoms_from(line, i).len() > 0,
    ensures
        ({
            let a = atoms_from(line, i)[0];
            i <= a.0 < line.len() && !spec_is_ws(line[a.0]) && a.1 == atom_end(line, a.0)
        }),
    decreases line.len() - i,
{
    if i < line.len() && spec_is_ws(line[i]) {
        lemma_atoms_from_start_not_ws(line, i + 1);
    }
}

/// If every character of `[start, end)` is non-whitespace and `end` sits on
/// whitespace or the end of the line, the atom starting at `start` ends at
/// `end`.
pub proof fn lemma_atom_end_of_scan(line: Seq<char>, start: int, end: int)
    requires
        0 <= start <= end <= line.len(),
        forall|k: int| start <= k < end ==> !spec_is_ws(line[k]),
        end == line.len() || spec_is_ws(line[end]),
    ensures
        atom_end(line, start) == end,
    decreases end - start,
{
    if start < end {
        lemma_atom_end_of_scan(line, start + 1, end);
    }
}

/// A line of `n` characters splits into at most `n` atoms.
pub proof fn lemma_atoms_count(line: Seq<char>, i: int)
    requires
        0 <= i <= line.len(),
    ensures
        atoms_from(line, i).len() <= line.len() - i,
    decreases line.len() - i,
{
    if i >= line.len() {
    } else if spec_is_ws(line[i]) {
        lemma_atoms_count(line, i + 1);
    } else {
        lemma_atom_end(line, i);
        lemma_atoms_count(line, atom_end(line, i));
    }
}

/// The interner contents after interning the texts of `ats` in order,
/// starting from `strs`.
pub open spec fn model_strs_from(
    line: Seq<char>,
    ats: Seq<(int, int)>,
    strs: Seq<Seq<char>>,
) -> Seq<Seq<char>>
    decreases ats.len(),
{
    if ats.len() == 0 {
        strs
    } else {
        model_strs_from(line, ats.drop_first(), spec_intern_strs(strs, atom_text(line, ats[0])))
    }
}

/// The symbols interning the texts of `ats` in order yields, starting from
/// `strs`.
pub open spec fn model_syms_from(
    line: Seq<char>,
    ats: Seq<(int, int)>,
    strs: Seq<Seq<char>>,
) -> Seq<int>
    decreases ats.len(),
{
    if ats.len() == 0 {
        Seq::empty()
    } else {
        seq![spec_intern_sym(strs, atom_text(line, ats[0]))] + model_syms_from(
            line,
            ats.drop_first(),
            spec_intern_strs(strs, atom_text(line, ats[0])),
        )
    }
}

/// Interning atom by atom equals interning the first `k` atoms and then one
/// more.
pub proof fn lemma_model_step(line: Seq<char>, ats: Seq<(int, int)>, k: int, strs: Seq<Seq<char>>)
    requires
        0 <= k < ats.len(),
    ensures
        model_strs_from(line, ats.take(k + 1), strs) == spec_intern_strs(
            model_strs_from(line, ats.take(k), strs),
            atom_text(line, ats[k]),
        ),
        model_syms_from(line, ats.take(k + 1), strs) == model_syms_from(
            line,
            ats.take(k),
            strs,
        ).push(spec_intern_sym(model_strs_from(line, ats.take(k), strs), atom_text(line, ats[k]))),
    decreases k,
{
    if k == 0 {
        let t0 = atom_text(line, ats[0]);
        let strs1 = spec_intern_strs(strs, t0);
        assert(ats.take(0) =~= Seq::<(int, int)>::empty());
        assert(ats.take(1) =~= seq![ats[0]]);
        assert(ats.take(1).drop_first() =~= Seq::<(int, int)>::empty());
        assert(model_strs_from(line, Seq::<(int, int)>::empty(), strs1) == strs1);
        assert(model_strs_from(line, Seq::<(int, int)>::empty(), strs) == strs);
        assert(model_syms_from(line, Seq::<(int, int)>::empty(), strs1) == Seq::<int>::empty());
        assert(ats.take(1)[0] == ats[0]);
        assert(model_strs_from(line, ats.take(1), strs) == strs1);
        assert(model_syms_from(line, ats.take(1), strs) == seq![spec_intern_sym(strs, t0)]
            + Seq::<int>::empty());
        assert(model_syms_from(line, ats.take(1), strs) =~= Seq::<int>::empty().push(
            spec_intern_sym(strs, t0),
        ));
    } else {
        let strs1 = spec_intern_strs(strs, atom_text(line, ats[0]));
        lemma_model_step(line, ats.drop_first(), k - 1, strs1);
        assert(ats.take(k + 1).drop_first() =~= ats.drop_first().take(k));
        assert(ats.take(k).drop_first() =~= ats.drop_first().take(k - 1));
        assert(ats.take(k + 1)[0] == ats[0]);
        assert(ats.take(k)[0] == ats[0]);
        assert(ats.drop_first()[k - 1] == ats[k]);
        assert(model_syms_from(line, ats.take(k + 1), strs) =~= model_syms_from(
            line,
            ats.take(k),
            strs,
        ).push(spec_intern_sym(model_strs_from(line, ats.take(k), strs), atom_text(line, ats[k]))));
    }
}

/// Interning a list of atoms preserves well-formedness, only appends
/// strings, and yields a valid symbol for each atom, resolving to its text
/// in the final contents.
pub proof fn lemma_model_props(line: Seq<char>, ats: Seq<(int, int)>, strs: Seq<Seq<char>>)
    requires
        strs.no_duplicates(),
    ensures
        strs.is_prefix_of(model_strs_from(line, ats, strs)),
        model_strs_from(line, ats, strs).no_duplicates(),
        model_strs_from(line, ats, strs).len() <= strs.len() + ats.len(),
        model_syms_from(line, ats, strs).len() == ats.len(),
        forall|k: int|
            0 <= k < ats.len() ==> {
                let sym = #[trigger] model_syms_from(line, ats, strs)[k];
                &&& 0 <= sym < model_strs_from(line, ats, strs).len()
                &&& model_strs_from(line, ats, strs)[sym] == atom_text(line, ats[k])
            },
    decreases ats.len(),
{
    if ats.len() > 0 {
        let t0 = atom_text(line, ats[0]);
        let strs1 = spec_intern_strs(strs, t0);
        let sym0 = spec_intern_sym(strs, t0);
        if strs.contains(t0) {
            assert(strs[strs.index_of(t0)] == t0);
        }
        assert(strs1[sym0] == t0);
        lemma_intern_pins_symbol(strs, t0, sym0);
        lemma_model_props(line, ats.drop_first(), strs1);
        assert(strs.is_prefix_of(model_strs_from(line, ats, strs)));
        assert forall|k: int| 0 <= k < ats.len() implies {
            let sym = #[trigger] model_syms_from(line, ats, strs)[k];
            &&& 0 <= sym < model_strs_from(line, ats, strs).len()
            &&& model_strs_from(line, ats, strs)[sym] == atom_text(line, ats[k])
        } by {
            if k == 0 {
                assert(model_syms_from(line, ats, strs)[0] == sym0);
                assert(strs1.is_prefix_of(model_strs_from(line, ats.drop_first(), strs1)));
                assert(model_strs_from(line, ats, strs)[sym0] == strs1[sym0]);
            } else {
                assert(model_syms_from(line, ats, strs)[k] == model_syms_from(
                    line,
                    ats.drop_first(),
                    strs1,
                )[k - 1]);
                assert(ats.drop_first()[k - 1] == ats[k]);
            }
        }
    }
}

/// An ordered sequence of `(offset, token)` pairs built from one raw line.
/// Offsets are strictly increasing and non-overlapping; they reflect the
/// original line, so rendering can reproduce the spacing between atoms.
#[derive(Clone, Debug, PartialEq)]
pub struct TokenStream {
    pub inner: Vec<(Offset, Token)>,
}

impl View for TokenStream {
    type V = Seq<(Offset, Token)>;

    open spec fn view(&self) -> Seq<(Offset, Token)> {
        self.inner@
    }
}

/// The tokens of a stream, without their offsets.
pub open spec fn stream_tokens(s: Seq<(Offset, Token)>) -> Seq<Token> {
    s.map_values(|p: (Offset, Token)| p.1)
}

/// What tokenizing `line` against an interner holding `strs0` yields: one
/// pair per whitespace-separated atom, the offsets being the atoms'
/// character ranges and each token the interned symbol of its atom's text.
pub open spec fn tokenizes(
    s: Seq<(Offset, Token)>,
    line: Seq<char>,
    strs0: Seq<Seq<char>>,
) -> bool {
    let ats = spec_atoms(line);
    let syms = model_syms_from(line, ats, strs0);
    &&& s.len() == ats.len()
    &&& forall|k: int|
        0 <= k < s.len() ==> ((#[trigger] s[k]).0.start as int, s[k].0.end as int) == ats[k]
    &&& forall|k: int|
        0 <= k < s.len() ==> (#[trigger] s[k]).1 == Token::Value(
            TypedToken::String(syms[k] as usize),
        )
}

impl TokenStream {
    /// Splits a line on runs of ASCII whitespace, interning each atom.
    #[verifier::loop_isolation(false)]
    pub fn from_unicode_line(interner: &mut Interner, line: &str) -> (r: TokenStream)
        requires
            interner_wf(*old(interner)),
            interner_strings(*old(interner)).len() + line@.len() < interner_capacity(),
        ensures
            tokenizes(r@, line@, interner_strings(*old(interner))),
            interner_strings(*final(interner)) == model_strs_from(
                line@,
                spec_atoms(line@),
                interner_strings(*old(interner)),
            ),
            interner_wf(*final(interner)),
            interner_strings(*old(interner)).is_prefix_of(interner_strings(*final(interner))),
    {
        let ghost strs0 = interner_strings(*old(interner));
        let ghost ats = spec_atoms(line@);
        proof {
            lemma_atoms_from_props(line@, 0);
            lemma_model_props(line@, ats, strs0);
        }
        let n = line.unicode_len();
        let mut toks: Vec<(Offset, Token)> = Vec::new();
        let mut i: usize = 0;
        while i < n
            invariant
                n == line@.len(),
                i <= n,
                toks@.len() <= ats.len(),
                forall|k: int|
                    0 <= k < toks@.len() ==> ((#[trigger] toks@[k]).0.start as int,
                    toks@[k].0.end as int) == ats[k],
                forall|k: int|
                    0 <= k < toks@.len() ==> (#[trigger] toks@[k]).1 == Token::Value(
                        TypedToken::String(
                            model_syms_from(line@, ats.take(toks@.len() as int), strs0)[k] as usize,
                        ),
                    ),
                atoms_from(line@, i as int) == ats.skip(toks@.len() as int),
                interner_strings(*interner) == model_strs_from(
                    line@,
                    ats.take(toks@.len() as int),
                    strs0,
                ),
                interner_strings(*interner).len() <= strs0.len() + i,
                interner_wf(*interner),
            decreases n - i,
        {
            if is_ascii_ws(line.get_char(i)) {
                proof {
                    assert(atoms_from(line@, i as int) == atoms_from(line@, i as int + 1));
                }
                i = i + 1;
            } else {
                let ghost m = toks@.len() as int;
                let start = i;
                let mut j = i;
                while j < n && !is_ascii_ws(line.get_char(j))
                    invariant
                        start <= j <= n,
                        forall|k: int| start <= k < j ==> !spec_is_ws(line@[k]),
                    decreases n - j,
                {
                    j = j + 1;
                }
                let end = j;
                proof {
                    assert(end == n || spec_is_ws(line@[end as int]));
                }
                proof {
                    lemma_atom_end_of_scan(line@, start as int, end as int);
                    assert(ats.skip(m)[0] == (start as int, end as int));
                    assert(ats[m] == (start as int, end as int));
                    assert(atoms_from(line@, end as int) =~= ats.skip(m).drop_first());
                    assert(ats.skip(m).drop_first() =~= ats.skip(m + 1));
                }
                let atom = line.substring_char(start, end);
                let ghost cur_strs = interner_strings(*interner);
                let sym = interner.intern(atom);
                proof {
                    assert(atom@ == atom_text(line@, ats[m]));
                    lemma_intern_pins_symbol(cur_strs, atom@, sym as int);
                    lemma_model_step(line@, ats, m, strs0);
                    lemma_model_props(line@, ats.take(m), strs0);
                    lemma_model_props(line@, ats.take(m + 1), strs0);
                }
                toks.push((Offset { start: start, end: end }, Token::Value(TypedToken::String(sym))));
                proof {
                    assert(toks@.len() == m + 1);
                    assert(forall|k: int|
                        0 <= k < m ==> model_syms_from(line@, ats.take(m + 1), strs0)[k]
                            == model_syms_from(line@, ats.take(m), strs0)[k]);
                    assert(model_syms_from(line@, ats.take(m + 1), strs0)[m] == spec_intern_sym(
                        cur_strs,
                        atom@,
                    ));
                }
                i = end;
            }
        }
        proof {
            assert(ats.skip(toks@.len() as int).len() == 0);
            assert(toks@.len() == ats.len());
            assert(ats.take(toks@.len() as int) =~= ats);
        }
        TokenStream { inner: toks }
    }

    /// The first token, if the stream is nonempty.
    pub fn first(&self) -> (r: Option<Token>)
        ensures
            r == if self@.len() == 0 {
                None::<Token>
            } else {
                Some(self@[0].1)
            },
    {
        if self.inner.len() == 0 {
            None
        } else {
            Some(self.inner[0].1)
        }
    }

    /// The number of tokens.
    pub fn len(&self) -> (n: usize)
        ensures
            n == self@.len(),
    {
        self.inner.len()
    }

    /// Whether the stream holds no tokens.
    pub fn is_empty(&self) -> (r: bool)
        ensures
            r == (self@.len() == 0),
    {
        self.inner.len() == 0
    }

    /// The token at a position, if the position is in bounds.
    pub fn get_token_at_index(&self, idx: usize) -> (r: Option<Token>)
        ensures
            r == if idx < self@.len() {
                Some(self@[idx as int].1)
            } else {
                None::<Token>
            },
    {
        if idx < self.inner.len() {
            Some(self.inner[idx].1)
        } else {
            None
        }
    }
}

/// The display name of a type class.
pub open spec fn spec_grok_name(g: Grokker) -> Seq<char> {
    match g {
        Grokker::Base10Integer => "Base10Integer"@,
        Grokker::Base10Float => "Base10Float"@,
        Grokker::Base16Integer => "Base16Integer"@,
        Grokker::Base16Float => "Base16Float"@,
        Grokker::UUID => "UUID"@,
        Grokker::MAC => "MAC"@,
        Grokker::IPv6 => "IPv6"@,
        Grokker::IPv4 => "IPv4"@,
        Grokker::Hostname => "Hostname"@,
        Grokker::Month => "Month"@,
        Grokker::Day => "Day"@,
    }
}

/// Builds the display name of a type class.
pub fn grok_name(g: Grokker) -> (r: String)
    ensures
        r@ == spec_grok_name(g),
{
    match g {
        Grokker::Base10Integer => String::from_str("Base10Integer"),
        Grokker::Base10Float => String::from_str("Base10Float"),
        Grokker::Base16Integer => String::from_str("Base16Integer"),
        Grokker::Base16Float => String::from_str("Base16Float"),
        Grokker::UUID => String::from_str("UUID"),
        Grokker::MAC => String::from_str("MAC"),
        Grokker::IPv6 => String::from_str("IPv6"),
        Grokker::IPv4 => String::from_str("IPv4"),
        Grokker::Hostname => String::from_str("Hostname"),
        Grokker::Month => String::from_str("Month"),
        Grokker::Day => String::from_str("Day"),
    }
}

/// The compiled pattern set of all type classes, in the fixed order.
#[derive(Debug)]
pub struct GrokMatchers {
    pub set: regex::RegexSet,
}

impl GrokMatchers {
    /// The set was built from exactly the patterns of the fixed order.
    pub open spec fn wf(&self) -> bool {
        crate::regexes::regex_set_patterns(self.set) == grok_pattern_seq()
    }

    /// Compiles the patterns of all type classes into one set; fails only
    /// if the regex engine refuses the set.
    pub fn new() -> (r: Result<GrokMatchers, crate::DrainError>)
        ensures
            r is Ok <==> crate::regexes::regex_set_valid(grok_pattern_seq()),
            (r matches Ok(m) ==> m.wf()),
    {
        let pats = grok_patterns();
        proof {
            assert(pats@.map_values(|s: String| s@) =~= grok_pattern_seq());
        }
        match crate::regexes::compile_regex_set(&pats) {
            Ok(set) => Ok(GrokMatchers { set }),
            Err(_) => Err(crate::DrainError::InvalidRegex),
        }
    }
}

/// The ascending indices of the type classes whose patterns match an atom.
pub open spec fn grok_match_seq(s: Seq<char>) -> Seq<int> {
    crate::regexes::regex_set_match_seq(grok_pattern_seq(), s)
}

/// The type classes whose patterns match an atom, in the fixed order.
pub open spec fn spec_grok_list(s: Seq<char>) -> Seq<Grokker> {
    grok_match_seq(s).map_values(|i: int| grok_at(i))
}

/// The set of type classes whose patterns match one atom.
#[derive(Clone, Debug)]
pub struct GrokSet {
    pub match_types: Vec<Grokker>,
}

impl GrokSet {
    /// Queries the pattern set once for an atom and keeps the matching
    /// type classes.
    #[verifier::loop_isolation(false)]
    pub fn new(matchers: &GrokMatchers, value: &str) -> (r: GrokSet)
        requires
            matchers.wf(),
        ensures
            r.match_types@ == spec_grok_list(value@),
    {
        let idxs = crate::regexes::regex_set_matches(&matchers.set, value);
        let mut match_types: Vec<Grokker> = Vec::new();
        let n = idxs.len();
        let mut i: usize = 0;
        while i < n
            invariant
                i <= n,
                n == idxs@.len(),
                match_types@ == idxs@.take(i as int).map_values(|u: usize| grok_at(u as int)),
            decreases n - i,
        {
            match Grokker::from_match_index(idxs[i]) {
                Some(g) => match_types.push(g),
                None => (),
            }
            proof {
                assert(idxs@.take(i + 1) =~= idxs@.take(i as int).push(idxs@[i as int]));
                assert(idxs@.take(i + 1).map_values(|u: usize| grok_at(u as int)) =~= idxs@.take(
                    i as int,
                ).map_values(|u: usize| grok_at(u as int)).push(grok_at(idxs@[i as int] as int)));
            }
            i = i + 1;
        }
        proof {
            assert(idxs@.take(n as int) =~= idxs@);
            assert(idxs@.map_values(|u: usize| grok_at(u as int)) =~= idxs@.map_values(
                |u: usize| u as int,
            ).map_values(|j: int| grok_at(j)));
        }
        GrokSet { match_types }
    }

    /// Whether any matching class is numeric.
    pub fn is_numeric(&self) -> (r: bool)
        ensures
            r == (exists|k: int|
                0 <= k < self.match_types@.len() && spec_is_numeric_class(
                    #[trigger] self.match_types@[k],
                )),
    {
        let n = self.match_types.len();
        let mut i: usize = 0;
        while i < n
            invariant
                i <= n,
                n == self.match_types@.len(),
                forall|k: int| 0 <= k < i ==> !spec_is_numeric_class(#[trigger] self.match_types@[k]),
            decreases n - i,
        {
            let g = self.match_types[i];
            if g == Grokker::Base10Integer || g == Grokker::Base16Integer || g
                == Grokker::Base16Float || g == Grokker::Base10Float {
                return true;
            }
            i = i + 1;
        }
        false
    }

    /// Whether any matching class is an integer class.
    pub fn is_integer(&self) -> (r: bool)
        ensures
            r == (exists|k: int|
                0 <= k < self.match_types@.len() && spec_is_integer_class(
                    #[trigger] self.match_types@[k],
                )),
    {
        let n = self.match_types.len();
        let mut i: usize = 0;
        while i < n
            invariant
                i <= n,
                n == self.match_types@.len(),
                forall|k: int| 0 <= k < i ==> !spec_is_integer_class(#[trigger] self.match_types@[k]),
            decreases n - i,
        {
            let g = self.match_types[i];
            if g == Grokker::Base10Integer || g == Grokker::Base16Integer {
                return true;
            }
            i = i + 1;
        }
        false
    }
}

/// The numeric type classes.
pub open spec fn spec_is_numeric_class(g: Grokker) -> bool {
    g == Grokker::Base10Integer || g == Grokker::Base16Integer || g == Grokker::Base16Float || g
        == Grokker::Base10Float
}

/// The integer type classes.
pub open spec fn spec_is_integer_class(g: Grokker) -> bool {
    g == Grokker::Base10Integer || g == Grokker::Base16Integer
}

/// Arbitration of an ambiguous match list back to one token, preferring
/// the more specific class: a single match wins outright; two or three
/// matches that pair a class with the classes known to overlap it keep the
/// specific class; anything else falls back to a wildcard.
pub open spec fn spec_arbitrate(gs: Seq<Grokker>) -> Token
    recommends
        gs.len() > 0,
{
    if gs.len() == 1 {
        Token::TypedMatch(gs[0])
    } else if gs.len() == 2 {
        if gs.contains(Grokker::UUID) && gs.contains(Grokker::Hostname) {
            Token::TypedMatch(Grokker::UUID)
        } else if gs.contains(Grokker::Base10Integer) && gs.contains(Grokker::Base16Integer) {
            Token::TypedMatch(Grokker::Base10Integer)
        } else if gs.contains(Grokker::Base10Float) && gs.contains(Grokker::Base16Float) {
            Token::TypedMatch(Grokker::Base10Float)
        } else if gs.contains(Grokker::Base16Integer) && gs.contains(Grokker::Hostname) {
            Token::TypedMatch(Grokker::Base16Integer)
        } else if gs.contains(Grokker::Base16Float) && gs.contains(Grokker::Hostname) {
            Token::TypedMatch(Grokker::Base16Float)
        } else {
            Token::Wildcard
        }
    } else if gs.len() == 3 {
        if gs.contains(Grokker::Base10Integer) && gs.contains(Grokker::Base16Integer)
            && gs.contains(Grokker::Hostname) {
            Token::TypedMatch(Grokker::Base10Integer)
        } else if gs.contains(Grokker::Base10Float) && gs.contains(Grokker::Base16Float)
            && gs.contains(Grokker::Hostname) {
            Token::TypedMatch(Grokker::Base10Float)
        } else {
            Token::Wildcard
        }
    } else {
        Token::Wildcard
    }
}

/// Whether a list of type classes holds a given one.
fn contains_grokker(v: &Vec<Grokker>, g: Grokker) -> (r: bool)
    ensures
        r == v@.contains(g),
{
    let n = v.len();
    let mut i: usize = 0;
    while i < n
        invariant
            i <= n,
            n == v@.len(),
            forall|k: int| 0 <= k < i ==> v@[k] != g,
        decreases n - i,
    {
        if v[i] == g {
            return true;
        }
        i = i + 1;
    }
    false
}

impl TypedToken {
    /// Interns the atom and wraps its symbol: an atom no type class
    /// recognized stays a plain string value.
    pub fn from_parse(interner: &mut Interner, input: &str) -> (t: TypedToken)
        requires
            interner_wf(*old(interner)),
            interner_strings(*old(interner)).len() < interner_capacity(),
        ensures
            t == TypedToken::String(
                spec_intern_sym(interner_strings(*old(interner)), input@) as usize,
            ),
            interner_strings(*final(interner)) == spec_intern_strs(
                interner_strings(*old(interner)),
                input@,
            ),
            interner_wf(*final(interner)),
    {
        let ghost strs = interner_strings(*interner);
        let sym = interner.intern(input);
        proof {
            lemma_intern_pins_symbol(strs, input@, sym as int);
        }
        TypedToken::String(sym)
    }
}

impl Token {
    /// Classifies one atom: no match interns it as a string value, one
    /// match types it, ambiguous matches are arbitrated by
    /// [`spec_arbitrate`].
    pub fn from_parse(matchers: &GrokMatchers, interner: &mut Interner, input: &str) -> (t: Token)
        requires
            matchers.wf(),
            interner_wf(*old(interner)),
            interner_strings(*old(interner)).len() < interner_capacity(),
        ensures
            spec_grok_list(input@).len() > 0 ==> t == spec_arbitrate(spec_grok_list(input@))
                && *final(interner) == *old(interner),
            spec_grok_list(input@).len() == 0 ==> ({
                let strs = interner_strings(*old(interner));
                &&& t == Token::Value(TypedToken::String(spec_intern_sym(strs, input@) as usize))
                &&& interner_strings(*final(interner)) == spec_intern_strs(strs, input@)
                &&& interner_wf(*final(interner))
            }),
    {
        let gs = GrokSet::new(matchers, input);
        let n = gs.match_types.len();
        if n == 0 {
            Token::Value(TypedToken::from_parse(interner, input))
        } else if n == 1 {
            Token::TypedMatch(gs.match_types[0])
        } else if n == 2 {
            if contains_grokker(&gs.match_types, Grokker::UUID) && contains_grokker(
                &gs.match_types,
                Grokker::Hostname,
            ) {
                Token::TypedMatch(Grokker::UUID)
            } else if contains_grokker(&gs.match_types, Grokker::Base10Integer)
                && contains_grokker(&gs.match_types, Grokker::Base16Integer) {
                Token::TypedMatch(Grokker::Base10Integer)
            } else if contains_grokker(&gs.match_types, Grokker::Base10Float) && contains_grokker(
                &gs.match_types,
                Grokker::Base16Float,
            ) {
                Token::TypedMatch(Grokker::Base10Float)
            } else if contains_grokker(&gs.match_types, Grokker::Base16Integer)
                && contains_grokker(&gs.match_types, Grokker::Hostname) {
                Token::TypedMatch(Grokker::Base16Integer)
            } else if contains_grokker(&gs.match_types, Grokker::Base16Float) && contains_grokker(
                &gs.match_types,
                Grokker::Hostname,
            ) {
                Token::TypedMatch(Grokker::Base16Float)
            } else {
                Token::Wildcard
            }
        } else if n == 3 {
            if contains_grokker(&gs.match_types, Grokker::Base10Integer) && contains_grokker(
                &gs.match_types,
                Grokker::Base16Integer,
            ) && contains_grokker(&gs.match_types, Grokker::Hostname) {
                Token::TypedMatch(Grokker::Base10Integer)
            } else if contains_grokker(&gs.match_types, Grokker::Base10Float) && contains_grokker(
                &gs.match_types,
                Grokker::Base16Float,
            ) && contains_grokker(&gs.match_types, Grokker::Hostname) {
                Token::TypedMatch(Grokker::Base10Float)
            } else {
                Token::Wildcard
            }
        } else {
            Token::Wildcard
        }
    }
}

/// The text of one decimal digit.
pub open spec fn spec_digit(d: int) -> Seq<char> {
    if d == 0 {
        "0"@
    } else if d == 1 {
        "1"@
    } else if d == 2 {
        "2"@
    } else if d == 3 {
        "3"@
    } else if d == 4 {
        "4"@
    } else if d == 5 {
        "5"@
    } else if d == 6 {
        "6"@
    } else if d == 7 {
        "7"@
    } else if d == 8 {
        "8"@
    } else {
        "9"@
    }
}

/// The decimal representation of an unsigned number.
pub open spec fn spec_u64_dec(n: int) -> Seq<char>
    decreases n,
{
    if n < 10 {
        spec_digit(n)
    } else {
        spec_u64_dec(n / 10) + spec_digit(n % 10)
    }
}

/// The decimal representation of a signed number.
pub open spec fn spec_i64_dec(i: int) -> Seq<char> {
    if i < 0 {
        "-"@ + spec_u64_dec(-i)
    } else {
        spec_u64_dec(i)
    }
}

fn append_digit(out: &mut String, d: u64)
    requires
        d < 10,
    ensures
        final(out)@ == old(out)@ + spec_digit(d as int),
{
    if d == 0 {
        out.append("0");
    } else if d == 1 {
        out.append("1");
    } else if d == 2 {
        out.append("2");
    } else if d == 3 {
        out.append("3");
    } else if d == 4 {
        out.append("4");
    } else if d == 5 {
        out.append("5");
    } else if d == 6 {
        out.append("6");
    } else if d == 7 {
        out.append("7");
    } else if d == 8 {
        out.append("8");
    } else {
        out.append("9");
    }
}

fn append_u64_dec(out: &mut String, n: u64)
    ensures
        final(out)@ == old(out)@ + spec_u64_dec(n as int),
    decreases n,
{
    if n < 10 {
        append_digit(out, n);
    } else {
        append_u64_dec(out, n / 10);
        append_digit(out, n % 10);
        proof {
            assert(old(out)@ + spec_u64_dec(n as int / 10) + spec_digit(n as int % 10) =~= old(
                out,
            )@ + (spec_u64_dec(n as int / 10) + spec_digit(n as int % 10)));
        }
    }
}

pub(crate) fn append_i64_dec(out: &mut String, i: i64)
    ensures
        final(out)@ == old(out)@ + spec_i64_dec(i as int),
{
    if i < 0 {
        out.append("-");
        let mag: u64 = (-(i as i128)) as u64;
        append_u64_dec(out, mag);
        proof {
            assert(old(out)@ + "-"@ + spec_u64_dec(mag as int) =~= old(out)@ + ("-"@ + spec_u64_dec(
                mag as int,
            )));
        }
    } else {
        append_u64_dec(out, i as u64);
    }
}

/// The rendered text of one token against interner contents `strs`: `*`
/// for a wildcard, the class name for a type class, the resolved string or
/// the decimal representation for a value.
pub open spec fn spec_token_text(t: Token, strs: Seq<Seq<char>>) -> Seq<char> {
    match t {
        Token::Wildcard => "*"@,
        Token::TypedMatch(g) => spec_grok_name(g),
        Token::Value(TypedToken::String(s)) => if s < strs.len() {
            strs[s as int]
        } else {
            Seq::empty()
        },
        Token::Value(TypedToken::Int(i)) => spec_i64_dec(i as int),
    }
}

/// Appends the rendered text of one token.
pub fn append_token_text(out: &mut String, interner: &Interner, t: &Token)
    requires
        (*t matches Token::Value(TypedToken::String(s)) ==> s < interner_strings(
            *interner,
        ).len()),
    ensures
        final(out)@ == old(out)@ + spec_token_text(*t, interner_strings(*interner)),
{
    match t {
        Token::Wildcard => {
            out.append("*");
        },
        Token::TypedMatch(g) => {
            let name = grok_name(*g);
            out.append(name.as_str());
        },
        Token::Value(TypedToken::String(s)) => {
            let resolved = interner.resolve(*s);
            match resolved {
                Some(text) => {
                    out.append(text.as_str());
                },
                None => {
                    proof {
                        assert(false);
                    }
                },
            }
        },
        Token::Value(TypedToken::Int(i)) => {
            append_i64_dec(out, *i);
        },
    }
}

/// The token sequence tokenizing `line` yields against interner contents
/// `strs0`.
pub open spec fn line_token_seq(line: Seq<char>, strs0: Seq<Seq<char>>) -> Seq<Token> {
    Seq::new(
        spec_atoms(line).len(),
        |k: int|
            Token::Value(
                TypedToken::String(
                    model_syms_from(line, spec_atoms(line), strs0)[k] as usize,
                ),
            ),
    )
}

/// The symbol the first atom of `line` is interned under.
pub open spec fn line_first_sym(line: Seq<char>, strs0: Seq<Seq<char>>) -> int {
    model_syms_from(line, spec_atoms(line), strs0)[0]
}

/// A run of `n` spaces.
pub open spec fn spec_spaces(n: int) -> Seq<char>
    decreases n,
{
    if n <= 0 {
        Seq::empty()
    } else {
        spec_spaces(n - 1) + " "@
    }
}

fn append_spaces(out: &mut String, n: usize)
    ensures
        final(out)@ == old(out)@ + spec_spaces(n as int),
{
    let mut j: usize = 0;
    proof {
        assert(old(out)@ + spec_spaces(0) =~= old(out)@);
    }
    while j < n
        invariant
            j <= n,
            out@ == old(out)@ + spec_spaces(j as int),
        decreases n - j,
    {
        out.append(" ");
        proof {
            assert(old(out)@ + spec_spaces(j as int) + " "@ =~= old(out)@ + spec_spaces(j + 1));
        }
        j = j + 1;
    }
}

/// The rendering of the first `k` pairs of a stream: token texts joined by
/// exactly as many spaces as the offsets record between them.
pub open spec fn render_take(s: Seq<(Offset, Token)>, strs: Seq<Seq<char>>, k: int) -> Seq<char>
    decreases k,
{
    if k <= 0 {
        Seq::empty()
    } else if k == 1 {
        spec_token_text(s[0].1, strs)
    } else {
        render_take(s, strs, k - 1) + spec_spaces(s[k - 1].0.start - s[k - 2].0.end)
            + spec_token_text(s[k - 1].1, strs)
    }
}

/// The rendering of a whole stream against interner contents `strs`.
pub open spec fn spec_render(s: Seq<(Offset, Token)>, strs: Seq<Seq<char>>) -> Seq<char> {
    render_take(s, strs, s.len() as int)
}

/// A stream whose string symbols all resolve and whose offsets do not
/// overlap, so it can be rendered.
pub open spec fn stream_renderable(s: Seq<(Offset, Token)>, strs: Seq<Seq<char>>) -> bool {
    &&& forall|k: int|
        0 <= k < s.len() ==> ((#[trigger] s[k]).1 matches Token::Value(TypedToken::String(sym))
            ==> sym < strs.len())
    &&& forall|k: int| 0 <= k && k + 1 < s.len() ==> (#[trigger] s[k]).0.end <= s[k + 1].0.start
}

impl TokenStream {
    /// Renders the stream: token texts, interleaved with one space per
    /// character of gap between consecutive offsets.
    #[verifier::loop_isolation(false)]
    pub fn render(&self, interner: &Interner) -> (out: String)
        requires
            stream_renderable(self@, interner_strings(*interner)),
        ensures
            out@ == spec_render(self@, interner_strings(*interner)),
    {
        let ghost strs = interner_strings(*interner);
        let n = self.inner.len();
        let mut out = String::new();
        let mut i: usize = 0;
        while i < n
            invariant
                i <= n,
                out@ == render_take(self@, strs, i as int),
            decreases n - i,
        {
            let ghost before = out@;
            if i > 0 {
                let gap = self.inner[i].0.start - self.inner[i - 1].0.end;
                append_spaces(&mut out, gap);
            }
            append_token_text(&mut out, interner, &self.inner[i].1);
            proof {
                if i == 0 {
                    assert(out@ =~= render_take(self@, strs, 1));
                } else {
                    assert(before + spec_spaces(
                        self@[i as int].0.start - self@[i as int - 1].0.end,
                    ) + spec_token_text(self@[i as int].1, strs) =~= render_take(
                        self@,
                        strs,
                        i as int,
                    ) + spec_spaces(self@[i as int].0.start - self@[i as int - 1].0.end)
                        + spec_token_text(self@[i as int].1, strs));
                    assert(out@ =~= render_take(self@, strs, i + 1));
                }
            }
            i = i + 1;
        }
        out
    }
}

/// Every character before the first atom at or past `i` is whitespace.
proof fn lemma_atoms_from_skips_ws(line: Seq<char>, i: int)
    requires
        0 <= i <= line.len(),
        atoms_from(line, i).len() > 0,
    ensures
        forall|j: int| i <= j < atoms_from(line, i)[0].0 ==> spec_is_ws(line[j]),
    decreases line.len() - i,
{
    if i < line.len() && spec_is_ws(line[i]) {
        lemma_atoms_from_skips_ws(line, i + 1);
    }
}

/// A region with no atoms is all whitespace.
proof fn lemma_atoms_from_empty_ws(line: Seq<char>, i: int)
    requires
        0 <= i <= line.len(),
        atoms_from(line, i).len() == 0,
    ensures
        forall|j: int| i <= j < line.len() ==> spec_is_ws(line[j]),
    decreases line.len() - i,
{
    if i < line.len() {
        lemma_atoms_from_empty_ws(line, i + 1);
    }
}

/// Every character strictly between two consecutive atoms is whitespace,
/// and every character after the last atom is whitespace.
proof fn lemma_atoms_gaps_ws(line: Seq<char>, i: int)
    requires
        0 <= i <= line.len(),
    ensures
        forall|k: int, j: int|
            0 <= k && k + 1 < atoms_from(line, i).len() && (#[trigger] atoms_from(line, i)[k]).1
                <= j < atoms_from(line, i)[k + 1].0 ==> spec_is_ws(#[trigger] line[j]),
        atoms_from(line, i).len() > 0 ==> (forall|j: int|
            atoms_from(line, i).last().1 <= j < line.len() ==> spec_is_ws(#[trigger] line[j])),
    decreases line.len() - i,
{
    let ats = atoms_from(line, i);
    if i >= line.len() {
    } else if spec_is_ws(line[i]) {
        lemma_atoms_gaps_ws(line, i + 1);
    } else {
        lemma_atom_end(line, i);
        let e = atom_end(line, i);
        lemma_atoms_gaps_ws(line, e);
        let rest = atoms_from(line, e);
        assert(ats == seq![(i, e)] + rest);
        if rest.len() == 0 {
            lemma_atoms_from_empty_ws(line, e);
            assert(ats.last() == (i, e));
        } else {
            lemma_atoms_from_skips_ws(line, e);
            assert(ats.last() == rest.last());
            assert forall|k: int, j: int|
                0 <= k && k + 1 < ats.len() && (#[trigger] ats[k]).1 <= j < ats[k + 1].0 implies
            spec_is_ws(#[trigger] line[j]) by {
                if k == 0 {
                    assert(ats[0] == (i, e));
                    assert(ats[1] == rest[0]);
                } else {
                    assert(ats[k] == rest[k - 1]);
                    assert(ats[k + 1] == rest[k]);
                }
            }
        }
    }
}

/// A sequence of spaces equals any all-space region of a line.
proof fn lemma_spaces_eq_region(line: Seq<char>, a: int, b: int)
    requires
        0 <= a <= b <= line.len(),
        forall|j: int| a <= j < b ==> line[j] == ' ',
    ensures
        spec_spaces(b - a) == line.subrange(a, b),
    decreases b - a,
{
    reveal_strlit(" ");
    if a < b {
        lemma_spaces_eq_region(line, a, b - 1);
        assert(spec_spaces(b - a) == spec_spaces(b - 1 - a) + " "@);
        assert(spec_spaces(b - a) =~= line.subrange(a, b));
    } else {
        assert(spec_spaces(0) =~= line.subrange(a, a));
    }
}

/// Where the rendering of a tokenized line ends: at the end of its last
/// atom, or nowhere for a line without atoms.
pub open spec fn spec_render_end(line: Seq<char>) -> int {
    if spec_atoms(line).len() == 0 {
        0
    } else {
        spec_atoms(line).last().1
    }
}

/// Rendering a tokenized line reproduces the line exactly up to the end of
/// its last atom — a prefix of the line — and everything past that point
/// is whitespace, provided the line starts with an atom and all its
/// whitespace is plain spaces. A line whose first character is other
/// whitespace renders without that leading run and is no prefix.
pub proof fn lemma_render_stable(
    s: Seq<(Offset, Token)>,
    line: Seq<char>,
    strs0: Seq<Seq<char>>,
    strs: Seq<Seq<char>>,
)
    requires
        strs0.no_duplicates(),
        tokenizes(s, line, strs0),
        model_strs_from(line, spec_atoms(line), strs0).is_prefix_of(strs),
        forall|j: int| 0 <= j < line.len() && spec_is_ws(#[trigger] line[j]) ==> line[j] == ' ',
        spec_atoms(line).len() > 0 ==> spec_atoms(line)[0].0 == 0,
        model_strs_from(line, spec_atoms(line), strs0).len() <= usize::MAX,
    ensures
        spec_render(s, strs) == line.take(spec_render_end(line)),
        spec_render(s, strs).is_prefix_of(line),
        forall|j: int| spec_render_end(line) <= j < line.len() ==> spec_is_ws(#[trigger] line[j]),
    decreases line.len(),
{
    let ats = spec_atoms(line);
    lemma_atoms_from_props(line, 0);
    lemma_atoms_gaps_ws(line, 0);
    lemma_model_props(line, ats, strs0);
    if ats.len() == 0 {
        assert(spec_render(s, strs) =~= line.take(0));
    } else {
        lemma_render_take_eq(s, line, strs0, strs, ats.len() as int);
        assert(spec_render(s, strs) == line.take(ats.last().1));
        assert(spec_render(s, strs).is_prefix_of(line));
    }
    if ats.len() == 0 {
        lemma_atoms_from_empty_ws(line, 0);
    }
}

/// A region of whitespace holds no atoms.
proof fn lemma_atoms_all_ws(line: Seq<char>, i: int)
    requires
        0 <= i <= line.len(),
        forall|j: int| i <= j < line.len() ==> spec_is_ws(#[trigger] line[j]),
    ensures
        atoms_from(line, i).len() == 0,
    decreases line.len() - i,
{
    if i < line.len() {
        lemma_atoms_all_ws(line, i + 1);
    }
}

/// Every atom ends no later than the last one.
proof fn lemma_atoms_ends_bounded(line: Seq<char>, i: int)
    requires
        0 <= i <= line.len(),
    ensures
        forall|k: int|
            0 <= k < atoms_from(line, i).len() ==> (#[trigger] atoms_from(line, i)[k]).1
                <= atoms_from(line, i).last().1,
    decreases line.len() - i,
{
    let ats = atoms_from(line, i);
    if i >= line.len() {
    } else if spec_is_ws(line[i]) {
        lemma_atoms_ends_bounded(line, i + 1);
        assert(atoms_from(line, i) == atoms_from(line, i + 1));
    } else {
        lemma_atom_end(line, i);
        let e = atom_end(line, i);
        lemma_atoms_ends_bounded(line, e);
        lemma_atoms_from_props(line, e);
        let rest = atoms_from(line, e);
        assert(ats == seq![(i, e)] + rest);
        if rest.len() == 0 {
            assert(ats.last() == (i, e));
        } else {
            assert(ats.last() == rest.last());
            assert forall|k: int| 0 <= k < ats.len() implies (#[trigger] ats[k]).1
                <= ats.last().1 by {
                if k == 0 {
                    assert(rest[0].1 <= rest.last().1);
                    assert(e <= rest[0].0 < rest[0].1);
                } else {
                    assert(ats[k] == rest[k - 1]);
                }
            }
        }
    }
}

/// Cutting a line right after its last atom — or anywhere past which only
/// whitespace remains — leaves the atoms unchanged.
proof fn lemma_atoms_truncate(line: Seq<char>, e: int, i: int)
    requires
        0 <= i <= e <= line.len(),
        forall|j: int| e <= j < line.len() ==> spec_is_ws(#[trigger] line[j]),
    ensures
        atoms_from(line.take(e), i) == atoms_from(line, i),
    decreases line.len() - i,
{
    let line2 = line.take(e);
    if i >= e {
        lemma_atoms_all_ws(line, i);
    } else if spec_is_ws(line[i]) {
        lemma_atoms_truncate(line, e, i + 1);
    } else {
        lemma_atom_end(line, i);
        let ae = atom_end(line, i);
        if ae > e {
            assert(!spec_is_ws(line[e]));
        }
        assert(ae <= e);
        assert forall|j: int| i <= j < ae implies !spec_is_ws(line2[j]) by {
            assert(line2[j] == line[j]);
        }
        if ae < e {
            assert(spec_is_ws(line2[ae]));
        }
        lemma_atom_end_of_scan(line2, i, ae);
        lemma_atoms_truncate(line, e, ae);
    }
}

/// Interning texts the interner already holds changes nothing and hands
/// their indices back.
proof fn lemma_model_reintern(
    line2: Seq<char>,
    ats: Seq<(int, int)>,
    strs1: Seq<Seq<char>>,
    syms: Seq<int>,
)
    requires
        strs1.no_duplicates(),
        syms.len() == ats.len(),
        forall|k: int|
            0 <= k < ats.len() ==> 0 <= #[trigger] syms[k] < strs1.len() && strs1[syms[k]]
                == atom_text(line2, ats[k]),
    ensures
        model_strs_from(line2, ats, strs1) == strs1,
        model_syms_from(line2, ats, strs1) == syms,
    decreases ats.len(),
{
    if ats.len() > 0 {
        let t0 = atom_text(line2, ats[0]);
        assert(strs1[syms[0]] == t0);
        assert(strs1.contains(t0));
        assert(strs1[strs1.index_of(t0)] == t0);
        assert(strs1.index_of(t0) == syms[0]);
        assert(spec_intern_strs(strs1, t0) == strs1);
        assert(spec_intern_sym(strs1, t0) == syms[0]);
        assert forall|k: int|
            0 <= k < ats.drop_first().len() implies 0 <= #[trigger] syms.drop_first()[k]
            < strs1.len() && strs1[syms.drop_first()[k]] == atom_text(
            line2,
            ats.drop_first()[k],
        ) by {
            assert(syms.drop_first()[k] == syms[k + 1]);
            assert(ats.drop_first()[k] == ats[k + 1]);
        }
        lemma_model_reintern(line2, ats.drop_first(), strs1, syms.drop_first());
        assert(model_syms_from(line2, ats, strs1) =~= syms);
    } else {
        assert(model_syms_from(line2, ats, strs1) =~= syms);
    }
}

/// Tokenizing the rendering of a tokenized line is stable: the rendering
/// splits into the same atoms, every atom is already interned so the
/// interner does not change, and each atom keeps its symbol.
pub proof fn lemma_retokenize_stable(line: Seq<char>, strs0: Seq<Seq<char>>)
    requires
        strs0.no_duplicates(),
    ensures
        ({
            let line2 = line.take(spec_render_end(line));
            let strs1 = model_strs_from(line, spec_atoms(line), strs0);
            &&& spec_atoms(line2) == spec_atoms(line)
            &&& model_strs_from(line2, spec_atoms(line2), strs1) == strs1
            &&& model_syms_from(line2, spec_atoms(line2), strs1) == model_syms_from(
                line,
                spec_atoms(line),
                strs0,
            )
        }),
{
    let ats = spec_atoms(line);
    let e = spec_render_end(line);
    let line2 = line.take(e);
    lemma_atoms_from_props(line, 0);
    lemma_atoms_gaps_ws(line, 0);
    lemma_atoms_ends_bounded(line, 0);
    if ats.len() == 0 {
        lemma_atoms_from_empty_ws(line, 0);
        lemma_atoms_truncate(line, 0, 0);
    } else {
        lemma_atoms_truncate(line, e, 0);
    }
    assert(spec_atoms(line2) == ats);
    lemma_model_props(line, ats, strs0);
    let strs1 = model_strs_from(line, ats, strs0);
    let syms = model_syms_from(line, ats, strs0);
    assert forall|k: int| 0 <= k < ats.len() implies atom_text(line2, #[trigger] ats[k])
        == atom_text(line, ats[k]) by {
        assert(ats[k].1 <= ats.last().1);
        assert(line2.subrange(ats[k].0, ats[k].1) =~= line.subrange(ats[k].0, ats[k].1));
    }
    lemma_model_reintern(line2, ats, strs1, syms);
}

/// The rendering of the first `k` tokens of a tokenized line is the line
/// up to the end of atom `k - 1`.
proof fn lemma_render_take_eq(
    s: Seq<(Offset, Token)>,
    line: Seq<char>,
    strs0: Seq<Seq<char>>,
    strs: Seq<Seq<char>>,
    k: int,
)
    requires
        strs0.no_duplicates(),
        tokenizes(s, line, strs0),
        model_strs_from(line, spec_atoms(line), strs0).is_prefix_of(strs),
        forall|j: int| 0 <= j < line.len() && spec_is_ws(#[trigger] line[j]) ==> line[j] == ' ',
        spec_atoms(line).len() > 0 ==> spec_atoms(line)[0].0 == 0,
        model_strs_from(line, spec_atoms(line), strs0).len() <= usize::MAX,
        0 < k <= spec_atoms(line).len(),
    ensures
        render_take(s, strs, k) == line.take(spec_atoms(line)[k - 1].1),
    decreases k,
{
    let ats = spec_atoms(line);
    lemma_atoms_from_props(line, 0);
    lemma_atoms_gaps_ws(line, 0);
    lemma_model_props(line, ats, strs0);
    let syms = model_syms_from(line, ats, strs0);
    let strs1 = model_strs_from(line, ats, strs0);
    assert(s[k - 1].1 == Token::Value(TypedToken::String(syms[k - 1] as usize)));
    assert(strs1[syms[k - 1]] == atom_text(line, ats[k - 1]));
    assert(strs[syms[k - 1]] == atom_text(line, ats[k - 1]));
    assert(0 <= syms[k - 1] < strs1.len());
    assert(syms[k - 1] as usize as int == syms[k - 1]);
    assert(strs1.len() <= strs.len());
    assert(spec_token_text(s[k - 1].1, strs) == atom_text(line, ats[k - 1]));
    if k == 1 {
        assert(ats[0].0 == 0);
        assert(render_take(s, strs, 1) == spec_token_text(s[0].1, strs));
        assert(atom_text(line, ats[0]) =~= line.take(ats[0].1));
    } else {
        lemma_render_take_eq(s, line, strs0, strs, k - 1);
        let a = ats[k - 2];
        let b = ats[k - 1];
        assert(s[k - 1].0.start as int == b.0 && s[k - 2].0.end as int == a.1);
        assert forall|j: int| a.1 <= j < b.0 implies line[j] == ' ' by {
            assert(spec_is_ws(line[j]));
        }
        lemma_spaces_eq_region(line, a.1, b.0);
        assert(render_take(s, strs, k) == line.take(a.1) + line.subrange(a.1, b.0) + line.subrange(
            b.0,
            b.1,
        ));
        assert(line.take(a.1) + line.subrange(a.1, b.0) + line.subrange(b.0, b.1) =~= line.take(
            b.1,
        ));
    }
}

} // verus!
