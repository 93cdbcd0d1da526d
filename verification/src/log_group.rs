//! Log groups: a discovered template record, the examples it absorbed, and
//! the positions already generalized into variables.

use vstd::prelude::*;

use crate::DrainError;
use crate::ids::Ksuid;
use crate::record::Record;
use crate::record::tokens::Token;
use crate::record::tokens::spec_token_eq;
use crate::record::tokens::stream_tokens;
use crate::record::tokens::token_eq;

verus! {

/// A wildcard discovery: a position paired with the token to write there.
#[derive(Clone, Copy, Debug, PartialEq, Eq)]
pub struct Wildcard(pub (usize, Token));

/// Whether some entry of a variable list covers position `p`.
pub open spec fn vars_contains_pos(vars: Seq<(usize, Token)>, p: int) -> bool {
    exists|k: int| 0 <= k < vars.len() && (#[trigger] vars[k]).0 == p
}

/// A log template together with everything absorbed into it: the
/// originating record as the template, the examples, and the variable
/// positions discovered so far.
#[derive(Clone, Debug)]
pub struct LogGroup {
    /// The id of the record that opened the group.
    pub id: Ksuid,
    /// The template record; generalization overwrites its tokens.
    pub event: Record,
    /// Every record absorbed into the group, in arrival order.
    pub examples: Vec<Record>,
    /// The positions already generalized, each with the token written there.
    pub variables: Vec<(usize, Token)>,
}

impl LogGroup {
    /// Variables cover distinct in-bounds positions, the template holds at
    /// each such position exactly the variable's token, which is no
    /// concrete value, and every example has the template's length.
    pub open spec fn wf(&self) -> bool {
        &&& forall|k: int, j: int|
            0 <= k < j < self.variables@.len() ==> (#[trigger] self.variables@[k]).0 != (
            #[trigger] self.variables@[j]).0
        &&& forall|k: int|
            0 <= k < self.variables@.len() ==> {
                let v = #[trigger] self.variables@[k];
                &&& v.0 < self.event.inner@.len()
                &&& self.event.inner@[v.0 as int].1 == v.1
                &&& !(v.1 is Value)
            }
        &&& forall|k: int|
            0 <= k < self.examples@.len() ==> (#[trigger] self.examples@[k]).inner@.len()
                == self.event.inner@.len()
    }

    /// Opens a group around one record: no examples, no variables, the
    /// record's id as the group's id.
    pub fn new(event: Record) -> (r: LogGroup)
        ensures
            r.id == event.uid,
            r.event == event,
            r.examples@ == Seq::<Record>::empty(),
            r.variables@ == Seq::<(usize, Token)>::empty(),
            r.wf(),
    {
        let id = event.uid;
        LogGroup { id, event, examples: Vec::new(), variables: Vec::new() }
    }

    /// The template record.
    pub fn event(&self) -> (r: &Record)
        ensures
            r == &self.event,
    {
        &self.event
    }

    /// Whether a position is already a variable.
    fn has_variable(&self, pos: usize) -> (r: bool)
        ensures
            r == vars_contains_pos(self.variables@, pos as int),
    {
        let n = self.variables.len();
        let mut i: usize = 0;
        while i < n
            invariant
                i <= n,
                n == self.variables@.len(),
                forall|k: int| 0 <= k < i ==> (#[trigger] self.variables@[k]).0 != pos,
            decreases n - i,
        {
            if self.variables[i].0 == pos {
                return true;
            }
            i = i + 1;
        }
        false
    }

    /// Absorbs a record: discovers the disagreeing positions, appends the
    /// record to the examples, and generalizes the template at exactly
    /// those positions. Already-variable positions never regress.
    pub fn add_example(&mut self, rec: Record)
        requires
            old(self).wf(),
            rec.inner@.len() == old(self).event.inner@.len(),
        ensures
            final(self).wf(),
            final(self).id == old(self).id,
            final(self).examples@ == old(self).examples@.push(rec),
            final(self).event.uid == old(self).event.uid,
            final(self).event.inner@.len() == old(self).event.inner@.len(),
            old(self).variables@.is_prefix_of(final(self).variables@),
            ({
                let discovered = spec_discovered(
                    stream_tokens(old(self).event.inner@),
                    old(self).variables@,
                    stream_tokens(rec.inner@),
                );
                &&& final(self).variables@ == old(self).variables@ + discovered.map_values(
                    |p: int| (p as usize, Token::Wildcard),
                )
                &&& forall|p: int|
                    0 <= p < old(self).event.inner@.len() ==> (#[trigger] final(self).event.inner@[p])
                        == if discovered.contains(p) {
                        (old(self).event.inner@[p].0, Token::Wildcard)
                    } else {
                        old(self).event.inner@[p]
                    }
            }),
    {
        let ghost ev0 = stream_tokens(self.event.inner@);
        let ghost vars0 = self.variables@;
        let ghost cand = stream_tokens(rec.inner@);
        let ghost discovered = spec_discovered(ev0, vars0, cand);
        let vars = match self.discover_variables(&rec) {
            Ok(vars) => vars,
            Err(_) => Vec::new(),
        };
        proof {
            lemma_discover_props(ev0, vars0, cand, 0);
            assert(vars@.map_values(|w: Wildcard| (w.0.0, w.0.1)) =~= discovered.map_values(
                |p: int| (p as usize, Token::Wildcard),
            )) by {
                let lhs = vars@.map_values(|w: Wildcard| (w.0.0, w.0.1));
                let rhs = discovered.map_values(|p: int| (p as usize, Token::Wildcard));
                assert(vars@.map_values(|w: Wildcard| w.0.0 as int) == discovered);
                assert forall|k: int| 0 <= k < lhs.len() implies lhs[k] == rhs[k] by {
                    assert(vars@.map_values(|w: Wildcard| w.0.0 as int)[k] == discovered[k]);
                    assert(vars@[k].0.0 as int == discovered[k]);
                }
            }
        }
        self.examples.push(rec);
        if vars.len() > 0 {
            let ghost mid = *self;
            self.update_variables(vars);
            proof {
                let n0 = vars0.len() as int;
                let pairs = discovered.map_values(|p: int| (p as usize, Token::Wildcard));
                assert(self.variables@ == vars0 + pairs);
                // positions covered by the discovery list are exactly the
                // discovered ones
                assert forall|p: int|
                    0 <= p < old(self).event.inner@.len() implies (#[trigger] self.event.inner@[p])
                    == if discovered.contains(p) {
                    (old(self).event.inner@[p].0, Token::Wildcard)
                } else {
                    old(self).event.inner@[p]
                } by {
                    lemma_last_write_all_wild(vars@, p);
                    if discovered.contains(p) {
                        let k = choose|k: int|
                            0 <= k < discovered.len() && discovered[k] == p;
                        assert(vars@.map_values(|w: Wildcard| w.0.0 as int)[k] == discovered[k]);
                        assert(vars@[k].0.0 == p);
                    } else {
                        if exists|k: int| 0 <= k < vars@.len() && (#[trigger] vars@[k]).0.0 == p {
                            let k = choose|k: int|
                                0 <= k < vars@.len() && (#[trigger] vars@[k]).0.0 == p;
                            assert(vars@.map_values(|w: Wildcard| w.0.0 as int)[k]
                                == discovered[k]);
                            assert(discovered[k] == p);
                            assert(discovered.contains(p));
                        }
                    }
                }
                assert(self.wf()) by {
                    assert forall|k: int, j: int|
                        0 <= k < j < self.variables@.len() implies (
                    #[trigger] self.variables@[k]).0 != (#[trigger] self.variables@[j]).0 by {
                        if k < n0 && j >= n0 {
                            assert(self.variables@[j] == pairs[j - n0]);
                            let d = discovered[j - n0];
                            assert(!vars_contains_pos(vars0, d));
                            assert(self.variables@[k] == vars0[k]);
                            if vars0[k].0 == d {
                                assert(vars_contains_pos(vars0, d));
                            }
                        } else if k >= n0 {
                            assert(self.variables@[k] == pairs[k - n0]);
                            assert(self.variables@[j] == pairs[j - n0]);
                            assert(discovered[k - n0] < discovered[j - n0]);
                            assert(0 <= discovered[k - n0]);
                        } else {
                            assert(self.variables@[k] == vars0[k]);
                            assert(self.variables@[j] == vars0[j]);
                        }
                    }
                    assert forall|k: int| 0 <= k < self.variables@.len() implies {
                        let v = #[trigger] self.variables@[k];
                        &&& v.0 < self.event.inner@.len()
                        &&& self.event.inner@[v.0 as int].1 == v.1
                        &&& !(v.1 is Value)
                    } by {
                        if k < n0 {
                            assert(self.variables@[k] == vars0[k]);
                            let p = vars0[k].0 as int;
                            if discovered.contains(p) {
                                let j = choose|j: int|
                                    0 <= j < discovered.len() && discovered[j] == p;
                                assert(!vars_contains_pos(vars0, discovered[j]));
                                assert(vars_contains_pos(vars0, p));
                            }
                            assert(self.event.inner@[p] == old(self).event.inner@[p]);
                        } else {
                            assert(self.variables@[k] == pairs[k - n0]);
                            let d = discovered[k - n0];
                            assert(discovered.contains(d));
                            assert(0 <= d < old(self).event.inner@.len());
                            assert(self.event.inner@[d] == (
                                old(self).event.inner@[d].0,
                                Token::Wildcard,
                            ));
                        }
                    }
                    assert forall|k: int|
                        0 <= k < self.examples@.len() implies (
                    #[trigger] self.examples@[k]).inner@.len() == self.event.inner@.len() by {
                        if k < old(self).examples@.len() {
                            assert(self.examples@[k] == old(self).examples@[k]);
                        } else {
                            assert(self.examples@[k] == rec);
                        }
                    }
                }
            }
        } else {
            proof {
                assert(discovered.map_values(|p: int| (p as usize, Token::Wildcard)) =~= Seq::<(
                    usize,
                    Token,
                )>::empty());
                assert(self.variables@ =~= old(self).variables@ + discovered.map_values(
                    |p: int| (p as usize, Token::Wildcard),
                ));
            }
        }
    }

    /// The positions below both lengths, not yet variables, where the
    /// template and the record disagree, each paired with a wildcard; the
    /// errors of the original interface never arise.
    pub fn discover_variables(&self, rec: &Record) -> (r: Result<Vec<Wildcard>, DrainError>)
        ensures
            (r matches Ok(v) && ({
                let discovered = spec_discovered(
                    stream_tokens(self.event.inner@),
                    self.variables@,
                    stream_tokens(rec.inner@),
                );
                &&& v@.map_values(|w: Wildcard| w.0.0 as int) == discovered
                &&& forall|k: int| 0 <= k < v@.len() ==> (#[trigger] v@[k]).0.1 == Token::Wildcard
                &&& forall|k: int|
                    0 <= k < v@.len() ==> (#[trigger] v@[k]).0.0 < self.event.inner@.len()
            })),
    {
        let ghost ev = stream_tokens(self.event.inner@);
        let ghost vars = self.variables@;
        let ghost cand = stream_tokens(rec.inner@);
        let ev_len = self.event.inner.len();
        let rec_len = rec.inner.len();
        let n = if ev_len <= rec_len {
            ev_len
        } else {
            rec_len
        };
        let mut v: Vec<Wildcard> = Vec::new();
        let mut i: usize = 0;
        while i < n
            invariant
                n <= ev.len(),
                n <= cand.len(),
                n == ev.len() || n == cand.len(),
                n <= self.event.inner@.len(),
                i <= n,
                vars == self.variables@,
                ev == stream_tokens(self.event.inner@),
                cand == stream_tokens(rec.inner@),
                v@.map_values(|w: Wildcard| w.0.0 as int) + spec_discover(ev, vars, cand, i as int)
                    == spec_discovered(ev, vars, cand),
                forall|k: int| 0 <= k < v@.len() ==> (#[trigger] v@[k]).0.1 == Token::Wildcard,
                forall|k: int| 0 <= k < v@.len() ==> (#[trigger] v@[k]).0.0 < n,
            decreases n - i,
        {
            let already = self.has_variable(i);
            let ghost prev = v@;
            if !already && !token_eq(&self.event.inner.inner[i].1, &rec.inner.inner[i].1) {
                v.push(Wildcard((i, Token::Wildcard)));
                proof {
                    assert(v@.map_values(|w: Wildcard| w.0.0 as int) =~= prev.map_values(
                        |w: Wildcard| w.0.0 as int,
                    ).push(i as int));
                    assert(spec_discover(ev, vars, cand, i as int) == seq![i as int]
                        + spec_discover(ev, vars, cand, i + 1));
                    assert(prev.map_values(|w: Wildcard| w.0.0 as int).push(i as int)
                        + spec_discover(ev, vars, cand, i + 1) =~= prev.map_values(
                        |w: Wildcard| w.0.0 as int,
                    ) + spec_discover(ev, vars, cand, i as int));
                }
            }
            i = i + 1;
        }
        Ok(v)
    }

    /// Writes each discovered variable: records the position and
    /// overwrites the template token there, keeping its offset.
    pub fn update_variables(&mut self, vars: Vec<Wildcard>)
        requires
            forall|k: int|
                0 <= k < vars@.len() ==> (#[trigger] vars@[k]).0.0 < old(self).event.inner@.len(),
        ensures
            final(self).id == old(self).id,
            final(self).examples@ == old(self).examples@,
            final(self).event.uid == old(self).event.uid,
            final(self).event.inner@.len() == old(self).event.inner@.len(),
            final(self).variables@ == old(self).variables@ + vars@.map_values(
                |w: Wildcard| (w.0.0, w.0.1),
            ),
            forall|p: int|
                0 <= p < old(self).event.inner@.len() ==> (#[trigger] final(self).event.inner@[p])
                    == if spec_last_write(vars@, p) is Some {
                    (old(self).event.inner@[p].0, spec_last_write(vars@, p)->Some_0)
                } else {
                    old(self).event.inner@[p]
                },
    {
        let n = vars.len();
        let mut i: usize = 0;
        while i < n
            invariant
                i <= n,
                n == vars@.len(),
                forall|k: int|
                    0 <= k < vars@.len() ==> (#[trigger] vars@[k]).0.0
                        < self.event.inner@.len(),
                self.id == old(self).id,
                self.examples@ == old(self).examples@,
                self.event.uid == old(self).event.uid,
                self.event.inner@.len() == old(self).event.inner@.len(),
                self.variables@ == old(self).variables@ + vars@.take(i as int).map_values(
                    |w: Wildcard| (w.0.0, w.0.1),
                ),
                forall|p: int|
                    0 <= p < old(self).event.inner@.len() ==> (#[trigger] self.event.inner@[p])
                        == if spec_last_write(vars@.take(i as int), p) is Some {
                        (old(self).event.inner@[p].0, spec_last_write(vars@.take(i as int), p)->Some_0)
                    } else {
                        old(self).event.inner@[p]
                    },
            decreases n - i,
        {
            let w = vars[i].clone();
            let pos = w.0.0;
            let tok = w.0.1;
            self.variables.push((pos, tok));
            let off = self.event.inner.inner[pos].0;
            self.event.inner.inner[pos] = (off, tok);
            proof {
                assert(vars@.take(i + 1) =~= vars@.take(i as int).push(vars@[i as int]));
                assert(self.variables@ =~= old(self).variables@ + vars@.take(i + 1).map_values(
                    |w: Wildcard| (w.0.0, w.0.1),
                ));
                assert forall|p: int| 0 <= p < old(self).event.inner@.len() implies (
                #[trigger] self.event.inner@[p]) == if spec_last_write(vars@.take(i + 1), p)
                    is Some {
                    (old(self).event.inner@[p].0, spec_last_write(vars@.take(i + 1), p)->Some_0)
                } else {
                    old(self).event.inner@[p]
                } by {
                    lemma_last_write_push(vars@.take(i as int), vars@[i as int], p);
                }
            }
            i = i + 1;
        }
        proof {
            assert(vars@.take(n as int) =~= vars@);
        }
    }

    /// Number of examples this group holds.
    pub fn len(&self) -> (n: usize)
        ensures
            n == self.examples@.len(),
    {
        self.examples.len()
    }

    /// Whether no example has been absorbed yet.
    pub fn is_empty(&self) -> (r: bool)
        ensures
            r == (self.examples@.len() == 0),
    {
        self.examples.len() == 0
    }

    /// The example records, in arrival order.
    pub fn get_examples(&self) -> (r: Vec<&Record>)
        ensures
            r@.len() == self.examples@.len(),
            forall|k: int| 0 <= k < r@.len() ==> r@[k] == self.examples@[k],
    {
        let n = self.examples.len();
        let mut r: Vec<&Record> = Vec::new();
        let mut i: usize = 0;
        while i < n
            invariant
                i <= n,
                n == self.examples@.len(),
                r@.len() == i,
                forall|k: int| 0 <= k < i ==> r@[k] == self.examples@[k],
            decreases n - i,
        {
            r.push(&self.examples[i]);
            i = i + 1;
        }
        r
    }

    /// The id of the record that opened the group.
    pub fn get_id(&self) -> (r: Ksuid)
        ensures
            r == self.id,
    {
        self.id
    }

    /// The creation instant of the group's template, as unix seconds.
    pub fn get_time(&self) -> (r: i64)
        ensures
            r == self.event.uid.timestamp + crate::ids::ksuid_epoch(),
    {
        self.event.uid.get_time()
    }
}

/// The positions at or past `i`, below both lengths, that are not yet
/// variables and where the template and the candidate disagree, ascending.
pub open spec fn spec_discover(
    ev: Seq<Token>,
    vars: Seq<(usize, Token)>,
    cand: Seq<Token>,
    i: int,
) -> Seq<int>
    decreases ev.len() - i,
{
    if i < 0 || i >= ev.len() || i >= cand.len() {
        Seq::empty()
    } else {
        let rest = spec_discover(ev, vars, cand, i + 1);
        if !vars_contains_pos(vars, i) && !spec_token_eq(ev[i], cand[i]) {
            seq![i] + rest
        } else {
            rest
        }
    }
}

/// The variable positions one comparison of a candidate against a
/// template discovers.
pub open spec fn spec_discovered(ev: Seq<Token>, vars: Seq<(usize, Token)>, cand: Seq<Token>) -> Seq<
    int,
> {
    spec_discover(ev, vars, cand, 0)
}

/// Discovered positions are in range, ascending, and none is already a
/// variable.
pub proof fn lemma_discover_props(ev: Seq<Token>, vars: Seq<(usize, Token)>, cand: Seq<Token>, i: int)
    requires
        0 <= i,
    ensures
        forall|k: int|
            0 <= k < spec_discover(ev, vars, cand, i).len() ==> i <= #[trigger] spec_discover(
                ev,
                vars,
                cand,
                i,
            )[k] < ev.len() && spec_discover(ev, vars, cand, i)[k] < cand.len(),
        forall|k: int|
            0 <= k < spec_discover(ev, vars, cand, i).len() ==> !vars_contains_pos(
                vars,
                #[trigger] spec_discover(ev, vars, cand, i)[k],
            ),
        forall|k: int, j: int|
            0 <= k < j < spec_discover(ev, vars, cand, i).len() ==> #[trigger] spec_discover(
                ev,
                vars,
                cand,
                i,
            )[k] < #[trigger] spec_discover(ev, vars, cand, i)[j],
        spec_discover(ev, vars, cand, i).no_duplicates(),
        forall|k: int|
            0 <= k < spec_discover(ev, vars, cand, i).len() ==> !spec_token_eq(
                ev[#[trigger] spec_discover(ev, vars, cand, i)[k]],
                cand[spec_discover(ev, vars, cand, i)[k]],
            ),
    decreases ev.len() - i,
{
    if 0 <= i < ev.len() && i < cand.len() {
        lemma_discover_props(ev, vars, cand, i + 1);
        let rest = spec_discover(ev, vars, cand, i + 1);
        let cur = spec_discover(ev, vars, cand, i);
        if !vars_contains_pos(vars, i) && !spec_token_eq(ev[i], cand[i]) {
            assert(cur == seq![i] + rest);
            assert forall|k: int| 0 <= k < cur.len() implies i <= #[trigger] cur[k] < ev.len()
                && cur[k] < cand.len() by {
                if k > 0 {
                    assert(cur[k] == rest[k - 1]);
                }
            }
            assert forall|k: int| 0 <= k < cur.len() implies !vars_contains_pos(
                vars,
                #[trigger] cur[k],
            ) by {
                if k > 0 {
                    assert(cur[k] == rest[k - 1]);
                }
            }
            assert forall|k: int, j: int| 0 <= k < j < cur.len() implies #[trigger] cur[k]
                < #[trigger] cur[j] by {
                assert(cur[j] == rest[j - 1]);
                if k > 0 {
                    assert(cur[k] == rest[k - 1]);
                }
            }
        }
    }
}

/// The token the last entry of `vars` covering position `p` writes there,
/// if any entry covers it.
pub open spec fn spec_last_write(vars: Seq<Wildcard>, p: int) -> Option<Token>
    decreases vars.len(),
{
    if vars.len() == 0 {
        None
    } else if vars.last().0.0 == p {
        Some(vars.last().0.1)
    } else {
        spec_last_write(vars.drop_last(), p)
    }
}

/// When every entry writes a wildcard, the last write at `p` is a wildcard
/// exactly when some entry covers `p`.
proof fn lemma_last_write_all_wild(vars: Seq<Wildcard>, p: int)
    requires
        forall|k: int| 0 <= k < vars.len() ==> (#[trigger] vars[k]).0.1 == Token::Wildcard,
    ensures
        spec_last_write(vars, p) == if exists|k: int|
            0 <= k < vars.len() && (#[trigger] vars[k]).0.0 == p {
            Some(Token::Wildcard)
        } else {
            None::<Token>
        },
    decreases vars.len(),
{
    if vars.len() > 0 {
        if vars.last().0.0 == p {
            assert(vars[vars.len() - 1].0.0 == p);
        } else {
            lemma_last_write_all_wild(vars.drop_last(), p);
            if exists|k: int| 0 <= k < vars.len() && (#[trigger] vars[k]).0.0 == p {
                let k = choose|k: int| 0 <= k < vars.len() && (#[trigger] vars[k]).0.0 == p;
                assert(vars.drop_last()[k] == vars[k]);
            }
        }
    }
}

proof fn lemma_last_write_push(vars: Seq<Wildcard>, w: Wildcard, p: int)
    ensures
        spec_last_write(vars.push(w), p) == if w.0.0 == p {
            Some(w.0.1)
        } else {
            spec_last_write(vars, p)
        },
{
    assert(vars.push(w).last() == w);
    assert(vars.push(w).drop_last() =~= vars);
}

} // verus!
