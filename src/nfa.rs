//! The automaton: its arena of states, its construction from a pattern,
//! simulation against text, random generation, and composition.
use vstd::prelude::*;
use rand::Rng;
use crate::parser::{AST, Parser, parse_tokens};
use crate::thompson::{
    arena_ok,
    ast_states,
    compile,
    in_ends,
    join_all,
    joined,
    lemma_compile,
    lemma_compile_len,
    lemma_join_all,
    lemma_thompson_wf,
    resolved,
    state_ok,
    thompson,
};
use crate::text::push_char;
use crate::tokenizer::{Tokenizer, chars_of, tokens_of};
use crate::semantics::{
    alnum_frontier,
    is_alphanumeric,
    lemma_alnum_frontier_eps,
    lemma_alnum_frontier_step,
    accepting,
    accepts_prefix,
    count_false,
    eps_closed,
    eps_edge,
    eps_reach,
    eps_reach_n,
    frontier,
    lemma_accepting_whole,
    lemma_closed_reach,
    lemma_count_bound,
    lemma_count_mark,
    lemma_frontier_eps,
    lemma_frontier_step,
    lemma_reach_in_range,
    lemma_reached_seed,
    lemma_reached_step,
    lemma_unmarked_frontier,
    next_of,
    ranked,
    reached,
    succ,
    unmarked_closed,
};

verus! {

/// Identity of a state: its index in the arena.
pub type StateId = usize;

/// The label of a consuming transition.
#[derive(Debug, PartialEq, Eq, Structural, Clone, Copy)]
pub enum Char {
    Literal(char),
    Any,
}

/// A state of the automaton. A link that is `None` is still to be joined.
#[derive(Debug, PartialEq, Eq, Structural, Clone, Copy)]
pub enum State {
    Start(Option<StateId>),
    Match(Char, Option<StateId>),
    Split(Option<StateId>, Option<StateId>),
    End,
}

/// An automaton: an arena of states and the identity of its entry state.
#[derive(Debug)]
pub struct NFA {
    start: StateId,
    states: Vec<State>,
}

/// A piece of an automaton under construction: its entry and the states
/// whose outgoing link is still open.
struct Fragment {
    start: StateId,
    ends: Vec<StateId>,
}

impl NFA {
    /// The states, by identity.
    pub closed spec fn arena(&self) -> Seq<State> {
        self.states@
    }

    /// The identity of the entry state.
    pub closed spec fn entry(&self) -> nat {
        self.start as nat
    }

    /// A finished automaton: every link set and in range, the entry first,
    /// the one accepting state last.
    pub open spec fn wf(&self) -> bool {
        let a = self.arena();
        &&& arena_ok(a)
        &&& 2 <= a.len() <= usize::MAX
        &&& self.entry() == 0
        &&& a[0] is Start
        &&& a.last() is End
        &&& forall|i: int| 0 <= i < a.len() ==> resolved(#[trigger] a[i])
        &&& forall|i: int| 0 <= i < a.len() - 1 ==> !(#[trigger] a[i] is End)
    }
}

// ===== Construction =====

impl NFA {
    /// Compiles a pattern into an automaton, or gives the parser's error
    /// message unchanged.
    pub fn from(regular_expression: &str) -> (r: Result<NFA, String>)
        ensures
            match parse_tokens(tokens_of(regular_expression@)) {
                Ok(ast) => r matches Ok(nfa) && nfa.wf() && nfa.arena() == thompson(ast),
                Err(m) => r matches Err(s) && s@ == m,
            },
    {
        let mut nfa = NFA::new();
        let start = nfa.add_state(State::Start(None));
        nfa.start = start;
        let ast = match Parser::parse(Tokenizer::new(regular_expression)) {
            Ok(ast) => ast,
            Err(e) => {
                return Err(e);
            },
        };
        proof {
            assert(nfa.arena() =~= seq![State::Start(None)]);
        }
        let body = nfa.gen_fragment(&ast);
        proof {
            lemma_compile_len(seq![State::Start(None)], ast);
        }
        nfa.join(nfa.start, body.start);
        let end = nfa.add_state(State::End);
        let ghost old_arena = nfa.arena();
        nfa.join_fragment(&body, end);
        let n = nfa.states.len();
        proof {
            let (a1, s, e) = compile(seq![State::Start(None)], ast);
            lemma_join_all(old_arena, body.ends@, end);
            lemma_compile(seq![State::Start(None)], ast);
            assert(a1.update(0, State::Start(Some(s))).push(State::End) == old_arena);
            assert(nfa.arena() == thompson(ast));
            assert(nfa.states@.len() == ast_states(ast) + 2);
            lemma_thompson_wf(ast);
        }
        Ok(nfa)
    }

    fn new() -> (r: NFA)
        ensures
            r.arena() == Seq::<State>::empty(),
            r.entry() == 0,
    {
        NFA { states: Vec::new(), start: 0 }
    }

    /// Adds a state to the arena and gives its identity.
    fn add_state(&mut self, state: State) -> (id: StateId)
        ensures
            final(self).arena() == old(self).arena().push(state),
            id == old(self).arena().len(),
            final(self).entry() == old(self).entry(),
    {
        let idx = self.states.len();
        self.states.push(state);
        idx
    }

    /// Sets the last link of state `from` to `to`.
    fn join(&mut self, from: StateId, to: StateId)
        requires
            from < old(self).arena().len(),
        ensures
            final(self).arena() == old(self).arena().update(from as int, joined(old(self).arena()[from as int], to)),
            final(self).entry() == old(self).entry(),
    {
        let st = match self.states[from] {
            State::Start(_) => State::Start(Some(to)),
            State::Match(c, _) => State::Match(c, Some(to)),
            State::Split(a, _) => State::Split(a, Some(to)),
            State::End => State::End,
        };
        self.states.set(from, st);
    }

    /// Joins every exit of `lhs` to `to`.
    fn join_fragment(&mut self, lhs: &Fragment, to: StateId)
        requires
            forall|k: int| 0 <= k < lhs.ends@.len() ==> #[trigger] lhs.ends@[k] < old(self).arena().len(),
        ensures
            final(self).arena() == join_all(old(self).arena(), lhs.ends@, to),
            final(self).arena().len() == old(self).arena().len(),
            final(self).entry() == old(self).entry(),
    {
        let mut k: usize = 0;
        while k < lhs.ends.len()
            invariant
                k <= lhs.ends@.len(),
                self.arena() == join_all(old(self).arena(), lhs.ends@.take(k as int), to),
                self.entry() == old(self).entry(),
                forall|j: int| 0 <= j < lhs.ends@.len() ==> #[trigger] lhs.ends@[j] < old(self).arena().len(),
            decreases lhs.ends@.len() - k,
        {
            let e = lhs.ends[k];
            proof {
                assert(lhs.ends@.take(k + 1).drop_last() =~= lhs.ends@.take(k as int));
                lemma_join_all(old(self).arena(), lhs.ends@.take(k as int), to);
                assert(lhs.ends@[k as int] < old(self).arena().len());
            }
            self.join(e, to);
            k = k + 1;
        }
        proof {
            assert(lhs.ends@.take(k as int) =~= lhs.ends@);
            lemma_join_all(old(self).arena(), lhs.ends@, to);
        }
    }

    /// Compiles `ast` onto the arena and gives the fragment it forms.
    fn gen_fragment(&mut self, ast: &AST) -> (f: Fragment)
        ensures
            (final(self).arena(), f.start, f.ends@) == compile(old(self).arena(), *ast),
            final(self).entry() == old(self).entry(),
            final(self).arena().len() > old(self).arena().len(),
            forall|k: int| 0 <= k < f.ends@.len() ==> #[trigger] f.ends@[k] < final(self).arena().len(),
        decreases ast,
    {
        match ast {
            AST::AnyChar => {
                let state = self.add_state(State::Match(Char::Any, None));
                let f = Fragment { start: state, ends: vec![state] };
                proof {
                    assert(f.ends@ == seq![state]);
                }
                f
            },
            AST::Char(c) => {
                let state = self.add_state(State::Match(Char::Literal(*c), None));
                let f = Fragment { start: state, ends: vec![state] };
                proof {
                    assert(f.ends@ == seq![state]);
                }
                f
            },
            AST::Catenation(lhs, rhs) => {
                let left = self.gen_fragment(lhs);
                let right = self.gen_fragment(rhs);
                self.join_fragment(&left, right.start);
                Fragment { start: left.start, ends: right.ends }
            },
            AST::Alternation(lhs, rhs) => {
                let left = self.gen_fragment(lhs);
                let right = self.gen_fragment(rhs);
                let split = self.add_state(State::Split(Some(left.start), Some(right.start)));
                let mut ends = left.ends;
                let mut rest = right.ends;
                let ghost le = left.ends@;
                let ghost re = right.ends@;
                ends.append(&mut rest);
                proof {
                    assert forall|k: int| 0 <= k < ends@.len() implies #[trigger] ends@[k] < self.arena().len() by {
                        if k < le.len() {
                            assert(ends@[k] == le[k]);
                        } else {
                            assert(ends@[k] == re[k - le.len()]);
                        }
                    }
                }
                Fragment { start: split, ends }
            },
            AST::Closure(lhs) => {
                let inner = self.gen_fragment(lhs);
                let split = self.add_state(State::Split(Some(inner.start), None));
                self.join_fragment(&inner, split);
                let f = Fragment { start: split, ends: vec![split] };
                proof {
                    assert(f.ends@ == seq![split]);
                }
                f
            },
            AST::OneOrMore(lhs) => {
                let inner = self.gen_fragment(lhs);
                let split = self.add_state(State::Split(Some(inner.start), None));
                self.join_fragment(&inner, split);
                let f = Fragment { start: inner.start, ends: vec![split] };
                proof {
                    assert(f.ends@ == seq![split]);
                }
                f
            },
        }
    }
}

// ===== Simulation =====

/// Marks state `u`, and puts it on `stack` when it was not marked before.
fn visit(on: &mut Vec<bool>, stack: &mut Vec<usize>, u: usize)
    requires
        u < old(on)@.len(),
    ensures
        final(on)@ == old(on)@.update(u as int, true),
        final(stack)@ == if old(on)@[u as int] {
            old(stack)@
        } else {
            old(stack)@.push(u)
        },
        count_false(final(on)@) <= count_false(old(on)@),
        !old(on)@[u as int] ==> count_false(final(on)@) < count_false(old(on)@),
        forall|x: usize| #[trigger] old(stack)@.contains(x) ==> final(stack)@.contains(x),
        final(stack)@.contains(u) || old(on)@[u as int],
        forall|x: int| 0 <= x < old(on)@.len() && old(on)@[x] ==> #[trigger] final(on)@[x],
{
    proof {
        lemma_count_mark(on@, u as int);
    }
    let ghost st0 = stack@;
    if !on[u] {
        stack.push(u);
        proof {
            assert(stack@[st0.len() as int] == u);
            assert forall|x: usize| #[trigger] st0.contains(x) implies stack@.contains(x) by {
                let j = choose|j: int| 0 <= j < st0.len() && st0[j] == x;
                assert(stack@[j] == st0[j]);
            }
        }
    }
    on.set(u, true);
}

impl NFA {
    /// `text` has a prefix, possibly empty or the whole of it, that the
    /// automaton accepts.
    pub open spec fn accepts_spec(&self, text: Seq<char>) -> bool {
        accepts_prefix(self.arena(), self.entry() as int, text)
    }

    /// Simulates the automaton on `input`: true when an accepting state is
    /// active before any character, between two, or after the last.
    pub fn accepts(&self, input: &str) -> (r: bool)
        requires
            self.wf(),
        ensures
            r == self.accepts_spec(input@),
    {
        let text = chars_of(input);
        let ghost a = self.arena();
        let ghost n = a.len();
        let mut first: Vec<usize> = Vec::new();
        first.push(self.start);
        let mut cur = self.closure_of(&first);
        proof {
            assert(text@.take(0) =~= Seq::<char>::empty());
            assert forall|t: int| 0 <= t < n implies (cur@[t] <==> frontier(a, 0, text@.take(0)).contains(t)) by {
                if cur@[t] {
                    let k = choose|k: int| 0 <= k < first@.len() && eps_reach(a, #[trigger] first@[k] as int, t);
                    assert(first@[k] == 0);
                } else if frontier(a, 0, text@.take(0)).contains(t) {
                    assert(eps_reach(a, first@[0] as int, t));
                }
            }
            assert forall|t: int| frontier(a, 0, text@.take(0)).contains(t) implies 0 <= t < n by {
                let m = choose|m: nat| eps_reach_n(a, 0, t, m);
                lemma_reach_in_range(a, 0, t, m);
            }
        }
        let mut i: usize = 0;
        while i < text.len()
            invariant
                self.wf(),
                a == self.arena(),
                n == a.len(),
                text@ == input@,
                i <= text@.len(),
                cur@.len() == n,
                forall|t: int| 0 <= t < n ==> (cur@[t] <==> frontier(a, 0, text@.take(i as int)).contains(t)),
                forall|t: int| frontier(a, 0, text@.take(i as int)).contains(t) ==> 0 <= t < n,
                forall|j: int| 0 <= j < i ==> !accepting(a, #[trigger] frontier(a, 0, text@.take(j))),
            decreases text@.len() - i,
        {
            let ghost f = frontier(a, 0, text@.take(i as int));
            if self.has_end(&cur) {
                proof {
                    let t = choose|t: int| 0 <= t < n && cur@[t] && a[t] is End;
                    assert(f.contains(t));
                    assert(accepting(a, f));
                }
                return true;
            }
            let c = text[i];
            let seeds = self.step(&cur, c);
            let next = self.closure_of(&seeds);
            proof {
                assert(!accepting(a, f)) by {
                    if accepting(a, f) {
                        let t = choose|t: int| #[trigger] f.contains(t) && 0 <= t < n && a[t] is End;
                        assert(cur@[t]);
                    }
                }
                let w = text@.take(i + 1);
                assert(w.drop_last() =~= text@.take(i as int));
                assert(w.last() == c);
                let g = frontier(a, 0, w);
                assert forall|t: int| 0 <= t < n implies (next@[t] <==> g.contains(t)) by {
                    if next@[t] {
                        let k = choose|k: int| 0 <= k < seeds@.len() && eps_reach(a, #[trigger] seeds@[k] as int, t);
                        assert(in_ends(seeds@, seeds@[k] as int));
                        let s = choose|s: int| 0 <= s < n && cur@[s] && next_of(a, s, c) == Some(seeds@[k] as int);
                        assert(f.contains(s));
                    }
                    if g.contains(t) {
                        let s = choose|s: int| #[trigger] f.contains(s) && next_of(a, s, c) is Some && eps_reach(a, next_of(a, s, c)->0, t);
                        let m = next_of(a, s, c)->0;
                        assert(cur@[s]);
                        assert(0 <= s < n && cur@[s] && next_of(a, s, c) == Some(m));
                        assert(in_ends(seeds@, m));
                        let k = choose|k: int| 0 <= k < seeds@.len() && seeds@[k] as int == m;
                        assert(eps_reach(a, seeds@[k] as int, t));
                    }
                }
                assert forall|t: int| g.contains(t) implies 0 <= t < n by {
                    let s = choose|s: int| #[trigger] f.contains(s) && next_of(a, s, c) is Some && eps_reach(a, next_of(a, s, c)->0, t);
                    let m = next_of(a, s, c)->0;
                    assert(crate::semantics::state_ok_at(a, s));
                    let j = choose|j: nat| eps_reach_n(a, m, t, j);
                    lemma_reach_in_range(a, m, t, j);
                }
            }
            cur = next;
            i = i + 1;
        }
        let r = self.has_end(&cur);
        proof {
            assert(text@.take(text@.len() as int) =~= text@);
            let f = frontier(a, 0, text@);
            if r {
                let t = choose|t: int| 0 <= t < n && cur@[t] && a[t] is End;
                assert(f.contains(t));
                assert(accepting(a, f));
                assert(accepting(a, frontier(a, 0, text@.take(text@.len() as int))));
            } else {
                assert(!accepting(a, f)) by {
                    if accepting(a, f) {
                        let t = choose|t: int| #[trigger] f.contains(t) && 0 <= t < n && a[t] is End;
                        assert(cur@[t]);
                    }
                }
                assert forall|j: int| 0 <= j <= text@.len() implies !accepting(a, #[trigger] frontier(a, 0, text@.take(j))) by {
                    if j == text@.len() {
                    }
                }
            }
        }
        r
    }

    /// An accepting state is marked in `cur`.
    fn has_end(&self, cur: &Vec<bool>) -> (r: bool)
        requires
            cur@.len() == self.arena().len(),
        ensures
            r <==> exists|t: int| 0 <= t < self.arena().len() && cur@[t] && self.arena()[t] is End,
    {
        let mut t: usize = 0;
        while t < cur.len()
            invariant
                cur@.len() == self.states@.len(),
                t <= cur@.len(),
                forall|u: int| 0 <= u < t ==> !(cur@[u] && self.states@[u] is End),
            decreases cur@.len() - t,
        {
            if cur[t] {
                if let State::End = self.states[t] {
                    return true;
                }
            }
            t = t + 1;
        }
        false
    }

    /// The states that the marked states of `cur` move to on consuming `c`.
    fn step(&self, cur: &Vec<bool>, c: char) -> (seeds: Vec<usize>)
        requires
            self.wf(),
            cur@.len() == self.arena().len(),
        ensures
            forall|k: int| 0 <= k < seeds@.len() ==> #[trigger] seeds@[k] < self.arena().len(),
            forall|m: int|
                in_ends(seeds@, m) <==> exists|s: int|
                    0 <= s < self.arena().len() && cur@[s] && next_of(self.arena(), s, c) == Some(m),
    {
        let ghost a = self.arena();
        let mut seeds: Vec<usize> = Vec::new();
        let mut s: usize = 0;
        while s < cur.len()
            invariant
                self.wf(),
                a == self.arena(),
                cur@.len() == a.len(),
                s <= cur@.len(),
                forall|k: int| 0 <= k < seeds@.len() ==> #[trigger] seeds@[k] < a.len(),
                forall|m: int|
                    in_ends(seeds@, m) <==> exists|q: int|
                        0 <= q < s && cur@[q] && next_of(a, q, c) == Some(m),
            decreases cur@.len() - s,
        {
            if cur[s] {
                if let State::Match(l, Some(nx)) = self.states[s] {
                    let fits = match l {
                        Char::Literal(x) => x == c,
                        Char::Any => true,
                    };
                    if fits {
                        proof {
                            assert(state_ok(a[s as int], a.len()));
                        }
                        let ghost old_seeds = seeds@;
                        seeds.push(nx);
                        proof {
                            assert forall|m: int|
                                in_ends(seeds@, m) <==> exists|q: int|
                                    0 <= q < s + 1 && cur@[q] && next_of(a, q, c) == Some(m) by {
                                if in_ends(seeds@, m) {
                                    let k = choose|k: int| 0 <= k < seeds@.len() && seeds@[k] as int == m;
                                    if k < old_seeds.len() {
                                        assert(old_seeds[k] == seeds@[k]);
                                        assert(in_ends(old_seeds, m));
                                    } else {
                                        assert(next_of(a, s as int, c) == Some(m));
                                    }
                                }
                                if exists|q: int| 0 <= q < s + 1 && cur@[q] && next_of(a, q, c) == Some(m) {
                                    let q = choose|q: int| 0 <= q < s + 1 && cur@[q] && next_of(a, q, c) == Some(m);
                                    if q < s {
                                        assert(in_ends(old_seeds, m));
                                        let k = choose|k: int| 0 <= k < old_seeds.len() && old_seeds[k] as int == m;
                                        assert(seeds@[k] == old_seeds[k]);
                                    } else {
                                        assert(seeds@[old_seeds.len() as int] == nx);
                                    }
                                }
                            }
                        }
                    }
                }
            }
            s = s + 1;
        }
        seeds
    }

    /// Marks every state that one of `seeds` reaches without consuming input.
    fn closure_of(&self, seeds: &Vec<usize>) -> (on: Vec<bool>)
        requires
            self.wf(),
            forall|k: int| 0 <= k < seeds@.len() ==> #[trigger] seeds@[k] < self.arena().len(),
        ensures
            on@.len() == self.arena().len(),
            forall|t: int|
                0 <= t < self.arena().len() ==> (on@[t] <==> reached(self.arena(), seeds@, t)),
    {
        let ghost a = self.arena();
        let n = self.states.len();
        let mut on: Vec<bool> = Vec::new();
        let mut t: usize = 0;
        while t < n
            invariant
                n == a.len(),
                t <= n,
                on@.len() == t,
                forall|u: int| 0 <= u < t ==> !on@[u],
            decreases n - t,
        {
            on.push(false);
            t = t + 1;
        }
        let mut stack: Vec<usize> = Vec::new();
        let mut k: usize = 0;
        while k < seeds.len()
            invariant
                self.wf(),
                a == self.arena(),
                n == a.len(),
                on@.len() == n,
                k <= seeds@.len(),
                forall|k: int| 0 <= k < seeds@.len() ==> #[trigger] seeds@[k] < n,
                forall|j: int| 0 <= j < stack@.len() ==> #[trigger] stack@[j] < n && on@[stack@[j] as int],
                forall|u: int| 0 <= u < n && #[trigger] on@[u] ==> reached(a, seeds@, u),
                forall|s: int, u: int|
                    0 <= s < n && #[trigger] on@[s] && #[trigger] eps_edge(a, s, u) && !stack@.contains(s as usize)
                        ==> 0 <= u < n && on@[u],
                forall|j: int| 0 <= j < k ==> on@[#[trigger] seeds@[j] as int],
            decreases seeds@.len() - k,
        {
            let s = seeds[k];
            proof {
                lemma_reached_seed(a, seeds@, k as int);
            }
            let ghost on0 = on@;
            let ghost st0 = stack@;
            visit(&mut on, &mut stack, s);
            proof {
                assert forall|p: int, u: int|
                    0 <= p < n && #[trigger] on@[p] && #[trigger] eps_edge(a, p, u) && !stack@.contains(p as usize)
                        implies 0 <= u < n && on@[u] by {
                    if p != s as int {
                        assert(on0[p]);
                        if st0.contains(p as usize) {
                            assert(stack@.contains(p as usize));
                        }
                        assert(on0[u]);
                    } else {
                        assert(on0[p]);
                        assert(!st0.contains(p as usize));
                        assert(on0[u]);
                    }
                }
                assert forall|j: int| 0 <= j < k + 1 implies on@[#[trigger] seeds@[j] as int] by {
                    if j < k {
                        assert(on0[seeds@[j] as int]);
                    }
                }
            }
            k = k + 1;
        }
        loop
            invariant_except_break
                self.wf(),
                a == self.arena(),
                n == a.len(),
                on@.len() == n,
                forall|k: int| 0 <= k < seeds@.len() ==> #[trigger] seeds@[k] < n,
                forall|j: int| 0 <= j < stack@.len() ==> #[trigger] stack@[j] < n && on@[stack@[j] as int],
                forall|u: int| 0 <= u < n && #[trigger] on@[u] ==> reached(a, seeds@, u),
                forall|s: int, u: int|
                    0 <= s < n && #[trigger] on@[s] && #[trigger] eps_edge(a, s, u) && !stack@.contains(s as usize)
                        ==> 0 <= u < n && on@[u],
                forall|j: int| 0 <= j < seeds@.len() ==> on@[#[trigger] seeds@[j] as int],
            ensures
                on@.len() == n,
                forall|u: int| 0 <= u < n && #[trigger] on@[u] ==> reached(a, seeds@, u),
                eps_closed(a, on@),
                forall|j: int| 0 <= j < seeds@.len() ==> on@[#[trigger] seeds@[j] as int],
            decreases count_false(on@), stack@.len(),
        {
            let ghost on0 = on@;
            let ghost st0 = stack@;
            match stack.pop() {
                None => {
                    break;
                },
                Some(s) => {
                    let ghost st1 = stack@;
                    proof {
                        assert(state_ok(a[s as int], a.len()));
                        assert(st0 == st1.push(s));
                    }
                    match self.states[s] {
                        State::Start(Some(x)) => {
                            proof {
                                assert(eps_edge(a, s as int, x as int));
                                lemma_reached_step(a, seeds@, s as int, x as int);
                            }
                            visit(&mut on, &mut stack, x);
                        },
                        State::Split(x, y) => {
                            if let Some(x) = x {
                                proof {
                                    assert(eps_edge(a, s as int, x as int));
                                    lemma_reached_step(a, seeds@, s as int, x as int);
                                }
                                visit(&mut on, &mut stack, x);
                            }
                            let ghost on1 = on@;
                            proof {
                                assert forall|q: int| 0 <= q < n && on0[q] implies #[trigger] on1[q] by {}
                            }
                            if let Some(y) = y {
                                proof {
                                    assert(eps_edge(a, s as int, y as int));
                                    lemma_reached_step(a, seeds@, s as int, y as int);
                                }
                                visit(&mut on, &mut stack, y);
                            }
                            proof {
                                assert forall|q: int| 0 <= q < n && on0[q] implies #[trigger] on@[q] by {
                                    assert(on1[q]);
                                }
                            }
                        },
                        _ => {},
                    }
                    proof {
                        assert forall|p: int, u: int|
                            0 <= p < n && #[trigger] on@[p] && #[trigger] eps_edge(a, p, u) && !stack@.contains(p as usize)
                                implies 0 <= u < n && on@[u] by {
                            if p != s as int {
                                assert(on0[p]);
                                if st0.contains(p as usize) {
                                    let j = choose|j: int| 0 <= j < st0.len() && st0[j] == p as usize;
                                    assert(st1[j] == st0[j]);
                                    assert(st1.contains(p as usize));
                                }
                                assert(on0[u]);
                            }
                        }
                        assert forall|j: int| 0 <= j < seeds@.len() implies on@[#[trigger] seeds@[j] as int] by {
                            assert(seeds@[j] < n);
                            assert(on0[seeds@[j] as int]);
                        }
                    }
                },
            }
        }
        proof {
            assert forall|t: int| 0 <= t < n && reached(a, seeds@, t) implies on@[t] by {
                let k = choose|k: int| 0 <= k < seeds@.len() && eps_reach(a, #[trigger] seeds@[k] as int, t);
                let m = choose|m: nat| eps_reach_n(a, seeds@[k] as int, t, m);
                lemma_closed_reach(a, on@, seeds@[k] as int, t, m);
            }
        }
        on
    }
}

// ===== Generation =====

/// Relies on `rand::random::<bool>`: a fair coin. Nothing is promised of the
/// value.
#[verifier::external_body]
fn coin_flip() -> (r: bool) {
    rand::random::<bool>()
}

/// Relies on `rand::distributions::Alphanumeric`, sampled from `thread_rng`:
/// an ASCII letter or digit.
#[verifier::external_body]
fn random_alphanumeric() -> (c: char)
    ensures
        is_alphanumeric(c),
{
    rand::thread_rng().sample(rand::distributions::Alphanumeric)
}

/// The number of steps `gen` walks before it gives up.
pub const GEN_STEP_LIMIT: usize = 1000000;

impl NFA {
    /// A random string of the automaton's language, drawn by a walk from the
    /// entry state that flips a coin at each split; `None` exactly when the
    /// automaton accepts nothing.
    ///
    /// The whole string leads from the entry to the accepting state, and
    /// each character taken for a wildcard is an ASCII letter or digit.
    /// The walk only enters states from which acceptance can still be
    /// reached. After `GEN_STEP_LIMIT` steps it stops flipping coins and
    /// heads for the accepting state by the shortest route it knows.
    pub fn gen(&self) -> (r: Option<String>)
        requires
            self.wf(),
        ensures
            r matches Some(s) ==> accepting(self.arena(), frontier(self.arena(), 0, s@)),
            r matches Some(s) ==> accepting(self.arena(), alnum_frontier(self.arena(), 0, s@)),
            r matches Some(s) ==> self.accepts_spec(s@),
            r is None <==> forall|text: Seq<char>| !self.accepts_spec(text),
    {
        self.gen_bounded(GEN_STEP_LIMIT)
    }

    /// As `gen`, with at most `max_steps` random steps.
    pub fn gen_bounded(&self, max_steps: usize) -> (r: Option<String>)
        requires
            self.wf(),
        ensures
            r matches Some(s) ==> accepting(self.arena(), frontier(self.arena(), 0, s@)),
            r matches Some(s) ==> accepting(self.arena(), alnum_frontier(self.arena(), 0, s@)),
            r matches Some(s) ==> self.accepts_spec(s@),
            r is None <==> forall|text: Seq<char>| !self.accepts_spec(text),
    {
        let ghost a = self.arena();
        let (good, rank) = self.reach_ranks();
        if !good[self.start] {
            proof {
                assert forall|text: Seq<char>| !self.accepts_spec(text) by {
                    assert forall|i: int| 0 <= i <= text.len() implies !accepting(a, #[trigger] frontier(a, 0, text.take(i))) by {
                        if accepting(a, frontier(a, 0, text.take(i))) {
                            let t = choose|t: int| #[trigger] frontier(a, 0, text.take(i)).contains(t) && 0 <= t < a.len() && a[t] is End;
                            lemma_unmarked_frontier(a, good@, 0, text.take(i), t);
                        }
                    }
                }
            }
            return None;
        }
        let mut out = String::new();
        let mut cursor: StateId = self.start;
        let mut steps: usize = 0;
        proof {
            assert(eps_reach_n(a, 0, 0, 0));
            assert(alnum_frontier(a, 0, out@).contains(0));
        }
        while steps < max_steps
            invariant
                self.wf(),
                a == self.arena(),
                good@.len() == a.len(),
                rank@.len() == a.len(),
                ranked(a, good@, rank@),
                cursor < a.len(),
                good@[cursor as int],
                frontier(a, 0, out@).contains(cursor as int),
                alnum_frontier(a, 0, out@).contains(cursor as int),
            decreases max_steps - steps,
        {
            if let State::End = self.states[cursor] {
                proof {
                    lemma_accepting_whole(a, 0, out@);
                    assert(self.accepts_spec(out@));
                }
                return Some(out);
            }
            proof {
                assert(state_ok(a[cursor as int], a.len()));
                assert(resolved(a[cursor as int]));
            }
            let next = match self.states[cursor] {
                State::Split(Some(x), Some(y)) => {
                    if good[x] && good[y] {
                        if coin_flip() {
                            x
                        } else {
                            y
                        }
                    } else if good[x] {
                        x
                    } else {
                        proof {
                            let t = choose|t: int| #[trigger] succ(a, cursor as int, t) && 0 <= t < a.len() && good@[t] && rank@[t] < rank@[cursor as int];
                        }
                        y
                    }
                },
                _ => {
                    let t = self.good_succ(&good, &rank, cursor, rank[cursor]);
                    match t {
                        Some(t) => t,
                        None => {
                            proof {
                                let t = choose|t: int| #[trigger] succ(a, cursor as int, t) && 0 <= t < a.len() && good@[t] && rank@[t] < rank@[cursor as int];
                            }
                            cursor
                        },
                    }
                },
            };
            self.walk_to(&mut out, cursor, next);
            cursor = next;
            steps = steps + 1;
        }
        loop
            invariant
                self.wf(),
                a == self.arena(),
                good@.len() == a.len(),
                rank@.len() == a.len(),
                ranked(a, good@, rank@),
                cursor < a.len(),
                good@[cursor as int],
                frontier(a, 0, out@).contains(cursor as int),
                alnum_frontier(a, 0, out@).contains(cursor as int),
            decreases rank@[cursor as int],
        {
            if let State::End = self.states[cursor] {
                proof {
                    lemma_accepting_whole(a, 0, out@);
                    assert(self.accepts_spec(out@));
                }
                return Some(out);
            }
            let next = match self.good_succ(&good, &rank, cursor, rank[cursor]) {
                Some(t) => t,
                None => {
                    proof {
                        let t = choose|t: int| #[trigger] succ(a, cursor as int, t) && 0 <= t < a.len() && good@[t] && rank@[t] < rank@[cursor as int];
                    }
                    return None;
                },
            };
            self.walk_to(&mut out, cursor, next);
            cursor = next;
        }
    }

    /// Moves the walk from `cursor` to its successor `next`, appending the
    /// character consumed on the way, if any.
    fn walk_to(&self, out: &mut String, cursor: StateId, next: StateId)
        requires
            self.wf(),
            cursor < self.arena().len(),
            succ(self.arena(), cursor as int, next as int),
            frontier(self.arena(), 0, old(out)@).contains(cursor as int),
            alnum_frontier(self.arena(), 0, old(out)@).contains(cursor as int),
        ensures
            frontier(self.arena(), 0, final(out)@).contains(next as int),
            alnum_frontier(self.arena(), 0, final(out)@).contains(next as int),
    {
        let ghost a = self.arena();
        match self.states[cursor] {
            State::Match(l, _) => {
                let c = match l {
                    Char::Literal(c) => c,
                    Char::Any => random_alphanumeric(),
                };
                proof {
                    lemma_frontier_step(a, 0, out@, cursor as int, c);
                    lemma_alnum_frontier_step(a, 0, out@, cursor as int, c);
                }
                push_char(out, c);
            },
            _ => {
                proof {
                    lemma_frontier_eps(a, 0, out@, cursor as int, next as int);
                    lemma_alnum_frontier_eps(a, 0, out@, cursor as int, next as int);
                }
            },
        }
    }
}

// ===== Composition =====

pub open spec fn shifted_link(l: Option<StateId>, k: nat) -> Option<StateId> {
    match l {
        Some(x) => Some((x + k) as StateId),
        None => None,
    }
}

/// `st` with every link moved up by `k` identities.
pub open spec fn shifted(st: State, k: nat) -> State {
    match st {
        State::Start(l) => State::Start(shifted_link(l, k)),
        State::Match(c, l) => State::Match(c, shifted_link(l, k)),
        State::Split(x, y) => State::Split(shifted_link(x, k), shifted_link(y, k)),
        State::End => State::End,
    }
}

/// The arena `l` without its last (accepting) state, followed by the arena
/// `r` renumbered to start where that state stood.
pub open spec fn spliced(l: Seq<State>, r: Seq<State>) -> Seq<State> {
    let k = (l.len() - 1) as nat;
    l.take(k as int) + r.map_values(|st: State| shifted(st, k))
}

fn shift_link(l: Option<StateId>, k: usize) -> (r: Option<StateId>)
    requires
        l matches Some(x) ==> x + k <= usize::MAX,
    ensures
        r == shifted_link(l, k as nat),
{
    match l {
        Some(x) => Some(x + k),
        None => None,
    }
}

impl NFA {
    /// The automaton that runs `self` and then `rhs`: the accepting state of
    /// `self` is dropped, so that its links fall on the entry state of `rhs`,
    /// whose states follow renumbered.
    pub fn concat(self, rhs: NFA) -> (r: NFA)
        requires
            self.wf(),
            rhs.wf(),
            self.arena().len() + rhs.arena().len() <= usize::MAX,
        ensures
            r.wf(),
            r.arena() == spliced(self.arena(), rhs.arena()),
    {
        let ghost la = self.arena();
        let ghost ra = rhs.arena();
        let k = self.states.len() - 1;
        let mut states: Vec<State> = Vec::new();
        let mut i: usize = 0;
        while i < k
            invariant
                la == self.states@,
                k == la.len() - 1,
                i <= k,
                states@ == la.take(i as int),
            decreases k - i,
        {
            states.push(self.states[i]);
            i = i + 1;
            proof {
                assert(states@ =~= la.take(i as int));
            }
        }
        let ghost moved = ra.map_values(|st: State| shifted(st, k as nat));
        let mut j: usize = 0;
        while j < rhs.states.len()
            invariant
                la == self.states@,
                ra == rhs.states@,
                rhs.wf(),
                k == la.len() - 1,
                la.len() + ra.len() <= usize::MAX,
                moved == ra.map_values(|st: State| shifted(st, k as nat)),
                j <= ra.len(),
                states@ == la.take(k as int) + moved.take(j as int),
            decreases ra.len() - j,
        {
            proof {
                assert(state_ok(ra[j as int], ra.len()));
            }
            let st = match rhs.states[j] {
                State::Start(l) => State::Start(shift_link(l, k)),
                State::Match(c, l) => State::Match(c, shift_link(l, k)),
                State::Split(x, y) => State::Split(shift_link(x, k), shift_link(y, k)),
                State::End => State::End,
            };
            states.push(st);
            j = j + 1;
            proof {
                assert(states@ =~= la.take(k as int) + moved.take(j as int));
            }
        }
        proof {
            assert(moved.take(ra.len() as int) =~= moved);
        }
        let r = NFA { start: 0, states };
        proof {
            let a = r.arena();
            assert(a == spliced(la, ra));
            assert forall|i: int| 0 <= i < a.len() implies state_ok(#[trigger] a[i], a.len()) && resolved(a[i]) by {
                if i < k {
                    assert(a[i] == la[i]);
                    assert(state_ok(la[i], la.len()));
                    assert(resolved(la[i]));
                } else {
                    assert(a[i] == shifted(ra[i - k], k as nat));
                    assert(state_ok(ra[i - k], ra.len()));
                    assert(resolved(ra[i - k]));
                }
            }
            assert forall|i: int| 0 <= i < a.len() - 1 implies !(#[trigger] a[i] is End) by {
                if i < k {
                    assert(a[i] == la[i]);
                } else {
                    assert(a[i] == shifted(ra[i - k], k as nat));
                }
            }
            assert(a[0] == la[0]);
            assert(a.last() == shifted(ra.last(), k as nat));
        }
        r
    }
}

impl core::ops::Add for NFA {
    type Output = NFA;

    /// `a + b` is `a.concat(b)`: the left automaton without its accepting
    /// state, followed by the right one renumbered.
    fn add(self, rhs: NFA) -> (r: NFA)
        ensures
            r.wf(),
            r.arena() == spliced(self.arena(), rhs.arena()),
    {
        self.concat(rhs)
    }
}

/// `+` asks what `concat` asks; what it returns is stated on `add` itself.
impl vstd::std_specs::ops::AddSpecImpl for NFA {
    open spec fn obeys_add_spec() -> bool {
        false
    }

    open spec fn add_req(self, rhs: NFA) -> bool {
        &&& self.wf()
        &&& rhs.wf()
        &&& self.arena().len() + rhs.arena().len() <= usize::MAX
    }

    /// An automaton as `add` describes it.
    open spec fn add_spec(self, rhs: NFA) -> NFA {
        choose|r: NFA| r.wf() && r.arena() == spliced(self.arena(), rhs.arena())
    }
}

// ===== States that can still accept =====

impl NFA {
    /// A successor of `s` that is marked with a rank below `bound`, if any.
    fn good_succ(&self, good: &Vec<bool>, rank: &Vec<usize>, s: StateId, bound: usize) -> (r: Option<StateId>)
        requires
            self.wf(),
            good@.len() == self.arena().len(),
            rank@.len() == self.arena().len(),
            s < self.arena().len(),
        ensures
            r matches Some(t) ==> t < self.arena().len() && succ(self.arena(), s as int, t as int) && good@[t as int]
                && rank@[t as int] < bound,
            r is None ==> forall|t: int|
                #[trigger] succ(self.arena(), s as int, t) ==> !(0 <= t < self.arena().len() && good@[t] && rank@[t] < bound),
    {
        proof {
            assert(state_ok(self.arena()[s as int], self.arena().len()));
        }
        match self.states[s] {
            State::Start(Some(x)) => {
                if good[x] && rank[x] < bound {
                    Some(x)
                } else {
                    None
                }
            },
            State::Match(_, Some(x)) => {
                if good[x] && rank[x] < bound {
                    Some(x)
                } else {
                    None
                }
            },
            State::Split(x, y) => {
                if let Some(x) = x {
                    if good[x] && rank[x] < bound {
                        return Some(x);
                    }
                }
                if let Some(y) = y {
                    if good[y] && rank[y] < bound {
                        return Some(y);
                    }
                }
                None
            },
            _ => None,
        }
    }

    /// Marks the states from which an accepting state can be reached, each
    /// with a rank that some marked successor undercuts.
    fn reach_ranks(&self) -> (r: (Vec<bool>, Vec<usize>))
        requires
            self.wf(),
        ensures
            r.0@.len() == self.arena().len(),
            r.1@.len() == self.arena().len(),
            forall|s: int| 0 <= s < self.arena().len() && self.arena()[s] is End ==> #[trigger] r.0@[s],
            ranked(self.arena(), r.0@, r.1@),
            unmarked_closed(self.arena(), r.0@),
    {
        let ghost a = self.arena();
        let n = self.states.len();
        let mut good: Vec<bool> = Vec::new();
        let mut rank: Vec<usize> = Vec::new();
        let mut s: usize = 0;
        while s < n
            invariant
                self.wf(),
                a == self.arena(),
                n == a.len(),
                s <= n,
                good@.len() == s,
                rank@.len() == s,
                forall|x: int| 0 <= x < s ==> (#[trigger] good@[x] <==> a[x] is End),
                forall|x: int| 0 <= x < s ==> #[trigger] rank@[x] == 0,
            decreases n - s,
        {
            let end = match self.states[s] {
                State::End => true,
                _ => false,
            };
            good.push(end);
            rank.push(0);
            s = s + 1;
        }
        proof {
            lemma_count_bound(good@.drop_last());
            assert(good@.last());
            assert forall|x: int| 0 <= x < n && #[trigger] good@[x] implies rank@[x] < 1 by {
                assert(rank@[x] == 0);
            }
            assert forall|x: int| 0 <= x < n && #[trigger] good@[x] && !(a[x] is End) implies exists|t: int|
                #[trigger] succ(a, x, t) && 0 <= t < n && good@[t] && rank@[t] < rank@[x] by {}
        }
        let mut round: usize = 1;
        loop
            invariant_except_break
                self.wf(),
                a == self.arena(),
                n == a.len(),
                good@.len() == n,
                rank@.len() == n,
                1 <= round,
                round + count_false(good@) <= n,
                forall|x: int| 0 <= x < n && a[x] is End ==> #[trigger] good@[x],
                forall|x: int| 0 <= x < n && #[trigger] good@[x] ==> rank@[x] < round,
                ranked(a, good@, rank@),
            ensures
                good@.len() == n,
                rank@.len() == n,
                forall|x: int| 0 <= x < n && a[x] is End ==> #[trigger] good@[x],
                ranked(a, good@, rank@),
                unmarked_closed(a, good@),
            decreases count_false(good@),
        {
            let mut changed = false;
            let ghost start_count = count_false(good@);
            let mut s: usize = 0;
            while s < n
                invariant
                    self.wf(),
                    a == self.arena(),
                    n == a.len(),
                    s <= n,
                    good@.len() == n,
                    rank@.len() == n,
                    1 <= round,
                    round + start_count <= n,
                    count_false(good@) <= start_count,
                    changed ==> count_false(good@) < start_count,
                    forall|x: int| 0 <= x < n && a[x] is End ==> #[trigger] good@[x],
                    forall|x: int| 0 <= x < n && #[trigger] good@[x] ==> rank@[x] <= round,
                    !changed ==> forall|x: int| 0 <= x < n && #[trigger] good@[x] ==> rank@[x] < round,
                    ranked(a, good@, rank@),
                    forall|x: int, t: int|
                        0 <= x < s && !good@[x] && #[trigger] succ(a, x, t) ==> !(0 <= t < n && good@[t] && rank@[t]
                            < round),
                decreases n - s,
            {
                if !good[s] {
                    match self.good_succ(&good, &rank, s, round) {
                        Some(t) => {
                            let ghost g0 = good@;
                            let ghost r0 = rank@;
                            proof {
                                lemma_count_mark(good@, s as int);
                            }
                            good.set(s, true);
                            rank.set(s, round);
                            changed = true;
                            proof {
                                assert(good@ == g0.update(s as int, true));
                                assert forall|x: int| 0 <= x < n && #[trigger] good@[x] && !(a[x] is End) implies exists|u: int|
                                    #[trigger] succ(a, x, u) && 0 <= u < n && good@[u] && rank@[u] < rank@[x] by {
                                    if x == s as int {
                                        assert(succ(a, x, t as int) && 0 <= t < n && good@[t as int] && rank@[t as int] < rank@[x]);
                                    } else {
                                        assert(g0[x]);
                                        let u = choose|u: int| #[trigger] succ(a, x, u) && 0 <= u < n && g0[u] && r0[u] < r0[x];
                                        assert(u != s as int);
                                        assert(succ(a, x, u) && 0 <= u < n && good@[u] && rank@[u] < rank@[x]);
                                    }
                                }
                                assert forall|x: int, u: int|
                                    0 <= x < s + 1 && !good@[x] && #[trigger] succ(a, x, u) implies !(0 <= u < n && good@[u]
                                        && rank@[u] < round) by {
                                    assert(x != s as int);
                                    assert(!g0[x]);
                                    if u == s as int {
                                    } else {
                                        assert(!(0 <= u < n && g0[u] && r0[u] < round));
                                    }
                                }
                            }
                        },
                        None => {},
                    }
                }
                s = s + 1;
            }
            if !changed {
                proof {
                    assert forall|x: int, t: int|
                        0 <= x < n && !good@[x] && #[trigger] succ(a, x, t) implies 0 <= t < n && !good@[t] by {
                        assert(state_ok(a[x], a.len()));
                    }
                }
                break;
            }
            round = round + 1;
        }
        (good, rank)
    }
}

} // verus!
