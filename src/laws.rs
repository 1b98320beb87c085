//! Laws about what the automata of some patterns accept.
use vstd::prelude::*;
use crate::nfa::{Char, NFA, State, StateId};
use crate::thompson::{
    arena_ok,
    ast_states,
    compile,
    in_ends,
    join_all,
    joined,
    lemma_compile,
    lemma_compile_len,
    lemma_join_all,
    lemma_thompson_len,
    open_exit,
    thompson,
};
use crate::parser::{AST, p_atom, p_cat, p_closure, parse_tokens};
use crate::semantics::{
    accepting,
    accepts_prefix,
    eps_reach,
    eps_reach_n,
    frontier,
    label_matches,
    lemma_accepting_whole,
    lemma_frontier_concat,
    lemma_frontier_eps,
    lemma_frontier_step,
    next_of,
};
use crate::tokenizer::{Token, token_of, tokens_of};

verus! {

/// A pattern character that is a literal or the wildcard `.`.
pub open spec fn plain(c: char) -> bool {
    token_of(c) is Char || token_of(c) is AnyChar
}

/// A pattern character that is a literal.
pub open spec fn literal(c: char) -> bool {
    plain(c) && c != '.'
}

/// The label that a plain pattern character puts on its state.
pub open spec fn label_of(c: char) -> Char {
    if c == '.' {
        Char::Any
    } else {
        Char::Literal(c)
    }
}

/// `w` fits the plain pattern `p` character by character.
pub open spec fn fits(p: Seq<char>, w: Seq<char>) -> bool {
    w.len() == p.len() && forall|i: int| 0 <= i < p.len() ==> label_matches(label_of(p[i]), w[i])
}

pub open spec fn atom_of(c: char) -> AST {
    if c == '.' {
        AST::AnyChar
    } else {
        AST::Char(c)
    }
}

/// The tree of a non-empty plain pattern: its atoms, catenated to the right.
pub open spec fn chain_ast(p: Seq<char>) -> AST
    decreases p.len(),
{
    if p.len() <= 1 {
        atom_of(p[0])
    } else {
        AST::Catenation(Box::new(atom_of(p[0])), Box::new(chain_ast(p.drop_first())))
    }
}

/// The states that compiling a plain pattern adds at identity `base`.
pub open spec fn chain_states(p: Seq<char>, base: nat) -> Seq<State> {
    Seq::new(
        p.len(),
        |i: int|
            State::Match(
                label_of(p[i]),
                if i + 1 < p.len() {
                    Some((base + i + 1) as StateId)
                } else {
                    None
                },
            ),
    )
}

/// The automaton of a plain pattern: a line of states, one per character.
pub open spec fn chain_nfa(p: Seq<char>) -> Seq<State> {
    Seq::new(
        p.len() + 2,
        |i: int|
            if i == 0 {
                State::Start(Some(1))
            } else if i <= p.len() {
                State::Match(label_of(p[i - 1]), Some((i + 1) as StateId))
            } else {
                State::End
            },
    )
}

proof fn lemma_tokens_plain(p: Seq<char>)
    requires
        forall|i: int| 0 <= i < p.len() ==> plain(#[trigger] p[i]),
    ensures
        tokens_of(p) == p.map_values(|c: char| token_of(c)),
    decreases p.len(),
{
    if p.len() > 0 {
        let q = p.drop_first();
        assert forall|i: int| 0 <= i < q.len() implies plain(#[trigger] q[i]) by {
            assert(q[i] == p[i + 1]);
        }
        lemma_tokens_plain(q);
        assert(plain(p[0]));
        assert(tokens_of(p) =~= p.map_values(|c: char| token_of(c)));
    }
}

proof fn lemma_parse_chain(p: Seq<char>)
    requires
        p.len() >= 1,
        forall|i: int| 0 <= i < p.len() ==> plain(#[trigger] p[i]),
    ensures
        p_cat(p.map_values(|c: char| token_of(c))) == Ok::<(AST, Seq<Token>), Seq<char>>((chain_ast(p), Seq::<Token>::empty())),
    decreases p.len(),
{
    let ts = p.map_values(|c: char| token_of(c));
    let rest = ts.drop_first();
    assert(plain(p[0]));
    assert(p_atom(ts) == Ok::<(AST, Seq<Token>), Seq<char>>((atom_of(p[0]), rest)));
    if rest.len() > 0 {
        assert(rest[0] == token_of(p[1]));
        assert(plain(p[1]));
    }
    assert(p_closure(ts) == Ok::<(AST, Seq<Token>), Seq<char>>((atom_of(p[0]), rest)));
    if p.len() == 1 {
        assert(rest =~= Seq::<Token>::empty());
    } else {
        let q = p.drop_first();
        assert forall|i: int| 0 <= i < q.len() implies plain(#[trigger] q[i]) by {
            assert(q[i] == p[i + 1]);
        }
        lemma_parse_chain(q);
        assert(rest =~= q.map_values(|c: char| token_of(c)));
    }
}

proof fn lemma_join_one(a: Seq<State>, e: StateId, to: StateId)
    requires
        e < a.len(),
    ensures
        join_all(a, seq![e], to) == a.update(e as int, joined(a[e as int], to)),
{
    assert(seq![e].drop_last() =~= Seq::<StateId>::empty());
    assert(join_all(a, Seq::<StateId>::empty(), to) == a);
    assert(seq![e].last() == e);
}

proof fn lemma_compile_chain(a: Seq<State>, p: Seq<char>)
    requires
        p.len() >= 1,
        a.len() + p.len() <= usize::MAX,
    ensures
        compile(a, chain_ast(p)) == (
            a + chain_states(p, a.len()),
            a.len() as StateId,
            seq![(a.len() + p.len() - 1) as StateId],
        ),
    decreases p.len(),
{
    let n = a.len();
    if p.len() == 1 {
        assert(compile(a, chain_ast(p)).0 =~= a + chain_states(p, n));
    } else {
        let q = p.drop_first();
        let a1 = a.push(State::Match(label_of(p[0]), None));
        assert(compile(a, atom_of(p[0])) == (a1, n as StateId, seq![n as StateId]));
        lemma_compile_chain(a1, q);
        let a2 = a1 + chain_states(q, a1.len());
        lemma_join_one(a2, n as StateId, (n + 1) as StateId);
        assert(a2.update(n as int, joined(a2[n as int], (n + 1) as StateId)) =~= a + chain_states(p, n));
    }
}

proof fn lemma_thompson_chain(p: Seq<char>)
    requires
        p.len() >= 1,
        p.len() + 2 <= usize::MAX,
    ensures
        thompson(chain_ast(p)) == chain_nfa(p),
{
    let a0 = seq![State::Start(None)];
    lemma_compile_chain(a0, p);
    let a1 = a0 + chain_states(p, 1);
    let a2 = a1.update(0, State::Start(Some(1)));
    let a3 = a2.push(State::End);
    lemma_join_one(a3, p.len() as StateId, (p.len() + 1) as StateId);
    assert(a3.update(p.len() as int, joined(a3[p.len() as int], (p.len() + 1) as StateId)) =~= chain_nfa(p));
}

/// In the line of states, only the entry passes on without input.
proof fn lemma_chain_eps(p: Seq<char>, s: int, t: int, m: nat)
    requires
        0 <= s < p.len() + 2,
        eps_reach_n(chain_nfa(p), s, t, m),
    ensures
        s == 0 ==> t == 0 || t == 1,
        s > 0 ==> t == s,
    decreases m,
{
    let a = chain_nfa(p);
    if s == 0 && t != 0 {
        assert(a[0] == State::Start(Some(1)));
        lemma_chain_eps(p, 1, t, (m - 1) as nat);
    }
}

/// The active states after `w`: the entry and its successor before any
/// input, then the state after the last character while `w` fits a prefix.
pub open spec fn chain_frontier(p: Seq<char>, w: Seq<char>) -> Set<int> {
    if w.len() == 0 {
        set![0int, 1int]
    } else if w.len() <= p.len() && fits(p.take(w.len() as int), w) {
        set![w.len() + 1int]
    } else {
        Set::empty()
    }
}

proof fn lemma_chain_frontier(p: Seq<char>, w: Seq<char>)
    requires
        p.len() >= 1,
        p.len() + 2 <= usize::MAX,
    ensures
        frontier(chain_nfa(p), 0, w) == chain_frontier(p, w),
    decreases w.len(),
{
    let a = chain_nfa(p);
    let n = p.len();
    if w.len() == 0 {
        assert forall|t: int| eps_reach(a, 0, t) <==> chain_frontier(p, w).contains(t) by {
            if eps_reach(a, 0, t) {
                let m = choose|m: nat| eps_reach_n(a, 0, t, m);
                lemma_chain_eps(p, 0, t, m);
            }
            if t == 1 {
                assert(eps_reach_n(a, 1, 1, 0));
                assert(eps_reach_n(a, 0, 1, 1));
            }
            if t == 0 {
                assert(eps_reach_n(a, 0, 0, 0));
            }
        }
        assert(frontier(a, 0, w) =~= chain_frontier(p, w));
    } else {
        let v = w.drop_last();
        let c = w.last();
        lemma_chain_frontier(p, v);
        let prev = frontier(a, 0, v);
        let k = w.len();
        assert forall|t: int| frontier(a, 0, w).contains(t) <==> chain_frontier(p, w).contains(t) by {
            if frontier(a, 0, w).contains(t) {
                let s = choose|s: int|
                    #[trigger] prev.contains(s) && next_of(a, s, c) is Some && eps_reach(a, next_of(a, s, c)->0, t);
                let m = choose|m: nat| eps_reach_n(a, next_of(a, s, c)->0, t, m);
                if v.len() == 0 {
                    assert(s == 1);
                    assert(next_of(a, 1, c) == Some(2int));
                    lemma_chain_eps(p, 2, t, m);
                    assert(p.take(1)[0] == p[0]);
                    assert(fits(p.take(1), w));
                } else {
                    assert(s == v.len() + 1);
                    assert(s <= n) by {
                        if s == n + 1 {
                            assert(a[s] == State::End);
                        }
                    }
                    assert(a[s] == State::Match(label_of(p[s - 1]), Some((s + 1) as StateId)));
                    assert(next_of(a, s, c)->0 == s + 1);
                    lemma_chain_eps(p, s + 1, t, m);
                    assert(fits(p.take(k as int), w)) by {
                        assert forall|i: int| 0 <= i < k implies label_matches(label_of(p.take(k as int)[i]), w[i]) by {
                            if i < k - 1 {
                                assert(p.take(k - 1)[i] == p[i]);
                                assert(w[i] == v[i]);
                            }
                        }
                    }
                }
            }
            if chain_frontier(p, w).contains(t) {
                assert(t == k + 1);
                let s = k as int;
                assert(p.take(k as int)[k - 1] == p[k - 1]);
                assert(label_matches(label_of(p[k - 1]), c));
                if v.len() > 0 {
                    assert(fits(p.take(k - 1), v)) by {
                        assert forall|i: int| 0 <= i < k - 1 implies label_matches(label_of(p.take(k - 1)[i]), v[i]) by {
                            assert(p.take(k - 1)[i] == p[i]);
                            assert(p.take(k as int)[i] == p[i]);
                            assert(w[i] == v[i]);
                        }
                    }
                }
                assert(prev.contains(s));
                assert(a[s] == State::Match(label_of(p[s - 1]), Some((s + 1) as StateId)));
                assert(next_of(a, s, c) == Some(t));
                assert(eps_reach_n(a, t, t, 0));
            }
        }
        assert(frontier(a, 0, w) =~= chain_frontier(p, w));
    }
}

/// A pattern of literals and wildcards is a valid expression, and its
/// automaton accepts a text exactly when the text starts with a string that
/// fits the pattern character by character.
pub proof fn law_plain_pattern(p: Seq<char>, text: Seq<char>)
    requires
        p.len() >= 1,
        p.len() + 2 <= usize::MAX,
        forall|i: int| 0 <= i < p.len() ==> plain(#[trigger] p[i]),
    ensures
        parse_tokens(tokens_of(p)) == Ok::<AST, Seq<char>>(chain_ast(p)),
        thompson(chain_ast(p)) == chain_nfa(p),
        accepts_prefix(chain_nfa(p), 0, text) <==> text.len() >= p.len() && fits(p, text.take(p.len() as int)),
{
    lemma_tokens_plain(p);
    lemma_parse_chain(p);
    lemma_thompson_chain(p);
    let a = chain_nfa(p);
    let n = p.len();
    if accepts_prefix(a, 0, text) {
        let i = choose|i: int| 0 <= i <= text.len() && accepting(a, #[trigger] frontier(a, 0, text.take(i)));
        lemma_chain_frontier(p, text.take(i));
        let s = choose|s: int| #[trigger] frontier(a, 0, text.take(i)).contains(s) && 0 <= s < a.len() && a[s] is End;
        assert(s == n + 1);
        assert(i == n);
        assert(p.take(n as int) =~= p);
    }
    if text.len() >= n && fits(p, text.take(n as int)) {
        let w = text.take(n as int);
        lemma_chain_frontier(p, w);
        assert(p.take(n as int) =~= p);
        assert(frontier(a, 0, w).contains(n + 1int));
        assert(accepting(a, frontier(a, 0, text.take(n as int))));
    }
}

proof fn lemma_literal_prefix(p: Seq<char>, text: Seq<char>)
    requires
        p.len() >= 1,
        p.len() + 2 <= usize::MAX,
        forall|i: int| 0 <= i < p.len() ==> literal(#[trigger] p[i]),
    ensures
        parse_tokens(tokens_of(p)) is Ok,
        accepts_prefix(thompson(parse_tokens(tokens_of(p))->Ok_0), 0, text) <==> text.len() >= p.len()
            && text.take(p.len() as int) == p,
{
    law_plain_pattern(p, text);
    if text.len() >= p.len() {
        let w = text.take(p.len() as int);
        if fits(p, w) {
            assert(w =~= p);
        }
        if w == p {
            assert forall|i: int| 0 <= i < p.len() implies label_matches(label_of(p[i]), w[i]) by {
                assert(literal(p[i]));
            }
        }
    }
}

proof fn lemma_wildcard_prefix(p: Seq<char>, text: Seq<char>)
    requires
        p.len() >= 1,
        p.len() + 2 <= usize::MAX,
        forall|i: int| 0 <= i < p.len() ==> #[trigger] p[i] == '.',
        text.len() <= p.len(),
    ensures
        parse_tokens(tokens_of(p)) is Ok,
        accepts_prefix(thompson(parse_tokens(tokens_of(p))->Ok_0), 0, text) <==> text.len() == p.len(),
{
    assert forall|i: int| 0 <= i < p.len() implies plain(#[trigger] p[i]) by {
        assert(p[i] == '.');
    }
    law_plain_pattern(p, text);
    if text.len() == p.len() {
        assert(text.take(p.len() as int) =~= text);
        assert(fits(p, text)) by {
            assert forall|i: int| 0 <= i < p.len() implies label_matches(label_of(p[i]), text[i]) by {
                assert(p[i] == '.');
            }
        }
    }
}

proof fn lemma_chain_states(p: Seq<char>)
    requires
        p.len() >= 1,
    ensures
        ast_states(chain_ast(p)) == p.len(),
    decreases p.len(),
{
    assert(ast_states(atom_of(p[0])) == 1);
    if p.len() > 1 {
        lemma_chain_states(p.drop_first());
    }
}

/// The automaton built from a plain pattern is its line of states, and the
/// pattern's length leaves room for the entry and accepting states.
proof fn lemma_built_plain(p: Seq<char>, nfa: NFA)
    requires
        p.len() >= 1,
        forall|i: int| 0 <= i < p.len() ==> plain(#[trigger] p[i]),
        nfa.wf(),
        parse_tokens(tokens_of(p)) matches Ok(ast) && nfa.arena() == thompson(ast),
    ensures
        p.len() + 2 <= usize::MAX,
        parse_tokens(tokens_of(p)) == Ok::<AST, Seq<char>>(chain_ast(p)),
        nfa.arena() == thompson(chain_ast(p)),
{
    lemma_tokens_plain(p);
    lemma_parse_chain(p);
    lemma_thompson_len(chain_ast(p));
    lemma_chain_states(p);
}

/// A pattern of literals is a valid expression, and the automaton built
/// from it accepts a text exactly when the text starts with the pattern: in
/// particular it accepts the pattern itself, and no text of its length that
/// differs from it in any one character.
pub proof fn law_literal_acceptance(p: Seq<char>, nfa: NFA, text: Seq<char>)
    requires
        p.len() >= 1,
        forall|i: int| 0 <= i < p.len() ==> literal(#[trigger] p[i]),
        nfa.wf(),
        parse_tokens(tokens_of(p)) matches Ok(ast) && nfa.arena() == thompson(ast),
    ensures
        nfa.accepts_spec(text) <==> text.len() >= p.len() && text.take(p.len() as int) == p,
{
    lemma_built_plain(p, nfa);
    lemma_literal_prefix(p, text);
}

/// A pattern of literals always parses.
pub proof fn law_literal_parses(p: Seq<char>)
    requires
        p.len() >= 1,
        forall|i: int| 0 <= i < p.len() ==> plain(#[trigger] p[i]),
    ensures
        parse_tokens(tokens_of(p)) is Ok,
{
    lemma_tokens_plain(p);
    lemma_parse_chain(p);
}

/// The automaton built from `n` wildcards accepts, among texts of at most
/// `n` characters, exactly those of `n` characters.
pub proof fn law_wildcard_count(p: Seq<char>, nfa: NFA, text: Seq<char>)
    requires
        p.len() >= 1,
        forall|i: int| 0 <= i < p.len() ==> #[trigger] p[i] == '.',
        nfa.wf(),
        parse_tokens(tokens_of(p)) matches Ok(ast) && nfa.arena() == thompson(ast),
        text.len() <= p.len(),
    ensures
        nfa.accepts_spec(text) <==> text.len() == p.len(),
{
    assert forall|i: int| 0 <= i < p.len() implies plain(#[trigger] p[i]) by {
        assert(p[i] == '.');
    }
    lemma_built_plain(p, nfa);
    lemma_wildcard_prefix(p, text);
}

// ===== Every compiled pattern accepts something =====

/// The last link of a state.
pub open spec fn last_of(st: State) -> Option<StateId> {
    match st {
        State::Start(l) => l,
        State::Match(_, l) => l,
        State::Split(_, b) => b,
        State::End => None,
    }
}

/// The arena `f` holds the fragment `frag`, compiled at `base`, with each of
/// its exits joined to some state.
pub open spec fn embeds(f: Seq<State>, base: int, frag: (Seq<State>, StateId, Seq<StateId>)) -> bool {
    &&& frag.0.len() <= f.len()
    &&& forall|i: int|
        base <= i < frag.0.len() ==> #[trigger] f[i] == if in_ends(frag.2, i) {
            joined(frag.0[i], last_of(f[i])->0)
        } else {
            frag.0[i]
        }
    &&& forall|i: int| base <= i < frag.0.len() && in_ends(frag.2, i) ==> last_of(#[trigger] f[i]) is Some
}

proof fn lemma_in_ends_concat(e1: Seq<StateId>, e2: Seq<StateId>, i: int)
    ensures
        in_ends(e1 + e2, i) <==> in_ends(e1, i) || in_ends(e2, i),
{
    let e = e1 + e2;
    if in_ends(e, i) {
        let k = choose|k: int| 0 <= k < e.len() && e[k] as int == i;
        if k < e1.len() {
            assert(e1[k] == e[k]);
        } else {
            assert(e2[k - e1.len()] == e[k]);
        }
    }
    if in_ends(e1, i) {
        let k = choose|k: int| 0 <= k < e1.len() && e1[k] as int == i;
        assert(e[k] == e1[k]);
    }
    if in_ends(e2, i) {
        let k = choose|k: int| 0 <= k < e2.len() && e2[k] as int == i;
        assert(e[k + e1.len()] == e2[k]);
    }
}

proof fn lemma_open_joined(st: State, to: StateId)
    requires
        open_exit(st),
    ensures
        last_of(joined(st, to)) == Some(to),
{
}

/// From the entry of a compiled fragment some string leads to the state that
/// one of its exits is joined to. Gives the string and the exit.
proof fn lemma_fragment_run(a: Seq<State>, ast: AST, f: Seq<State>) -> (r: (Seq<char>, int))
    requires
        arena_ok(a),
        a.len() + ast_states(ast) <= usize::MAX,
        embeds(f, a.len() as int, compile(a, ast)),
    ensures
        in_ends(compile(a, ast).2, r.1),
        a.len() <= r.1 < compile(a, ast).0.len(),
        last_of(f[r.1]) is Some,
        frontier(f, compile(a, ast).1 as int, r.0).contains(last_of(f[r.1])->0 as int),
    decreases ast,
{
    lemma_compile(a, ast);
    let (a3, s3, e3) = compile(a, ast);
    let base = a.len() as int;
    match ast {
        AST::Catenation(l, r) => {
            lemma_compile_len(a, *l);
            lemma_compile(a, *l);
            let (a1, s1, e1) = compile(a, *l);
            lemma_compile(a1, *r);
            let (a2, s2, e2) = compile(a1, *r);
            lemma_join_all(a2, e1, s2);
            assert(embeds(f, base, (a1, s1, e1))) by {
                assert forall|i: int| base <= i < a1.len() implies #[trigger] f[i] == if in_ends(e1, i) {
                    joined(a1[i], last_of(f[i])->0)
                } else {
                    a1[i]
                } && (in_ends(e1, i) ==> last_of(f[i]) is Some) by {
                    assert(!in_ends(e2, i)) by {
                        if in_ends(e2, i) {
                            let k = choose|k: int| 0 <= k < e2.len() && e2[k] as int == i;
                        }
                    }
                    assert(f[i] == a3[i]);
                    assert(a2[i] == a1[i]);
                    if in_ends(e1, i) {
                        let k = choose|k: int| 0 <= k < e1.len() && e1[k] as int == i;
                        assert(open_exit(a1[e1[k] as int]));
                        lemma_open_joined(a1[i], s2);
                    }
                }
            }
            let (w1, x1) = lemma_fragment_run(a, *l, f);
            assert(embeds(f, a1.len() as int, (a2, s2, e2))) by {
                assert forall|i: int| a1.len() <= i < a2.len() implies #[trigger] f[i] == if in_ends(e2, i) {
                    joined(a2[i], last_of(f[i])->0)
                } else {
                    a2[i]
                } && (in_ends(e2, i) ==> last_of(f[i]) is Some) by {
                    assert(!in_ends(e1, i)) by {
                        if in_ends(e1, i) {
                            let k = choose|k: int| 0 <= k < e1.len() && e1[k] as int == i;
                        }
                    }
                    assert(a3[i] == a2[i]);
                }
            }
            let (w2, x2) = lemma_fragment_run(a1, *r, f);
            assert(f[x1] == joined(a1[x1], s2)) by {
                assert(!in_ends(e2, x1)) by {
                    if in_ends(e2, x1) {
                        let k = choose|k: int| 0 <= k < e2.len() && e2[k] as int == x1;
                    }
                }
                assert(a2[x1] == a1[x1]);
                let k = choose|k: int| 0 <= k < e1.len() && e1[k] as int == x1;
                assert(open_exit(a1[e1[k] as int]));
                lemma_open_joined(a1[x1], s2);
            }
            let k = choose|k: int| 0 <= k < e1.len() && e1[k] as int == x1;
            assert(open_exit(a1[e1[k] as int]));
            lemma_open_joined(a1[x1], s2);
            lemma_frontier_concat(f, s1 as int, w1, s2 as int, w2, last_of(f[x2])->0 as int);
            (w1 + w2, x2)
        },
        AST::Alternation(l, r) => {
            lemma_compile_len(a, *l);
            lemma_compile(a, *l);
            let (a1, s1, e1) = compile(a, *l);
            lemma_compile(a1, *r);
            let (a2, s2, e2) = compile(a1, *r);
            assert(embeds(f, base, (a1, s1, e1))) by {
                assert forall|i: int| base <= i < a1.len() implies #[trigger] f[i] == if in_ends(e1, i) {
                    joined(a1[i], last_of(f[i])->0)
                } else {
                    a1[i]
                } && (in_ends(e1, i) ==> last_of(f[i]) is Some) by {
                    lemma_in_ends_concat(e1, e2, i);
                    assert(!in_ends(e2, i)) by {
                        if in_ends(e2, i) {
                            let k = choose|k: int| 0 <= k < e2.len() && e2[k] as int == i;
                        }
                    }
                    assert(a3[i] == a2[i]);
                    assert(a2[i] == a1[i]);
                }
            }
            let (w1, x1) = lemma_fragment_run(a, *l, f);
            let sp = a2.len() as int;
            lemma_in_ends_concat(e1, e2, sp);
            assert(!in_ends(e1, sp)) by {
                if in_ends(e1, sp) {
                    let k = choose|k: int| 0 <= k < e1.len() && e1[k] as int == sp;
                }
            }
            assert(!in_ends(e2, sp)) by {
                if in_ends(e2, sp) {
                    let k = choose|k: int| 0 <= k < e2.len() && e2[k] as int == sp;
                }
            }
            assert(f[sp] == State::Split(Some(s1), Some(s2)));
            assert(eps_reach_n(f, s1 as int, s1 as int, 0));
            assert(eps_reach_n(f, sp, s1 as int, 1));
            assert(frontier(f, sp, Seq::<char>::empty()).contains(s1 as int));
            lemma_frontier_concat(f, sp, Seq::<char>::empty(), s1 as int, w1, last_of(f[x1])->0 as int);
            assert(Seq::<char>::empty() + w1 =~= w1);
            lemma_in_ends_concat(e1, e2, x1);
            (w1, x1)
        },
        AST::Closure(inner) => {
            lemma_compile(a, *inner);
            let (a1, s1, e1) = compile(a, *inner);
            let sp = a1.len() as StateId;
            let a2 = a1.push(State::Split(Some(s1), None));
            lemma_join_all(a2, e1, sp);
            assert(!in_ends(e1, sp as int)) by {
                if in_ends(e1, sp as int) {
                    let k = choose|k: int| 0 <= k < e1.len() && e1[k] as int == sp as int;
                }
            }
            assert(in_ends(e3, sp as int)) by {
                assert(e3[0] == sp);
            }
            let t = last_of(f[sp as int])->0;
            assert(f[sp as int] == State::Split(Some(s1), Some(t)));
            assert(eps_reach_n(f, t as int, t as int, 0));
            assert(eps_reach_n(f, sp as int, t as int, 1));
            (Seq::<char>::empty(), sp as int)
        },
        AST::OneOrMore(inner) => {
            lemma_compile(a, *inner);
            let (a1, s1, e1) = compile(a, *inner);
            let sp = a1.len() as StateId;
            let a2 = a1.push(State::Split(Some(s1), None));
            lemma_join_all(a2, e1, sp);
            assert(forall|i: int| 0 <= i < e3.len() ==> e3[i] == sp);
            assert(embeds(f, base, (a1, s1, e1))) by {
                assert forall|i: int| base <= i < a1.len() implies #[trigger] f[i] == if in_ends(e1, i) {
                    joined(a1[i], last_of(f[i])->0)
                } else {
                    a1[i]
                } && (in_ends(e1, i) ==> last_of(f[i]) is Some) by {
                    assert(!in_ends(e3, i)) by {
                        if in_ends(e3, i) {
                            let k = choose|k: int| 0 <= k < e3.len() && e3[k] as int == i;
                        }
                    }
                    assert(a2[i] == a1[i]);
                    if in_ends(e1, i) {
                        let k = choose|k: int| 0 <= k < e1.len() && e1[k] as int == i;
                        assert(open_exit(a1[e1[k] as int]));
                        lemma_open_joined(a1[i], sp);
                    }
                }
            }
            let (w1, x1) = lemma_fragment_run(a, *inner, f);
            assert(last_of(f[x1]) == Some(sp)) by {
                assert(!in_ends(e3, x1)) by {
                    if in_ends(e3, x1) {
                        let k = choose|k: int| 0 <= k < e3.len() && e3[k] as int == x1;
                    }
                }
                let k = choose|k: int| 0 <= k < e1.len() && e1[k] as int == x1;
                assert(open_exit(a1[e1[k] as int]));
                lemma_open_joined(a1[x1], sp);
            }
            assert(!in_ends(e1, sp as int)) by {
                if in_ends(e1, sp as int) {
                    let k = choose|k: int| 0 <= k < e1.len() && e1[k] as int == sp as int;
                }
            }
            assert(in_ends(e3, sp as int)) by {
                assert(e3[0] == sp);
            }
            let t = last_of(f[sp as int])->0;
            assert(f[sp as int] == State::Split(Some(s1), Some(t)));
            lemma_frontier_eps(f, s1 as int, w1, sp as int, t as int);
            (w1, sp as int)
        },
        _ => {
            let c = match ast {
                AST::Char(c) => c,
                _ => 'a',
            };
            assert(in_ends(e3, base)) by {
                assert(e3[0] == base as StateId);
            }
            let t = last_of(f[base])->0;
            assert(eps_reach_n(f, base, base, 0));
            assert(frontier(f, base, Seq::<char>::empty()).contains(base));
            lemma_frontier_step(f, base, Seq::<char>::empty(), base, c);
            assert(Seq::<char>::empty().push(c) =~= seq![c]);
            (seq![c], base)
        },
    }
}

/// Every automaton compiled from a pattern accepts some string. So `gen`
/// on an automaton built by `from` always gives a string, and that string is
/// accepted.
pub proof fn law_compiled_accepts_something(ast: AST)
    requires
        ast_states(ast) + 2 <= usize::MAX,
    ensures
        exists|w: Seq<char>| accepts_prefix(#[trigger] thompson(ast), 0, w),
{
    let a0 = seq![State::Start(None)];
    assert(arena_ok(a0)) by {
        assert forall|i: int| 0 <= i < a0.len() implies crate::thompson::state_ok(#[trigger] a0[i], a0.len()) by {}
    }
    lemma_compile(a0, ast);
    let (a1, s, e) = compile(a0, ast);
    let a2 = a1.update(0, State::Start(Some(s)));
    let endi = a2.len() as StateId;
    let a3 = a2.push(State::End);
    lemma_join_all(a3, e, endi);
    let f = join_all(a3, e, endi);
    assert(f == thompson(ast));
    assert(embeds(f, 1, (a1, s, e))) by {
        assert forall|i: int| 1 <= i < a1.len() implies #[trigger] f[i] == if in_ends(e, i) {
            joined(a1[i], last_of(f[i])->0)
        } else {
            a1[i]
        } && (in_ends(e, i) ==> last_of(f[i]) is Some) by {
            if in_ends(e, i) {
                let k = choose|k: int| 0 <= k < e.len() && e[k] as int == i;
                assert(open_exit(a1[e[k] as int]));
                lemma_open_joined(a1[i], endi);
            }
        }
    }
    let (w, x) = lemma_fragment_run(a0, ast, f);
    assert(last_of(f[x]) == Some(endi)) by {
        let k = choose|k: int| 0 <= k < e.len() && e[k] as int == x;
        assert(open_exit(a1[e[k] as int]));
        lemma_open_joined(a1[x], endi);
    }
    assert(!in_ends(e, 0)) by {
        if in_ends(e, 0) {
            let k = choose|k: int| 0 <= k < e.len() && e[k] as int == 0;
        }
    }
    assert(!in_ends(e, endi as int)) by {
        if in_ends(e, endi as int) {
            let k = choose|k: int| 0 <= k < e.len() && e[k] as int == endi as int;
        }
    }
    assert(f[0] == State::Start(Some(s)));
    assert(eps_reach_n(f, s as int, s as int, 0));
    assert(eps_reach_n(f, 0, s as int, 1));
    assert(frontier(f, 0, Seq::<char>::empty()).contains(s as int));
    lemma_frontier_concat(f, 0, Seq::<char>::empty(), s as int, w, endi as int);
    assert(Seq::<char>::empty() + w =~= w);
    assert(f[endi as int] == State::End);
    assert(accepting(f, frontier(f, 0, w)));
    lemma_accepting_whole(f, 0, w);
}

} // verus!
