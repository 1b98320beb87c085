//! The compilation of a syntax tree into an arena of states, stated as
//! functions on sequences, and what it guarantees of the arena it builds.
use vstd::prelude::*;
use crate::nfa::{Char, State, StateId};
use crate::parser::AST;

verus! {

// ===== The arena as a mathematical value =====

pub open spec fn link_ok(l: Option<StateId>, n: nat) -> bool {
    l matches Some(t) ==> t < n
}

/// Every link of `st` names a state of an arena of `n` states.
pub open spec fn state_ok(st: State, n: nat) -> bool {
    match st {
        State::Start(l) => link_ok(l, n),
        State::Match(_, l) => link_ok(l, n),
        State::Split(a, b) => link_ok(a, n) && link_ok(b, n),
        State::End => true,
    }
}

pub open spec fn arena_ok(a: Seq<State>) -> bool {
    forall|i: int| 0 <= i < a.len() ==> state_ok(#[trigger] a[i], a.len())
}

/// Every outgoing link of `st` is set.
pub open spec fn resolved(st: State) -> bool {
    match st {
        State::Start(l) => l is Some,
        State::Match(_, l) => l is Some,
        State::Split(a, b) => a is Some && b is Some,
        State::End => true,
    }
}

/// `st` is the exit of a fragment: its one open link is the last.
pub open spec fn open_exit(st: State) -> bool {
    match st {
        State::Match(_, l) => l is None,
        State::Split(a, b) => a is Some && b is None,
        _ => false,
    }
}

/// `st` with its last link set to `to`.
pub open spec fn joined(st: State, to: StateId) -> State {
    match st {
        State::Start(_) => State::Start(Some(to)),
        State::Match(c, _) => State::Match(c, Some(to)),
        State::Split(a, _) => State::Split(a, Some(to)),
        State::End => State::End,
    }
}

/// `i` is one of the identities in `ends`.
pub open spec fn in_ends(ends: Seq<StateId>, i: int) -> bool {
    exists|k: int| 0 <= k < ends.len() && ends[k] as int == i
}

/// The arena `a` with the last link of each state of `ends` set to `to`.
pub open spec fn join_all(a: Seq<State>, ends: Seq<StateId>, to: StateId) -> Seq<State>
    decreases ends.len(),
{
    if ends.len() == 0 {
        a
    } else {
        let p = join_all(a, ends.drop_last(), to);
        let e = ends.last() as int;
        if e < p.len() {
            p.update(e, joined(p[e], to))
        } else {
            p
        }
    }
}

/// The arena after compiling `ast` onto `a`, with the fragment's entry and exits.
pub open spec fn compile(a: Seq<State>, ast: AST) -> (Seq<State>, StateId, Seq<StateId>)
    decreases ast,
{
    match ast {
        AST::AnyChar => (a.push(State::Match(Char::Any, None)), a.len() as StateId, seq![a.len() as StateId]),
        AST::Char(c) => (
            a.push(State::Match(Char::Literal(c), None)),
            a.len() as StateId,
            seq![a.len() as StateId],
        ),
        AST::Catenation(l, r) => {
            let (a1, s1, e1) = compile(a, *l);
            let (a2, s2, e2) = compile(a1, *r);
            (join_all(a2, e1, s2), s1, e2)
        },
        AST::Alternation(l, r) => {
            let (a1, s1, e1) = compile(a, *l);
            let (a2, s2, e2) = compile(a1, *r);
            (a2.push(State::Split(Some(s1), Some(s2))), a2.len() as StateId, e1 + e2)
        },
        AST::Closure(i) => {
            let (a1, s1, e1) = compile(a, *i);
            let sp = a1.len() as StateId;
            (join_all(a1.push(State::Split(Some(s1), None)), e1, sp), sp, seq![sp])
        },
        AST::OneOrMore(i) => {
            let (a1, s1, e1) = compile(a, *i);
            let sp = a1.len() as StateId;
            (join_all(a1.push(State::Split(Some(s1), None)), e1, sp), s1, seq![sp])
        },
    }
}

/// The arena of the automaton of `ast`: an entry state, the compiled body,
/// and the accepting state last.
pub open spec fn thompson(ast: AST) -> Seq<State> {
    let (a1, s, e) = compile(seq![State::Start(None)], ast);
    let a2 = a1.update(0, State::Start(Some(s)));
    join_all(a2.push(State::End), e, a2.len() as StateId)
}

/// The number of states that compiling `ast` adds.
pub open spec fn ast_states(ast: AST) -> nat
    decreases ast,
{
    match ast {
        AST::AnyChar => 1,
        AST::Char(_) => 1,
        AST::Catenation(l, r) => ast_states(*l) + ast_states(*r),
        AST::Alternation(l, r) => ast_states(*l) + ast_states(*r) + 1,
        AST::Closure(i) => ast_states(*i) + 1,
        AST::OneOrMore(i) => ast_states(*i) + 1,
    }
}

// ===== Lemmas on the construction =====

pub proof fn lemma_join_all(a: Seq<State>, ends: Seq<StateId>, to: StateId)
    ensures
        join_all(a, ends, to).len() == a.len(),
        forall|i: int|
            0 <= i < a.len() ==> #[trigger] join_all(a, ends, to)[i] == if in_ends(ends, i) {
                joined(a[i], to)
            } else {
                a[i]
            },
    decreases ends.len(),
{
    if ends.len() > 0 {
        lemma_join_all(a, ends.drop_last(), to);
        assert forall|i: int| 0 <= i < a.len() implies #[trigger] join_all(a, ends, to)[i] == if in_ends(ends, i) {
            joined(a[i], to)
        } else {
            a[i]
        } by {
            let p = ends.drop_last();
            assert(ends == p.push(ends.last()));
            if in_ends(ends, i) {
                if in_ends(p, i) {
                    let k = choose|k: int| 0 <= k < p.len() && p[k] as int == i;
                    assert(ends[k] == i as StateId);
                } else {
                    let k = choose|k: int| 0 <= k < ends.len() && ends[k] as int == i;
                    if k < p.len() {
                        assert(p[k] == ends[k]);
                    }
                }
            } else {
                if in_ends(p, i) {
                    let k = choose|k: int| 0 <= k < p.len() && p[k] as int == i;
                    assert(ends[k] == p[k]);
                }
            }
        }
    }
}

pub proof fn lemma_compile_len(a: Seq<State>, ast: AST)
    ensures
        compile(a, ast).0.len() == a.len() + ast_states(ast),
    decreases ast,
{
    match ast {
        AST::Catenation(l, r) => {
            lemma_compile_len(a, *l);
            let a1 = compile(a, *l).0;
            lemma_compile_len(a1, *r);
            let c2 = compile(a1, *r);
            lemma_join_all(c2.0, compile(a, *l).2, c2.1);
        },
        AST::Alternation(l, r) => {
            lemma_compile_len(a, *l);
            lemma_compile_len(compile(a, *l).0, *r);
        },
        AST::Closure(i) => {
            lemma_compile_len(a, *i);
            let c1 = compile(a, *i);
            lemma_join_all(c1.0.push(State::Split(Some(c1.1), None)), c1.2, c1.0.len() as StateId);
        },
        AST::OneOrMore(i) => {
            lemma_compile_len(a, *i);
            let c1 = compile(a, *i);
            lemma_join_all(c1.0.push(State::Split(Some(c1.1), None)), c1.2, c1.0.len() as StateId);
        },
        _ => {},
    }
}

/// Compiling keeps what was there, adds states whose links stay in range, and
/// leaves open exactly the exits of the fragment.
pub proof fn lemma_compile(a: Seq<State>, ast: AST)
    requires
        arena_ok(a),
        a.len() + ast_states(ast) <= usize::MAX,
    ensures
        ({
            let (a2, s, e) = compile(a, ast);
            &&& a2.len() == a.len() + ast_states(ast)
            &&& a2.len() > a.len()
            &&& forall|i: int| 0 <= i < a.len() ==> #[trigger] a2[i] == a[i]
            &&& arena_ok(a2)
            &&& a.len() <= s < a2.len()
            &&& forall|j: int|
                0 <= j < e.len() ==> a.len() <= #[trigger] e[j] < a2.len() && open_exit(a2[e[j] as int])
            &&& forall|i: int|
                a.len() <= i < a2.len() ==> !(#[trigger] a2[i] is End) && !(a2[i] is Start) && (
                resolved(a2[i]) || in_ends(e, i))
        }),
    decreases ast,
{
    lemma_compile_len(a, ast);
    match ast {
        AST::Catenation(l, r) => {
            lemma_compile_len(a, *l);
            lemma_compile(a, *l);
            let (a1, s1, e1) = compile(a, *l);
            lemma_compile(a1, *r);
            let (a2, s2, e2) = compile(a1, *r);
            lemma_join_all(a2, e1, s2);
            let a3 = join_all(a2, e1, s2);
            assert forall|i: int| 0 <= i < a3.len() implies state_ok(#[trigger] a3[i], a3.len()) by {
                assert(state_ok(a2[i], a2.len()));
            }
            assert forall|i: int| a.len() <= i < a3.len() implies !(#[trigger] a3[i] is End) && !(
            a3[i] is Start) && (resolved(a3[i]) || in_ends(e2, i)) by {
                if i < a1.len() {
                    assert(a2[i] == a1[i]);
                    if in_ends(e1, i) {
                        let k = choose|k: int| 0 <= k < e1.len() && e1[k] as int == i;
                        assert(open_exit(a1[e1[k] as int]));
                    }
                }
            }
            assert forall|j: int| 0 <= j < e2.len() implies a1.len() <= #[trigger] e2[j] < a3.len()
                && open_exit(a3[e2[j] as int]) by {
                let x = e2[j] as int;
                if in_ends(e1, x) {
                    let k = choose|k: int| 0 <= k < e1.len() && e1[k] as int == x;
                }
            }
        },
        AST::Alternation(l, r) => {
            lemma_compile_len(a, *l);
            lemma_compile(a, *l);
            let (a1, s1, e1) = compile(a, *l);
            lemma_compile(a1, *r);
            let (a2, s2, e2) = compile(a1, *r);
            let a3 = a2.push(State::Split(Some(s1), Some(s2)));
            let e3 = e1 + e2;
            assert forall|i: int| 0 <= i < a3.len() implies state_ok(#[trigger] a3[i], a3.len()) by {
                if i < a2.len() {
                    assert(state_ok(a2[i], a2.len()));
                }
            }
            assert forall|j: int| 0 <= j < e3.len() implies a.len() <= #[trigger] e3[j] < a3.len()
                && open_exit(a3[e3[j] as int]) by {
                if j < e1.len() {
                    assert(e3[j] == e1[j]);
                } else {
                    assert(e3[j] == e2[j - e1.len()]);
                }
            }
            assert forall|i: int| a.len() <= i < a3.len() implies !(#[trigger] a3[i] is End) && !(
            a3[i] is Start) && (resolved(a3[i]) || in_ends(e3, i)) by {
                if i < a1.len() {
                    if in_ends(e1, i) {
                        let k = choose|k: int| 0 <= k < e1.len() && e1[k] as int == i;
                        assert(e3[k] == e1[k]);
                    }
                } else if i < a2.len() {
                    if in_ends(e2, i) {
                        let k = choose|k: int| 0 <= k < e2.len() && e2[k] as int == i;
                        assert(e3[k + e1.len()] == e2[k]);
                    }
                }
            }
        },
        AST::Closure(inner) => {
            lemma_compile(a, *inner);
            let (a1, s1, e1) = compile(a, *inner);
            let sp = a1.len() as StateId;
            let a2 = a1.push(State::Split(Some(s1), None));
            lemma_join_all(a2, e1, sp);
            let a3 = join_all(a2, e1, sp);
            assert forall|i: int| 0 <= i < a3.len() implies state_ok(#[trigger] a3[i], a3.len()) by {
                if i < a1.len() {
                    assert(state_ok(a1[i], a1.len()));
                }
            }
            assert forall|i: int| a.len() <= i < a3.len() implies !(#[trigger] a3[i] is End) && !(
            a3[i] is Start) && (resolved(a3[i]) || in_ends(seq![sp], i)) by {
                if i < a1.len() {
                    if in_ends(e1, i) {
                        let k = choose|k: int| 0 <= k < e1.len() && e1[k] as int == i;
                        assert(open_exit(a1[e1[k] as int]));
                    }
                } else {
                    assert(seq![sp][0] == sp);
                }
            }
            assert(!in_ends(e1, sp as int));
        },
        AST::OneOrMore(inner) => {
            lemma_compile(a, *inner);
            let (a1, s1, e1) = compile(a, *inner);
            let sp = a1.len() as StateId;
            let a2 = a1.push(State::Split(Some(s1), None));
            lemma_join_all(a2, e1, sp);
            let a3 = join_all(a2, e1, sp);
            assert forall|i: int| 0 <= i < a3.len() implies state_ok(#[trigger] a3[i], a3.len()) by {
                if i < a1.len() {
                    assert(state_ok(a1[i], a1.len()));
                }
            }
            assert forall|i: int| a.len() <= i < a3.len() implies !(#[trigger] a3[i] is End) && !(
            a3[i] is Start) && (resolved(a3[i]) || in_ends(seq![sp], i)) by {
                if i < a1.len() {
                    if in_ends(e1, i) {
                        let k = choose|k: int| 0 <= k < e1.len() && e1[k] as int == i;
                        assert(open_exit(a1[e1[k] as int]));
                    }
                } else {
                    assert(seq![sp][0] == sp);
                }
            }
            assert(!in_ends(e1, sp as int));
        },
        _ => {
            let a2 = compile(a, ast).0;
            assert forall|i: int| 0 <= i < a2.len() implies state_ok(#[trigger] a2[i], a2.len()) by {
                if i < a.len() {
                    assert(state_ok(a[i], a.len()));
                }
            }
            assert forall|i: int| a.len() <= i < a2.len() implies !(#[trigger] a2[i] is End) && !(
            a2[i] is Start) && (resolved(a2[i]) || in_ends(compile(a, ast).2, i)) by {
                assert(compile(a, ast).2[0] == a.len() as StateId);
            }
        },
    }
}

/// The arena of a compiled pattern is a finished automaton.
pub proof fn lemma_thompson_wf(ast: AST)
    requires
        ast_states(ast) + 2 <= usize::MAX,
    ensures
        ({
            let a = thompson(ast);
            &&& arena_ok(a)
            &&& a.len() == ast_states(ast) + 2
            &&& a[0] is Start
            &&& a.last() is End
            &&& forall|i: int| 0 <= i < a.len() ==> resolved(#[trigger] a[i])
            &&& forall|i: int| 0 <= i < a.len() - 1 ==> !(#[trigger] a[i] is End)
        }),
{
    let a0 = seq![State::Start(None)];
    assert(arena_ok(a0)) by {
        assert forall|i: int| 0 <= i < a0.len() implies state_ok(#[trigger] a0[i], a0.len()) by {}
    }
    lemma_compile(a0, ast);
    let (a1, s, e) = compile(a0, ast);
    let a2 = a1.update(0, State::Start(Some(s)));
    let endi = a2.len() as StateId;
    let a3 = a2.push(State::End);
    lemma_join_all(a3, e, endi);
    let a4 = join_all(a3, e, endi);
    assert(a4 == thompson(ast));
    assert forall|i: int| 0 <= i < a4.len() implies state_ok(#[trigger] a4[i], a4.len()) by {
        if i < a1.len() && i > 0 {
            assert(state_ok(a1[i], a1.len()));
        }
    }
    assert forall|i: int| 0 <= i < a4.len() implies resolved(#[trigger] a4[i]) by {
        if 0 < i < a1.len() {
            if in_ends(e, i) {
                let k = choose|k: int| 0 <= k < e.len() && e[k] as int == i;
                assert(open_exit(a1[e[k] as int]));
            }
        }
        if i == a1.len() {
            assert(!in_ends(e, i));
        }
    }
    assert forall|i: int| 0 <= i < a4.len() - 1 implies !(#[trigger] a4[i] is End) by {
        if 0 < i < a1.len() {
            if in_ends(e, i) {
                let k = choose|k: int| 0 <= k < e.len() && e[k] as int == i;
                assert(open_exit(a1[e[k] as int]));
            }
        }
        if i == 0 {
            assert(!in_ends(e, 0));
        }
    }
}

/// The arena of a compiled pattern has one state per node that adds one,
/// plus the entry and the accepting state.
pub proof fn lemma_thompson_len(ast: AST)
    ensures
        thompson(ast).len() == ast_states(ast) + 2,
{
    let a0 = seq![State::Start(None)];
    lemma_compile_len(a0, ast);
    let (a1, s, e) = compile(a0, ast);
    let a2 = a1.update(0, State::Start(Some(s)));
    lemma_join_all(a2.push(State::End), e, a2.len() as StateId);
}

} // verus!
