//! What an arena of states accepts, stated over the arena as a sequence.
use vstd::prelude::*;
use crate::nfa::{Char, State};
use crate::thompson::arena_ok;

verus! {

/// `c` fits the label `l`.
pub open spec fn label_matches(l: Char, c: char) -> bool {
    match l {
        Char::Literal(x) => x == c,
        Char::Any => true,
    }
}

/// `u` is one of the states that `s` passes to without consuming input.
pub open spec fn eps_edge(a: Seq<State>, s: int, u: int) -> bool {
    0 <= s < a.len() && match a[s] {
        State::Start(Some(x)) => x as int == u,
        State::Split(x, y) => (x matches Some(x) && x as int == u) || (y matches Some(y) && y as int
            == u),
        _ => false,
    }
}

/// `t` can be reached from `s` by at most `n` steps that consume no input.
pub open spec fn eps_reach_n(a: Seq<State>, s: int, t: int, n: nat) -> bool
    decreases n,
{
    s == t || (n > 0 && 0 <= s < a.len() && match a[s] {
        State::Start(Some(x)) => eps_reach_n(a, x as int, t, (n - 1) as nat),
        State::Split(x, y) => (x matches Some(x) && eps_reach_n(a, x as int, t, (n - 1) as nat)) || (
        y matches Some(y) && eps_reach_n(a, y as int, t, (n - 1) as nat)),
        _ => false,
    })
}

/// `t` can be reached from `s` without consuming input.
pub open spec fn eps_reach(a: Seq<State>, s: int, t: int) -> bool {
    exists|n: nat| eps_reach_n(a, s, t, n)
}

/// The state that `s` moves to on consuming `c`, if any.
pub open spec fn next_of(a: Seq<State>, s: int, c: char) -> Option<int> {
    if 0 <= s < a.len() {
        match a[s] {
            State::Match(l, Some(n)) => if label_matches(l, c) {
                Some(n as int)
            } else {
                None
            },
            _ => None,
        }
    } else {
        None
    }
}

/// The states that are active once `w` has been consumed from `entry`.
pub open spec fn frontier(a: Seq<State>, entry: int, w: Seq<char>) -> Set<int>
    decreases w.len(),
{
    if w.len() == 0 {
        Set::new(|t: int| eps_reach(a, entry, t))
    } else {
        let prev = frontier(a, entry, w.drop_last());
        Set::new(
            |t: int|
                exists|s: int|
                    #[trigger] prev.contains(s) && next_of(a, s, w.last()) is Some && eps_reach(
                        a,
                        next_of(a, s, w.last())->0,
                        t,
                    ),
        )
    }
}

/// `f` holds an accepting state.
pub open spec fn accepting(a: Seq<State>, f: Set<int>) -> bool {
    exists|s: int| #[trigger] f.contains(s) && 0 <= s < a.len() && a[s] is End
}

/// Some prefix of `text` (the empty one and `text` itself included) leads
/// from `entry` to an accepting state.
pub open spec fn accepts_prefix(a: Seq<State>, entry: int, text: Seq<char>) -> bool {
    exists|i: int| 0 <= i <= text.len() && accepting(a, #[trigger] frontier(a, entry, text.take(i)))
}

// ===== Lemmas =====

pub proof fn lemma_reach_in_range(a: Seq<State>, s: int, t: int, n: nat)
    requires
        arena_ok(a),
        0 <= s < a.len(),
        eps_reach_n(a, s, t, n),
    ensures
        0 <= t < a.len(),
    decreases n,
{
    if s != t {
        assert(state_ok_at(a, s));
        match a[s] {
            State::Start(Some(x)) => lemma_reach_in_range(a, x as int, t, (n - 1) as nat),
            State::Split(x, y) => {
                if x is Some && eps_reach_n(a, x->0 as int, t, (n - 1) as nat) {
                    lemma_reach_in_range(a, x->0 as int, t, (n - 1) as nat);
                } else {
                    lemma_reach_in_range(a, y->0 as int, t, (n - 1) as nat);
                }
            },
            _ => {},
        }
    }
}

pub open spec fn state_ok_at(a: Seq<State>, s: int) -> bool {
    crate::thompson::state_ok(a[s], a.len())
}

/// One more step that consumes no input extends a reach.
pub proof fn lemma_reach_step(a: Seq<State>, s: int, m: int, u: int, n: nat)
    requires
        eps_reach_n(a, s, m, n),
        eps_edge(a, m, u),
    ensures
        eps_reach_n(a, s, u, n + 1),
    decreases n,
{
    if s == m {
        assert(eps_reach_n(a, u, u, n));
        match a[s] {
            State::Start(Some(x)) => {},
            State::Split(x, y) => {
                if x is Some && x->0 as int == u {
                } else {
                    assert(eps_reach_n(a, y->0 as int, u, n));
                }
            },
            _ => {},
        }
    } else {
        match a[s] {
            State::Start(Some(x)) => {
                lemma_reach_step(a, x as int, m, u, (n - 1) as nat);
            },
            State::Split(x, y) => {
                if x is Some && eps_reach_n(a, x->0 as int, m, (n - 1) as nat) {
                    lemma_reach_step(a, x->0 as int, m, u, (n - 1) as nat);
                } else {
                    lemma_reach_step(a, y->0 as int, m, u, (n - 1) as nat);
                }
            },
            _ => {},
        }
    }
}

/// `on` marks a set of states closed under steps that consume no input.
pub open spec fn eps_closed(a: Seq<State>, on: Seq<bool>) -> bool {
    forall|s: int, u: int| 0 <= s < a.len() && #[trigger] on[s] && #[trigger] eps_edge(a, s, u) ==> 0 <= u < a.len() && on[u]
}

/// Whatever a marked state reaches is marked, when the marks are closed.
pub proof fn lemma_closed_reach(a: Seq<State>, on: Seq<bool>, s: int, t: int, n: nat)
    requires
        on.len() == a.len(),
        0 <= s < a.len(),
        on[s],
        eps_closed(a, on),
        eps_reach_n(a, s, t, n),
    ensures
        0 <= t < a.len() && on[t],
    decreases n,
{
    if s != t {
        match a[s] {
            State::Start(Some(x)) => {
                assert(eps_edge(a, s, x as int));
                lemma_closed_reach(a, on, x as int, t, (n - 1) as nat);
            },
            State::Split(x, y) => {
                if x is Some && eps_reach_n(a, x->0 as int, t, (n - 1) as nat) {
                    assert(eps_edge(a, s, x->0 as int));
                    lemma_closed_reach(a, on, x->0 as int, t, (n - 1) as nat);
                } else {
                    assert(eps_edge(a, s, y->0 as int));
                    lemma_closed_reach(a, on, y->0 as int, t, (n - 1) as nat);
                }
            },
            _ => {},
        }
    }
}

/// `t` can be reached without consuming input from one of `seeds`.
pub open spec fn reached(a: Seq<State>, seeds: Seq<usize>, t: int) -> bool {
    exists|k: int| 0 <= k < seeds.len() && eps_reach(a, #[trigger] seeds[k] as int, t)
}

pub proof fn lemma_reached_step(a: Seq<State>, seeds: Seq<usize>, s: int, u: int)
    requires
        reached(a, seeds, s),
        eps_edge(a, s, u),
    ensures
        reached(a, seeds, u),
{
    let k = choose|k: int| 0 <= k < seeds.len() && eps_reach(a, #[trigger] seeds[k] as int, s);
    let n = choose|n: nat| eps_reach_n(a, seeds[k] as int, s, n);
    lemma_reach_step(a, seeds[k] as int, s, u, n);
}

pub proof fn lemma_reached_seed(a: Seq<State>, seeds: Seq<usize>, k: int)
    requires
        0 <= k < seeds.len(),
    ensures
        reached(a, seeds, seeds[k] as int),
{
    assert(eps_reach_n(a, seeds[k] as int, seeds[k] as int, 0));
}

/// The number of unmarked entries.
pub open spec fn count_false(s: Seq<bool>) -> nat
    decreases s.len(),
{
    if s.len() == 0 {
        0
    } else {
        count_false(s.drop_last()) + if s.last() {
            0nat
        } else {
            1nat
        }
    }
}

pub proof fn lemma_count_mark(s: Seq<bool>, i: int)
    requires
        0 <= i < s.len(),
    ensures
        count_false(s.update(i, true)) <= count_false(s),
        !s[i] ==> count_false(s.update(i, true)) < count_false(s),
    decreases s.len(),
{
    let t = s.update(i, true);
    if i == s.len() - 1 {
        assert(t.drop_last() =~= s.drop_last());
    } else {
        assert(t.drop_last() =~= s.drop_last().update(i, true));
        lemma_count_mark(s.drop_last(), i);
    }
}

/// The active states are closed under steps that consume no input.
pub proof fn lemma_frontier_eps(a: Seq<State>, entry: int, w: Seq<char>, t: int, u: int)
    requires
        frontier(a, entry, w).contains(t),
        eps_edge(a, t, u),
    ensures
        frontier(a, entry, w).contains(u),
{
    if w.len() == 0 {
        let n = choose|n: nat| eps_reach_n(a, entry, t, n);
        lemma_reach_step(a, entry, t, u, n);
    } else {
        let prev = frontier(a, entry, w.drop_last());
        let c = w.last();
        let s = choose|s: int|
            #[trigger] prev.contains(s) && next_of(a, s, c) is Some && eps_reach(a, next_of(a, s, c)->0, t);
        let n = choose|n: nat| eps_reach_n(a, next_of(a, s, c)->0, t, n);
        lemma_reach_step(a, next_of(a, s, c)->0, t, u, n);
        assert(eps_reach(a, next_of(a, s, c)->0, u));
    }
}

/// An active state that consumes `c` makes its successor active after `c`.
pub proof fn lemma_frontier_step(a: Seq<State>, entry: int, w: Seq<char>, s: int, c: char)
    requires
        frontier(a, entry, w).contains(s),
        next_of(a, s, c) is Some,
    ensures
        frontier(a, entry, w.push(c)).contains(next_of(a, s, c)->0),
{
    let m = next_of(a, s, c)->0;
    let v = w.push(c);
    assert(v.drop_last() =~= w);
    assert(v.last() == c);
    assert(eps_reach_n(a, m, m, 0));
    assert(eps_reach(a, m, m));
    assert(frontier(a, entry, v.drop_last()).contains(s));
}

/// A string that leaves an accepting state active is accepted.
pub proof fn lemma_accepting_whole(a: Seq<State>, entry: int, w: Seq<char>)
    requires
        accepting(a, frontier(a, entry, w)),
    ensures
        accepts_prefix(a, entry, w),
{
    assert(w.take(w.len() as int) =~= w);
}

/// `t` follows `s` directly, with or without consuming input.
pub open spec fn succ(a: Seq<State>, s: int, t: int) -> bool {
    eps_edge(a, s, t) || (0 <= s < a.len() && (a[s] matches State::Match(_, Some(x)) && x as int == t))
}

/// No unmarked state has a marked successor.
pub open spec fn unmarked_closed(a: Seq<State>, good: Seq<bool>) -> bool {
    forall|s: int, t: int| 0 <= s < a.len() && !good[s] && #[trigger] succ(a, s, t) ==> 0 <= t < a.len() && !good[t]
}

proof fn lemma_unmarked_reach(a: Seq<State>, good: Seq<bool>, s: int, t: int, n: nat)
    requires
        good.len() == a.len(),
        unmarked_closed(a, good),
        0 <= s < a.len(),
        !good[s],
        eps_reach_n(a, s, t, n),
    ensures
        0 <= t < a.len() && !good[t],
    decreases n,
{
    if s != t {
        match a[s] {
            State::Start(Some(x)) => {
                assert(succ(a, s, x as int));
                lemma_unmarked_reach(a, good, x as int, t, (n - 1) as nat);
            },
            State::Split(x, y) => {
                if x is Some && eps_reach_n(a, x->0 as int, t, (n - 1) as nat) {
                    assert(succ(a, s, x->0 as int));
                    lemma_unmarked_reach(a, good, x->0 as int, t, (n - 1) as nat);
                } else {
                    assert(succ(a, s, y->0 as int));
                    lemma_unmarked_reach(a, good, y->0 as int, t, (n - 1) as nat);
                }
            },
            _ => {},
        }
    }
}

/// When the entry is unmarked and no unmarked state has a marked successor,
/// every active state stays unmarked.
pub proof fn lemma_unmarked_frontier(a: Seq<State>, good: Seq<bool>, entry: int, w: Seq<char>, t: int)
    requires
        good.len() == a.len(),
        unmarked_closed(a, good),
        0 <= entry < a.len(),
        !good[entry],
        frontier(a, entry, w).contains(t),
    ensures
        0 <= t < a.len() && !good[t],
    decreases w.len(),
{
    if w.len() == 0 {
        let n = choose|n: nat| eps_reach_n(a, entry, t, n);
        lemma_unmarked_reach(a, good, entry, t, n);
    } else {
        let prev = frontier(a, entry, w.drop_last());
        let c = w.last();
        let s = choose|s: int|
            #[trigger] prev.contains(s) && next_of(a, s, c) is Some && eps_reach(a, next_of(a, s, c)->0, t);
        lemma_unmarked_frontier(a, good, entry, w.drop_last(), s);
        let m = next_of(a, s, c)->0;
        assert(succ(a, s, m));
        let n = choose|n: nat| eps_reach_n(a, m, t, n);
        lemma_unmarked_reach(a, good, m, t, n);
    }
}

pub proof fn lemma_count_bound(s: Seq<bool>)
    ensures
        count_false(s) <= s.len(),
    decreases s.len(),
{
    if s.len() > 0 {
        lemma_count_bound(s.drop_last());
    }
}

/// Each marked state other than an accepting one has a marked successor of
/// lower rank.
pub open spec fn ranked(a: Seq<State>, good: Seq<bool>, rank: Seq<usize>) -> bool {
    forall|s: int|
        0 <= s < a.len() && #[trigger] good[s] && !(a[s] is End) ==> exists|t: int|
            #[trigger] succ(a, s, t) && 0 <= t < a.len() && good[t] && rank[t] < rank[s]
}

/// The active states are closed under any reach that consumes no input.
pub proof fn lemma_frontier_reach(a: Seq<State>, entry: int, w: Seq<char>, t: int, u: int, n: nat)
    requires
        frontier(a, entry, w).contains(t),
        eps_reach_n(a, t, u, n),
    ensures
        frontier(a, entry, w).contains(u),
    decreases n,
{
    if t != u {
        match a[t] {
            State::Start(Some(x)) => {
                lemma_frontier_eps(a, entry, w, t, x as int);
                lemma_frontier_reach(a, entry, w, x as int, u, (n - 1) as nat);
            },
            State::Split(x, y) => {
                if x is Some && eps_reach_n(a, x->0 as int, u, (n - 1) as nat) {
                    lemma_frontier_eps(a, entry, w, t, x->0 as int);
                    lemma_frontier_reach(a, entry, w, x->0 as int, u, (n - 1) as nat);
                } else {
                    lemma_frontier_eps(a, entry, w, t, y->0 as int);
                    lemma_frontier_reach(a, entry, w, y->0 as int, u, (n - 1) as nat);
                }
            },
            _ => {},
        }
    }
}

/// Runs compose: a state active after `w1` from `s`, and active state after
/// `w2` from there, is active after `w1 + w2` from `s`.
pub proof fn lemma_frontier_concat(a: Seq<State>, s: int, w1: Seq<char>, t: int, w2: Seq<char>, u: int)
    requires
        frontier(a, s, w1).contains(t),
        frontier(a, t, w2).contains(u),
    ensures
        frontier(a, s, w1 + w2).contains(u),
    decreases w2.len(),
{
    if w2.len() == 0 {
        assert(w1 + w2 =~= w1);
        let n = choose|n: nat| eps_reach_n(a, t, u, n);
        lemma_frontier_reach(a, s, w1, t, u, n);
    } else {
        let v = w2.drop_last();
        let c = w2.last();
        let prev = frontier(a, t, v);
        let m = choose|m: int|
            #[trigger] prev.contains(m) && next_of(a, m, c) is Some && eps_reach(a, next_of(a, m, c)->0, u);
        lemma_frontier_concat(a, s, w1, t, v, m);
        let w = w1 + w2;
        assert(w.drop_last() =~= w1 + v);
        assert(w.last() == c);
        assert(frontier(a, s, w.drop_last()).contains(m));
    }
}

/// An ASCII letter or digit.
pub open spec fn is_alphanumeric(c: char) -> bool {
    ('a' <= c && c <= 'z') || ('A' <= c && c <= 'Z') || ('0' <= c && c <= '9')
}

/// As `next_of`, with the wildcard matching ASCII letters and digits only.
pub open spec fn next_of_alnum(a: Seq<State>, s: int, c: char) -> Option<int> {
    if 0 <= s < a.len() {
        match a[s] {
            State::Match(l, Some(n)) => if label_matches(l, c) && (l is Any ==> is_alphanumeric(c)) {
                Some(n as int)
            } else {
                None
            },
            _ => None,
        }
    } else {
        None
    }
}

/// As `frontier`, with the wildcard matching ASCII letters and digits only.
pub open spec fn alnum_frontier(a: Seq<State>, entry: int, w: Seq<char>) -> Set<int>
    decreases w.len(),
{
    if w.len() == 0 {
        Set::new(|t: int| eps_reach(a, entry, t))
    } else {
        let prev = alnum_frontier(a, entry, w.drop_last());
        Set::new(
            |t: int|
                exists|s: int|
                    #[trigger] prev.contains(s) && next_of_alnum(a, s, w.last()) is Some && eps_reach(
                        a,
                        next_of_alnum(a, s, w.last())->0,
                        t,
                    ),
        )
    }
}

pub proof fn lemma_alnum_frontier_eps(a: Seq<State>, entry: int, w: Seq<char>, t: int, u: int)
    requires
        alnum_frontier(a, entry, w).contains(t),
        eps_edge(a, t, u),
    ensures
        alnum_frontier(a, entry, w).contains(u),
{
    if w.len() == 0 {
        let n = choose|n: nat| eps_reach_n(a, entry, t, n);
        lemma_reach_step(a, entry, t, u, n);
    } else {
        let prev = alnum_frontier(a, entry, w.drop_last());
        let c = w.last();
        let s = choose|s: int|
            #[trigger] prev.contains(s) && next_of_alnum(a, s, c) is Some && eps_reach(a, next_of_alnum(a, s, c)->0, t);
        let n = choose|n: nat| eps_reach_n(a, next_of_alnum(a, s, c)->0, t, n);
        lemma_reach_step(a, next_of_alnum(a, s, c)->0, t, u, n);
        assert(eps_reach(a, next_of_alnum(a, s, c)->0, u));
    }
}

pub proof fn lemma_alnum_frontier_step(a: Seq<State>, entry: int, w: Seq<char>, s: int, c: char)
    requires
        alnum_frontier(a, entry, w).contains(s),
        next_of_alnum(a, s, c) is Some,
    ensures
        alnum_frontier(a, entry, w.push(c)).contains(next_of_alnum(a, s, c)->0),
{
    let m = next_of_alnum(a, s, c)->0;
    let v = w.push(c);
    assert(v.drop_last() =~= w);
    assert(v.last() == c);
    assert(eps_reach_n(a, m, m, 0));
    assert(eps_reach(a, m, m));
    assert(alnum_frontier(a, entry, v.drop_last()).contains(s));
}

} // verus!
