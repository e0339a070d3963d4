//! Matcher: Pike's backtracking-free simulation of the automaton.
//!
//! A match means the whole haystack is consumed and the accepting state is
//! reachable afterwards — full-string semantics, not substring search. The
//! matcher keeps two reusable lists of live state handles (current and next),
//! a generation counter, and a per-state last-seen stamp giving a
//! constant-time membership test. Split states are never stored: inserting
//! one inserts the epsilon-closure of its targets instead, and the stamp
//! check makes that expansion terminate even on the cyclic graphs that `*`
//! and `+` build.
//!
//! The intended meaning is `spec_is_match`: run the set-of-states transformer
//! over the input bytes, starting from the epsilon-closure of the start
//! state, and accept when the final set holds the accepting state.

use vstd::prelude::*;

use crate::nfa::{State, StateID, NFA, state_wf};

verus! {

/// State `a` has an unlabeled (epsilon) edge to state `b`.
pub open spec fn splits_to(states: Seq<State>, a: int, b: int) -> bool {
    0 <= a < states.len() && match states[a] {
        State::Split { out1, out2 } => b == out1 as int || b == out2 as int,
        _ => false,
    }
}

/// `p` is a walk through unlabeled edges only, every stop in range.
pub open spec fn is_eps_path(states: Seq<State>, p: Seq<int>) -> bool {
    p.len() >= 1 && (forall|k: int| 0 <= k < p.len() ==> 0 <= #[trigger] p[k] < states.len())
        && (forall|k: int| 0 <= k < p.len() - 1 ==> #[trigger] splits_to(states, p[k], p[k + 1]))
}

/// State `b` is reachable from state `a` through unlabeled edges alone.
pub open spec fn eps_reach(states: Seq<State>, a: int, b: int) -> bool {
    exists|p: Seq<int>| is_eps_path(states, p) && p.first() == a && p.last() == b
}

/// The epsilon-closure of `seeds`: every state reachable from a seed
/// through unlabeled edges alone (each seed included).
pub open spec fn closure_of(states: Seq<State>, seeds: Set<int>) -> Set<int> {
    Set::new(|b: int| exists|a: int| #[trigger] seeds.contains(a) && eps_reach(states, a, b))
}

/// A set that unlabeled edges never leave.
pub open spec fn eps_closed(states: Seq<State>, s: Set<int>) -> bool {
    forall|a: int, b: int| s.contains(a) && #[trigger] splits_to(states, a, b) ==> s.contains(b)
}

/// The non-fork members of `s`: what the matcher's lists actually store.
pub open spec fn nonsplit_of(states: Seq<State>, s: Set<int>) -> Set<int> {
    Set::new(|x: int| s.contains(x) && 0 <= x < states.len() && !(states[x] is Split))
}

/// Reachability is reflexive on states of the arena.
pub proof fn lemma_reach_refl(states: Seq<State>, a: int)
    requires
        0 <= a < states.len(),
    ensures
        eps_reach(states, a, a),
{
    let p = seq![a];
    assert(is_eps_path(states, p) && p.first() == a && p.last() == a);
}

/// An unlabeled edge taken before a walk extends the walk backwards.
pub proof fn lemma_reach_prepend(states: Seq<State>, a: int, b: int, c: int)
    requires
        splits_to(states, a, b),
        eps_reach(states, b, c),
    ensures
        eps_reach(states, a, c),
{
    let p = choose|p: Seq<int>| is_eps_path(states, p) && p.first() == b && p.last() == c;
    let q = seq![a] + p;
    assert(q.first() == a && q.last() == c);
    assert forall|k: int| 0 <= k < q.len() - 1 implies #[trigger] splits_to(
        states,
        q[k],
        q[k + 1],
    ) by {
        if k == 0 {
            assert(q[0] == a && q[1] == p[0]);
        } else {
            let kk = k - 1;
            assert(splits_to(states, p[kk], p[kk + 1]));
            assert(q[k] == p[kk] && q[k + 1] == p[kk + 1]);
        }
    }
    assert(is_eps_path(states, q));
}

/// Every state a walk visits lies in any closed set that holds the walk's
/// first stop.
proof fn lemma_path_in_closed(states: Seq<State>, c: Set<int>, p: Seq<int>)
    requires
        is_eps_path(states, p),
        eps_closed(states, c),
        c.contains(p.first()),
    ensures
        c.contains(p.last()),
    decreases p.len(),
{
    if p.len() > 1 {
        let q = p.drop_last();
        assert forall|k: int| 0 <= k < q.len() - 1 implies #[trigger] splits_to(
            states,
            q[k],
            q[k + 1],
        ) by {
            assert(splits_to(states, p[k], p[k + 1]));
        }
        assert(is_eps_path(states, q));
        lemma_path_in_closed(states, c, q);
        let kk = p.len() - 2;
        assert(splits_to(states, p[kk], p[kk + 1]));
        assert(q.last() == p[kk] && p.last() == p[kk + 1]);
    }
}

/// The epsilon-closure is the least closed superset of its seeds: it fits
/// inside any closed set that holds every seed.
pub proof fn lemma_closure_least(states: Seq<State>, seeds: Set<int>, c: Set<int>)
    requires
        eps_closed(states, c),
        seeds.subset_of(c),
    ensures
        closure_of(states, seeds).subset_of(c),
{
    assert forall|b: int| closure_of(states, seeds).contains(b) implies c.contains(b) by {
        let a = choose|a: int| #[trigger] seeds.contains(a) && eps_reach(states, a, b);
        let p = choose|p: Seq<int>| is_eps_path(states, p) && p.first() == a && p.last() == b;
        lemma_path_in_closed(states, c, p);
    }
}

/// Seeds sit inside their own closure, and the closure stays inside the
/// arena.
pub proof fn lemma_closure_bounds(states: Seq<State>, seeds: Set<int>)
    requires
        forall|a: int| #[trigger] seeds.contains(a) ==> 0 <= a < states.len(),
    ensures
        seeds.subset_of(closure_of(states, seeds)),
        forall|b: int| #[trigger] closure_of(states, seeds).contains(b) ==> 0 <= b
            < states.len(),
{
    assert forall|a: int| #[trigger] seeds.contains(a) implies closure_of(states, seeds).contains(
        a,
    ) by {
        lemma_reach_refl(states, a);
    }
}

/// Growing a closed set `s0` by everything the matcher stamped while
/// inserting `x` — at most the closure of `x`, at least `x` itself, with
/// every newly stamped fork expanded — lands exactly on `s0` joined with the
/// closure of `x`, and the result is closed again.
pub proof fn lemma_insert_closure(states: Seq<State>, s0: Set<int>, s1: Set<int>, x: int)
    requires
        eps_closed(states, s0),
        s0.subset_of(s1),
        s1.contains(x),
        s1.subset_of(s0.union(closure_of(states, set![x]))),
        forall|a: int, b: int|
            s1.contains(a) && !s0.contains(a) && #[trigger] splits_to(states, a, b)
                ==> s1.contains(b),
        0 <= x < states.len(),
    ensures
        s1 == s0.union(closure_of(states, set![x])),
        eps_closed(states, s1),
{
    assert(eps_closed(states, s1)) by {
        assert forall|a: int, b: int|
            s1.contains(a) && #[trigger] splits_to(states, a, b) implies s1.contains(b) by {
            if s0.contains(a) {
                assert(s0.contains(b));
            }
        }
    }
    assert(set![x].subset_of(s1));
    lemma_closure_least(states, set![x], s1);
    assert(s1 =~= s0.union(closure_of(states, set![x]))) by {
        lemma_closure_bounds(states, set![x]);
    }
}

/// The targets of the byte-labeled edges out of the states of `s` that
/// carry the byte `b`.
pub open spec fn lit_to(states: Seq<State>, i: int, b: u8, t: int) -> bool {
    0 <= i < states.len() && match states[i] {
        State::Literal { byte, out } => byte == b && t == out as int,
        _ => false,
    }
}

/// All such targets over a whole set of states.
pub open spec fn lit_targets(states: Seq<State>, s: Set<int>, b: u8) -> Set<int> {
    Set::new(|t: int| exists|i: int| #[trigger] s.contains(i) && lit_to(states, i, b, t))
}

/// Fork states carry no byte, so dropping them changes no byte targets.
pub proof fn lemma_lit_targets_nonsplit(states: Seq<State>, s: Set<int>, b: u8)
    ensures
        lit_targets(states, nonsplit_of(states, s), b) == lit_targets(states, s, b),
{
    assert(lit_targets(states, nonsplit_of(states, s), b) =~= lit_targets(states, s, b)) by {
        assert forall|t: int| lit_targets(states, s, b).contains(t) implies lit_targets(
            states,
            nonsplit_of(states, s),
            b,
        ).contains(t) by {
            let i = choose|i: int| #[trigger] s.contains(i) && lit_to(states, i, b, t);
            assert(nonsplit_of(states, s).contains(i));
        }
    }
}

/// One simulation step: the byte-labeled edges out of the live set are
/// taken, then the epsilon-closure of their targets is formed.
pub open spec fn spec_step_set(states: Seq<State>, s: Set<int>, b: u8) -> Set<int> {
    closure_of(states, lit_targets(states, s, b))
}

/// The live set after the whole input is consumed.
pub open spec fn spec_run(states: Seq<State>, s: Set<int>, input: Seq<u8>) -> Set<int>
    decreases input.len(),
{
    if input.len() == 0 {
        s
    } else {
        spec_run(states, spec_step_set(states, s, input[0]), input.drop_first())
    }
}

/// The live set before any byte is read: the start state's epsilon-closure.
pub open spec fn start_set(states: Seq<State>, start: int) -> Set<int> {
    closure_of(states, set![start])
}

/// Whether the automaton accepts the input: the accepting state is live
/// once the whole input is consumed.
pub open spec fn spec_is_match(states: Seq<State>, start: int, input: Seq<u8>) -> bool {
    exists|i: int| #[trigger] spec_run(states, start_set(states, start), input).contains(i)
        && 0 <= i < states.len() && states[i] is Match
}

/// A reusable list of live state handles; only the first `n` slots count.
pub struct List {
    pub s: Vec<StateID>,
    pub n: usize,
}

impl List {
    /// The live handles, as mathematical integers.
    pub open spec fn active(&self) -> Seq<int> {
        self.s@.take(self.n as int).map_values(|x: StateID| x as int)
    }

    /// The live handles as a set.
    pub open spec fn active_set(&self) -> Set<int> {
        self.active().to_set()
    }
}

/// The search state for matching haystacks against one automaton: the
/// automaton itself, the current and next live lists, and the generation
/// stamps that give a constant-time membership test.
pub struct Matcher {
    pub nfa: NFA,
    pub clist: List,
    pub nlist: List,
    pub list_id: u32,
    pub last_list_id: Vec<u32>,
}

impl Matcher {
    /// The automaton's arena.
    pub open spec fn states(&self) -> Seq<State> {
        self.nfa.states@
    }

    /// The states stamped with the current generation.
    pub open spec fn stamped(&self) -> Set<int> {
        Set::new(
            |i: int|
                0 <= i < self.states().len() && self.last_list_id@[i] == self.list_id,
        )
    }

    /// The matcher's invariant: the automaton is well formed, both lists and
    /// the stamp table are sized to it, live handles are in range, and no
    /// stamp is ahead of the generation counter.
    pub open spec fn inv(&self) -> bool {
        &&& self.nfa.wf()
        &&& self.clist.s@.len() == self.states().len()
        &&& self.nlist.s@.len() == self.states().len()
        &&& self.last_list_id@.len() == self.states().len()
        &&& self.clist.n <= self.clist.s@.len()
        &&& self.nlist.n <= self.nlist.s@.len()
        &&& forall|k: int|
            0 <= k < self.clist.n ==> (#[trigger] self.clist.s@[k] as int) < self.states().len()
        &&& forall|k: int|
            0 <= k < self.nlist.n ==> (#[trigger] self.nlist.s@[k] as int) < self.states().len()
        &&& forall|i: int|
            0 <= i < self.last_list_id@.len() ==> (#[trigger] self.last_list_id@[i])
                <= self.list_id
    }

    /// The next-list mirrors the stamp table exactly: it holds each stamped
    /// non-fork state once, and nothing else.
    pub open spec fn nlist_ok(&self) -> bool {
        &&& self.nlist.active().no_duplicates()
        &&& self.nlist.active_set() == nonsplit_of(self.states(), self.stamped())
    }

    /// The live handles of the current list, as a set.
    pub open spec fn clist_set(&self) -> Set<int> {
        self.clist.active_set()
    }
}

/// The stamped set is finite and no bigger than the arena.
proof fn lemma_stamped_card(m: Matcher)
    requires
        m.last_list_id@.len() == m.nfa.states@.len(),
    ensures
        m.stamped().finite(),
        m.stamped().len() <= m.nfa.states@.len(),
{
    let n = m.nfa.states@.len() as int;
    vstd::set_lib::lemma_int_range(0, n);
    assert(m.stamped().subset_of(vstd::set_lib::set_int_range(0, n)));
    vstd::set_lib::lemma_len_subset(m.stamped(), vstd::set_lib::set_int_range(0, n));
}

/// A vector of `n` zero stamps.
fn zeroed(n: usize) -> (r: Vec<u32>)
    ensures
        r@.len() == n,
        forall|i: int| 0 <= i < n ==> r@[i] == 0u32,
{
    let mut v: Vec<u32> = Vec::new();
    while v.len() < n
        invariant
            v@.len() <= n,
            forall|i: int| 0 <= i < v@.len() ==> v@[i] == 0u32,
        decreases n - v@.len(),
    {
        v.push(0);
    }
    v
}

impl Matcher {
    /// Build a matcher for the given automaton, with both lists and the
    /// stamp table sized to its state count and the generation counter at
    /// its first value.
    pub fn new(nfa: NFA) -> (r: Matcher)
        requires
            nfa.wf(),
        ensures
            r.inv(),
            r.nfa == nfa,
            r.list_id == 0u32,
            r.clist.n == 0,
            r.nlist.n == 0,
            forall|i: int| 0 <= i < r.last_list_id@.len() ==> r.last_list_id@[i] == 0u32,
    {
        let n = nfa.states.len();
        let clist = List { s: zeroed(n), n: 0 };
        let nlist = List { s: zeroed(n), n: 0 };
        let last_list_id = zeroed(n);
        Matcher { nfa, clist, nlist, list_id: 0, last_list_id }
    }

    /// Move to a fresh generation: afterwards no state is stamped with the
    /// current one. On counter exhaustion every stamp is reset to its
    /// starting value and the counter restarts, so stale stamps can never
    /// satisfy a later membership check.
    pub fn increment_list_id(&mut self)
        requires
            old(self).inv(),
        ensures
            final(self).inv(),
            final(self).nfa == old(self).nfa,
            final(self).clist == old(self).clist,
            final(self).nlist == old(self).nlist,
            forall|i: int| !final(self).stamped().contains(i),
            old(self).list_id < u32::MAX ==> final(self).list_id as int == old(self).list_id
                as int + 1 && final(self).last_list_id == old(self).last_list_id,
            old(self).list_id == u32::MAX ==> final(self).list_id == 1u32 && forall|i: int|
                0 <= i < final(self).last_list_id@.len() ==> final(self).last_list_id@[i] == 0u32,
    {
        if self.list_id == u32::MAX {
            let n = self.last_list_id.len();
            let mut i: usize = 0;
            while i < n
                invariant
                    i <= n,
                    self.last_list_id@.len() == n,
                    forall|k: int| 0 <= k < i ==> #[trigger] self.last_list_id@[k] == 0u32,
                    self.nfa == old(self).nfa,
                    self.clist == old(self).clist,
                    self.nlist == old(self).nlist,
                decreases n - i,
            {
                self.last_list_id.set(i, 0);
                i += 1;
            }
            self.list_id = 1;
        } else {
            self.list_id = self.list_id + 1;
        }
    }

    /// Insert a state into the next list, following unlabeled edges: a fork
    /// is expanded into both of its targets instead of being stored, and a
    /// state already stamped with the current generation is skipped. The
    /// stamp table gains exactly the not-yet-stamped part of the state's
    /// epsilon-closure, and every newly stamped fork is expanded.
    pub fn add_state_to_next(&mut self, sid: StateID)
        requires
            old(self).inv(),
            old(self).nlist_ok(),
            (sid as int) < old(self).nfa.states@.len(),
        ensures
            final(self).inv(),
            final(self).nlist_ok(),
            final(self).nfa == old(self).nfa,
            final(self).clist == old(self).clist,
            final(self).list_id == old(self).list_id,
            old(self).stamped().subset_of(final(self).stamped()),
            final(self).stamped().subset_of(
                old(self).stamped().union(closure_of(old(self).nfa.states@, set![sid as int])),
            ),
            final(self).stamped().contains(sid as int),
            forall|a: int, b: int|
                (final(self).stamped().contains(a) && !old(self).stamped().contains(a)
                    && #[trigger] splits_to(old(self).nfa.states@, a, b))
                    ==> final(self).stamped().contains(b),
            old(self).stamped().contains(sid as int) ==> *final(self) == *old(self),
            old(self).nlist.n <= final(self).nlist.n,
            final(self).nlist.s@.take(old(self).nlist.n as int) == old(self).nlist.s@.take(
                old(self).nlist.n as int,
            ),
        decreases old(self).nfa.states@.len() - old(self).stamped().len(),
    {
        let ghost states = old(self).nfa.states@;
        let ghost s0 = old(self).stamped();
        let idx = sid as usize;
        if self.list_id == self.last_list_id[idx] {
            proof {
                assert(s0.contains(sid as int));
            }
            return ;
        }
        self.last_list_id.set(idx, self.list_id);
        proof {
            assert(self.stamped() =~= s0.insert(sid as int));
            lemma_stamped_card(*old(self));
            lemma_stamped_card(*self);
            lemma_closure_bounds(states, set![sid as int]);
        }
        let ghost s0p = self.stamped();
        let st = self.nfa.states[idx];
        match st {
            State::Split { out1, out2 } => {
                proof {
                    assert(splits_to(states, sid as int, out1 as int));
                    assert(splits_to(states, sid as int, out2 as int));
                    assert(nonsplit_of(states, s0p) =~= nonsplit_of(states, s0));
                    assert(self.nlist_ok());
                }
                self.add_state_to_next(out1);
                let ghost s1 = self.stamped();
                proof {
                    lemma_stamped_card(*self);
                    vstd::set_lib::lemma_len_subset(s0p, s1);
                }
                self.add_state_to_next(out2);
                let ghost s2 = self.stamped();
                proof {
                    let cl = closure_of(states, set![sid as int]);
                    assert(cl.contains(sid as int));
                    assert forall|b: int|
                        closure_of(states, set![out1 as int]).contains(b) implies cl.contains(
                        b,
                    ) by {
                        let a = choose|a: int|
                            #[trigger] set![out1 as int].contains(a) && eps_reach(states, a, b);
                        lemma_reach_prepend(states, sid as int, out1 as int, b);
                        assert(set![sid as int].contains(sid as int));
                    }
                    assert forall|b: int|
                        closure_of(states, set![out2 as int]).contains(b) implies cl.contains(
                        b,
                    ) by {
                        let a = choose|a: int|
                            #[trigger] set![out2 as int].contains(a) && eps_reach(states, a, b);
                        lemma_reach_prepend(states, sid as int, out2 as int, b);
                        assert(set![sid as int].contains(sid as int));
                    }
                    assert(s2.subset_of(s0.union(cl)));
                    assert forall|a: int, b: int|
                        s2.contains(a) && !s0.contains(a) && #[trigger] splits_to(states, a, b)
                            implies s2.contains(b) by {
                        if s1.contains(a) {
                            if s0p.contains(a) {
                                assert(a == sid as int);
                                assert(b == out1 as int || b == out2 as int);
                                assert(s1.contains(out1 as int));
                                assert(s2.contains(out2 as int));
                            } else {
                                assert(s1.contains(b));
                            }
                        } else {
                            assert(s2.contains(b));
                        }
                    }
                }
                return ;
            },
            _ => {},
        }
        proof {
            // The next list holds one slot per stamped non-fork state, and
            // `sid` is not yet among them, so a slot is free.
            let n = states.len() as int;
            self.nlist.active().unique_seq_to_set();
            assert(!self.nlist.active_set().contains(sid as int));
            vstd::set_lib::lemma_int_range(0, n);
            assert(self.nlist.active_set().insert(sid as int).subset_of(
                vstd::set_lib::set_int_range(0, n),
            ));
            vstd::set_lib::lemma_len_subset(
                self.nlist.active_set().insert(sid as int),
                vstd::set_lib::set_int_range(0, n),
            );
            assert(self.nlist.active_set().len() + 1 == self.nlist.active_set().insert(
                sid as int,
            ).len());
            assert((self.nlist.n as int) < n);
        }
        let ghost oldactive = self.nlist.active();
        let cap = self.nlist.s.len();
        let n = self.nlist.n;
        proof {
            assert(n < cap);
        }
        let n = self.nlist.n;
        self.nlist.s.set(n, sid);
        self.nlist.n = n + 1;
        proof {
            assert(self.nlist.active() =~= oldactive.push(sid as int));
            assert forall|i: int, j: int|
                0 <= i < self.nlist.active().len() && 0 <= j < self.nlist.active().len() && i != j
                    implies self.nlist.active()[i] != self.nlist.active()[j] by {
                if i < oldactive.len() && j < oldactive.len() {
                    assert(oldactive[i] != oldactive[j]);
                } else if j == oldactive.len() {
                    assert(oldactive.to_set().contains(oldactive[i]));
                } else {
                    assert(oldactive.to_set().contains(oldactive[j]));
                }
            }
            oldactive.lemma_push_to_set_commute(sid as int);
            assert(self.nlist.active_set() =~= oldactive.to_set().insert(sid as int));
            assert(self.nlist.active_set() =~= nonsplit_of(states, s0p));
        }
    }
}

/// The closure of nothing is nothing.
pub proof fn lemma_closure_empty(states: Seq<State>)
    ensures
        closure_of(states, Set::<int>::empty()) == Set::<int>::empty(),
{
    assert(closure_of(states, Set::<int>::empty()) =~= Set::<int>::empty());
}

/// Closing over one more seed adds exactly that seed's closure.
proof fn lemma_closure_insert_seed(states: Seq<State>, t: Set<int>, x: int)
    ensures
        closure_of(states, t.insert(x)) == closure_of(states, t).union(
            closure_of(states, set![x]),
        ),
{
    let lhs = closure_of(states, t.insert(x));
    let rhs = closure_of(states, t).union(closure_of(states, set![x]));
    assert forall|b: int| lhs.contains(b) implies rhs.contains(b) by {
        let a = choose|a: int| #[trigger] t.insert(x).contains(a) && eps_reach(states, a, b);
        if a == x {
            assert(set![x].contains(x));
            assert(closure_of(states, set![x]).contains(b));
        } else {
            assert(t.contains(a));
            assert(closure_of(states, t).contains(b));
        }
    }
    assert forall|b: int| rhs.contains(b) implies lhs.contains(b) by {
        if closure_of(states, t).contains(b) {
            let a = choose|a: int| #[trigger] t.contains(a) && eps_reach(states, a, b);
            assert(t.insert(x).contains(a));
        } else {
            let a = choose|a: int| #[trigger] set![x].contains(a) && eps_reach(states, a, b);
            assert(a == x);
            assert(t.insert(x).contains(x));
        }
    }
    assert(lhs =~= rhs);
}

/// The byte target of state `i` on byte `b`, if state `i` is a literal
/// carrying that byte.
pub open spec fn lit_out(states: Seq<State>, i: int, b: u8) -> Option<int> {
    if 0 <= i < states.len() {
        match states[i] {
            State::Literal { byte, out } => if byte == b {
                Some(out as int)
            } else {
                None
            },
            _ => None,
        }
    } else {
        None
    }
}

/// Taking one more state into the live set adds its byte target, if any,
/// and nothing else.
proof fn lemma_lit_targets_insert(states: Seq<State>, s: Set<int>, i: int, b: u8)
    ensures
        lit_targets(states, s.insert(i), b) == match lit_out(states, i, b) {
            Some(t) => lit_targets(states, s, b).insert(t),
            None => lit_targets(states, s, b),
        },
{
    let lhs = lit_targets(states, s.insert(i), b);
    let base = lit_targets(states, s, b);
    assert forall|u: int| base.contains(u) implies lhs.contains(u) by {
        let j = choose|j: int| #[trigger] s.contains(j) && lit_to(states, j, b, u);
        assert(s.insert(i).contains(j));
    }
    match lit_out(states, i, b) {
        Some(t) => {
            assert(s.insert(i).contains(i) && lit_to(states, i, b, t));
            assert forall|u: int| lhs.contains(u) implies base.insert(t).contains(u) by {
                let j = choose|j: int| #[trigger] s.insert(i).contains(j) && lit_to(states, j, b, u);
                if j != i {
                    assert(s.contains(j));
                } else {
                    assert(u == t);
                }
            }
            assert(lhs =~= base.insert(t));
        },
        None => {
            assert forall|u: int| lhs.contains(u) implies base.contains(u) by {
                let j = choose|j: int| #[trigger] s.insert(i).contains(j) && lit_to(states, j, b, u);
                assert(j != i);
                assert(s.contains(j));
            }
            assert(lhs =~= base);
        },
    }
}

/// The first `i` entries of a handle list, as a set of integers.
pub open spec fn prefix_ids(s: Seq<StateID>, i: int) -> Set<int> {
    s.take(i).map_values(|x: StateID| x as int).to_set()
}

impl Matcher {
    /// Begin a match attempt: open a fresh generation and make the current
    /// list the epsilon-closure of the automaton's start state.
    pub fn start(&mut self)
        requires
            old(self).inv(),
        ensures
            final(self).inv(),
            final(self).nfa == old(self).nfa,
            final(self).clist_set() == nonsplit_of(
                old(self).nfa.states@,
                start_set(old(self).nfa.states@, old(self).nfa.start as int),
            ),
            final(self).clist.active().no_duplicates(),
            final(self).stamped() == start_set(
                old(self).nfa.states@,
                old(self).nfa.start as int,
            ),
            old(self).list_id < u32::MAX ==> final(self).list_id as int == old(self).list_id
                as int + 1,
            old(self).list_id == u32::MAX ==> final(self).list_id == 1u32,
    {
        let ghost states = self.nfa.states@;
        self.nlist.n = 0;
        self.increment_list_id();
        proof {
            assert(self.nlist.active() =~= Seq::<int>::empty());
            assert(self.nlist.active_set() =~= Set::<int>::empty());
            assert(nonsplit_of(states, self.stamped()) =~= Set::<int>::empty());
            assert(self.nlist_ok());
        }
        let ghost s0 = self.stamped();
        let st = self.nfa.start;
        self.add_state_to_next(st);
        proof {
            assert(s0 =~= Set::<int>::empty());
            assert(eps_closed(states, s0));
            lemma_insert_closure(states, s0, self.stamped(), st as int);
            assert(self.stamped() =~= closure_of(states, set![st as int]));
        }
        core::mem::swap(&mut self.clist, &mut self.nlist);
    }

    /// Advance the simulation past one haystack byte: the next list becomes
    /// the epsilon-closure of the byte targets of the live literal states.
    pub fn step(&mut self, haystack_byte: u8)
        requires
            old(self).inv(),
        ensures
            final(self).inv(),
            final(self).nfa == old(self).nfa,
            final(self).clist == old(self).clist,
            final(self).stamped() == spec_step_set(
                old(self).nfa.states@,
                old(self).clist_set(),
                haystack_byte,
            ),
            final(self).nlist.active_set() == nonsplit_of(
                old(self).nfa.states@,
                final(self).stamped(),
            ),
            final(self).nlist_ok(),
    {
        let ghost states = self.nfa.states@;
        self.nlist.n = 0;
        self.increment_list_id();
        proof {
            assert(self.nlist.active() =~= Seq::<int>::empty());
            assert(self.nlist.active_set() =~= Set::<int>::empty());
            assert(nonsplit_of(states, self.stamped()) =~= Set::<int>::empty());
            assert(self.nlist_ok());
            assert(self.clist.s@.take(0int).map_values(|x: StateID| x as int)
                =~= Seq::<int>::empty());
            assert(prefix_ids(self.clist.s@, 0) =~= Set::<int>::empty());
            assert(lit_targets(states, prefix_ids(self.clist.s@, 0), haystack_byte)
                =~= Set::<int>::empty());
            lemma_closure_empty(states);
            assert(self.stamped() =~= Set::<int>::empty());
            assert(eps_closed(states, self.stamped()));
        }
        let mut i: usize = 0;
        while i < self.clist.n
            invariant
                self.inv(),
                self.nlist_ok(),
                self.nfa == old(self).nfa,
                self.clist == old(self).clist,
                states == self.nfa.states@,
                i <= self.clist.n,
                eps_closed(states, self.stamped()),
                self.stamped() == closure_of(
                    states,
                    lit_targets(states, prefix_ids(self.clist.s@, i as int), haystack_byte),
                ),
            decreases self.clist.n - i,
        {
            let ghost pre = self.stamped();
            let ghost pset = prefix_ids(self.clist.s@, i as int);
            let sid = self.clist.s[i];
            proof {
                assert((self.clist.s@[i as int] as int) < self.states().len());
                assert(0 <= (sid as int) && (sid as int) < states.len());
                assert(self.clist.s@.take(i as int + 1) =~= self.clist.s@.take(i as int).push(
                    sid,
                ));
                assert(self.clist.s@.take(i as int + 1).map_values(|x: StateID| x as int)
                    =~= self.clist.s@.take(i as int).map_values(|x: StateID| x as int).push(
                    sid as int,
                ));
                self.clist.s@.take(i as int).map_values(|x: StateID| x as int)
                    .lemma_push_to_set_commute(sid as int);
                assert(prefix_ids(self.clist.s@, i as int + 1) =~= pset.insert(sid as int));
                lemma_lit_targets_insert(states, pset, sid as int, haystack_byte);
            }
            let st = self.nfa.states[sid as usize];
            match st {
                State::Literal { byte, out } => {
                    if byte == haystack_byte {
                        proof {
                            assert(state_wf(states[sid as int], states.len() as int));
                            assert(lit_out(states, sid as int, haystack_byte) == Some(
                                out as int,
                            ));
                        }
                        self.add_state_to_next(out);
                        proof {
                            lemma_insert_closure(states, pre, self.stamped(), out as int);
                            lemma_closure_insert_seed(
                                states,
                                lit_targets(states, pset, haystack_byte),
                                out as int,
                            );
                        }
                    } else {
                        proof {
                            assert(lit_out(states, sid as int, haystack_byte) is None);
                        }
                    }
                },
                _ => {
                    proof {
                        assert(lit_out(states, sid as int, haystack_byte) is None);
                    }
                },
            }
            i += 1;
        }
        proof {
            assert(prefix_ids(self.clist.s@, self.clist.n as int) == old(self).clist_set());
        }
    }

    /// Run the automaton over the whole haystack and report whether it
    /// matches: true exactly when the entire haystack is consumed and the
    /// accepting state is then live. The answer is `spec_is_match`, whatever
    /// generation the matcher's counter is at when the call is made.
    pub fn is_match(&mut self, haystack: &[u8]) -> (r: bool)
        requires
            old(self).inv(),
        ensures
            final(self).inv(),
            final(self).nfa == old(self).nfa,
            r == spec_is_match(
                old(self).nfa.states@,
                old(self).nfa.start as int,
                haystack@,
            ),
    {
        let ghost states = self.nfa.states@;
        let ghost full = start_set(states, self.nfa.start as int);
        self.start();
        let ghost mut cur = full;
        proof {
            assert(haystack@.skip(0) =~= haystack@);
        }
        let mut i: usize = 0;
        while i < haystack.len()
            invariant
                self.inv(),
                self.nfa == old(self).nfa,
                i <= haystack@.len(),
                states == self.nfa.states@,
                self.clist_set() == nonsplit_of(states, cur),
                spec_run(states, cur, haystack@.skip(i as int)) == spec_run(
                    states,
                    full,
                    haystack@,
                ),
            decreases haystack@.len() - i,
        {
            let b = haystack[i];
            let ghost pre_clist = self.clist_set();
            self.step(b);
            core::mem::swap(&mut self.clist, &mut self.nlist);
            proof {
                lemma_lit_targets_nonsplit(states, cur, b);
                assert(lit_targets(states, pre_clist, b) == lit_targets(states, cur, b));
                assert(self.clist_set() == nonsplit_of(states, spec_step_set(states, cur, b)));
                assert(haystack@.skip(i as int).drop_first() =~= haystack@.skip(i as int + 1));
                assert(haystack@.skip(i as int)[0] == haystack@[i as int]);
                cur = spec_step_set(states, cur, b);
            }
            i += 1;
        }
        proof {
            assert(haystack@.skip(haystack@.len() as int) =~= Seq::<u8>::empty());
            assert(cur == spec_run(states, full, haystack@));
        }
        let mut j: usize = 0;
        while j < self.clist.n
            invariant
                self.inv(),
                self.nfa == old(self).nfa,
                states == self.nfa.states@,
                j <= self.clist.n,
                self.clist_set() == nonsplit_of(states, cur),
                cur == spec_run(states, full, haystack@),
                full == start_set(states, old(self).nfa.start as int),
                forall|k: int|
                    0 <= k < j ==> !((#[trigger] states[self.clist.s@[k] as int]) is Match),
            decreases self.clist.n - j,
        {
            let sid = self.clist.s[j];
            match self.nfa.states[sid as usize] {
                State::Match => {
                    proof {
                        assert((self.clist.s@[j as int] as int) < self.states().len());
                        assert(0 <= (sid as int) && (sid as int) < states.len());
                        assert(self.clist.active()[j as int] == sid as int);
                        assert(self.clist.active().contains(sid as int));
                        assert(self.clist_set().contains(sid as int));
                        assert(cur.contains(sid as int));
                        assert(spec_run(states, full, haystack@).contains(sid as int));
                    }
                    return true;
                },
                _ => {},
            }
            j += 1;
        }
        proof {
            if spec_is_match(states, old(self).nfa.start as int, haystack@) {
                let ii = choose|ii: int|
                    #[trigger] spec_run(states, full, haystack@).contains(ii) && 0 <= ii
                        < states.len() && states[ii] is Match;
                assert(nonsplit_of(states, cur).contains(ii));
                assert(self.clist.active().contains(ii));
                let k = choose|k: int|
                    0 <= k < self.clist.active().len() && self.clist.active()[k] == ii;
                assert(self.clist.active()[k] == self.clist.s@[k] as int);
                assert(false);
            }
        }
        false
    }
}

} // verus!
