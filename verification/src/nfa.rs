//! Automaton builder: Thompson's construction over a postfix program.
//!
//! States live in a single arena (`NFA::states`) and refer to one another by
//! integer handles, so the transition graph may freely contain the cycles
//! that `*` and `+` introduce. Construction keeps a stack of fragments, each
//! a start handle plus a patch list of edges still to be resolved; patching
//! is deferred until a fragment's successor state exists. The exact result
//! of construction is captured by `spec_post2nfa`.

use vstd::prelude::*;

use crate::parser::{DOT, PIPE, PLUS, QMARK, STAR};

verus! {

/// A handle naming a state: an always-valid index into `NFA::states`.
pub type StateID = u32;

/// One automaton state: a byte transition, an unlabeled fork, or the single
/// accepting state.
#[derive(Clone, Copy, PartialEq, Eq, Structural, Debug)]
pub enum State {
    Literal { byte: u8, out: StateID },
    Split { out1: StateID, out2: StateID },
    Match,
}

/// An instruction to rewrite one edge of one state: the `out`/`out1` field,
/// or the `out2` field, of the state with the given handle.
#[derive(Clone, Copy, PartialEq, Eq, Structural, Debug)]
pub enum ToPatch {
    Out1(StateID),
    Out2(StateID),
}

/// An immutable automaton: an arena of states plus a start handle.
pub struct NFA {
    pub start: StateID,
    pub states: Vec<State>,
}

/// A build-time fragment: a start handle plus the edges still unresolved.
pub struct Frag {
    pub start: StateID,
    pub out: Vec<ToPatch>,
}

/// A fragment as its mathematical value.
pub ghost struct GFrag {
    pub start: StateID,
    pub out: Seq<ToPatch>,
}

impl View for Frag {
    type V = GFrag;

    open spec fn view(&self) -> GFrag {
        GFrag { start: self.start, out: self.out@ }
    }
}

impl Frag {
    /// Package a start handle and a patch list as a fragment.
    pub fn new(start: StateID, out: Vec<ToPatch>) -> (r: Frag)
        ensures
            r@ == (GFrag { start, out: out@ }),
    {
        Frag { start, out }
    }
}

/// The state handle a patch instruction rewrites.
pub open spec fn patch_target(p: ToPatch) -> int {
    match p {
        ToPatch::Out1(sid) => sid as int,
        ToPatch::Out2(sid) => sid as int,
    }
}

/// One patch instruction applied to an arena: the named edge of the named
/// state is pointed at `s`. A handle out of range, or an instruction that
/// does not fit the state's shape, changes nothing.
pub open spec fn patch_one(states: Seq<State>, p: ToPatch, s: StateID) -> Seq<State> {
    if 0 <= patch_target(p) < states.len() {
        match p {
            ToPatch::Out1(sid) => match states[sid as int] {
                State::Literal { byte, out } => states.update(
                    sid as int,
                    State::Literal { byte, out: s },
                ),
                State::Split { out1, out2 } => states.update(
                    sid as int,
                    State::Split { out1: s, out2 },
                ),
                State::Match => states,
            },
            ToPatch::Out2(sid) => match states[sid as int] {
                State::Split { out1, out2 } => states.update(
                    sid as int,
                    State::Split { out1, out2: s },
                ),
                _ => states,
            },
        }
    } else {
        states
    }
}

/// A whole patch list applied left to right.
pub open spec fn apply_patches(states: Seq<State>, l: Seq<ToPatch>, s: StateID) -> Seq<State>
    decreases l.len(),
{
    if l.len() == 0 {
        states
    } else {
        patch_one(apply_patches(states, l.drop_last(), s), l.last(), s)
    }
}

/// Every edge of `st` stays inside an arena of `n` states.
pub open spec fn state_wf(st: State, n: int) -> bool {
    match st {
        State::Literal { byte, out } => (out as int) < n,
        State::Split { out1, out2 } => (out1 as int) < n && (out2 as int) < n,
        State::Match => true,
    }
}

/// Every edge of every state stays inside the arena: no dangling handles.
pub open spec fn states_wf(states: Seq<State>) -> bool {
    forall|i: int| 0 <= i < states.len() ==> state_wf(#[trigger] states[i], states.len() as int)
}

impl NFA {
    /// The automaton is well formed: every edge and the start handle name a
    /// state of the arena.
    pub open spec fn wf(&self) -> bool {
        states_wf(self.states@) && (self.start as int) < self.states@.len()
    }
}

/// Patching never changes how many states the arena holds.
pub proof fn lemma_apply_patches_len(states: Seq<State>, l: Seq<ToPatch>, s: StateID)
    ensures
        apply_patches(states, l, s).len() == states.len(),
    decreases l.len(),
{
    if l.len() > 0 {
        lemma_apply_patches_len(states, l.drop_last(), s);
    }
}

/// Patching edges to an in-range handle keeps the arena well formed.
pub proof fn lemma_apply_patches_wf(states: Seq<State>, l: Seq<ToPatch>, s: StateID)
    requires
        states_wf(states),
        (s as int) < states.len(),
    ensures
        states_wf(apply_patches(states, l, s)),
        apply_patches(states, l, s).len() == states.len(),
    decreases l.len(),
{
    if l.len() > 0 {
        lemma_apply_patches_wf(states, l.drop_last(), s);
    }
}

/// The builder's running state: the arena grown so far and the fragment
/// stack.
pub ghost struct BuildState {
    pub states: Seq<State>,
    pub stack: Seq<GFrag>,
}

/// The builder's initial state.
pub open spec fn build_init() -> BuildState {
    BuildState { states: Seq::empty(), stack: Seq::empty() }
}

/// One step of the builder on the next postfix token; `None` means the
/// stack lacked the operands the token needs.
pub open spec fn build_step(bs: BuildState, b: u8) -> Option<BuildState> {
    if b == DOT {
        if bs.stack.len() < 2 {
            None
        } else {
            let e2 = bs.stack.last();
            let e1 = bs.stack[bs.stack.len() - 2];
            Some(BuildState {
                states: apply_patches(bs.states, e1.out, e2.start),
                stack: bs.stack.drop_last().drop_last().push(
                    GFrag { start: e1.start, out: e2.out },
                ),
            })
        }
    } else if b == PIPE {
        if bs.stack.len() < 2 {
            None
        } else {
            let e2 = bs.stack.last();
            let e1 = bs.stack[bs.stack.len() - 2];
            let s = bs.states.len() as StateID;
            Some(BuildState {
                states: bs.states.push(State::Split { out1: e1.start, out2: e2.start }),
                stack: bs.stack.drop_last().drop_last().push(
                    GFrag { start: s, out: e1.out + e2.out },
                ),
            })
        }
    } else if b == QMARK {
        if bs.stack.len() < 1 {
            None
        } else {
            let e = bs.stack.last();
            let s = bs.states.len() as StateID;
            Some(BuildState {
                states: bs.states.push(State::Split { out1: e.start, out2: 0 }),
                stack: bs.stack.drop_last().push(
                    GFrag { start: s, out: e.out.push(ToPatch::Out2(s)) },
                ),
            })
        }
    } else if b == STAR || b == PLUS {
        if bs.stack.len() < 1 {
            None
        } else {
            let e = bs.stack.last();
            let s = bs.states.len() as StateID;
            let grown = bs.states.push(State::Split { out1: e.start, out2: 0 });
            Some(BuildState {
                states: apply_patches(grown, e.out, s),
                stack: bs.stack.drop_last().push(
                    GFrag {
                        start: if b == STAR { s } else { e.start },
                        out: seq![ToPatch::Out2(s)],
                    },
                ),
            })
        }
    } else {
        let s = bs.states.len() as StateID;
        Some(BuildState {
            states: bs.states.push(State::Literal { byte: b, out: 0 }),
            stack: bs.stack.push(GFrag { start: s, out: seq![ToPatch::Out1(s)] }),
        })
    }
}

/// The builder's state after the first `i` tokens of `postfix`, or `None`
/// if construction failed among them.
pub open spec fn build_fold(postfix: Seq<u8>, i: int) -> Option<BuildState>
    decreases i,
{
    if i <= 0 {
        Some(build_init())
    } else {
        match build_fold(postfix, i - 1) {
            None => None,
            Some(bs) => build_step(bs, postfix[i - 1]),
        }
    }
}

/// What `post2nfa` computes: the arena and start handle built from a
/// postfix program, or `None` if the program does not reduce to exactly one
/// fragment.
pub open spec fn spec_post2nfa(postfix: Seq<u8>) -> Option<(Seq<State>, StateID)> {
    match build_fold(postfix, postfix.len() as int) {
        None => None,
        Some(bs) => if bs.stack.len() != 1 {
            None
        } else {
            let e = bs.stack[0];
            let mid = bs.states.len() as StateID;
            Some((apply_patches(bs.states.push(State::Match), e.out, mid), e.start))
        },
    }
}

/// A fragment is well formed for an arena of `n` states: its start and all
/// its patch targets are in range.
pub open spec fn frag_wf(f: GFrag, n: int) -> bool {
    (f.start as int) < n && forall|j: int|
        0 <= j < f.out.len() ==> patch_target(#[trigger] f.out[j]) < n
}

/// The builder's invariant: the arena is well formed and every stacked
/// fragment points into it.
pub open spec fn build_wf(bs: BuildState) -> bool {
    states_wf(bs.states) && forall|k: int|
        0 <= k < bs.stack.len() ==> frag_wf(#[trigger] bs.stack[k], bs.states.len() as int)
}

/// Once the builder has failed on a prefix, it has failed on every longer
/// prefix as well.
pub proof fn lemma_build_fold_none_persists(postfix: Seq<u8>, i: int, j: int)
    requires
        0 <= i <= j,
        build_fold(postfix, i) is None,
    ensures
        build_fold(postfix, j) is None,
    decreases j - i,
{
    if j > i {
        lemma_build_fold_none_persists(postfix, i, j - 1);
    }
}

/// A surviving builder state is well formed, and the arena holds at most
/// one state per token read.
pub proof fn lemma_build_fold_wf(postfix: Seq<u8>, i: int)
    requires
        0 <= i <= postfix.len() < 0x1_0000_0000,
    ensures
        match build_fold(postfix, i) {
            Some(bs) => build_wf(bs) && bs.states.len() <= i,
            None => true,
        },
    decreases i,
{
    if i > 0 {
        lemma_build_fold_wf(postfix, i - 1);
        if let Some(bs) = build_fold(postfix, i - 1) {
            let b = postfix[i - 1];
            if b == DOT {
                if bs.stack.len() >= 2 {
                    let e2 = bs.stack.last();
                    let e1 = bs.stack[bs.stack.len() - 2];
                    lemma_apply_patches_wf(bs.states, e1.out, e2.start);
                }
            } else if b == STAR || b == PLUS {
                if bs.stack.len() >= 1 {
                    let e = bs.stack.last();
                    let s = bs.states.len() as StateID;
                    let grown = bs.states.push(State::Split { out1: e.start, out2: 0 });
                    assert(states_wf(grown));
                    lemma_apply_patches_wf(grown, e.out, s);
                }
            }
        }
    }
}

/// The fragment stack as its mathematical value.
pub open spec fn stack_view(stack: Seq<Frag>) -> Seq<GFrag> {
    stack.map_values(|f: Frag| f@)
}

impl NFA {
    /// Add a state to the arena and return its handle.
    pub fn alloc_state(&mut self, state: State) -> (r: StateID)
        requires
            old(self).states@.len() < 0xFFFF_FFFF,
        ensures
            final(self).states@ == old(self).states@.push(state),
            final(self).start == old(self).start,
            r as int == old(self).states@.len(),
    {
        let id = self.states.len();
        self.states.push(state);
        id as StateID
    }

    /// Perform every patch instruction in `l`, pointing each named edge at
    /// the state `s`.
    pub fn patch(&mut self, l: &[ToPatch], s: StateID)
        ensures
            final(self).states@ == apply_patches(old(self).states@, l@, s),
            final(self).start == old(self).start,
            final(self).states@.len() == old(self).states@.len(),
    {
        let ghost orig = self.states@;
        let mut i: usize = 0;
        proof {
            assert(l@.take(0) =~= Seq::<ToPatch>::empty());
        }
        while i < l.len()
            invariant
                0 <= i <= l@.len(),
                self.states@ == apply_patches(orig, l@.take(i as int), s),
                self.start == old(self).start,
            decreases l@.len() - i,
        {
            proof {
                lemma_apply_patches_len(orig, l@.take(i as int), s);
                assert(l@.take(i as int + 1).drop_last() =~= l@.take(i as int));
                assert(l@.take(i as int + 1).last() == l@[i as int]);
            }
            let p = l[i];
            match p {
                ToPatch::Out1(sid) => {
                    if (sid as usize) < self.states.len() {
                        match self.states[sid as usize] {
                            State::Literal { byte, out } => {
                                self.states.set(sid as usize, State::Literal { byte, out: s });
                            },
                            State::Split { out1, out2 } => {
                                self.states.set(sid as usize, State::Split { out1: s, out2 });
                            },
                            State::Match => {},
                        }
                    }
                },
                ToPatch::Out2(sid) => {
                    if (sid as usize) < self.states.len() {
                        match self.states[sid as usize] {
                            State::Split { out1, out2 } => {
                                self.states.set(sid as usize, State::Split { out1, out2: s });
                            },
                            _ => {},
                        }
                    }
                },
            }
            i += 1;
        }
        proof {
            assert(l@.take(l@.len() as int) =~= l@);
            lemma_apply_patches_len(orig, l@, s);
        }
    }

    /// Compile a postfix program into an automaton by Thompson's
    /// construction. Returns `None` exactly when the program does not reduce
    /// to one fragment; a returned automaton is well formed and is the value
    /// `spec_post2nfa` assigns to the program.
    pub fn post2nfa(postfix: &[u8]) -> (r: Option<NFA>)
        requires
            postfix@.len() < 0xFFFF_FFFF,
        ensures
            match r {
                Some(nfa) => spec_post2nfa(postfix@) == Some((nfa.states@, nfa.start))
                    && nfa.wf(),
                None => spec_post2nfa(postfix@) is None,
            },
    {
        let mut nfa = NFA { start: 0, states: Vec::new() };
        let mut stack: Vec<Frag> = Vec::new();
        let mut i: usize = 0;
        proof {
            assert(stack_view(stack@) =~= Seq::<GFrag>::empty());
        }
        while i < postfix.len()
            invariant
                0 <= i <= postfix@.len(),
                postfix@.len() < 0xFFFF_FFFF,
                build_fold(postfix@, i as int) == Some(
                    BuildState { states: nfa.states@, stack: stack_view(stack@) },
                ),
            decreases postfix@.len() - i,
        {
            let ghost pre = BuildState { states: nfa.states@, stack: stack_view(stack@) };
            proof {
                lemma_build_fold_wf(postfix@, i as int);
            }
            let byte = postfix[i];
            match byte {
                DOT => {
                    let e2 = match stack.pop() {
                        Some(e) => e,
                        None => {
                            proof {
                                lemma_build_fold_none_persists(
                                    postfix@,
                                    i as int + 1,
                                    postfix@.len() as int,
                                );
                            }
                            return None;
                        },
                    };
                    let e1 = match stack.pop() {
                        Some(e) => e,
                        None => {
                            proof {
                                assert(pre.stack.len() == 1);
                                lemma_build_fold_none_persists(
                                    postfix@,
                                    i as int + 1,
                                    postfix@.len() as int,
                                );
                            }
                            return None;
                        },
                    };
                    proof {
                        assert(pre.stack[pre.stack.len() - 2] == e1@);
                        assert(pre.stack.last() == e2@);
                    }
                    nfa.patch(e1.out.as_slice(), e2.start);
                    stack.push(Frag::new(e1.start, e2.out));
                    proof {
                        assert(stack_view(stack@) =~= pre.stack.drop_last().drop_last().push(
                            GFrag { start: e1@.start, out: e2@.out },
                        ));
                    }
                },
                PIPE => {
                    let mut e2 = match stack.pop() {
                        Some(e) => e,
                        None => {
                            proof {
                                lemma_build_fold_none_persists(
                                    postfix@,
                                    i as int + 1,
                                    postfix@.len() as int,
                                );
                            }
                            return None;
                        },
                    };
                    let mut e1 = match stack.pop() {
                        Some(e) => e,
                        None => {
                            proof {
                                assert(pre.stack.len() == 1);
                                lemma_build_fold_none_persists(
                                    postfix@,
                                    i as int + 1,
                                    postfix@.len() as int,
                                );
                            }
                            return None;
                        },
                    };
                    proof {
                        assert(pre.stack[pre.stack.len() - 2] == e1@);
                        assert(pre.stack.last() == e2@);
                    }
                    let s = nfa.alloc_state(State::Split { out1: e1.start, out2: e2.start });
                    e1.out.append(&mut e2.out);
                    stack.push(Frag { start: s, out: e1.out });
                    proof {
                        assert(stack_view(stack@) =~= pre.stack.drop_last().drop_last().push(
                            GFrag {
                                start: pre.states.len() as StateID,
                                out: pre.stack[pre.stack.len() - 2].out + pre.stack.last().out,
                            },
                        ));
                    }
                },
                QMARK => {
                    let mut e = match stack.pop() {
                        Some(e) => e,
                        None => {
                            proof {
                                lemma_build_fold_none_persists(
                                    postfix@,
                                    i as int + 1,
                                    postfix@.len() as int,
                                );
                            }
                            return None;
                        },
                    };
                    proof {
                        assert(pre.stack.last() == e@);
                    }
                    let s = nfa.alloc_state(State::Split { out1: e.start, out2: 0 });
                    e.out.push(ToPatch::Out2(s));
                    stack.push(Frag { start: s, out: e.out });
                    proof {
                        assert(stack_view(stack@) =~= pre.stack.drop_last().push(
                            GFrag {
                                start: pre.states.len() as StateID,
                                out: pre.stack.last().out.push(
                                    ToPatch::Out2(pre.states.len() as StateID),
                                ),
                            },
                        ));
                    }
                },
                STAR | PLUS => {
                    let e = match stack.pop() {
                        Some(e) => e,
                        None => {
                            proof {
                                lemma_build_fold_none_persists(
                                    postfix@,
                                    i as int + 1,
                                    postfix@.len() as int,
                                );
                            }
                            return None;
                        },
                    };
                    proof {
                        assert(pre.stack.last() == e@);
                    }
                    let s = nfa.alloc_state(State::Split { out1: e.start, out2: 0 });
                    nfa.patch(e.out.as_slice(), s);
                    let start = if byte == STAR { s } else { e.start };
                    let out = vec![ToPatch::Out2(s)];
                    proof {
                        assert(out@ =~= seq![ToPatch::Out2(pre.states.len() as StateID)]);
                    }
                    stack.push(Frag { start, out });
                    proof {
                        assert(stack_view(stack@) =~= pre.stack.drop_last().push(
                            GFrag {
                                start: if byte == STAR {
                                    pre.states.len() as StateID
                                } else {
                                    pre.stack.last().start
                                },
                                out: seq![ToPatch::Out2(pre.states.len() as StateID)],
                            },
                        ));
                    }
                },
                _ => {
                    let s = nfa.alloc_state(State::Literal { byte, out: 0 });
                    let out = vec![ToPatch::Out1(s)];
                    proof {
                        assert(out@ =~= seq![ToPatch::Out1(pre.states.len() as StateID)]);
                    }
                    stack.push(Frag { start: s, out });
                    proof {
                        assert(stack_view(stack@) =~= pre.stack.push(
                            GFrag {
                                start: pre.states.len() as StateID,
                                out: seq![ToPatch::Out1(pre.states.len() as StateID)],
                            },
                        ));
                    }
                },
            }
            i += 1;
        }
        let ghost bs = BuildState { states: nfa.states@, stack: stack_view(stack@) };
        proof {
            lemma_build_fold_wf(postfix@, postfix@.len() as int);
        }
        let e = match stack.pop() {
            Some(e) => e,
            None => {
                return None;
            },
        };
        if stack.len() > 0 {
            return None;
        }
        proof {
            assert(bs.stack.len() == 1);
            assert(bs.stack[0] == e@);
        }
        let s = nfa.alloc_state(State::Match);
        nfa.start = e.start;
        nfa.patch(e.out.as_slice(), s);
        proof {
            lemma_apply_patches_wf(bs.states.push(State::Match), e@.out, s);
        }
        Some(nfa)
    }
}

/// The whole compilation pipeline: postfix conversion followed by Thompson
/// construction, as a function of the pattern text.
pub open spec fn spec_compile(re: Seq<u8>) -> Option<(Seq<State>, StateID)> {
    match crate::parser::spec_re2post(re) {
        None => None,
        Some(p) => spec_post2nfa(p),
    }
}

/// Compiling the same pattern twice yields identical automatons: the same
/// state count and the same transitions, handle for handle. Both conversion
/// and construction are functions of their input alone.
pub proof fn lemma_compile_deterministic(
    re: Seq<u8>,
    a: (Seq<State>, StateID),
    b: (Seq<State>, StateID),
)
    requires
        spec_compile(re) == Some(a),
        spec_compile(re) == Some(b),
    ensures
        a.0 == b.0,
        a.1 == b.1,
        a.0.len() == b.0.len(),
{
}

/// Construction is a function of the postfix program alone: two automatons
/// built from the same program are identical — the same state count and the
/// same transitions, handle for handle.
pub proof fn lemma_build_deterministic(
    postfix: Seq<u8>,
    a: (Seq<State>, StateID),
    b: (Seq<State>, StateID),
)
    requires
        spec_post2nfa(postfix) == Some(a),
        spec_post2nfa(postfix) == Some(b),
    ensures
        a.0 == b.0,
        a.1 == b.1,
        a.0.len() == b.0.len(),
{
}

} // verus!
