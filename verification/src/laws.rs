//! End-to-end laws of the engine, stated over whole patterns.
//!
//! The matcher's contract already ties `is_match` to the automaton's
//! set-of-states semantics (`spec_is_match`), and the compilation pipeline
//! is pinned to `spec_compile`. This module adds what spans the stages:
//! a converter-validated pattern always builds (the construction error is
//! defensively checked but unreachable), and the language correspondence
//! for one pattern family per operator — a pattern of literal bytes alone
//! denotes exactly the language holding that one string, a starred byte the
//! strings made of that byte, a byte under the one-or-more operator the
//! nonempty ones among them, an optional byte the empty string and that
//! byte, and an alternation of two bytes its two one-byte strings.

use vstd::prelude::*;

use crate::matcher::{
    closure_of, eps_closed, lemma_closure_bounds, lemma_closure_empty, lemma_closure_least,
    lemma_reach_prepend, lemma_reach_refl, lit_targets, lit_to, spec_is_match, spec_run,
    spec_step_set, splits_to, start_set,
};
use crate::nfa::{
    apply_patches, build_fold, build_init, build_step, patch_one, spec_compile, spec_post2nfa,
    BuildState, GFrag, State, StateID, ToPatch,
};
use crate::parser::{
    conv_fold, conv_init, conv_step, rep_byte, spec_re2post, ConvState, DOT, LPAREN, PIPE, PLUS,
    QMARK, RPAREN, STAR,
};

verus! {

/// A byte the converter treats as a plain literal: not an operator, not a
/// group delimiter, not the reserved `.`.
pub open spec fn is_plain_literal(b: u8) -> bool {
    b != LPAREN && b != RPAREN && b != PIPE && b != STAR && b != PLUS && b != QMARK && b != DOT
}

/// In an automaton without fork states, no unlabeled edge exists, so a
/// set's epsilon-closure is the set itself.
proof fn lemma_closure_no_splits(states: Seq<State>, seeds: Set<int>)
    requires
        forall|i: int| 0 <= i < states.len() ==> !((#[trigger] states[i]) is Split),
        forall|a: int| #[trigger] seeds.contains(a) ==> 0 <= a < states.len(),
    ensures
        closure_of(states, seeds) == seeds,
{
    lemma_closure_bounds(states, seeds);
    assert forall|x: int| closure_of(states, seeds).contains(x) implies seeds.contains(x) by {
        let a = choose|a: int| #[trigger] seeds.contains(a) && crate::matcher::eps_reach(
            states,
            a,
            x,
        );
        let p = choose|p: Seq<int>|
            crate::matcher::is_eps_path(states, p) && p.first() == a && p.last() == x;
        if p.len() >= 2 {
            let k0 = 0int;
            assert(splits_to(states, p[k0], p[k0 + 1]));
            assert(false);
        }
    }
    assert(closure_of(states, seeds) =~= seeds);
}

/// Once the live set is empty it stays empty: no state, no transition.
proof fn lemma_run_empty(states: Seq<State>, input: Seq<u8>)
    ensures
        spec_run(states, Set::<int>::empty(), input) == Set::<int>::empty(),
    decreases input.len(),
{
    if input.len() > 0 {
        assert(lit_targets(states, Set::<int>::empty(), input[0]) =~= Set::<int>::empty());
        lemma_closure_empty(states);
        assert(spec_step_set(states, Set::<int>::empty(), input[0]) =~= Set::<int>::empty());
        lemma_run_empty(states, input.drop_first());
    }
}

/// Every byte of `re` is a plain literal.
pub open spec fn all_literals(re: Seq<u8>) -> bool {
    forall|i: int| 0 <= i < re.len() ==> is_plain_literal(#[trigger] re[i])
}

/// The converter's output on the first `i` bytes of a literal-only pattern:
/// the bytes themselves, with a concatenation operator before each byte
/// beyond the second.
pub open spec fn lit_out_prefix(re: Seq<u8>, i: int) -> Seq<u8>
    decreases i,
{
    if i <= 1 {
        re.take(1)
    } else if i == 2 {
        seq![re[0], re[1]]
    } else {
        lit_out_prefix(re, i - 1) + seq![DOT, re[i - 1]]
    }
}

/// The postfix form of a whole literal-only pattern.
pub open spec fn lit_postfix(re: Seq<u8>) -> Seq<u8> {
    if re.len() <= 1 {
        re.take(1)
    } else {
        lit_out_prefix(re, re.len() as int) + seq![DOT]
    }
}

/// The converter's output on a prefix depends on that prefix alone.
proof fn lemma_lit_out_prefix_agree(a: Seq<u8>, b: Seq<u8>, i: int)
    requires
        1 <= i <= a.len(),
        i <= b.len(),
        forall|j: int| 0 <= j < i ==> a[j] == b[j],
    ensures
        lit_out_prefix(a, i) == lit_out_prefix(b, i),
    decreases i,
{
    if i == 1 {
        assert(a.take(1) =~= b.take(1));
    } else if i > 2 {
        lemma_lit_out_prefix_agree(a, b, i - 1);
    }
}

/// Through a literal-only pattern the converter emits `lit_out_prefix` and
/// keeps no open groups and no pending alternations.
proof fn lemma_lit_conv(re: Seq<u8>, i: int)
    requires
        all_literals(re),
        1 <= i <= re.len(),
    ensures
        conv_fold(re, i) == Some(
            ConvState {
                nalt: 0,
                natom: if i == 1 { 1int } else { 2int },
                groups: Seq::empty(),
                out: lit_out_prefix(re, i),
            },
        ),
    decreases i,
{
    if i == 1 {
        assert(is_plain_literal(re[0]));
        let st = conv_step(conv_init(), re[0])->Some_0;
        assert(st.out =~= re.take(1));
        assert(st.groups =~= Seq::<(int, int)>::empty());
    } else {
        lemma_lit_conv(re, i - 1);
        assert(is_plain_literal(re[i - 1]));
        let prev = conv_fold(re, i - 1)->Some_0;
        if i == 2 {
            assert(prev.out.push(re[1]) =~= seq![re[0], re[1]]);
        } else {
            assert(prev.out.push(DOT).push(re[i - 1]) =~= lit_out_prefix(re, i - 1) + seq![
                DOT,
                re[i - 1],
            ]);
        }
    }
}

/// A literal-only pattern converts to its `lit_postfix` form.
proof fn lemma_lit_re2post(re: Seq<u8>)
    requires
        all_literals(re),
        1 <= re.len() < 4000,
    ensures
        spec_re2post(re) == Some(lit_postfix(re)),
{
    lemma_lit_conv(re, re.len() as int);
    let st = conv_fold(re, re.len() as int)->Some_0;
    if re.len() == 1 {
        assert(st.natom == 1 && st.nalt == 0);
        assert(rep_byte(DOT, 0) =~= Seq::<u8>::empty());
        assert(rep_byte(PIPE, 0) =~= Seq::<u8>::empty());
        assert(st.out + rep_byte(DOT, 0) + rep_byte(PIPE, 0) =~= re.take(1));
    } else {
        assert(rep_byte(DOT, 0) =~= Seq::<u8>::empty());
        assert(rep_byte(PIPE, 0) =~= Seq::<u8>::empty());
        assert(rep_byte(DOT, 1) =~= seq![DOT]);
        assert(st.out + rep_byte(DOT, 1) + rep_byte(PIPE, 0) =~= lit_out_prefix(
            re,
            re.len() as int,
        ) + seq![DOT]);
    }
}

/// The chain automaton of a word while still under construction: one
/// literal state per byte, each pointing at the next, the last one still
/// unresolved.
pub open spec fn chain_open(word: Seq<u8>) -> Seq<State> {
    Seq::new(
        word.len(),
        |i: int|
            State::Literal {
                byte: word[i],
                out: if i < word.len() - 1 { (i + 1) as StateID } else { 0 },
            },
    )
}

/// The finished chain automaton of a word: one literal state per byte, each
/// pointing at the next, ending in the accepting state.
pub open spec fn chain_states(word: Seq<u8>) -> Seq<State> {
    Seq::new(
        word.len(),
        |i: int| State::Literal { byte: word[i], out: (i + 1) as StateID },
    ).push(State::Match)
}

/// The builder's state after `i` tokens depends on those tokens alone.
proof fn lemma_build_fold_prefix(p1: Seq<u8>, p2: Seq<u8>, i: int)
    requires
        0 <= i <= p1.len(),
        i <= p2.len(),
        forall|j: int| 0 <= j < i ==> p1[j] == p2[j],
    ensures
        build_fold(p1, i) == build_fold(p2, i),
    decreases i,
{
    if i > 0 {
        lemma_build_fold_prefix(p1, p2, i - 1);
    }
}

/// Over the postfix form of a literal-only pattern the builder grows the
/// open chain, with one fragment left whose sole patch point is the last
/// literal's edge.
proof fn lemma_lit_build(re: Seq<u8>)
    requires
        all_literals(re),
        1 <= re.len() < 4000,
    ensures
        build_fold(lit_postfix(re), lit_postfix(re).len() as int) == Some(
            BuildState {
                states: chain_open(re),
                stack: seq![
                    GFrag { start: 0, out: seq![ToPatch::Out1((re.len() - 1) as StateID)] },
                ],
            },
        ),
    decreases re.len(),
{
    let post = lit_postfix(re);
    if re.len() == 1 {
        assert(post =~= seq![re[0]]);
        assert(build_fold(post, 0) == Some(build_init()));
        assert(is_plain_literal(re[0]));
        let bs = build_step(build_init(), post[0])->Some_0;
        assert(bs.states =~= chain_open(re));
        assert(bs.stack =~= seq![GFrag { start: 0, out: seq![ToPatch::Out1(0)] }]);
    } else {
        let k = re.len() as int;
        let re0 = re.drop_last();
        let post0 = lit_postfix(re0);
        assert(all_literals(re0));
        // the postfix form grows by the new byte and one concatenation
        assert(post =~= post0 + seq![re.last(), DOT]) by {
            if k == 2 {
                assert(lit_out_prefix(re, 2) =~= seq![re[0], re[1]]);
                assert(post0 =~= seq![re[0]]);
            } else {
                lemma_lit_out_prefix_agree(re, re0, k - 1);
            }
        }
        lemma_lit_build(re0);
        let m0 = post0.len() as int;
        lemma_build_fold_prefix(post, post0, m0);
        let bs0 = build_fold(post, m0)->Some_0;
        // the new byte allocates one more literal state
        assert(post[m0] == re.last());
        assert(is_plain_literal(re.last()));
        assert(build_fold(post, m0 + 1) == build_step(bs0, post[m0]));
        let bs1 = build_step(bs0, post[m0])->Some_0;
        assert(bs1.states =~= chain_open(re0).push(
            State::Literal { byte: re.last(), out: 0 },
        ));
        // the concatenation patches the previous chain end into the new state
        assert(post[m0 + 1] == DOT);
        assert(build_fold(post, m0 + 2) == build_step(bs1, post[m0 + 1]));
        let bs2 = build_step(bs1, post[m0 + 1])->Some_0;
        let e1 = bs1.stack[bs1.stack.len() - 2];
        let e2 = bs1.stack.last();
        assert(e1.out =~= seq![ToPatch::Out1((k - 2) as StateID)]);
        assert(e1.out.drop_last() =~= Seq::<ToPatch>::empty());
        assert(apply_patches(bs1.states, e1.out.drop_last(), e2.start) == bs1.states);
        assert(apply_patches(bs1.states, e1.out, e2.start) == patch_one(
            bs1.states,
            ToPatch::Out1((k - 2) as StateID),
            e2.start,
        ));
        assert(bs2.states =~= chain_open(re));
        assert(bs2.stack =~= seq![
            GFrag { start: 0, out: seq![ToPatch::Out1((k - 1) as StateID)] },
        ]);
        assert(m0 + 2 == post.len());
    }
}

/// A literal-only pattern builds exactly its chain automaton, started at
/// its first state.
proof fn lemma_lit_post2nfa(re: Seq<u8>)
    requires
        all_literals(re),
        1 <= re.len() < 4000,
    ensures
        spec_post2nfa(lit_postfix(re)) == Some((chain_states(re), 0 as StateID)),
{
    lemma_lit_build(re);
    let post = lit_postfix(re);
    let bs = build_fold(post, post.len() as int)->Some_0;
    let e = bs.stack[0];
    let grown = bs.states.push(State::Match);
    assert(e.out.drop_last() =~= Seq::<ToPatch>::empty());
    assert(apply_patches(grown, e.out.drop_last(), bs.states.len() as StateID) == grown);
    assert(apply_patches(grown, e.out, bs.states.len() as StateID) == patch_one(
        grown,
        ToPatch::Out1((re.len() - 1) as StateID),
        bs.states.len() as StateID,
    ));
    assert(patch_one(
        grown,
        ToPatch::Out1((re.len() - 1) as StateID),
        bs.states.len() as StateID,
    ) =~= chain_states(re));
}

/// Running the chain automaton from position `j` consumes the input exactly
/// when it spells the rest of the word from `j` on, landing that far along.
proof fn lemma_chain_run(word: Seq<u8>, j: int, input: Seq<u8>)
    requires
        word.len() < 4000,
        0 <= j <= word.len(),
    ensures
        spec_run(chain_states(word), set![j], input) == (
        if j + input.len() <= word.len() && input == word.subrange(j, j + input.len() as int) {
            set![j + input.len() as int]
        } else {
            Set::<int>::empty()
        }),
    decreases input.len(),
{
    let states = chain_states(word);
    assert(forall|i: int| 0 <= i < states.len() ==> !((#[trigger] states[i]) is Split));
    if input.len() == 0 {
        assert(word.subrange(j, j) =~= Seq::<u8>::empty());
        assert(input == word.subrange(j, j));
    } else {
        let c = input[0];
        let rest = input.drop_first();
        assert(spec_run(states, set![j], input) == spec_run(
            states,
            spec_step_set(states, set![j], c),
            rest,
        ));
        if j < word.len() && word[j] == c {
            assert(set![j].contains(j) && lit_to(states, j, c, j + 1));
            assert forall|t: int| lit_targets(states, set![j], c).contains(t) implies t == j
                + 1 by {
                let i = choose|i: int| #[trigger] set![j].contains(i) && lit_to(states, i, c, t);
            }
            assert(lit_targets(states, set![j], c) =~= set![j + 1]);
            lemma_closure_no_splits(states, set![j + 1]);
            assert(spec_step_set(states, set![j], c) == set![j + 1]);
            lemma_chain_run(word, j + 1, rest);
            if j + 1 + rest.len() <= word.len() && rest == word.subrange(
                j + 1,
                j + 1 + rest.len() as int,
            ) {
                let sub = word.subrange(j, j + input.len() as int);
                assert forall|t: int| 0 <= t < input.len() implies input[t] == sub[t] by {
                    if t > 0 {
                        assert(rest[t - 1] == input[t]);
                        assert(rest[t - 1] == word.subrange(
                            j + 1,
                            j + 1 + rest.len() as int,
                        )[t - 1]);
                    }
                }
                assert(input =~= word.subrange(j, j + input.len() as int));
            } else {
                if j + input.len() <= word.len() && input == word.subrange(
                    j,
                    j + input.len() as int,
                ) {
                    assert(rest =~= word.subrange(j + 1, j + 1 + rest.len() as int));
                    assert(false);
                }
            }
        } else {
            assert forall|t: int| !(#[trigger] lit_targets(states, set![j], c).contains(t)) by {
                if lit_targets(states, set![j], c).contains(t) {
                    let i = choose|i: int|
                        #[trigger] set![j].contains(i) && lit_to(states, i, c, t);
                }
            }
            assert(lit_targets(states, set![j], c) =~= Set::<int>::empty());
            lemma_closure_empty(states);
            assert(spec_step_set(states, set![j], c) =~= Set::<int>::empty());
            lemma_run_empty(states, rest);
            if j + input.len() <= word.len() && input == word.subrange(
                j,
                j + input.len() as int,
            ) {
                assert(word.subrange(j, j + input.len() as int)[0] == word[j]);
                assert(false);
            }
        }
    }
}

/// How many fragments a postfix token consumes from the builder's stack.
pub open spec fn tok_min_stack(b: u8) -> int {
    if b == DOT || b == PIPE {
        2
    } else if b == STAR || b == PLUS || b == QMARK {
        1
    } else {
        0
    }
}

/// How a postfix token changes the builder's stack depth: a literal pushes
/// one fragment, a binary operator replaces two by one, a repetition
/// operator replaces one by one.
pub open spec fn tok_delta(b: u8) -> int {
    if b == DOT || b == PIPE {
        -1
    } else if b == STAR || b == PLUS || b == QMARK {
        0
    } else {
        1
    }
}

/// The builder's stack depth after the first `i` tokens, assuming no
/// underflow along the way.
pub open spec fn bal(p: Seq<u8>, i: int) -> int
    decreases i,
{
    if i <= 0 {
        0
    } else {
        bal(p, i - 1) + tok_delta(p[i - 1])
    }
}

/// Every token of the program finds the operands it needs on the stack.
pub open spec fn prefix_valid(p: Seq<u8>) -> bool {
    forall|j: int| 0 <= j < p.len() ==> bal(p, j) >= tok_min_stack(#[trigger] p[j])
}

/// The stack depth after `i` tokens depends on those tokens alone.
proof fn lemma_bal_agree(p1: Seq<u8>, p2: Seq<u8>, i: int)
    requires
        0 <= i <= p1.len(),
        i <= p2.len(),
        forall|j: int| 0 <= j < i ==> p1[j] == p2[j],
    ensures
        bal(p1, i) == bal(p2, i),
    decreases i,
{
    if i > 0 {
        lemma_bal_agree(p1, p2, i - 1);
    }
}

/// A token appended to a valid program keeps it valid when the stack is
/// deep enough for it, and moves the final depth by the token's delta.
proof fn lemma_valid_push(p: Seq<u8>, b: u8)
    requires
        prefix_valid(p),
        bal(p, p.len() as int) >= tok_min_stack(b),
    ensures
        prefix_valid(p.push(b)),
        bal(p.push(b), p.len() as int + 1) == bal(p, p.len() as int) + tok_delta(b),
{
    assert forall|j: int| 0 <= j <= p.len() implies bal(p.push(b), j) == bal(p, j) by {
        lemma_bal_agree(p.push(b), p, j);
    }
    assert forall|j: int| 0 <= j < p.push(b).len() implies bal(p.push(b), j) >= tok_min_stack(
        #[trigger] p.push(b)[j],
    ) by {
        if j < p.len() {
            assert(bal(p, j) >= tok_min_stack(p[j]));
        }
    }
}

/// A run of `k` binary operators appended to a valid program of depth at
/// least `k + 1` keeps it valid and lowers the depth by `k`.
proof fn lemma_valid_append_binop(p: Seq<u8>, b: u8, k: int)
    requires
        b == DOT || b == PIPE,
        0 <= k,
        prefix_valid(p),
        bal(p, p.len() as int) >= k + 1,
    ensures
        prefix_valid(p + rep_byte(b, k)),
        (p + rep_byte(b, k)).len() == p.len() + k,
        bal(p + rep_byte(b, k), p.len() as int + k) == bal(p, p.len() as int) - k,
    decreases k,
{
    if k == 0 {
        assert(p + rep_byte(b, 0) =~= p);
    } else {
        lemma_valid_append_binop(p, b, k - 1);
        let q = p + rep_byte(b, k - 1);
        lemma_valid_push(q, b);
        assert(q.push(b) =~= p + rep_byte(b, k));
    }
}

/// A valid program never underflows the builder's stack, and leaves it
/// exactly `bal` fragments deep.
proof fn lemma_build_succeeds(p: Seq<u8>, i: int)
    requires
        prefix_valid(p),
        0 <= i <= p.len(),
    ensures
        match build_fold(p, i) {
            Some(bs) => bs.stack.len() as int == bal(p, i),
            None => false,
        },
    decreases i,
{
    if i > 0 {
        lemma_build_succeeds(p, i - 1);
        assert(bal(p, i - 1) >= tok_min_stack(p[i - 1]));
    }
}

/// The combined count of pending atoms and alternations saved for the open
/// groups.
pub open spec fn groups_weight(gs: Seq<(int, int)>) -> int
    decreases gs.len(),
{
    if gs.len() == 0 {
        0
    } else {
        groups_weight(gs.drop_last()) + gs.last().0 + gs.last().1
    }
}

proof fn lemma_groups_weight_nonneg(gs: Seq<(int, int)>)
    requires
        forall|k: int| 0 <= k < gs.len() ==> (#[trigger] gs[k]).0 >= 0 && gs[k].1 >= 0,
    ensures
        groups_weight(gs) >= 0,
    decreases gs.len(),
{
    if gs.len() > 0 {
        lemma_groups_weight_nonneg(gs.drop_last());
    }
}

/// What the converter maintains: counters and saved pairs are never
/// negative, the emitted program is valid so far, and its final stack depth
/// is exactly the fragments the counters still account for.
pub open spec fn conv_ok(st: ConvState) -> bool {
    &&& st.natom >= 0
    &&& st.nalt >= 0
    &&& forall|k: int| 0 <= k < st.groups.len() ==> (#[trigger] st.groups[k]).0 >= 0
        && st.groups[k].1 >= 0
    &&& prefix_valid(st.out)
    &&& bal(st.out, st.out.len() as int) == st.natom + st.nalt + groups_weight(st.groups)
}

/// Every state the converter survives to is `conv_ok`, and after at least
/// one byte something is pending: an atom, an alternation, or a group.
proof fn lemma_conv_fold_ok(re: Seq<u8>, i: int)
    requires
        0 <= i <= re.len(),
    ensures
        conv_fold(re, i) matches Some(st) ==> conv_ok(st) && (i >= 1 ==> st.natom >= 1
            || st.nalt >= 1 || st.groups.len() >= 1),
    decreases i,
{
    if i > 0 {
        lemma_conv_fold_ok(re, i - 1);
        if let Some(st) = conv_fold(re, i - 1) {
            let b = re[i - 1];
            if conv_step(st, b) is Some {
                lemma_groups_weight_nonneg(st.groups);
                if b == LPAREN {
                    let natom2 = if st.natom > 1 { st.natom - 1 } else { st.natom };
                    if st.natom > 1 {
                        lemma_valid_push(st.out, DOT);
                    }
                    let gs2 = st.groups.push((st.nalt, natom2));
                    assert(gs2.drop_last() =~= st.groups);
                    assert(groups_weight(gs2) == groups_weight(st.groups) + st.nalt + natom2);
                } else if b == PIPE {
                    lemma_valid_append_binop(st.out, DOT, st.natom - 1);
                } else if b == RPAREN {
                    lemma_valid_append_binop(st.out, DOT, st.natom - 1);
                    lemma_valid_append_binop(
                        st.out + rep_byte(DOT, st.natom - 1),
                        PIPE,
                        st.nalt,
                    );
                    assert(groups_weight(st.groups) == groups_weight(st.groups.drop_last())
                        + st.groups.last().0 + st.groups.last().1);
                    lemma_groups_weight_nonneg(st.groups.drop_last());
                } else if b == STAR || b == PLUS || b == QMARK {
                    lemma_valid_push(st.out, b);
                } else {
                    if st.natom > 1 {
                        lemma_valid_push(st.out, DOT);
                        lemma_valid_push(st.out.push(DOT), b);
                    } else {
                        lemma_valid_push(st.out, b);
                    }
                }
            }
        }
    }
}

/// A converter-validated pattern always builds: the builder's failure is a
/// defensive check that the converter's output can never trigger. On such a
/// program the fragment stack never underflows and exactly one fragment
/// remains at the end.
pub proof fn lemma_validated_pattern_builds(re: Seq<u8>)
    requires
        spec_re2post(re) is Some,
    ensures
        spec_post2nfa(spec_re2post(re)->Some_0) is Some,
        spec_compile(re) is Some,
{
    let st = conv_fold(re, re.len() as int)->Some_0;
    lemma_conv_fold_ok(re, re.len() as int);
    assert(groups_weight(st.groups) == 0);
    assert(st.natom >= 1);
    lemma_valid_append_binop(st.out, DOT, st.natom - 1);
    lemma_valid_append_binop(st.out + rep_byte(DOT, st.natom - 1), PIPE, st.nalt);
    let p = st.out + rep_byte(DOT, st.natom - 1) + rep_byte(PIPE, st.nalt);
    assert(bal(p, p.len() as int) == 1);
    lemma_build_succeeds(p, p.len() as int);
}

/// The language correspondence for the literal/concatenation fragment of
/// the grammar: a pattern made of literal bytes alone always compiles, and
/// the engine accepts exactly that pattern itself, as `spec_is_match` of
/// the compiled automaton over any input.
pub proof fn lemma_literal_pattern_language(re: Seq<u8>, input: Seq<u8>)
    requires
        all_literals(re),
        1 <= re.len() < 4000,
    ensures
        spec_compile(re) is Some,
        spec_is_match(
            spec_compile(re)->Some_0.0,
            spec_compile(re)->Some_0.1 as int,
            input,
        ) == (input == re),
{
    lemma_lit_re2post(re);
    lemma_lit_post2nfa(re);
    let states = chain_states(re);
    assert(spec_compile(re) == Some((states, 0 as StateID)));
    assert(forall|i: int| 0 <= i < states.len() ==> !((#[trigger] states[i]) is Split));
    lemma_closure_no_splits(states, set![0int]);
    assert(start_set(states, 0) == set![0int]);
    lemma_chain_run(re, 0, input);
    let n = input.len() as int;
    if n <= re.len() && input == re.subrange(0, n) {
        let fin = spec_run(states, start_set(states, 0), input);
        assert(fin == set![n]);
        if n == re.len() {
            assert(fin.contains(n) && states[n] is Match);
            assert(spec_is_match(states, 0, input));
            assert(input =~= re);
        } else {
            assert forall|i: int| !(#[trigger] fin.contains(i) && 0 <= i < states.len()
                && states[i] is Match) by {
                if fin.contains(i) {
                    assert(i == n);
                }
            }
            assert(!spec_is_match(states, 0, input));
            assert(input != re);
        }
    } else {
        assert(spec_run(states, start_set(states, 0), input) =~= Set::<int>::empty());
        assert(!spec_is_match(states, 0, input));
        if input == re {
            assert(re.subrange(0, re.len() as int) =~= re);
            assert(false);
        }
    }
}

/// The three-state automaton that a starred byte compiles to: the literal
/// looping back through a fork that also exits to the accepting state.
pub open spec fn star_states(b: u8) -> Seq<State> {
    seq![
        State::Literal { byte: b, out: 1 },
        State::Split { out1: 0, out2: 2 },
        State::Match,
    ]
}

/// A starred byte converts to the postfix program of the byte followed by
/// the repetition operator.
proof fn lemma_star_postfix(b: u8)
    requires
        is_plain_literal(b),
    ensures
        spec_re2post(seq![b, STAR]) == Some(seq![b, STAR]),
{
    let re = seq![b, STAR];
    assert(conv_fold(re, 0) == Some(conv_init()));
    assert(conv_fold(re, 1) == conv_step(conv_init(), b));
    let st1 = conv_step(conv_init(), b)->Some_0;
    assert(st1.out =~= seq![b]);
    assert(conv_fold(re, 2) == conv_step(st1, STAR));
    let st2 = conv_step(st1, STAR)->Some_0;
    assert(st2.out =~= seq![b, STAR]);
    assert(st2.natom == 1 && st2.nalt == 0 && st2.groups.len() == 0);
    assert(rep_byte(DOT, 0) =~= Seq::<u8>::empty());
    assert(rep_byte(PIPE, 0) =~= Seq::<u8>::empty());
    assert(st2.out + rep_byte(DOT, 0) + rep_byte(PIPE, 0) =~= seq![b, STAR]);
}

/// That program builds the star automaton: the repetition patches the
/// literal's edge back onto its own fork, and the final patch points the
/// fork's exit at the accepting state.
proof fn lemma_star_nfa(b: u8)
    requires
        is_plain_literal(b),
    ensures
        spec_post2nfa(seq![b, STAR]) == Some((star_states(b), 1 as StateID)),
{
    let post = seq![b, STAR];
    assert(build_fold(post, 0) == Some(build_init()));
    assert(build_fold(post, 1) == build_step(build_init(), post[0]));
    let bs1 = build_step(build_init(), b)->Some_0;
    assert(bs1.states =~= seq![State::Literal { byte: b, out: 0 }]);
    assert(bs1.stack =~= seq![GFrag { start: 0, out: seq![ToPatch::Out1(0)] }]);
    assert(build_fold(post, 2) == build_step(bs1, post[1]));
    let e = bs1.stack.last();
    let grown = bs1.states.push(State::Split { out1: 0, out2: 0 });
    assert(e.out.drop_last() =~= Seq::<ToPatch>::empty());
    assert(apply_patches(grown, e.out.drop_last(), 1) == grown);
    assert(apply_patches(grown, e.out, 1) == patch_one(grown, ToPatch::Out1(0), 1));
    let bs2 = build_step(bs1, STAR)->Some_0;
    assert(bs2.states =~= seq![
        State::Literal { byte: b, out: 1 },
        State::Split { out1: 0, out2: 0 },
    ]);
    assert(bs2.stack =~= seq![GFrag { start: 1, out: seq![ToPatch::Out2(1)] }]);
    let e2 = bs2.stack[0];
    let grown2 = bs2.states.push(State::Match);
    assert(e2.out.drop_last() =~= Seq::<ToPatch>::empty());
    assert(apply_patches(grown2, e2.out.drop_last(), 2) == grown2);
    assert(apply_patches(grown2, e2.out, 2) == patch_one(grown2, ToPatch::Out2(1), 2));
    assert(patch_one(grown2, ToPatch::Out2(1), 2) =~= star_states(b));
}

/// The start state's closure in the star automaton reaches every state:
/// the fork, the literal it loops through, and the accepting exit.
proof fn lemma_star_closure(b: u8)
    ensures
        closure_of(star_states(b), set![1int]) == set![0int, 1int, 2int],
{
    let states = star_states(b);
    let c = set![0int, 1int, 2int];
    assert forall|x: int, y: int|
        c.contains(x) && #[trigger] splits_to(states, x, y) implies c.contains(y) by {
        assert(x == 0 || x == 1 || x == 2);
    }
    assert(eps_closed(states, c));
    assert(set![1int].subset_of(c));
    lemma_closure_least(states, set![1int], c);
    lemma_reach_refl(states, 1);
    lemma_reach_refl(states, 0);
    lemma_reach_refl(states, 2);
    assert(splits_to(states, 1, 0) && splits_to(states, 1, 2));
    lemma_reach_prepend(states, 1, 0, 0);
    lemma_reach_prepend(states, 1, 2, 2);
    assert(set![1int].contains(1int));
    assert(closure_of(states, set![1int]).contains(0int));
    assert(closure_of(states, set![1int]).contains(1int));
    assert(closure_of(states, set![1int]).contains(2int));
    assert(closure_of(states, set![1int]) =~= c);
}

/// One simulation step of the star automaton: a matching byte keeps every
/// state live, any other byte kills the run.
proof fn lemma_star_step(b: u8, c: u8)
    ensures
        spec_step_set(star_states(b), set![0int, 1int, 2int], c) == (if c == b {
            set![0int, 1int, 2int]
        } else {
            Set::<int>::empty()
        }),
{
    let states = star_states(b);
    let live = set![0int, 1int, 2int];
    if c == b {
        assert(live.contains(0int) && lit_to(states, 0, c, 1));
        assert forall|t: int| lit_targets(states, live, c).contains(t) implies t == 1 by {
            let i = choose|i: int| #[trigger] live.contains(i) && lit_to(states, i, c, t);
            assert(i == 0);
        }
        assert(lit_targets(states, live, c) =~= set![1int]);
        lemma_star_closure(b);
    } else {
        assert forall|t: int| !(#[trigger] lit_targets(states, live, c).contains(t)) by {
            if lit_targets(states, live, c).contains(t) {
                let i = choose|i: int| #[trigger] live.contains(i) && lit_to(states, i, c, t);
                assert(i == 0);
            }
        }
        assert(lit_targets(states, live, c) =~= Set::<int>::empty());
        lemma_closure_empty(states);
        assert(spec_step_set(states, live, c) =~= Set::<int>::empty());
    }
}

/// Running the star automaton keeps every state live exactly as long as
/// every byte read is the starred byte.
proof fn lemma_star_run(b: u8, input: Seq<u8>)
    ensures
        spec_run(star_states(b), set![0int, 1int, 2int], input) == (if (forall|i: int|
            0 <= i < input.len() ==> input[i] == b) {
            set![0int, 1int, 2int]
        } else {
            Set::<int>::empty()
        }),
    decreases input.len(),
{
    let states = star_states(b);
    let live = set![0int, 1int, 2int];
    if input.len() > 0 {
        let c = input[0];
        let rest = input.drop_first();
        lemma_star_step(b, c);
        assert(spec_run(states, live, input) == spec_run(
            states,
            spec_step_set(states, live, c),
            rest,
        ));
        if c == b {
            lemma_star_run(b, rest);
            if forall|i: int| 0 <= i < rest.len() ==> rest[i] == b {
                assert forall|i: int| 0 <= i < input.len() implies input[i] == b by {
                    if i > 0 {
                        assert(rest[i - 1] == input[i]);
                    }
                }
            } else {
                let i = choose|i: int| 0 <= i < rest.len() && rest[i] != b;
                assert(input[i + 1] == rest[i]);
                assert(!(forall|j: int| 0 <= j < input.len() ==> input[j] == b));
            }
        } else {
            lemma_run_empty(states, rest);
            assert(input[0] != b);
        }
    }
}

/// The language correspondence for a starred byte: the pattern of one
/// literal followed by the repetition operator always compiles, and the
/// engine accepts exactly the strings made of that byte alone, the empty
/// string included.
pub proof fn lemma_star_pattern_language(b: u8, input: Seq<u8>)
    requires
        is_plain_literal(b),
    ensures
        spec_compile(seq![b, STAR]) is Some,
        spec_is_match(
            spec_compile(seq![b, STAR])->Some_0.0,
            spec_compile(seq![b, STAR])->Some_0.1 as int,
            input,
        ) == (forall|i: int| 0 <= i < input.len() ==> input[i] == b),
{
    lemma_star_postfix(b);
    lemma_star_nfa(b);
    let states = star_states(b);
    assert(spec_compile(seq![b, STAR]) == Some((states, 1 as StateID)));
    lemma_star_closure(b);
    assert(start_set(states, 1) == set![0int, 1int, 2int]);
    lemma_star_run(b, input);
    if forall|i: int| 0 <= i < input.len() ==> input[i] == b {
        let fin = spec_run(states, start_set(states, 1), input);
        assert(fin.contains(2int) && states[2] is Match);
        assert(spec_is_match(states, 1, input));
    } else {
        assert(spec_run(states, start_set(states, 1), input) =~= Set::<int>::empty());
        assert(!spec_is_match(states, 1, input));
    }
}


/// A byte followed by the one-or-more operator converts to its own postfix
/// form.
proof fn lemma_plus_postfix(b: u8)
    requires
        is_plain_literal(b),
    ensures
        spec_re2post(seq![b, PLUS]) == Some(seq![b, PLUS]),
{
    let re = seq![b, PLUS];
    assert(conv_fold(re, 0) == Some(conv_init()));
    assert(conv_fold(re, 1) == conv_step(conv_init(), b));
    let st1 = conv_step(conv_init(), b)->Some_0;
    assert(st1.out =~= seq![b]);
    assert(conv_fold(re, 2) == conv_step(st1, PLUS));
    let st2 = conv_step(st1, PLUS)->Some_0;
    assert(st2.out =~= seq![b, PLUS]);
    assert(st2.natom == 1 && st2.nalt == 0 && st2.groups.len() == 0);
    assert(rep_byte(DOT, 0) =~= Seq::<u8>::empty());
    assert(rep_byte(PIPE, 0) =~= Seq::<u8>::empty());
    assert(st2.out + rep_byte(DOT, 0) + rep_byte(PIPE, 0) =~= seq![b, PLUS]);
}

/// That program builds the same automaton as the starred byte, but started
/// at the literal: the body must run once before the loop may repeat or
/// exit.
proof fn lemma_plus_nfa(b: u8)
    requires
        is_plain_literal(b),
    ensures
        spec_post2nfa(seq![b, PLUS]) == Some((star_states(b), 0 as StateID)),
{
    let post = seq![b, PLUS];
    assert(build_fold(post, 0) == Some(build_init()));
    assert(build_fold(post, 1) == build_step(build_init(), post[0]));
    let bs1 = build_step(build_init(), b)->Some_0;
    assert(bs1.states =~= seq![State::Literal { byte: b, out: 0 }]);
    assert(bs1.stack =~= seq![GFrag { start: 0, out: seq![ToPatch::Out1(0)] }]);
    assert(build_fold(post, 2) == build_step(bs1, post[1]));
    let e = bs1.stack.last();
    let grown = bs1.states.push(State::Split { out1: 0, out2: 0 });
    assert(e.out.drop_last() =~= Seq::<ToPatch>::empty());
    assert(apply_patches(grown, e.out.drop_last(), 1) == grown);
    assert(apply_patches(grown, e.out, 1) == patch_one(grown, ToPatch::Out1(0), 1));
    let bs2 = build_step(bs1, PLUS)->Some_0;
    assert(bs2.states =~= seq![
        State::Literal { byte: b, out: 1 },
        State::Split { out1: 0, out2: 0 },
    ]);
    assert(bs2.stack =~= seq![GFrag { start: 0, out: seq![ToPatch::Out2(1)] }]);
    let e2 = bs2.stack[0];
    let grown2 = bs2.states.push(State::Match);
    assert(e2.out.drop_last() =~= Seq::<ToPatch>::empty());
    assert(apply_patches(grown2, e2.out.drop_last(), 2) == grown2);
    assert(apply_patches(grown2, e2.out, 2) == patch_one(grown2, ToPatch::Out2(1), 2));
    assert(patch_one(grown2, ToPatch::Out2(1), 2) =~= star_states(b));
}

/// Started at the literal, the closure is the literal alone: no unlabeled
/// edge leaves it.
proof fn lemma_plus_start_closure(b: u8)
    ensures
        closure_of(star_states(b), set![0int]) == set![0int],
{
    let states = star_states(b);
    let c = set![0int];
    assert forall|x: int, y: int|
        c.contains(x) && #[trigger] splits_to(states, x, y) implies c.contains(y) by {
        assert(x == 0);
    }
    assert(eps_closed(states, c));
    assert(set![0int].subset_of(c));
    lemma_closure_least(states, set![0int], c);
    lemma_reach_refl(states, 0);
    assert(set![0int].contains(0int));
    assert(closure_of(states, set![0int]).contains(0int));
    assert(closure_of(states, set![0int]) =~= c);
}

/// The language correspondence for a byte under the one-or-more operator:
/// the pattern always compiles, and the engine accepts exactly the
/// nonempty strings made of that byte alone.
pub proof fn lemma_plus_pattern_language(b: u8, input: Seq<u8>)
    requires
        is_plain_literal(b),
    ensures
        spec_compile(seq![b, PLUS]) is Some,
        spec_is_match(
            spec_compile(seq![b, PLUS])->Some_0.0,
            spec_compile(seq![b, PLUS])->Some_0.1 as int,
            input,
        ) == (input.len() >= 1 && forall|i: int| 0 <= i < input.len() ==> input[i] == b),
{
    lemma_plus_postfix(b);
    lemma_plus_nfa(b);
    let states = star_states(b);
    assert(spec_compile(seq![b, PLUS]) == Some((states, 0 as StateID)));
    lemma_plus_start_closure(b);
    assert(start_set(states, 0) == set![0int]);
    if input.len() == 0 {
        let fin = spec_run(states, start_set(states, 0), input);
        assert(fin == set![0int]);
        assert forall|i: int| !(#[trigger] fin.contains(i) && 0 <= i < states.len()
            && states[i] is Match) by {
            if fin.contains(i) {
                assert(i == 0);
            }
        }
        assert(!spec_is_match(states, 0, input));
    } else {
        let c = input[0];
        let rest = input.drop_first();
        assert(spec_run(states, set![0int], input) == spec_run(
            states,
            spec_step_set(states, set![0int], c),
            rest,
        ));
        if c == b {
            assert(set![0int].contains(0int) && lit_to(states, 0, c, 1));
            assert forall|t: int| lit_targets(states, set![0int], c).contains(t) implies t
                == 1 by {
                let i = choose|i: int|
                    #[trigger] set![0int].contains(i) && lit_to(states, i, c, t);
                assert(i == 0);
            }
            assert(lit_targets(states, set![0int], c) =~= set![1int]);
            lemma_star_closure(b);
            assert(spec_step_set(states, set![0int], c) == set![0int, 1int, 2int]);
            lemma_star_run(b, rest);
            if forall|i: int| 0 <= i < rest.len() ==> rest[i] == b {
                let fin = spec_run(states, start_set(states, 0), input);
                assert(fin.contains(2int) && states[2] is Match);
                assert(spec_is_match(states, 0, input));
                assert forall|i: int| 0 <= i < input.len() implies input[i] == b by {
                    if i > 0 {
                        assert(rest[i - 1] == input[i]);
                    }
                }
            } else {
                let i = choose|i: int| 0 <= i < rest.len() && rest[i] != b;
                assert(input[i + 1] == rest[i]);
                assert(!(forall|j: int| 0 <= j < input.len() ==> input[j] == b));
                assert(spec_run(states, start_set(states, 0), input) =~= Set::<int>::empty());
                assert(!spec_is_match(states, 0, input));
            }
        } else {
            assert forall|t: int| !(#[trigger] lit_targets(states, set![0int], c).contains(
                t,
            )) by {
                if lit_targets(states, set![0int], c).contains(t) {
                    let i = choose|i: int|
                        #[trigger] set![0int].contains(i) && lit_to(states, i, c, t);
                    assert(i == 0);
                }
            }
            assert(lit_targets(states, set![0int], c) =~= Set::<int>::empty());
            lemma_closure_empty(states);
            assert(spec_step_set(states, set![0int], c) =~= Set::<int>::empty());
            lemma_run_empty(states, rest);
            assert(spec_run(states, start_set(states, 0), input) =~= Set::<int>::empty());
            assert(!spec_is_match(states, 0, input));
            assert(input[0] != b);
        }
    }
}


/// The three-state automaton that an optional byte compiles to: a fork that
/// either enters the literal or exits straight to the accepting state.
pub open spec fn qmark_states(b: u8) -> Seq<State> {
    seq![
        State::Literal { byte: b, out: 2 },
        State::Split { out1: 0, out2: 2 },
        State::Match,
    ]
}

/// A byte followed by the zero-or-one operator converts to its own postfix
/// form.
proof fn lemma_qmark_postfix(b: u8)
    requires
        is_plain_literal(b),
    ensures
        spec_re2post(seq![b, QMARK]) == Some(seq![b, QMARK]),
{
    let re = seq![b, QMARK];
    assert(conv_fold(re, 0) == Some(conv_init()));
    assert(conv_fold(re, 1) == conv_step(conv_init(), b));
    let st1 = conv_step(conv_init(), b)->Some_0;
    assert(st1.out =~= seq![b]);
    assert(conv_fold(re, 2) == conv_step(st1, QMARK));
    let st2 = conv_step(st1, QMARK)->Some_0;
    assert(st2.out =~= seq![b, QMARK]);
    assert(st2.natom == 1 && st2.nalt == 0 && st2.groups.len() == 0);
    assert(rep_byte(DOT, 0) =~= Seq::<u8>::empty());
    assert(rep_byte(PIPE, 0) =~= Seq::<u8>::empty());
    assert(st2.out + rep_byte(DOT, 0) + rep_byte(PIPE, 0) =~= seq![b, QMARK]);
}

/// That program builds the optional automaton, started at the fork; both
/// the literal's edge and the fork's exit are patched to the accepting
/// state.
proof fn lemma_qmark_nfa(b: u8)
    requires
        is_plain_literal(b),
    ensures
        spec_post2nfa(seq![b, QMARK]) == Some((qmark_states(b), 1 as StateID)),
{
    let post = seq![b, QMARK];
    assert(build_fold(post, 0) == Some(build_init()));
    assert(build_fold(post, 1) == build_step(build_init(), post[0]));
    let bs1 = build_step(build_init(), b)->Some_0;
    assert(bs1.states =~= seq![State::Literal { byte: b, out: 0 }]);
    assert(bs1.stack =~= seq![GFrag { start: 0, out: seq![ToPatch::Out1(0)] }]);
    assert(build_fold(post, 2) == build_step(bs1, post[1]));
    let bs2 = build_step(bs1, QMARK)->Some_0;
    assert(bs2.states =~= seq![
        State::Literal { byte: b, out: 0 },
        State::Split { out1: 0, out2: 0 },
    ]);
    assert(bs1.stack.last().out.push(ToPatch::Out2(1)) =~= seq![
        ToPatch::Out1(0),
        ToPatch::Out2(1),
    ]);
    assert(bs2.stack =~= seq![
        GFrag { start: 1, out: seq![ToPatch::Out1(0), ToPatch::Out2(1)] },
    ]);
    let e = bs2.stack[0];
    let grown = bs2.states.push(State::Match);
    assert(e.out.drop_last() =~= seq![ToPatch::Out1(0)]);
    assert(e.out.drop_last().drop_last() =~= Seq::<ToPatch>::empty());
    assert(apply_patches(grown, e.out.drop_last().drop_last(), 2) == grown);
    assert(apply_patches(grown, e.out.drop_last(), 2) == patch_one(
        grown,
        ToPatch::Out1(0),
        2,
    ));
    assert(apply_patches(grown, e.out, 2) == patch_one(
        patch_one(grown, ToPatch::Out1(0), 2),
        ToPatch::Out2(1),
        2,
    ));
    assert(patch_one(patch_one(grown, ToPatch::Out1(0), 2), ToPatch::Out2(1), 2)
        =~= qmark_states(b));
}

/// The fork's closure in the optional automaton: itself, the literal, and
/// the accepting exit.
proof fn lemma_qmark_closure(b: u8)
    ensures
        closure_of(qmark_states(b), set![1int]) == set![0int, 1int, 2int],
{
    let states = qmark_states(b);
    let c = set![0int, 1int, 2int];
    assert forall|x: int, y: int|
        c.contains(x) && #[trigger] splits_to(states, x, y) implies c.contains(y) by {
        assert(x == 0 || x == 1 || x == 2);
    }
    assert(eps_closed(states, c));
    assert(set![1int].subset_of(c));
    lemma_closure_least(states, set![1int], c);
    lemma_reach_refl(states, 1);
    lemma_reach_refl(states, 0);
    lemma_reach_refl(states, 2);
    assert(splits_to(states, 1, 0) && splits_to(states, 1, 2));
    lemma_reach_prepend(states, 1, 0, 0);
    lemma_reach_prepend(states, 1, 2, 2);
    assert(set![1int].contains(1int));
    assert(closure_of(states, set![1int]).contains(0int));
    assert(closure_of(states, set![1int]).contains(1int));
    assert(closure_of(states, set![1int]).contains(2int));
    assert(closure_of(states, set![1int]) =~= c);
}

/// The accepting state's closure is itself alone.
proof fn lemma_qmark_accept_closure(b: u8)
    ensures
        closure_of(qmark_states(b), set![2int]) == set![2int],
{
    let states = qmark_states(b);
    let c = set![2int];
    assert forall|x: int, y: int|
        c.contains(x) && #[trigger] splits_to(states, x, y) implies c.contains(y) by {
        assert(x == 2);
    }
    assert(eps_closed(states, c));
    assert(set![2int].subset_of(c));
    lemma_closure_least(states, set![2int], c);
    lemma_reach_refl(states, 2);
    assert(set![2int].contains(2int));
    assert(closure_of(states, set![2int]).contains(2int));
    assert(closure_of(states, set![2int]) =~= c);
}

/// The language correspondence for an optional byte: the pattern always
/// compiles, and the engine accepts exactly the empty string and the
/// one-byte string holding that byte.
pub proof fn lemma_qmark_pattern_language(b: u8, input: Seq<u8>)
    requires
        is_plain_literal(b),
    ensures
        spec_compile(seq![b, QMARK]) is Some,
        spec_is_match(
            spec_compile(seq![b, QMARK])->Some_0.0,
            spec_compile(seq![b, QMARK])->Some_0.1 as int,
            input,
        ) == (input.len() == 0 || input == seq![b]),
{
    lemma_qmark_postfix(b);
    lemma_qmark_nfa(b);
    let states = qmark_states(b);
    assert(spec_compile(seq![b, QMARK]) == Some((states, 1 as StateID)));
    lemma_qmark_closure(b);
    assert(start_set(states, 1) == set![0int, 1int, 2int]);
    let live = set![0int, 1int, 2int];
    if input.len() == 0 {
        let fin = spec_run(states, start_set(states, 1), input);
        assert(fin.contains(2int) && states[2] is Match);
        assert(spec_is_match(states, 1, input));
    } else {
        let c = input[0];
        let rest = input.drop_first();
        assert(spec_run(states, live, input) == spec_run(
            states,
            spec_step_set(states, live, c),
            rest,
        ));
        if c == b {
            assert(live.contains(0int) && lit_to(states, 0, c, 2));
            assert forall|t: int| lit_targets(states, live, c).contains(t) implies t == 2 by {
                let i = choose|i: int| #[trigger] live.contains(i) && lit_to(states, i, c, t);
                assert(i == 0);
            }
            assert(lit_targets(states, live, c) =~= set![2int]);
            lemma_qmark_accept_closure(b);
            assert(spec_step_set(states, live, c) == set![2int]);
            if rest.len() == 0 {
                let fin = spec_run(states, start_set(states, 1), input);
                assert(fin.contains(2int) && states[2] is Match);
                assert(spec_is_match(states, 1, input));
                assert(input =~= seq![b]);
            } else {
                let c2 = rest[0];
                assert(spec_run(states, set![2int], rest) == spec_run(
                    states,
                    spec_step_set(states, set![2int], c2),
                    rest.drop_first(),
                ));
                assert forall|t: int| !(#[trigger] lit_targets(states, set![2int], c2).contains(
                    t,
                )) by {
                    if lit_targets(states, set![2int], c2).contains(t) {
                        let i = choose|i: int|
                            #[trigger] set![2int].contains(i) && lit_to(states, i, c2, t);
                        assert(i == 2);
                    }
                }
                assert(lit_targets(states, set![2int], c2) =~= Set::<int>::empty());
                lemma_closure_empty(states);
                assert(spec_step_set(states, set![2int], c2) =~= Set::<int>::empty());
                lemma_run_empty(states, rest.drop_first());
                assert(spec_run(states, start_set(states, 1), input)
                    =~= Set::<int>::empty());
                assert(!spec_is_match(states, 1, input));
                assert(input.len() >= 2);
                assert(input != seq![b]);
            }
        } else {
            assert forall|t: int| !(#[trigger] lit_targets(states, live, c).contains(t)) by {
                if lit_targets(states, live, c).contains(t) {
                    let i = choose|i: int| #[trigger] live.contains(i) && lit_to(states, i, c, t);
                    assert(i == 0);
                }
            }
            assert(lit_targets(states, live, c) =~= Set::<int>::empty());
            lemma_closure_empty(states);
            assert(spec_step_set(states, live, c) =~= Set::<int>::empty());
            lemma_run_empty(states, rest);
            assert(spec_run(states, start_set(states, 1), input) =~= Set::<int>::empty());
            assert(!spec_is_match(states, 1, input));
            assert(input != seq![b]);
        }
    }
}


/// The four-state automaton that an alternation of two bytes compiles to:
/// a fork into two literals, both leading to the accepting state.
pub open spec fn alt_states(b1: u8, b2: u8) -> Seq<State> {
    seq![
        State::Literal { byte: b1, out: 3 },
        State::Literal { byte: b2, out: 3 },
        State::Split { out1: 0, out2: 1 },
        State::Match,
    ]
}

/// An alternation of two bytes converts to the two bytes followed by the
/// alternation operator.
proof fn lemma_alt_postfix(b1: u8, b2: u8)
    requires
        is_plain_literal(b1),
        is_plain_literal(b2),
    ensures
        spec_re2post(seq![b1, PIPE, b2]) == Some(seq![b1, b2, PIPE]),
{
    let re = seq![b1, PIPE, b2];
    assert(conv_fold(re, 0) == Some(conv_init()));
    assert(conv_fold(re, 1) == conv_step(conv_init(), b1));
    let st1 = conv_step(conv_init(), b1)->Some_0;
    assert(st1.out =~= seq![b1]);
    assert(conv_fold(re, 2) == conv_step(st1, PIPE));
    let st2 = conv_step(st1, PIPE)->Some_0;
    assert(rep_byte(DOT, 0) =~= Seq::<u8>::empty());
    assert(st2.out =~= seq![b1]);
    assert(st2.natom == 0 && st2.nalt == 1 && st2.groups.len() == 0);
    assert(conv_fold(re, 3) == conv_step(st2, b2));
    let st3 = conv_step(st2, b2)->Some_0;
    assert(st3.out =~= seq![b1, b2]);
    assert(st3.natom == 1 && st3.nalt == 1 && st3.groups.len() == 0);
    assert(rep_byte(PIPE, 0) =~= Seq::<u8>::empty());
    assert(rep_byte(PIPE, 1) =~= seq![PIPE]);
    assert(st3.out + rep_byte(DOT, 0) + rep_byte(PIPE, 1) =~= seq![b1, b2, PIPE]);
}

/// That program builds the alternation automaton, started at the fork; the
/// final patch points both literals at the accepting state.
proof fn lemma_alt_nfa(b1: u8, b2: u8)
    requires
        is_plain_literal(b1),
        is_plain_literal(b2),
    ensures
        spec_post2nfa(seq![b1, b2, PIPE]) == Some((alt_states(b1, b2), 2 as StateID)),
{
    let post = seq![b1, b2, PIPE];
    assert(build_fold(post, 0) == Some(build_init()));
    assert(build_fold(post, 1) == build_step(build_init(), post[0]));
    let bs1 = build_step(build_init(), b1)->Some_0;
    assert(bs1.states =~= seq![State::Literal { byte: b1, out: 0 }]);
    assert(bs1.stack =~= seq![GFrag { start: 0, out: seq![ToPatch::Out1(0)] }]);
    assert(build_fold(post, 2) == build_step(bs1, post[1]));
    let bs2 = build_step(bs1, b2)->Some_0;
    assert(bs2.states =~= seq![
        State::Literal { byte: b1, out: 0 },
        State::Literal { byte: b2, out: 0 },
    ]);
    assert(bs2.stack =~= seq![
        GFrag { start: 0, out: seq![ToPatch::Out1(0)] },
        GFrag { start: 1, out: seq![ToPatch::Out1(1)] },
    ]);
    assert(build_fold(post, 3) == build_step(bs2, post[2]));
    let e1 = bs2.stack[bs2.stack.len() - 2];
    let e2 = bs2.stack.last();
    assert(e1.out + e2.out =~= seq![ToPatch::Out1(0), ToPatch::Out1(1)]);
    let bs3 = build_step(bs2, PIPE)->Some_0;
    assert(bs3.states =~= seq![
        State::Literal { byte: b1, out: 0 },
        State::Literal { byte: b2, out: 0 },
        State::Split { out1: 0, out2: 1 },
    ]);
    assert(bs3.stack =~= seq![
        GFrag { start: 2, out: seq![ToPatch::Out1(0), ToPatch::Out1(1)] },
    ]);
    let e = bs3.stack[0];
    let grown = bs3.states.push(State::Match);
    assert(e.out.drop_last() =~= seq![ToPatch::Out1(0)]);
    assert(e.out.drop_last().drop_last() =~= Seq::<ToPatch>::empty());
    assert(apply_patches(grown, e.out.drop_last().drop_last(), 3) == grown);
    assert(apply_patches(grown, e.out.drop_last(), 3) == patch_one(
        grown,
        ToPatch::Out1(0),
        3,
    ));
    assert(apply_patches(grown, e.out, 3) == patch_one(
        patch_one(grown, ToPatch::Out1(0), 3),
        ToPatch::Out1(1),
        3,
    ));
    assert(patch_one(patch_one(grown, ToPatch::Out1(0), 3), ToPatch::Out1(1), 3)
        =~= alt_states(b1, b2));
}

/// The fork's closure in the alternation automaton: itself and both
/// literals.
proof fn lemma_alt_closure(b1: u8, b2: u8)
    ensures
        closure_of(alt_states(b1, b2), set![2int]) == set![0int, 1int, 2int],
{
    let states = alt_states(b1, b2);
    let c = set![0int, 1int, 2int];
    assert forall|x: int, y: int|
        c.contains(x) && #[trigger] splits_to(states, x, y) implies c.contains(y) by {
        assert(x == 0 || x == 1 || x == 2);
    }
    assert(eps_closed(states, c));
    assert(set![2int].subset_of(c));
    lemma_closure_least(states, set![2int], c);
    lemma_reach_refl(states, 2);
    lemma_reach_refl(states, 0);
    lemma_reach_refl(states, 1);
    assert(splits_to(states, 2, 0) && splits_to(states, 2, 1));
    lemma_reach_prepend(states, 2, 0, 0);
    lemma_reach_prepend(states, 2, 1, 1);
    assert(set![2int].contains(2int));
    assert(closure_of(states, set![2int]).contains(0int));
    assert(closure_of(states, set![2int]).contains(1int));
    assert(closure_of(states, set![2int]).contains(2int));
    assert(closure_of(states, set![2int]) =~= c);
}

/// The accepting state's closure in the alternation automaton is itself
/// alone.
proof fn lemma_alt_accept_closure(b1: u8, b2: u8)
    ensures
        closure_of(alt_states(b1, b2), set![3int]) == set![3int],
{
    let states = alt_states(b1, b2);
    let c = set![3int];
    assert forall|x: int, y: int|
        c.contains(x) && #[trigger] splits_to(states, x, y) implies c.contains(y) by {
        assert(x == 3);
    }
    assert(eps_closed(states, c));
    assert(set![3int].subset_of(c));
    lemma_closure_least(states, set![3int], c);
    lemma_reach_refl(states, 3);
    assert(set![3int].contains(3int));
    assert(closure_of(states, set![3int]).contains(3int));
    assert(closure_of(states, set![3int]) =~= c);
}

/// The language correspondence for an alternation of two bytes: the pattern
/// always compiles, and the engine accepts exactly the two one-byte strings
/// of its branches.
pub proof fn lemma_alt_pattern_language(b1: u8, b2: u8, input: Seq<u8>)
    requires
        is_plain_literal(b1),
        is_plain_literal(b2),
    ensures
        spec_compile(seq![b1, PIPE, b2]) is Some,
        spec_is_match(
            spec_compile(seq![b1, PIPE, b2])->Some_0.0,
            spec_compile(seq![b1, PIPE, b2])->Some_0.1 as int,
            input,
        ) == (input == seq![b1] || input == seq![b2]),
{
    lemma_alt_postfix(b1, b2);
    lemma_alt_nfa(b1, b2);
    let states = alt_states(b1, b2);
    assert(spec_compile(seq![b1, PIPE, b2]) == Some((states, 2 as StateID)));
    lemma_alt_closure(b1, b2);
    assert(start_set(states, 2) == set![0int, 1int, 2int]);
    let live = set![0int, 1int, 2int];
    if input.len() == 0 {
        let fin = spec_run(states, start_set(states, 2), input);
        assert forall|i: int| !(#[trigger] fin.contains(i) && 0 <= i < states.len()
            && states[i] is Match) by {
            if fin.contains(i) {
                assert(i == 0 || i == 1 || i == 2);
            }
        }
        assert(!spec_is_match(states, 2, input));
        assert(input != seq![b1] && input != seq![b2]);
    } else {
        let c = input[0];
        let rest = input.drop_first();
        assert(spec_run(states, live, input) == spec_run(
            states,
            spec_step_set(states, live, c),
            rest,
        ));
        if c == b1 || c == b2 {
            if c == b1 {
                assert(live.contains(0int) && lit_to(states, 0, c, 3));
            } else {
                assert(live.contains(1int) && lit_to(states, 1, c, 3));
            }
            assert forall|t: int| lit_targets(states, live, c).contains(t) implies t == 3 by {
                let i = choose|i: int| #[trigger] live.contains(i) && lit_to(states, i, c, t);
                assert(i == 0 || i == 1 || i == 2);
            }
            assert(lit_targets(states, live, c) =~= set![3int]);
            lemma_alt_accept_closure(b1, b2);
            assert(spec_step_set(states, live, c) == set![3int]);
            if rest.len() == 0 {
                let fin = spec_run(states, start_set(states, 2), input);
                assert(fin.contains(3int) && states[3] is Match);
                assert(spec_is_match(states, 2, input));
                if c == b1 {
                    assert(input =~= seq![b1]);
                } else {
                    assert(input =~= seq![b2]);
                }
            } else {
                let c2 = rest[0];
                assert(spec_run(states, set![3int], rest) == spec_run(
                    states,
                    spec_step_set(states, set![3int], c2),
                    rest.drop_first(),
                ));
                assert forall|t: int| !(#[trigger] lit_targets(states, set![3int], c2).contains(
                    t,
                )) by {
                    if lit_targets(states, set![3int], c2).contains(t) {
                        let i = choose|i: int|
                            #[trigger] set![3int].contains(i) && lit_to(states, i, c2, t);
                        assert(i == 3);
                    }
                }
                assert(lit_targets(states, set![3int], c2) =~= Set::<int>::empty());
                lemma_closure_empty(states);
                assert(spec_step_set(states, set![3int], c2) =~= Set::<int>::empty());
                lemma_run_empty(states, rest.drop_first());
                assert(spec_run(states, start_set(states, 2), input)
                    =~= Set::<int>::empty());
                assert(!spec_is_match(states, 2, input));
                assert(input.len() >= 2);
                assert(input != seq![b1] && input != seq![b2]);
            }
        } else {
            assert forall|t: int| !(#[trigger] lit_targets(states, live, c).contains(t)) by {
                if lit_targets(states, live, c).contains(t) {
                    let i = choose|i: int| #[trigger] live.contains(i) && lit_to(states, i, c, t);
                    assert(i == 0 || i == 1 || i == 2);
                }
            }
            assert(lit_targets(states, live, c) =~= Set::<int>::empty());
            lemma_closure_empty(states);
            assert(spec_step_set(states, live, c) =~= Set::<int>::empty());
            lemma_run_empty(states, rest);
            assert(spec_run(states, start_set(states, 2), input) =~= Set::<int>::empty());
            assert(!spec_is_match(states, 2, input));
            assert(input != seq![b1] && input != seq![b2]);
        }
    }
}

} // verus!
