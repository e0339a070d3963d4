use thompson_nfa::matcher::Matcher;
use thompson_nfa::nfa::{Frag, State, ToPatch, NFA};
use thompson_nfa::parser::re2post;

fn compile(pattern: &str) -> Matcher {
    let post = re2post(pattern.as_bytes()).expect("pattern should convert");
    let nfa = NFA::post2nfa(&post).expect("postfix should build");
    Matcher::new(nfa)
}

fn matches(pattern: &str, haystack: &str) -> bool {
    compile(pattern).is_match(haystack.as_bytes())
}

#[test]
fn single_literal_language() {
    // a one-byte pattern accepts exactly that one-byte string
    assert!(matches("a", "a"));
    assert!(!matches("a", ""));
    assert!(!matches("a", "b"));
    assert!(!matches("a", "aa"));
}

#[test]
fn literal_full_string_semantics() {
    assert!(matches("abc", "abc"));
    assert!(!matches("abc", "ab"));
    assert!(!matches("abc", "abcd"));
    assert!(!matches("abc", ""));
}

#[test]
fn alternation() {
    assert!(matches("a|b", "a"));
    assert!(matches("a|b", "b"));
    assert!(!matches("a|b", "ab"));
    assert!(!matches("a|b", ""));
}

#[test]
fn star() {
    assert!(matches("a*", ""));
    assert!(matches("a*", "aaaa"));
    assert!(!matches("a*", "b"));
}

#[test]
fn plus() {
    assert!(matches("a+", "a"));
    assert!(matches("a+", "aaa"));
    assert!(!matches("a+", ""));
}

#[test]
fn group_plus() {
    assert!(matches("(ab)+", "ababab"));
    assert!(matches("(ab)+", "ab"));
    assert!(!matches("(ab)+", "aba"));
    assert!(!matches("(ab)+", ""));
}

#[test]
fn question_mark() {
    assert!(matches("a?b", "b"));
    assert!(matches("a?b", "ab"));
    assert!(!matches("a?b", "aab"));
}

#[test]
fn concatenation_of_groups() {
    assert!(matches("a(b|c)*d", "ad"));
    assert!(matches("a(b|c)*d", "abcbd"));
    assert!(!matches("a(b|c)*d", "abc"));
}

#[test]
fn nested_stars_terminate() {
    // cyclic transition graphs from nested repetition must not hang
    assert!(matches("(a*)*", ""));
    assert!(matches("(a*)*", "aaaa"));
    assert!(!matches("(a*)*", "ab"));
    assert!(matches("(a+)+", "aaa"));
    assert!(!matches("(a+)+", ""));
    assert!(matches("((a*)*b)*", "aababb"));
}

#[test]
fn matcher_is_reusable() {
    let mut m = compile("(ab)*c");
    assert!(m.is_match(b"c"));
    assert!(m.is_match(b"ababc"));
    assert!(!m.is_match(b"abc_"));
    assert!(m.is_match(b"abc"));
    assert!(!m.is_match(b""));
}

#[test]
fn rejection_set() {
    assert!(re2post(b"").is_none());
    assert!(re2post(b"a|").is_none());
    assert!(re2post(b"(a|)").is_none());
    assert!(re2post(b"a||b").is_none());
    assert!(re2post(b"(").is_none());
    assert!(re2post(b")").is_none());
    assert!(re2post(b"*").is_none());
    assert!(re2post(b"|a").is_none());
    assert!(re2post(b"a.b").is_none());
    assert!(re2post(b".").is_none());
}

#[test]
fn rejection_length_bound() {
    let long = vec![b'a'; 4000];
    assert!(re2post(&long).is_none());
    let ok = vec![b'a'; 3999];
    assert!(re2post(&ok).is_some());
}

#[test]
fn rejection_nesting_bound() {
    // 99 open groups is the deepest accepted nesting; 100 is rejected
    let mut deep = Vec::new();
    for _ in 0..99 {
        deep.push(b'(');
    }
    deep.push(b'a');
    for _ in 0..99 {
        deep.push(b')');
    }
    assert!(re2post(&deep).is_some());

    let mut too_deep = Vec::new();
    for _ in 0..100 {
        too_deep.push(b'(');
    }
    too_deep.push(b'a');
    for _ in 0..100 {
        too_deep.push(b')');
    }
    assert!(re2post(&too_deep).is_none());
}

#[test]
fn postfix_exact_outputs() {
    assert_eq!(re2post(b"ab").unwrap(), b"ab.".to_vec());
    assert_eq!(re2post(b"a|b").unwrap(), b"ab|".to_vec());
    assert_eq!(re2post(b"a(b|c)*d").unwrap(), b"abc|*.d.".to_vec());
    assert_eq!(re2post(b"a?b").unwrap(), b"a?b.".to_vec());
    assert_eq!(re2post(b"(ab)+").unwrap(), b"ab.+".to_vec());
}

#[test]
fn built_automaton_shape() {
    // "ab" becomes postfix "ab.": literal a, literal b, accepting state
    let post = re2post(b"ab").unwrap();
    let nfa = NFA::post2nfa(&post).unwrap();
    assert_eq!(nfa.start, 0);
    assert_eq!(
        nfa.states,
        vec![
            State::Literal { byte: b'a', out: 1 },
            State::Literal { byte: b'b', out: 2 },
            State::Match,
        ]
    );
}

#[test]
fn builder_rejects_malformed_postfix() {
    // not produced by the converter, but the builder must fail cleanly:
    // missing operands, or leftover fragments
    assert!(NFA::post2nfa(b"").is_none());
    assert!(NFA::post2nfa(b".").is_none());
    assert!(NFA::post2nfa(b"a.").is_none());
    assert!(NFA::post2nfa(b"*").is_none());
    assert!(NFA::post2nfa(b"|").is_none());
    assert!(NFA::post2nfa(b"ab").is_none());
    assert!(NFA::post2nfa(b"ab.").is_some());
}

#[test]
fn compilation_is_deterministic() {
    for pattern in ["abc", "a(b|c)*d", "(a?b+)|c*", "((a|b)(c|d))+"] {
        let p1 = re2post(pattern.as_bytes()).unwrap();
        let p2 = re2post(pattern.as_bytes()).unwrap();
        assert_eq!(p1, p2);
        let n1 = NFA::post2nfa(&p1).unwrap();
        let n2 = NFA::post2nfa(&p2).unwrap();
        assert_eq!(n1.states.len(), n2.states.len());
        assert_eq!(n1.start, n2.start);
        assert_eq!(n1.states, n2.states);
    }
}

#[test]
fn manual_simulation_steps() {
    let post = re2post(b"ab").unwrap();
    let nfa = NFA::post2nfa(&post).unwrap();
    let mut m = Matcher::new(nfa);
    m.start();
    // after start, the current list holds the start state alone
    assert_eq!(m.clist.n, 1);
    assert_eq!(m.clist.s[0], 0);
    m.step(b'a');
    std::mem::swap(&mut m.clist, &mut m.nlist);
    assert_eq!(m.clist.n, 1);
    assert_eq!(m.clist.s[0], 1);
    m.step(b'b');
    std::mem::swap(&mut m.clist, &mut m.nlist);
    assert_eq!(m.clist.n, 1);
    assert_eq!(m.clist.s[0], 2); // the accepting state is live
}

#[test]
fn add_state_expands_forks_and_deduplicates() {
    // "a|b" starts at a fork: inserting it stores both literal targets,
    // never the fork itself, and a second insert changes nothing
    let post = re2post(b"a|b").unwrap();
    let nfa = NFA::post2nfa(&post).unwrap();
    let mut m = Matcher::new(nfa);
    let start = m.nfa.start;
    m.nlist.n = 0;
    m.increment_list_id();
    m.add_state_to_next(start);
    assert_eq!(m.nlist.n, 2);
    m.add_state_to_next(start);
    assert_eq!(m.nlist.n, 2);
}

#[test]
fn increment_resets_on_exhaustion() {
    let post = re2post(b"a").unwrap();
    let nfa = NFA::post2nfa(&post).unwrap();
    let mut m = Matcher::new(nfa);
    m.increment_list_id();
    assert_eq!(m.list_id, 1);
    m.list_id = u32::MAX;
    m.increment_list_id();
    assert_eq!(m.list_id, 1);
    for stamp in m.last_list_id.iter() {
        assert_eq!(*stamp, 0);
    }
}

#[test]
fn patch_rewrites_named_edges() {
    let mut nfa = NFA {
        start: 0,
        states: vec![
            State::Literal { byte: b'x', out: 0 },
            State::Split { out1: 0, out2: 0 },
        ],
    };
    let frag = Frag::new(0, vec![ToPatch::Out1(0), ToPatch::Out2(1)]);
    nfa.patch(&frag.out, 1);
    assert_eq!(nfa.states[0], State::Literal { byte: b'x', out: 1 });
    assert_eq!(nfa.states[1], State::Split { out1: 0, out2: 1 });
}

#[test]
fn alloc_state_appends_to_the_arena() {
    let mut nfa = NFA { start: 0, states: Vec::new() };
    let a = nfa.alloc_state(State::Literal { byte: b'q', out: 0 });
    let b = nfa.alloc_state(State::Match);
    assert_eq!((a, b), (0, 1));
    assert_eq!(nfa.states.len(), 2);
}

#[test]
fn generation_counter_exhaustion_reset() {
    // Drive the generation counter to its last values so that match calls
    // cross the exhaustion-and-reset boundary; verdicts must be unaffected.
    let mut m = compile("(ab)+|c");
    let before = [
        m.is_match(b"ab"),
        m.is_match(b"abab"),
        m.is_match(b"c"),
        m.is_match(b"abc"),
        m.is_match(b""),
    ];
    m.list_id = u32::MAX - 3;
    let after = [
        m.is_match(b"ab"),
        m.is_match(b"abab"),
        m.is_match(b"c"),
        m.is_match(b"abc"),
        m.is_match(b""),
    ];
    assert_eq!(before, after);
    assert_eq!(before, [true, true, true, false, false]);
    // and the counter indeed wrapped through its reset
    assert!(m.list_id < u32::MAX - 3);
}

#[test]
fn empty_haystack_matches_iff_closure_holds_accept() {
    assert!(matches("a*", ""));
    assert!(matches("a?", ""));
    assert!(matches("a*b*", ""));
    assert!(!matches("a", ""));
    assert!(!matches("a+", ""));
}
