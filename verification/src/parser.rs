//! Postfix converter: rewrites an infix pattern into postfix notation,
//! inserting `.` as an explicit concatenation operator.
//!
//! The converter walks the pattern left to right keeping two counters —
//! `nalt`, the number of pending alternations, and `natom`, the number of
//! pending concatenable atoms — plus a stack of saved counter pairs for
//! nested groups. Its exact behaviour is captured by `spec_re2post`.

use vstd::prelude::*;

verus! {

/// Longest accepted pattern, exclusive: patterns of 4000 bytes or more are
/// rejected, since postfix expansion can roughly double a pattern's length.
pub const MAX_PATTERN_LEN: usize = 4000;

/// Deepest accepted group nesting: a `(` that would bring the nesting depth
/// to 100 is rejected.
pub const MAX_GROUP_DEPTH: usize = 99;

/// The operator and literal bytes the converter treats specially.
pub const LPAREN: u8 = 40;

pub const RPAREN: u8 = 41;

pub const STAR: u8 = 42;

pub const PLUS: u8 = 43;

pub const DOT: u8 = 46;

pub const QMARK: u8 = 63;

pub const PIPE: u8 = 124;

/// A sequence of `k` copies of the byte `b` (empty when `k <= 0`).
pub open spec fn rep_byte(b: u8, k: int) -> Seq<u8>
    decreases k,
{
    if k <= 0 {
        Seq::empty()
    } else {
        rep_byte(b, k - 1).push(b)
    }
}

/// The converter's running state: pending alternations, pending atoms,
/// saved counter pairs for open groups, and the postfix output so far.
pub ghost struct ConvState {
    pub nalt: int,
    pub natom: int,
    pub groups: Seq<(int, int)>,
    pub out: Seq<u8>,
}

/// The converter's initial state.
pub open spec fn conv_init() -> ConvState {
    ConvState { nalt: 0, natom: 0, groups: Seq::empty(), out: Seq::empty() }
}

/// One step of the converter on the next pattern byte; `None` is a syntax
/// error.
pub open spec fn conv_step(st: ConvState, b: u8) -> Option<ConvState> {
    if b == LPAREN {
        if st.groups.len() >= MAX_GROUP_DEPTH {
            None
        } else {
            let out2 = if st.natom > 1 { st.out.push(DOT) } else { st.out };
            let natom2 = if st.natom > 1 { st.natom - 1 } else { st.natom };
            Some(ConvState {
                nalt: 0,
                natom: 0,
                groups: st.groups.push((st.nalt, natom2)),
                out: out2,
            })
        }
    } else if b == PIPE {
        if st.natom == 0 {
            None
        } else {
            Some(ConvState {
                nalt: st.nalt + 1,
                natom: 0,
                groups: st.groups,
                out: st.out + rep_byte(DOT, st.natom - 1),
            })
        }
    } else if b == RPAREN {
        if st.groups.len() == 0 || st.natom == 0 {
            None
        } else {
            Some(ConvState {
                nalt: st.groups.last().0,
                natom: st.groups.last().1 + 1,
                groups: st.groups.drop_last(),
                out: st.out + rep_byte(DOT, st.natom - 1) + rep_byte(PIPE, st.nalt),
            })
        }
    } else if b == STAR || b == PLUS || b == QMARK {
        if st.natom == 0 {
            None
        } else {
            Some(ConvState { nalt: st.nalt, natom: st.natom, groups: st.groups, out: st.out.push(b) })
        }
    } else if b == DOT {
        None
    } else {
        let out2 = if st.natom > 1 { st.out.push(DOT) } else { st.out };
        let natom2 = if st.natom > 1 { st.natom - 1 } else { st.natom };
        Some(ConvState {
            nalt: st.nalt,
            natom: natom2 + 1,
            groups: st.groups,
            out: out2.push(b),
        })
    }
}

/// The converter's state after the first `i` bytes of `re`, or `None` if a
/// syntax error was found among them.
pub open spec fn conv_fold(re: Seq<u8>, i: int) -> Option<ConvState>
    decreases i,
{
    if i <= 0 {
        Some(conv_init())
    } else {
        match conv_fold(re, i - 1) {
            None => None,
            Some(st) => conv_step(st, re[i - 1]),
        }
    }
}

/// What `re2post` computes: the postfix form of `re`, or `None` for a
/// syntax error (empty or oversized pattern, a literal `.`, malformed
/// grouping, dangling operators, excessive nesting, trailing alternation).
pub open spec fn spec_re2post(re: Seq<u8>) -> Option<Seq<u8>> {
    if re.len() == 0 || re.len() >= MAX_PATTERN_LEN {
        None
    } else {
        match conv_fold(re, re.len() as int) {
            None => None,
            Some(st) => if st.groups.len() > 0 {
                None
            } else if st.natom == 0 && st.nalt > 0 {
                None
            } else {
                Some(st.out + rep_byte(DOT, st.natom - 1) + rep_byte(PIPE, st.nalt))
            },
        }
    }
}

/// Once the converter has failed on a prefix, it has failed on every longer
/// prefix as well.
proof fn lemma_fold_none_persists(re: Seq<u8>, i: int, j: int)
    requires
        0 <= i <= j,
        conv_fold(re, i) is None,
    ensures
        conv_fold(re, j) is None,
    decreases j - i,
{
    if j > i {
        lemma_fold_none_persists(re, i, j - 1);
    }
}

/// The empty pattern and any pattern of `MAX_PATTERN_LEN` bytes or more are
/// rejected.
pub proof fn lemma_size_rejected(re: Seq<u8>)
    requires
        re.len() == 0 || re.len() >= MAX_PATTERN_LEN,
    ensures
        spec_re2post(re) is None,
{
}

/// Any pattern holding a literal `.` is rejected: that byte is reserved as
/// the internal concatenation operator.
pub proof fn lemma_dot_rejected(re: Seq<u8>)
    requires
        exists|i: int| 0 <= i < re.len() && re[i] == DOT,
    ensures
        spec_re2post(re) is None,
{
    if 0 < re.len() < MAX_PATTERN_LEN {
        let i = choose|i: int| 0 <= i < re.len() && re[i] == DOT;
        if conv_fold(re, i) is Some {
            assert(conv_fold(re, i + 1) is None);
            lemma_fold_none_persists(re, i + 1, re.len() as int);
        } else {
            lemma_fold_none_persists(re, i, re.len() as int);
        }
    }
}

/// The number of groups opened and not yet closed within the first `i`
/// bytes of the pattern.
pub open spec fn group_depth(re: Seq<u8>, i: int) -> int
    decreases i,
{
    if i <= 0 {
        0
    } else {
        group_depth(re, i - 1) + if re[i - 1] == LPAREN {
            1
        } else if re[i - 1] == RPAREN {
            -1
        } else {
            0
        }
    }
}

/// While the converter survives, its group stack is exactly as deep as the
/// pattern's open groups so far.
proof fn lemma_fold_depth(re: Seq<u8>, i: int)
    requires
        0 <= i <= re.len(),
    ensures
        conv_fold(re, i) matches Some(st) ==> st.groups.len() == group_depth(re, i),
    decreases i,
{
    if i > 0 {
        lemma_fold_depth(re, i - 1);
    }
}

/// The converter has failed by the time any prefix nests groups deeper than
/// the bound.
proof fn lemma_depth_rejected_at(re: Seq<u8>, i: int)
    requires
        0 <= i <= re.len(),
        group_depth(re, i) > MAX_GROUP_DEPTH,
    ensures
        conv_fold(re, i) is None,
    decreases i,
{
    if i > 0 {
        if group_depth(re, i - 1) > MAX_GROUP_DEPTH {
            lemma_depth_rejected_at(re, i - 1);
        } else {
            lemma_fold_depth(re, i - 1);
        }
    }
}

/// Any pattern that at some point nests groups deeper than the bound is
/// rejected.
pub proof fn lemma_nesting_rejected(re: Seq<u8>)
    requires
        exists|i: int| 0 <= i <= re.len() && group_depth(re, i) > MAX_GROUP_DEPTH,
    ensures
        spec_re2post(re) is None,
{
    if 0 < re.len() < MAX_PATTERN_LEN {
        let i = choose|i: int| 0 <= i <= re.len() && group_depth(re, i) > MAX_GROUP_DEPTH;
        lemma_depth_rejected_at(re, i);
        lemma_fold_none_persists(re, i, re.len() as int);
    }
}

/// Push `count` copies of `b` onto `dst` (none when `count <= 0`).
fn push_repeat(dst: &mut Vec<u8>, b: u8, count: i32)
    ensures
        final(dst)@ == old(dst)@ + rep_byte(b, count as int),
{
    let ghost base = dst@;
    let ghost total = count as int;
    proof {
        assert(base + rep_byte(b, 0) =~= base);
    }
    let mut k = count;
    while k > 0
        invariant
            total <= 0 ==> k == total,
            total > 0 ==> 0 <= k <= total,
            dst@ == base + rep_byte(b, total - k),
        decreases k,
    {
        proof {
            assert((base + rep_byte(b, total - k)).push(b) =~= base + rep_byte(b, total - k + 1));
        }
        dst.push(b);
        k -= 1;
    }
}

/// The saved counter pairs of the group stack, as mathematical integers.
pub open spec fn groups_view(paren: Seq<(i32, i32)>) -> Seq<(int, int)> {
    paren.map_values(|p: (i32, i32)| (p.0 as int, p.1 as int))
}

/// Convert the infix pattern `re` to postfix notation, inserting `.` as an
/// explicit concatenation operator. Returns `None` exactly for the patterns
/// that `spec_re2post` rejects.
pub fn re2post(re: &[u8]) -> (r: Option<Vec<u8>>)
    ensures
        match r {
            Some(v) => spec_re2post(re@) == Some(v@),
            None => spec_re2post(re@) is None,
        },
{
    if re.len() == 0 {
        return None;
    }
    if re.len() >= MAX_PATTERN_LEN {
        return None;
    }
    let mut nalt: i32 = 0;
    let mut natom: i32 = 0;
    let mut paren: Vec<(i32, i32)> = Vec::new();
    let mut dst: Vec<u8> = Vec::new();
    let mut i: usize = 0;
    proof {
        assert(groups_view(paren@) =~= Seq::<(int, int)>::empty());
    }
    while i < re.len()
        invariant
            0 <= i <= re.len(),
            re.len() < MAX_PATTERN_LEN,
            0 <= nalt <= i,
            0 <= natom <= i,
            forall|j: int|
                0 <= j < paren@.len() ==> 0 <= (#[trigger] paren@[j]).0 <= i && 0 <= paren@[j].1
                    <= i,
            conv_fold(re@, i as int) == Some(
                ConvState {
                    nalt: nalt as int,
                    natom: natom as int,
                    groups: groups_view(paren@),
                    out: dst@,
                },
            ),
        decreases re.len() - i,
    {
        let ghost pre = ConvState {
            nalt: nalt as int,
            natom: natom as int,
            groups: groups_view(paren@),
            out: dst@,
        };
        let byte = re[i];
        match byte {
            LPAREN => {
                if paren.len() >= MAX_GROUP_DEPTH {
                    proof {
                        lemma_fold_none_persists(re@, i as int + 1, re@.len() as int);
                    }
                    return None;
                }
                if natom > 1 {
                    natom -= 1;
                    dst.push(DOT);
                }
                paren.push((nalt, natom));
                proof {
                    assert(groups_view(paren@) =~= pre.groups.push((nalt as int, natom as int)));
                }
                nalt = 0;
                natom = 0;
            },
            PIPE => {
                if natom == 0 {
                    proof {
                        lemma_fold_none_persists(re@, i as int + 1, re@.len() as int);
                    }
                    return None;
                }
                push_repeat(&mut dst, DOT, natom - 1);
                natom = 0;
                nalt += 1;
            },
            RPAREN => {
                if paren.len() == 0 {
                    proof {
                        lemma_fold_none_persists(re@, i as int + 1, re@.len() as int);
                    }
                    return None;
                }
                if natom == 0 {
                    proof {
                        lemma_fold_none_persists(re@, i as int + 1, re@.len() as int);
                    }
                    return None;
                }
                push_repeat(&mut dst, DOT, natom - 1);
                push_repeat(&mut dst, PIPE, nalt);
                let p = paren.pop().unwrap();
                proof {
                    assert(groups_view(paren@) =~= pre.groups.drop_last());
                    assert(pre.groups.last() == (p.0 as int, p.1 as int));
                }
                nalt = p.0;
                natom = p.1 + 1;
            },
            STAR | PLUS | QMARK => {
                if natom == 0 {
                    proof {
                        lemma_fold_none_persists(re@, i as int + 1, re@.len() as int);
                    }
                    return None;
                }
                dst.push(byte);
            },
            DOT => {
                proof {
                    lemma_fold_none_persists(re@, i as int + 1, re@.len() as int);
                }
                return None;
            },
            _ => {
                if natom > 1 {
                    natom -= 1;
                    dst.push(DOT);
                }
                dst.push(byte);
                natom += 1;
            },
        }
        i += 1;
    }
    if paren.len() > 0 {
        return None;
    }
    if natom == 0 && nalt > 0 {
        return None;
    }
    push_repeat(&mut dst, DOT, natom - 1);
    push_repeat(&mut dst, PIPE, nalt);
    Some(dst)
}

} // verus!
