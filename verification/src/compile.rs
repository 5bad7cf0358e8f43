use vstd::prelude::*;

use crate::regexp::{inst_ok, nsub_upto, prog_wf, spec_nsub, Inst, Prog, Regexp};

verus! {

/// Number of instructions a node compiles to.
pub open spec fn inst_count(r: Regexp) -> nat
    decreases r,
{
    match r {
        Regexp::Alt(l, rr) => 2 + inst_count(*l) + inst_count(*rr),
        Regexp::Cat(l, rr) => inst_count(*l) + inst_count(*rr),
        Regexp::Lit(_) => 1,
        Regexp::Dot => 1,
        Regexp::Paren(_, inner) => 2 + inst_count(*inner),
        Regexp::Quest(_, inner) => 1 + inst_count(*inner),
        Regexp::Star(_, inner) => 2 + inst_count(*inner),
        Regexp::Plus(_, inner) => 1 + inst_count(*inner),
    }
}

/// Every group id leaves room for its two capture slots in a `usize`.
pub open spec fn groups_ok(r: Regexp) -> bool
    decreases r,
{
    match r {
        Regexp::Alt(l, rr) => groups_ok(*l) && groups_ok(*rr),
        Regexp::Cat(l, rr) => groups_ok(*l) && groups_ok(*rr),
        Regexp::Lit(_) => true,
        Regexp::Dot => true,
        Regexp::Paren(n, inner) => n <= (usize::MAX - 2) / 2 && groups_ok(*inner),
        Regexp::Quest(_, inner) => groups_ok(*inner),
        Regexp::Star(_, inner) => groups_ok(*inner),
        Regexp::Plus(_, inner) => groups_ok(*inner),
    }
}

/// The instructions a node compiles to when placed at position `pc`:
/// the single-pass emission with all branch targets already patched.
///
/// The greedy flag decides `Split` operand order: the preferred
/// alternative comes first, so a greedy repetition tries its body
/// before the skip and a non-greedy one the other way around.
pub open spec fn emit(r: Regexp, pc: nat) -> Seq<Inst>
    decreases r,
{
    match r {
        Regexp::Alt(l, rr) => {
            let cl = inst_count(*l);
            let cr = inst_count(*rr);
            seq![Inst::Split((pc + 1) as usize, (pc + 2 + cl) as usize)] + emit(*l, pc + 1)
                + seq![Inst::Jmp((pc + 2 + cl + cr) as usize)] + emit(*rr, pc + 2 + cl)
        },
        Regexp::Cat(l, rr) => emit(*l, pc) + emit(*rr, pc + inst_count(*l)),
        Regexp::Lit(c) => seq![Inst::Char(c)],
        Regexp::Dot => seq![Inst::Any],
        Regexp::Paren(n, inner) => seq![Inst::Save((2 * n) as usize)] + emit(*inner, pc + 1)
            + seq![Inst::Save((2 * n + 1) as usize)],
        Regexp::Quest(greedy, inner) => {
            let ci = inst_count(*inner);
            let split = if greedy {
                Inst::Split((pc + 1) as usize, (pc + 1 + ci) as usize)
            } else {
                Inst::Split((pc + 1 + ci) as usize, (pc + 1) as usize)
            };
            seq![split] + emit(*inner, pc + 1)
        },
        Regexp::Star(greedy, inner) => {
            let ci = inst_count(*inner);
            let split = if greedy {
                Inst::Split((pc + 1) as usize, (pc + 2 + ci) as usize)
            } else {
                Inst::Split((pc + 2 + ci) as usize, (pc + 1) as usize)
            };
            seq![split] + emit(*inner, pc + 1) + seq![Inst::Jmp(pc as usize)]
        },
        Regexp::Plus(greedy, inner) => {
            let ci = inst_count(*inner);
            let split = if greedy {
                Inst::Split(pc as usize, (pc + 1 + ci) as usize)
            } else {
                Inst::Split((pc + 1 + ci) as usize, pc as usize)
            };
            emit(*inner, pc) + seq![split]
        },
    }
}

/// What the compiler produces for a whole pattern: the node's code at
/// position 0 with the terminal `Match` appended.
pub open spec fn spec_compile(r: Regexp) -> Seq<Inst> {
    emit(r, 0).push(Inst::Match)
}

/// A node's code is exactly as long as `inst_count` says.
pub proof fn lemma_emit_len(r: Regexp, pc: nat)
    ensures
        emit(r, pc).len() == inst_count(r),
    decreases r,
{
    match r {
        Regexp::Alt(l, rr) => {
            lemma_emit_len(*l, pc + 1);
            lemma_emit_len(*rr, pc + 2 + inst_count(*l));
        },
        Regexp::Cat(l, rr) => {
            lemma_emit_len(*l, pc);
            lemma_emit_len(*rr, pc + inst_count(*l));
        },
        Regexp::Lit(_) => {},
        Regexp::Dot => {},
        Regexp::Paren(_, inner) => {
            lemma_emit_len(*inner, pc + 1);
        },
        Regexp::Quest(_, inner) => {
            lemma_emit_len(*inner, pc + 1);
        },
        Regexp::Star(_, inner) => {
            lemma_emit_len(*inner, pc + 1);
        },
        Regexp::Plus(_, inner) => {
            lemma_emit_len(*inner, pc);
        },
    }
}

/// Inside a program of final length `n` that still has room after the
/// node's code, every emitted instruction is in bounds at its absolute
/// position.
pub proof fn lemma_emit_wf(r: Regexp, pc: nat, n: nat)
    requires
        pc + inst_count(r) < n,
        n <= usize::MAX,
        groups_ok(r),
    ensures
        forall|j: int| 0 <= j < emit(r, pc).len() ==> inst_ok(
            #[trigger] emit(r, pc)[j],
            pc + j,
            n as int,
        ),
    decreases r,
{
    lemma_emit_len(r, pc);
    match r {
        Regexp::Alt(l, rr) => {
            let cl = inst_count(*l);
            let cr = inst_count(*rr);
            lemma_emit_len(*l, pc + 1);
            lemma_emit_len(*rr, pc + 2 + cl);
            lemma_emit_wf(*l, pc + 1, n);
            lemma_emit_wf(*rr, pc + 2 + cl, n);
            let e = emit(r, pc);
            assert forall|j: int| 0 <= j < e.len() implies inst_ok(#[trigger] e[j], pc + j, n as int) by {
                if j == 0 {
                    assert(e[j] == Inst::Split((pc + 1) as usize, (pc + 2 + cl) as usize));
                } else if j <= cl {
                    assert(e[j] == emit(*l, pc + 1)[j - 1]);
                } else if j == cl + 1 {
                    assert(e[j] == Inst::Jmp((pc + 2 + cl + cr) as usize));
                } else {
                    assert(e[j] == emit(*rr, pc + 2 + cl)[j - (cl + 2)]);
                }
            };
        },
        Regexp::Cat(l, rr) => {
            let cl = inst_count(*l);
            lemma_emit_len(*l, pc);
            lemma_emit_len(*rr, pc + cl);
            lemma_emit_wf(*l, pc, n);
            lemma_emit_wf(*rr, pc + cl, n);
            let e = emit(r, pc);
            assert forall|j: int| 0 <= j < e.len() implies inst_ok(#[trigger] e[j], pc + j, n as int) by {
                if j < cl {
                    assert(e[j] == emit(*l, pc)[j]);
                } else {
                    assert(e[j] == emit(*rr, pc + cl)[j - cl]);
                }
            };
        },
        Regexp::Lit(_) => {},
        Regexp::Dot => {},
        Regexp::Paren(g, inner) => {
            let ci = inst_count(*inner);
            lemma_emit_len(*inner, pc + 1);
            lemma_emit_wf(*inner, pc + 1, n);
            let e = emit(r, pc);
            assert forall|j: int| 0 <= j < e.len() implies inst_ok(#[trigger] e[j], pc + j, n as int) by {
                if j == 0 {
                    assert(e[j] == Inst::Save((2 * g) as usize));
                } else if j <= ci {
                    assert(e[j] == emit(*inner, pc + 1)[j - 1]);
                } else {
                    assert(e[j] == Inst::Save((2 * g + 1) as usize));
                }
            };
        },
        Regexp::Quest(greedy, inner) => {
            let ci = inst_count(*inner);
            lemma_emit_len(*inner, pc + 1);
            lemma_emit_wf(*inner, pc + 1, n);
            let e = emit(r, pc);
            assert forall|j: int| 0 <= j < e.len() implies inst_ok(#[trigger] e[j], pc + j, n as int) by {
                if j >= 1 {
                    assert(e[j] == emit(*inner, pc + 1)[j - 1]);
                }
            };
        },
        Regexp::Star(greedy, inner) => {
            let ci = inst_count(*inner);
            lemma_emit_len(*inner, pc + 1);
            lemma_emit_wf(*inner, pc + 1, n);
            let e = emit(r, pc);
            assert forall|j: int| 0 <= j < e.len() implies inst_ok(#[trigger] e[j], pc + j, n as int) by {
                if j == 0 {
                } else if j <= ci {
                    assert(e[j] == emit(*inner, pc + 1)[j - 1]);
                } else {
                    assert(e[j] == Inst::Jmp(pc as usize));
                }
            };
        },
        Regexp::Plus(greedy, inner) => {
            let ci = inst_count(*inner);
            lemma_emit_len(*inner, pc);
            lemma_emit_wf(*inner, pc, n);
            let e = emit(r, pc);
            assert forall|j: int| 0 <= j < e.len() implies inst_ok(#[trigger] e[j], pc + j, n as int) by {
                if j < ci {
                    assert(e[j] == emit(*inner, pc)[j]);
                }
            };
        },
    }
}


/// Capture slots a tree needs: for each group, both slots `2n` and
/// `2n + 1`, so two per group counted from the greatest id downward.
pub open spec fn tree_nsub(r: Regexp) -> nat
    decreases r,
{
    match r {
        Regexp::Alt(l, rr) => if tree_nsub(*l) > tree_nsub(*rr) {
            tree_nsub(*l)
        } else {
            tree_nsub(*rr)
        },
        Regexp::Cat(l, rr) => if tree_nsub(*l) > tree_nsub(*rr) {
            tree_nsub(*l)
        } else {
            tree_nsub(*rr)
        },
        Regexp::Lit(_) => 0,
        Regexp::Dot => 0,
        Regexp::Paren(n, inner) => if 2 * (n as nat) + 2 > tree_nsub(*inner) {
            2 * (n as nat) + 2
        } else {
            tree_nsub(*inner)
        },
        Regexp::Quest(_, inner) => tree_nsub(*inner),
        Regexp::Star(_, inner) => tree_nsub(*inner),
        Regexp::Plus(_, inner) => tree_nsub(*inner),
    }
}

/// The slot count of a prefix depends only on that prefix.
proof fn lemma_nsub_prefix(e1: Seq<Inst>, e2: Seq<Inst>, i: int)
    requires
        i <= e1.len(),
        i <= e2.len(),
        forall|j: int| 0 <= j < i ==> e1[j] == e2[j],
    ensures
        nsub_upto(e1, i) == nsub_upto(e2, i),
    decreases i,
{
    if i > 0 {
        lemma_nsub_prefix(e1, e2, i - 1);
    }
}

/// The slot count of two blocks laid end to end is the larger of the
/// two blocks' counts.
proof fn lemma_nsub_concat(a: Seq<Inst>, b: Seq<Inst>)
    ensures
        nsub_upto(a + b, a.len() + b.len() as int) == if nsub_upto(a, a.len() as int) > nsub_upto(
            b,
            b.len() as int,
        ) {
            nsub_upto(a, a.len() as int)
        } else {
            nsub_upto(b, b.len() as int)
        },
    decreases b.len(),
{
    if b.len() == 0 {
        assert(a + b =~= a);
        assert(nsub_upto(b, 0) == 0);
        assert(nsub_upto(a + b, a.len() + b.len() as int) == nsub_upto(a, a.len() as int));
    } else {
        let b2 = b.drop_last();
        lemma_nsub_concat(a, b2);
        assert((a + b).len() == a.len() + b.len());
        assert((a + b)[a.len() + b.len() - 1] == b.last());
        assert forall|j: int| 0 <= j < a.len() + b2.len() implies (a + b)[j] == (a + b2)[j] by {
            if j < a.len() {
            } else {
                assert((a + b)[j] == b[j - a.len()]);
                assert((a + b2)[j] == b2[j - a.len()]);
            }
        };
        lemma_nsub_prefix(a + b, a + b2, a.len() + b2.len() as int);
        assert(nsub_upto(a + b, a.len() + b2.len() as int) == nsub_upto(
            a + b2,
            a.len() + b2.len() as int,
        ));
        assert forall|j: int| 0 <= j < b2.len() implies b[j] == b2[j] by {};
        lemma_nsub_prefix(b, b2, b2.len() as int);
        assert(nsub_upto(b, b2.len() as int) == nsub_upto(b2, b2.len() as int));
        assert(b[b.len() - 1] == b.last());
    }
}

/// The slot count of a one-instruction block.
proof fn lemma_nsub_single(x: Inst)
    ensures
        nsub_upto(seq![x], 1) == match x {
            Inst::Save(n) => (n + 1) as nat,
            _ => 0nat,
        },
{
    let e = seq![x];
    assert(nsub_upto(e, 0) == 0);
    assert(e[0] == x);
}

/// A node's code uses exactly the slots its groups name: the greatest
/// `Save` slot plus one equals `tree_nsub`.
proof fn lemma_emit_nsub(r: Regexp, pc: nat)
    requires
        groups_ok(r),
    ensures
        nsub_upto(emit(r, pc), emit(r, pc).len() as int) == tree_nsub(r),
    decreases r,
{
    lemma_emit_len(r, pc);
    match r {
        Regexp::Alt(l, rr) => {
            let cl = inst_count(*l);
            let cr = inst_count(*rr);
            let sa = seq![Inst::Split((pc + 1) as usize, (pc + 2 + cl) as usize)];
            let el = emit(*l, pc + 1);
            let sj = seq![Inst::Jmp((pc + 2 + cl + cr) as usize)];
            let er = emit(*rr, pc + 2 + cl);
            lemma_emit_len(*l, pc + 1);
            lemma_emit_len(*rr, pc + 2 + cl);
            lemma_emit_nsub(*l, pc + 1);
            lemma_emit_nsub(*rr, pc + 2 + cl);
            lemma_nsub_single(sa[0]);
            lemma_nsub_single(sj[0]);
            assert(sa =~= seq![sa[0]]);
            assert(sj =~= seq![sj[0]]);
            lemma_nsub_concat(sa, el);
            lemma_nsub_concat(sa + el, sj);
            lemma_nsub_concat(sa + el + sj, er);
            assert(emit(r, pc) == sa + el + sj + er);
            assert(nsub_upto(emit(r, pc), emit(r, pc).len() as int) == tree_nsub(r));
        },
        Regexp::Cat(l, rr) => {
            lemma_emit_len(*l, pc);
            lemma_emit_len(*rr, pc + inst_count(*l));
            lemma_emit_nsub(*l, pc);
            lemma_emit_nsub(*rr, pc + inst_count(*l));
            lemma_nsub_concat(emit(*l, pc), emit(*rr, pc + inst_count(*l)));
            assert(emit(r, pc) == emit(*l, pc) + emit(*rr, pc + inst_count(*l)));
            assert(nsub_upto(emit(r, pc), emit(r, pc).len() as int) == tree_nsub(r));
        },
        Regexp::Lit(_) => {
            assert(nsub_upto(emit(r, pc), 0) == 0);
        },
        Regexp::Dot => {
            assert(nsub_upto(emit(r, pc), 0) == 0);
        },
        Regexp::Paren(g, inner) => {
            let sa = seq![Inst::Save((2 * g) as usize)];
            let ei = emit(*inner, pc + 1);
            let sb = seq![Inst::Save((2 * g + 1) as usize)];
            lemma_emit_len(*inner, pc + 1);
            lemma_emit_nsub(*inner, pc + 1);
            lemma_nsub_single(sa[0]);
            lemma_nsub_single(sb[0]);
            assert(sa =~= seq![sa[0]]);
            assert(sb =~= seq![sb[0]]);
            lemma_nsub_concat(sa, ei);
            lemma_nsub_concat(sa + ei, sb);
            assert(emit(r, pc) == sa + ei + sb);
            assert(nsub_upto(emit(r, pc), emit(r, pc).len() as int) == tree_nsub(r));
        },
        Regexp::Quest(greedy, inner) => {
            let ci = inst_count(*inner);
            let sa = seq![
                if greedy {
                    Inst::Split((pc + 1) as usize, (pc + 1 + ci) as usize)
                } else {
                    Inst::Split((pc + 1 + ci) as usize, (pc + 1) as usize)
                },
            ];
            lemma_emit_len(*inner, pc + 1);
            lemma_emit_nsub(*inner, pc + 1);
            lemma_nsub_single(sa[0]);
            assert(sa =~= seq![sa[0]]);
            lemma_nsub_concat(sa, emit(*inner, pc + 1));
            assert(emit(r, pc) == sa + emit(*inner, pc + 1));
            assert(nsub_upto(emit(r, pc), emit(r, pc).len() as int) == tree_nsub(r));
        },
        Regexp::Star(greedy, inner) => {
            let ci = inst_count(*inner);
            let sa = seq![
                if greedy {
                    Inst::Split((pc + 1) as usize, (pc + 2 + ci) as usize)
                } else {
                    Inst::Split((pc + 2 + ci) as usize, (pc + 1) as usize)
                },
            ];
            let sj = seq![Inst::Jmp(pc as usize)];
            lemma_emit_len(*inner, pc + 1);
            lemma_emit_nsub(*inner, pc + 1);
            lemma_nsub_single(sa[0]);
            lemma_nsub_single(sj[0]);
            assert(sa =~= seq![sa[0]]);
            assert(sj =~= seq![sj[0]]);
            lemma_nsub_concat(sa, emit(*inner, pc + 1));
            lemma_nsub_concat(sa + emit(*inner, pc + 1), sj);
            assert(emit(r, pc) == sa + emit(*inner, pc + 1) + sj);
            assert(nsub_upto(emit(r, pc), emit(r, pc).len() as int) == tree_nsub(r));
        },
        Regexp::Plus(greedy, inner) => {
            let ci = inst_count(*inner);
            let sb = seq![
                if greedy {
                    Inst::Split(pc as usize, (pc + 1 + ci) as usize)
                } else {
                    Inst::Split((pc + 1 + ci) as usize, pc as usize)
                },
            ];
            lemma_emit_len(*inner, pc);
            lemma_emit_nsub(*inner, pc);
            lemma_nsub_single(sb[0]);
            assert(sb =~= seq![sb[0]]);
            lemma_nsub_concat(emit(*inner, pc), sb);
            assert(emit(r, pc) == emit(*inner, pc) + sb);
            assert(nsub_upto(emit(r, pc), emit(r, pc).len() as int) == tree_nsub(r));
        },
    }
}

/// A compiled program's slot count is `tree_nsub` of its tree: two
/// slots per capture group, counted from the greatest group id.  In
/// particular it is always even.
pub proof fn lemma_compile_nsub(r: Regexp)
    requires
        groups_ok(r),
    ensures
        spec_nsub(spec_compile(r)) == tree_nsub(r),
        spec_nsub(spec_compile(r)) % 2 == 0,
{
    lemma_emit_len(r, 0);
    lemma_emit_nsub(r, 0);
    let e = emit(r, 0);
    let m = seq![Inst::Match];
    lemma_nsub_single(Inst::Match);
    lemma_nsub_concat(e, m);
    assert(spec_compile(r) =~= e + m);
    lemma_tree_nsub_even(r);
}

/// Two slots per group: the slot count of any tree is even.
proof fn lemma_tree_nsub_even(r: Regexp)
    ensures
        tree_nsub(r) % 2 == 0,
    decreases r,
{
    match r {
        Regexp::Alt(l, rr) => {
            lemma_tree_nsub_even(*l);
            lemma_tree_nsub_even(*rr);
        },
        Regexp::Cat(l, rr) => {
            lemma_tree_nsub_even(*l);
            lemma_tree_nsub_even(*rr);
        },
        Regexp::Lit(_) => {},
        Regexp::Dot => {},
        Regexp::Paren(_, inner) => {
            lemma_tree_nsub_even(*inner);
        },
        Regexp::Quest(_, inner) => {
            lemma_tree_nsub_even(*inner);
        },
        Regexp::Star(_, inner) => {
            lemma_tree_nsub_even(*inner);
        },
        Regexp::Plus(_, inner) => {
            lemma_tree_nsub_even(*inner);
        },
    }
}

/// Compilation is a function of the syntax tree alone: two programs
/// compiled from equal trees are byte-for-byte the same instruction
/// sequence.
pub proof fn lemma_compile_deterministic(a: Regexp, b: Regexp)
    requires
        a == b,
    ensures
        spec_compile(a) == spec_compile(b),
{
}

impl Regexp {
    /// Compile the pattern into a program: the node's code followed by
    /// the terminal `Match`.  The result is exactly `spec_compile` of
    /// the tree — compilation is deterministic and cannot fail — and
    /// the program is well formed.
    pub fn compile(&self) -> (prog: Prog)
        requires
            inst_count(*self) + 1 <= usize::MAX,
            groups_ok(*self),
        ensures
            prog@ == spec_compile(*self),
            prog_wf(prog@),
            spec_nsub(prog@) == tree_nsub(*self),
            spec_nsub(prog@) % 2 == 0,
    {
        let n = self.count_insts();
        let mut b = ProgBuilder { insts: Vec::with_capacity(n + 1) };
        b.push_regexp(self);
        b.insts.push(Inst::Match);
        proof {
            lemma_emit_len(*self, 0);
            lemma_emit_wf(*self, 0, (inst_count(*self) + 1) as nat);
            assert(b.insts@ =~= spec_compile(*self));
            assert forall|i: int| 0 <= i < b.insts@.len() implies inst_ok(
                #[trigger] b.insts@[i],
                i,
                b.insts@.len() as int,
            ) by {
                if i < b.insts@.len() - 1 {
                    assert(b.insts@[i] == emit(*self, 0)[i]);
                }
            };
            assert(prog_wf(b.insts@));
        }
        let prog = Prog { insts: b.insts };
        proof {
            crate::regexp::lemma_prog_view(prog);
            lemma_compile_nsub(*self);
        }
        prog
    }


    /// Number of instructions this pattern compiles to, or `None`
    /// where that count does not fit a `usize`; the exact guard a
    /// caller needs before `compile`.
    pub fn checked_count(&self) -> (n: Option<usize>)
        ensures
            n matches Some(k) ==> k as nat == inst_count(*self),
            n is None ==> inst_count(*self) > usize::MAX,
        decreases *self,
    {
        match self {
            Regexp::Alt(left, right) => add3_checked((&**left).checked_count(), (&**right).checked_count(), 2),
            Regexp::Cat(left, right) => add3_checked((&**left).checked_count(), (&**right).checked_count(), 0),
            Regexp::Lit(_) => Some(1),
            Regexp::Dot => Some(1),
            Regexp::Paren(_, inner) => add3_checked((&**inner).checked_count(), Some(0), 2),
            Regexp::Quest(_, inner) => add3_checked((&**inner).checked_count(), Some(0), 1),
            Regexp::Star(_, inner) => add3_checked((&**inner).checked_count(), Some(0), 2),
            Regexp::Plus(_, inner) => add3_checked((&**inner).checked_count(), Some(0), 1),
        }
    }

    /// Whether every group id leaves room for its two capture slots;
    /// the other guard a caller needs before `compile`.
    pub fn check_groups(&self) -> (b: bool)
        ensures
            b == groups_ok(*self),
        decreases *self,
    {
        match self {
            Regexp::Alt(left, right) => (&**left).check_groups() && (&**right).check_groups(),
            Regexp::Cat(left, right) => (&**left).check_groups() && (&**right).check_groups(),
            Regexp::Lit(_) => true,
            Regexp::Dot => true,
            Regexp::Paren(n, inner) => *n <= (usize::MAX - 2) / 2 && (&**inner).check_groups(),
            Regexp::Quest(_, inner) => (&**inner).check_groups(),
            Regexp::Star(_, inner) => (&**inner).check_groups(),
            Regexp::Plus(_, inner) => (&**inner).check_groups(),
        }
    }

    /// Number of instructions this pattern compiles to, precomputed to
    /// size the output buffer in one allocation.
    fn count_insts(&self) -> (n: usize)
        requires
            inst_count(*self) <= usize::MAX,
        ensures
            n as nat == inst_count(*self),
        decreases *self,
    {
        match self {
            Regexp::Alt(left, right) => 2 + (&**left).count_insts() + (&**right).count_insts(),
            Regexp::Cat(left, right) => (&**left).count_insts() + (&**right).count_insts(),
            Regexp::Lit(_) => 1,
            Regexp::Dot => 1,
            Regexp::Paren(_, inner) => 2 + (&**inner).count_insts(),
            Regexp::Quest(_, inner) => 1 + (&**inner).count_insts(),
            Regexp::Star(_, inner) => 2 + (&**inner).count_insts(),
            Regexp::Plus(_, inner) => 1 + (&**inner).count_insts(),
        }
    }
}


/// Saturating-style sum of two optional counts and a constant: `Some`
/// exactly when the whole sum fits a `usize`.
fn add3_checked(a: Option<usize>, b: Option<usize>, c: usize) -> (n: Option<usize>)
    ensures
        ({
            let total = (match a {
                Some(x) => x as int,
                None => usize::MAX as int + 1,
            }) + (match b {
                Some(x) => x as int,
                None => usize::MAX as int + 1,
            }) + c;
            match n {
                Some(k) => k == total,
                None => total > usize::MAX,
            }
        }),
{
    match (a, b) {
        (Some(x), Some(y)) => {
            if x <= usize::MAX - c && y <= usize::MAX - c - x {
                Some(x + y + c)
            } else {
                None
            }
        },
        _ => None,
    }
}

/// Growing instruction buffer the compiler emits into; branch targets
/// are backpatched by index once operand extents are known.
struct ProgBuilder {
    insts: Vec<Inst>,
}

impl ProgBuilder {
    /// Emit the code for `r` at the current end of the buffer and
    /// return its starting position.
    fn push_regexp(&mut self, r: &Regexp) -> (pc: usize)
        requires
            groups_ok(*r),
            old(self).insts@.len() + inst_count(*r) + 1 <= usize::MAX,
        ensures
            pc == old(self).insts@.len(),
            final(self).insts@ == old(self).insts@ + emit(*r, old(self).insts@.len() as nat),
        decreases *r,
    {
        proof {
            lemma_emit_len(*r, old(self).insts@.len() as nat);
        }
        let pc = self.insts.len();
        match r {
            Regexp::Alt(left, right) => {
                proof {
                    lemma_emit_len(**left, (pc + 1) as nat);
                    lemma_emit_len(**right, (pc + 2 + inst_count(**left)) as nat);
                }
                let split = self.push_split_placeholder();
                let x = self.push_regexp(&**left);
                let jmp = self.push_split_placeholder();
                let y = self.push_regexp(&**right);
                let end = self.insts.len();
                self.insts.set(split, Inst::Split(x, y));
                self.insts.set(jmp, Inst::Jmp(end));
                proof {
                    assert(self.insts@ =~= old(self).insts@ + emit(*r, pc as nat));
                }
            },
            Regexp::Cat(left, right) => {
                proof {
                    lemma_emit_len(**left, pc as nat);
                    lemma_emit_len(**right, (pc + inst_count(**left)) as nat);
                }
                self.push_regexp(&**left);
                self.push_regexp(&**right);
                proof {
                    assert(self.insts@ =~= old(self).insts@ + emit(*r, pc as nat));
                }
            },
            Regexp::Lit(ch) => {
                self.insts.push(Inst::Char(*ch));
                proof {
                    assert(self.insts@ =~= old(self).insts@ + emit(*r, pc as nat));
                }
            },
            Regexp::Dot => {
                self.insts.push(Inst::Any);
                proof {
                    assert(self.insts@ =~= old(self).insts@ + emit(*r, pc as nat));
                }
            },
            Regexp::Paren(n, inner) => {
                proof {
                    lemma_emit_len(**inner, (pc + 1) as nat);
                }
                self.insts.push(Inst::Save(2 * n));
                self.push_regexp(&**inner);
                self.insts.push(Inst::Save(2 * n + 1));
                proof {
                    assert(self.insts@ =~= old(self).insts@ + emit(*r, pc as nat));
                }
            },
            Regexp::Quest(greedy, inner) => {
                proof {
                    lemma_emit_len(**inner, (pc + 1) as nat);
                }
                let split = self.push_split_placeholder();
                let x = self.push_regexp(&**inner);
                let end = self.insts.len();
                self.insts.set(split, if *greedy {
                    Inst::Split(x, end)
                } else {
                    Inst::Split(end, x)
                });
                proof {
                    assert(self.insts@ =~= old(self).insts@ + emit(*r, pc as nat));
                }
            },
            Regexp::Star(greedy, inner) => {
                proof {
                    lemma_emit_len(**inner, (pc + 1) as nat);
                }
                let split = self.push_split_placeholder();
                let x = self.push_regexp(&**inner);
                self.insts.push(Inst::Jmp(split));
                let end = self.insts.len();
                self.insts.set(split, if *greedy {
                    Inst::Split(x, end)
                } else {
                    Inst::Split(end, x)
                });
                proof {
                    assert(self.insts@ =~= old(self).insts@ + emit(*r, pc as nat));
                }
            },
            Regexp::Plus(greedy, inner) => {
                proof {
                    lemma_emit_len(**inner, pc as nat);
                }
                let x = self.push_regexp(&**inner);
                let after = self.insts.len() + 1;
                self.insts.push(if *greedy {
                    Inst::Split(x, after)
                } else {
                    Inst::Split(after, x)
                });
                proof {
                    assert(self.insts@ =~= old(self).insts@ + emit(*r, pc as nat));
                }
            },
        }
        pc
    }

    /// Emit a placeholder branch to be patched once the operand
    /// extents are known, and return its position.
    fn push_split_placeholder(&mut self) -> (pc: usize)
        ensures
            pc == old(self).insts@.len(),
            final(self).insts@ == old(self).insts@.push(Inst::Split(usize::MAX, usize::MAX)),
    {
        let pc = self.insts.len();
        self.insts.push(Inst::Split(usize::MAX, usize::MAX));
        pc
    }
}

} // verus!
