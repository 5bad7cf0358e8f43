use vstd::prelude::*;

use crate::recursive::Outcome;
use crate::regexp::{init_caps, Inst, Sub, VM};
use crate::semantics::{
    bt_reaches, bt_stack_run, lemma_bt_stack_run_sound, lemma_frames_single, reaches_stack,
    BtFrame, BtOut,
};

verus! {

/// Cap on the number of simultaneously deferred alternatives of the
/// explicit-stack engine.  Exceeding it is resource exhaustion, never
/// a wrong answer.
pub const MAX_THREADS: usize = 1000;

/// Cap on the total number of instructions the explicit-stack engine
/// processes in one search, the second half of its resource bound.
pub const MAX_STEPS: usize = 1000000;

/// A deferred alternative: where to resume, at which input offset,
/// and with which capture snapshot.
struct Thread {
    pc: usize,
    offset: usize,
    sub: Sub,
}

impl Thread {
    /// The alternative this thread stands for, as the search semantics
    /// see it.
    spec fn frame(self) -> BtFrame {
        BtFrame { pc: self.pc as int, off: self.offset as int, sub: self.sub@ }
    }
}

/// The deferred alternatives of a thread stack, most recent last.
spec fn frames_of(ts: Seq<Thread>) -> Seq<BtFrame> {
    ts.map_values(|t: Thread| t.frame())
}

impl VM {
    /// Backtracking matcher with an explicit last-in-first-out stack
    /// of deferred alternatives in place of the call stack.  Starts at
    /// pc 0 with a fresh capture store sized like `sub_out`; on a match
    /// `sub_out` receives the winning alternative's captures, otherwise
    /// it is untouched.  The answer in all three cases is exactly the
    /// budgeted stack search `bt_stack_run` over this engine's two
    /// resource caps — in particular `Exhausted` comes when and only
    /// when that search hits a budget.  A definite answer is also the
    /// answer of the depth-bounded search at some depth, so this
    /// engine agrees with the recursive engines wherever both decide;
    /// an `Exhausted` abort is never a wrong match.
    pub fn match_backtrack(&mut self, sub_out: &mut Sub) -> (r: Outcome)
        ensures
            final(self).insts@ == old(self).insts@,
            final(self).s@ == old(self).s@,
            final(sub_out)@.len() == old(sub_out)@.len(),
            ({
                let insts = old(self).insts@;
                let s = old(self).s@;
                let init = init_caps(old(sub_out)@.len());
                let off = old(self).offset as int;
                let run = bt_stack_run(
                    insts,
                    s,
                    seq![(BtFrame { pc: 0, off: off, sub: init })],
                    MAX_STEPS as nat,
                    MAX_THREADS as nat,
                );
                match r {
                    Outcome::Matched => run == BtOut::Found(final(sub_out)@) && bt_reaches(
                        insts,
                        s,
                        0,
                        off,
                        init,
                        BtOut::Found(final(sub_out)@),
                    ),
                    Outcome::NoMatch => run == BtOut::NotFound && bt_reaches(
                        insts,
                        s,
                        0,
                        off,
                        init,
                        BtOut::NotFound,
                    ) && final(sub_out)@ == old(sub_out)@,
                    Outcome::Exhausted => run == BtOut::Spent && final(sub_out)@ == old(sub_out)@,
                }
            }),
    {
        let ghost insts0 = self.insts@;
        let ghost s0 = self.s@;
        let ghost off0 = self.offset as int;
        let ghost n0 = sub_out@.len();
        let ghost init0 = init_caps(n0);
        let ghost f0 = BtFrame { pc: 0, off: off0, sub: init0 };
        let ghost run0 = bt_stack_run(insts0, s0, seq![f0], MAX_STEPS as nat, MAX_THREADS as nat);
        let mut ready: Vec<Thread> = Vec::new();
        let t0 = Thread { pc: 0, offset: self.offset, sub: Sub::new(sub_out.len()) };
        proof {
            assert(t0.frame() == f0);
        }
        ready.push(t0);
        proof {
            assert(frames_of(ready@) =~= seq![f0]);
        }
        let mut steps: usize = MAX_STEPS;
        #[verifier::loop_isolation(false)]
        loop
            invariant
                self.insts@ == insts0,
                self.s@ == s0,
                sub_out@ == old(sub_out)@,
                ready@.len() <= MAX_THREADS,
                forall|i: int| 0 <= i < ready@.len() ==> (#[trigger] ready@[i]).sub@.len() == n0,
                bt_stack_run(insts0, s0, frames_of(ready@), steps as nat, MAX_THREADS as nat)
                    == run0,
            decreases steps,
        {
            if steps == 0 {
                return Outcome::Exhausted;
            }
            let ghost pre = frames_of(ready@);
            let ghost steps_pre = steps as nat;
            steps = steps - 1;
            let t = match ready.pop() {
                Some(t) => t,
                None => {
                    proof {
                        reaches_from_run(insts0, s0, f0, off0, init0, BtOut::NotFound);
                    }
                    return Outcome::NoMatch;
                },
            };
            let ghost rest = frames_of(ready@);
            let ghost tf = t.frame();
            proof {
                assert(pre =~= rest.push(tf));
                assert(pre.last() == tf);
                assert(pre.drop_last() =~= rest);
            }
            if t.pc >= self.insts.len() {
                proof {
                    assert(bt_stack_run(insts0, s0, pre, steps_pre, MAX_THREADS as nat)
                        == bt_stack_run(insts0, s0, rest, steps as nat, MAX_THREADS as nat));
                }
                continue;
            }
            let inst = self.insts[t.pc];
            match inst {
                Inst::Char(c) => {
                    if t.offset < self.s.len() && self.s[t.offset] == c {
                        let u = Thread { pc: t.pc + 1, offset: t.offset + 1, sub: t.sub };
                        let ghost uf = u.frame();
                        ready.push(u);
                        proof {
                            assert(frames_of(ready@) =~= rest.push(uf));
                        }
                    } else {
                        proof {
                            assert(bt_stack_run(insts0, s0, pre, steps_pre, MAX_THREADS as nat)
                                == bt_stack_run(insts0, s0, rest, steps as nat, MAX_THREADS as nat));
                        }
                    }
                },
                Inst::Any => {
                    if t.offset < self.s.len() {
                        let u = Thread { pc: t.pc + 1, offset: t.offset + 1, sub: t.sub };
                        let ghost uf = u.frame();
                        ready.push(u);
                        proof {
                            assert(frames_of(ready@) =~= rest.push(uf));
                        }
                    } else {
                        proof {
                            assert(bt_stack_run(insts0, s0, pre, steps_pre, MAX_THREADS as nat)
                                == bt_stack_run(insts0, s0, rest, steps as nat, MAX_THREADS as nat));
                        }
                    }
                },
                Inst::Match => {
                    proof {
                        assert(run0 == BtOut::Found(tf.sub));
                        reaches_from_run(insts0, s0, f0, off0, init0, BtOut::Found(tf.sub));
                    }
                    *sub_out = t.sub;
                    return Outcome::Matched;
                },
                Inst::Jmp(x) => {
                    let u = Thread { pc: x, offset: t.offset, sub: t.sub };
                    let ghost uf = u.frame();
                    ready.push(u);
                    proof {
                        assert(frames_of(ready@) =~= rest.push(uf));
                    }
                },
                Inst::Split(x, y) => {
                    if ready.len() + 2 > MAX_THREADS {
                        proof {
                            assert(bt_stack_run(insts0, s0, pre, steps_pre, MAX_THREADS as nat)
                                == BtOut::Spent);
                        }
                        return Outcome::Exhausted;
                    }
                    let sub_y = t.sub.clone();
                    let uy = Thread { pc: y, offset: t.offset, sub: sub_y };
                    let ux = Thread { pc: x, offset: t.offset, sub: t.sub };
                    let ghost yf = uy.frame();
                    let ghost xf = ux.frame();
                    ready.push(uy);
                    ready.push(ux);
                    proof {
                        assert(yf == (BtFrame { pc: y as int, off: tf.off, sub: tf.sub }));
                        assert(xf == (BtFrame { pc: x as int, off: tf.off, sub: tf.sub }));
                        assert(frames_of(ready@) =~= rest.push(yf).push(xf));
                    }
                },
                Inst::Save(n) => {
                    if n < t.sub.len() {
                        let offset = t.offset;
                        let u = Thread { pc: t.pc + 1, offset, sub: t.sub.update(n, offset) };
                        let ghost uf = u.frame();
                        ready.push(u);
                        proof {
                            assert(uf.sub == tf.sub.update(n as int, offset));
                            assert(frames_of(ready@) =~= rest.push(uf));
                        }
                    } else {
                        let u = Thread { pc: t.pc + 1, offset: t.offset, sub: t.sub };
                        let ghost uf = u.frame();
                        ready.push(u);
                        proof {
                            assert(frames_of(ready@) =~= rest.push(uf));
                        }
                    }
                },
            }
        }
    }
}

/// Lifts the stack search's decided outcome at the initial one-frame
/// stack to the depth-bounded search from that frame's state.
proof fn reaches_from_run(
    insts: Seq<Inst>,
    s: Seq<char>,
    f0: BtFrame,
    off0: int,
    init0: Seq<usize>,
    r: BtOut,
)
    requires
        f0 == (BtFrame { pc: 0, off: off0, sub: init0 }),
        bt_stack_run(insts, s, seq![f0], MAX_STEPS as nat, MAX_THREADS as nat) == r,
        r != BtOut::Spent,
    ensures
        bt_reaches(insts, s, 0, off0, init0, r),
{
    lemma_bt_stack_run_sound(insts, s, seq![f0], MAX_STEPS as nat, MAX_THREADS as nat, r);
    assert(reaches_stack(insts, s, seq![f0], r));
    let fuel = choose|fuel: nat| crate::semantics::bt_frames(insts, s, seq![f0], fuel) == r;
    lemma_frames_single(insts, s, f0, fuel);
    assert(crate::semantics::bt(insts, s, 0, off0, init0, fuel) == r);
}

} // verus!
