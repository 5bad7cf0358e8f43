use vstd::prelude::*;

use crate::regexp::{Inst, Sub, VM};
use crate::semantics::{bt, BtOut};

verus! {

/// How a backtracking engine's search ended: a match (with the capture
/// store filled in), a definite failure, or resource exhaustion before
/// the search could decide.
#[derive(Clone, Copy, Debug, PartialEq, Eq, Structural)]
pub enum Outcome {
    Matched,
    NoMatch,
    Exhausted,
}

/// Bound on the exploration depth of the recursive engines: one unit
/// per instruction visited along a search path.  Exceeding it reports
/// `Outcome::Exhausted`, the engine's stand-in for exhausting the host
/// call stack.
pub const MAX_DEPTH: usize = 10000;

impl VM {
    /// Backtracking matcher in fully recursive form: one recursive
    /// call per instruction.  Attempts a match at the cursor's current
    /// pc and offset; on success `sub` holds the captures of the
    /// highest-priority match, on failure `sub` is exactly as it was.
    /// The answer is the depth-bounded backtracking search itself.
    pub fn match_recursive(&mut self, sub: &mut Sub) -> (r: Outcome)
        ensures
            final(self).insts@ == old(self).insts@,
            final(self).s@ == old(self).s@,
            final(sub)@.len() == old(sub)@.len(),
            ({
                let out = bt(
                    old(self).insts@,
                    old(self).s@,
                    old(self).pc as int,
                    old(self).offset as int,
                    old(sub)@,
                    MAX_DEPTH as nat,
                );
                match r {
                    Outcome::Matched => out == BtOut::Found(final(sub)@),
                    Outcome::NoMatch => out == BtOut::NotFound && final(sub)@ == old(sub)@,
                    Outcome::Exhausted => out == BtOut::Spent && final(sub)@ == old(sub)@,
                }
            }),
    {
        match_rec(self, sub, MAX_DEPTH)
    }

    /// Backtracking matcher in loop form: non-branching instructions
    /// are stepped iteratively and only `Split` and `Save` recurse.
    /// Decides exactly like `match_recursive`, depth bound included.
    pub fn match_recursive_loop(&mut self, sub: &mut Sub) -> (r: Outcome)
        ensures
            final(self).insts@ == old(self).insts@,
            final(self).s@ == old(self).s@,
            final(sub)@.len() == old(sub)@.len(),
            ({
                let out = bt(
                    old(self).insts@,
                    old(self).s@,
                    old(self).pc as int,
                    old(self).offset as int,
                    old(sub)@,
                    MAX_DEPTH as nat,
                );
                match r {
                    Outcome::Matched => out == BtOut::Found(final(sub)@),
                    Outcome::NoMatch => out == BtOut::NotFound && final(sub)@ == old(sub)@,
                    Outcome::Exhausted => out == BtOut::Spent && final(sub)@ == old(sub)@,
                }
            }),
    {
        match_rec_loop(self, sub, MAX_DEPTH)
    }
}

/// Recursive core of `match_recursive`: explores the search to depth
/// `fuel` and reports exactly what the search semantics report.
fn match_rec(vm: &mut VM, sub: &mut Sub, fuel: usize) -> (r: Outcome)
    ensures
        final(vm).insts@ == old(vm).insts@,
        final(vm).s@ == old(vm).s@,
        final(sub)@.len() == old(sub)@.len(),
        ({
            let out = bt(
                old(vm).insts@,
                old(vm).s@,
                old(vm).pc as int,
                old(vm).offset as int,
                old(sub)@,
                fuel as nat,
            );
            match r {
                Outcome::Matched => out == BtOut::Found(final(sub)@),
                Outcome::NoMatch => out == BtOut::NotFound && final(sub)@ == old(sub)@,
                Outcome::Exhausted => out == BtOut::Spent && final(sub)@ == old(sub)@,
            }
        }),
    decreases fuel,
{
    if fuel == 0 {
        return Outcome::Exhausted;
    }
    let inst = match vm.next_inst() {
        Some(inst) => inst,
        None => {
            return Outcome::NoMatch;
        },
    };
    match inst {
        Inst::Char(c) => {
            match vm.next_char() {
                Some(c1) => if c == c1 {
                    match_rec(vm, sub, fuel - 1)
                } else {
                    Outcome::NoMatch
                },
                None => Outcome::NoMatch,
            }
        },
        Inst::Any => {
            match vm.next_char() {
                Some(_) => match_rec(vm, sub, fuel - 1),
                None => Outcome::NoMatch,
            }
        },
        Inst::Match => Outcome::Matched,
        Inst::Jmp(x) => {
            vm.pc = x;
            match_rec(vm, sub, fuel - 1)
        },
        Inst::Split(x, y) => {
            let off0 = vm.offset;
            vm.pc = x;
            match match_rec(vm, sub, fuel - 1) {
                Outcome::Matched => Outcome::Matched,
                Outcome::Exhausted => Outcome::Exhausted,
                Outcome::NoMatch => {
                    vm.pc = y;
                    vm.offset = off0;
                    match_rec(vm, sub, fuel - 1)
                },
            }
        },
        Inst::Save(n) => {
            if n >= sub.len() {
                return match_rec(vm, sub, fuel - 1);
            }
            let old_v = sub.get(n);
            sub.set(n, vm.offset);
            match match_rec(vm, sub, fuel - 1) {
                Outcome::Matched => Outcome::Matched,
                Outcome::NoMatch => {
                    sub.set(n, old_v);
                    proof {
                        assert(sub@ =~= old(sub)@);
                    }
                    Outcome::NoMatch
                },
                Outcome::Exhausted => {
                    sub.set(n, old_v);
                    proof {
                        assert(sub@ =~= old(sub)@);
                    }
                    Outcome::Exhausted
                },
            }
        },
    }
}

/// Loop core of `match_recursive_loop`: steps `Char`, `Any`, `Jmp` and
/// `Match` in place and recurses only where the search branches
/// (`Split`) or must be able to undo (`Save`).
fn match_rec_loop(vm: &mut VM, sub: &mut Sub, fuel: usize) -> (r: Outcome)
    ensures
        final(vm).insts@ == old(vm).insts@,
        final(vm).s@ == old(vm).s@,
        final(sub)@.len() == old(sub)@.len(),
        ({
            let out = bt(
                old(vm).insts@,
                old(vm).s@,
                old(vm).pc as int,
                old(vm).offset as int,
                old(sub)@,
                fuel as nat,
            );
            match r {
                Outcome::Matched => out == BtOut::Found(final(sub)@),
                Outcome::NoMatch => out == BtOut::NotFound && final(sub)@ == old(sub)@,
                Outcome::Exhausted => out == BtOut::Spent && final(sub)@ == old(sub)@,
            }
        }),
    decreases fuel,
{
    let ghost insts0 = vm.insts@;
    let ghost s0 = vm.s@;
    let ghost pc0 = vm.pc as int;
    let ghost off0 = vm.offset as int;
    let ghost sub0 = sub@;
    let ghost fuel0 = fuel as nat;
    let mut fuel = fuel;
    #[verifier::loop_isolation(false)]
    loop
        invariant
            vm.insts@ == insts0,
            vm.s@ == s0,
            sub@ == sub0,
            fuel as nat <= fuel0,
            bt(insts0, s0, vm.pc as int, vm.offset as int, sub@, fuel as nat) == bt(
                insts0,
                s0,
                pc0,
                off0,
                sub0,
                fuel0,
            ),
        decreases fuel,
    {
        if fuel == 0 {
            return Outcome::Exhausted;
        }
        fuel = fuel - 1;
        let inst = match vm.next_inst() {
            Some(inst) => inst,
            None => {
                return Outcome::NoMatch;
            },
        };
        match inst {
            Inst::Char(c) => {
                match vm.next_char() {
                    Some(c1) => if c != c1 {
                        return Outcome::NoMatch;
                    },
                    None => {
                        return Outcome::NoMatch;
                    },
                }
            },
            Inst::Any => {
                match vm.next_char() {
                    Some(_) => {},
                    None => {
                        return Outcome::NoMatch;
                    },
                }
            },
            Inst::Match => {
                return Outcome::Matched;
            },
            Inst::Jmp(x) => {
                vm.pc = x;
            },
            Inst::Split(x, y) => {
                let off_sav = vm.offset;
                vm.pc = x;
                match match_rec_loop(vm, sub, fuel) {
                    Outcome::Matched => {
                        return Outcome::Matched;
                    },
                    Outcome::Exhausted => {
                        return Outcome::Exhausted;
                    },
                    Outcome::NoMatch => {
                        vm.pc = y;
                        vm.offset = off_sav;
                    },
                }
            },
            Inst::Save(n) => {
                if n < sub.len() {
                    let old_v = sub.get(n);
                    sub.set(n, vm.offset);
                    match match_rec_loop(vm, sub, fuel) {
                        Outcome::Matched => {
                            return Outcome::Matched;
                        },
                        Outcome::NoMatch => {
                            sub.set(n, old_v);
                            proof {
                                assert(sub@ =~= sub0);
                            }
                            return Outcome::NoMatch;
                        },
                        Outcome::Exhausted => {
                            sub.set(n, old_v);
                            proof {
                                assert(sub@ =~= sub0);
                            }
                            return Outcome::Exhausted;
                        },
                    }
                }
            },
        }
    }
}

} // verus!
