use vstd::prelude::*;

use crate::regexp::{init_caps, inst_ok, make_falses, prog_wf, Inst, Sub, VM};
use crate::semantics::{
    accepts, consuming_ok, count_falses, eps_closed, eps_succ_ok, is_resting,
    lemma_count_falses_le_len, lemma_count_falses_mono, lemma_count_falses_update,
    lemma_distinct_pcs_bound,
    lemma_eps_closure_contains, lemma_generation_step_complete, lemma_no_accepts_no_threads,
    lemma_no_accepts_past_input, lemma_no_match_at, lemma_reaches_self, lemma_reaches_step,
    path_ok, reaches_state, start_offset, step_ok,
};

verus! {


/// A visited buffer with nothing marked yet.
pub open spec fn no_marks_t(n: nat) -> Seq<bool> {
    Seq::new(n, |q: int| false)
}

/// The reference Thompson scan's epsilon closure, fueled for
/// totality: from `pc`, append every not-yet-marked pc reachable
/// without consuming input (through `Jmp`, both operands of `Split` —
/// first operand first — and past `Save`) to the generation, marking
/// as it goes.  One mark is set per unit of fuel spent, so fuel
/// beyond the number of unmarked pcs never runs out.
pub open spec fn thompson_close(
    insts: Seq<Inst>,
    gen: Seq<int>,
    v: Seq<bool>,
    pc: int,
    fuel: nat,
) -> (Seq<int>, Seq<bool>)
    decreases fuel,
{
    if fuel == 0 {
        (gen, v)
    } else if pc < 0 || pc >= insts.len() {
        (gen, v)
    } else if v[pc] {
        (gen, v)
    } else {
        let v1 = v.update(pc, true);
        let g1 = gen.push(pc);
        let f = (fuel - 1) as nat;
        match insts[pc] {
            Inst::Jmp(x) => thompson_close(insts, g1, v1, x as int, f),
            Inst::Split(x, y) => {
                let first = thompson_close(insts, g1, v1, x as int, f);
                thompson_close(insts, first.0, first.1, y as int, f)
            },
            Inst::Save(_) => thompson_close(insts, g1, v1, pc + 1, f),
            _ => (g1, v1),
        }
    }
}

/// One generation of the reference Thompson scan, from entry `k` on
/// with next generation `acc` and marks `v` built so far: each
/// consuming pc that matches `ch` seeds the closure of its successor;
/// the first pc standing on `Match` ends the generation at once,
/// abandoning the remaining lower-priority entries.
pub open spec fn thompson_scan(
    insts: Seq<Inst>,
    gen: Seq<int>,
    k: int,
    ch: Option<char>,
    acc: Seq<int>,
    v: Seq<bool>,
) -> (Seq<int>, Seq<bool>, bool)
    decreases gen.len() - k,
{
    if k < 0 || k >= gen.len() {
        (acc, v, false)
    } else {
        let pc = gen[k];
        if 0 <= pc < insts.len() {
            match insts[pc] {
                Inst::Char(c) => if ch == Some(c) {
                    let seeded = thompson_close(insts, acc, v, pc + 1, insts.len() + 1);
                    thompson_scan(insts, gen, k + 1, ch, seeded.0, seeded.1)
                } else {
                    thompson_scan(insts, gen, k + 1, ch, acc, v)
                },
                Inst::Any => if ch is Some {
                    let seeded = thompson_close(insts, acc, v, pc + 1, insts.len() + 1);
                    thompson_scan(insts, gen, k + 1, ch, seeded.0, seeded.1)
                } else {
                    thompson_scan(insts, gen, k + 1, ch, acc, v)
                },
                Inst::Match => (acc, v, true),
                _ => thompson_scan(insts, gen, k + 1, ch, acc, v),
            }
        } else {
            thompson_scan(insts, gen, k + 1, ch, acc, v)
        }
    }
}

/// The reference Thompson scan from offset `i`: each round scans the
/// generation against the character at `i`, a round that stands on
/// `Match` records `i` as the new match end, and the scan ends when
/// the generation empties or the input (plus its end-of-input round)
/// is exhausted.  Returns whether a match was seen and the last
/// recorded end.
#[verifier::opaque]
pub open spec fn thompson_run(
    insts: Seq<Inst>,
    s: Seq<char>,
    gen: Seq<int>,
    i: int,
    matched: bool,
    end: int,
) -> (bool, int)
    decreases s.len() + 1 - i,
{
    if i < 0 || i > s.len() {
        (matched, end)
    } else if gen.len() == 0 {
        (matched, end)
    } else {
        let ch = if i < s.len() {
            Some(s[i])
        } else {
            None::<char>
        };
        let scanned = thompson_scan(insts, gen, 0, ch, Seq::empty(), no_marks_t(insts.len()));
        let m2 = if scanned.2 {
            (true, i)
        } else {
            (matched, end)
        };
        thompson_run(insts, s, scanned.0, i + 1, m2.0, m2.1)
    }
}

/// What the whole-match engine decides, as a function of the program,
/// the input and the cursor's offset alone: whether it matched, and
/// the recorded match end.
#[verifier::opaque]
pub open spec fn thompson_result(insts: Seq<Inst>, s: Seq<char>, start: nat) -> (bool, int) {
    let i0 = start_offset(start, s.len());
    let first = thompson_close(insts, Seq::empty(), no_marks_t(insts.len()), 0, insts.len() + 1);
    thompson_run(insts, s, first.0, i0, false, 0)
}

/// A live alternative of the Thompson simulation: just a program
/// counter — the input offset is shared by the whole generation and no
/// captures are tracked.
#[derive(Clone, Copy, Debug, PartialEq, Eq, Structural)]
struct Thread {
    pc: usize,
}

impl Thread {
    /// A thread standing at `pc`.
    fn new(pc: usize) -> (t: Thread)
        ensures
            t.pc == pc,
    {
        Thread { pc }
    }
}

/// The generation as the reference scan sees it: each thread's pc in
/// list order.
spec fn pcs_of(l: Seq<Thread>) -> Seq<int> {
    l.map_values(|t: Thread| t.pc as int)
}

/// `p` stands in the generation.
spec fn in_list(l: Seq<Thread>, p: int) -> bool {
    exists|j: int| 0 <= j < l.len() && (#[trigger] l[j]).pc == p
}

/// The generation holds every marked pc: with `gen_inv` below, being
/// listed and being marked coincide.
spec fn list_covers(l: Seq<Thread>, v: Seq<bool>) -> bool {
    forall|p: int| #![trigger v[p]] 0 <= p < v.len() && v[p] ==> in_list(l, p)
}

/// A well-formed generation at input offset `off` over a scan that
/// started at offset `ooff`: every pc in bounds, marked visited, and
/// actually reachable from the scan's start; no pc listed twice — the
/// visited marks are exactly what keeps a generation from holding the
/// same pc twice, which bounds it by the program length.
spec fn gen_inv(
    insts: Seq<Inst>,
    s: Seq<char>,
    l: Seq<Thread>,
    visited: Seq<bool>,
    ooff: int,
    off: int,
) -> bool {
    &&& forall|i: int| 0 <= i < l.len() ==> (#[trigger] l[i]).pc < insts.len()
    &&& forall|i: int| 0 <= i < l.len() ==> visited[(#[trigger] l[i]).pc as int]
    &&& forall|i: int, j: int| 0 <= i < j < l.len() ==> (#[trigger] l[i]).pc != (#[trigger] l[j]).pc
    &&& forall|i: int|
        0 <= i < l.len() ==> reaches_state(insts, s, 0, ooff, (#[trigger] l[i]).pc as int, off)
}

/// Epsilon-closure step: adds `t` and everything reachable from it
/// without consuming input (through `Jmp`, both operands of `Split`,
/// and past `Save`) to the generation, skipping pcs already visited.
/// The visited marks terminate the expansion on empty-width cycles and
/// keep the generation free of duplicate pcs.  The closure is complete
/// as well as sound: every newly marked pc has its empty-width
/// successors marked, and every marked pc stands in the generation.
fn add_thread(
    l: &mut Vec<Thread>,
    t: Thread,
    visited: &mut Vec<bool>,
    insts: &Vec<Inst>,
    Ghost(s): Ghost<Seq<char>>,
    Ghost(ooff): Ghost<int>,
    Ghost(off): Ghost<int>,
)
    requires
        prog_wf(insts@),
        old(visited)@.len() == insts@.len(),
        t.pc < insts@.len(),
        reaches_state(insts@, s, 0, ooff, t.pc as int, off),
        gen_inv(insts@, s, old(l)@, old(visited)@, ooff, off),
        list_covers(old(l)@, old(visited)@),
    ensures
        final(visited)@.len() == insts@.len(),
        forall|i: int| 0 <= i < old(visited)@.len() && old(visited)@[i] ==> final(visited)@[i],
        count_falses(final(visited)@) <= count_falses(old(visited)@),
        final(l)@.len() >= old(l)@.len(),
        forall|i: int| 0 <= i < old(l)@.len() ==> final(l)@[i] == old(l)@[i],
        gen_inv(insts@, s, final(l)@, final(visited)@, ooff, off),
        list_covers(final(l)@, final(visited)@),
        final(visited)@[t.pc as int],
        forall|p: int|
            0 <= p < insts@.len() && final(visited)@[p] && !old(visited)@[p]
                ==> eps_succ_ok(insts@, final(visited)@, p),
        forall|fuel: nat|
            fuel >= count_falses(old(visited)@) + 1 ==> #[trigger] thompson_close(
                insts@,
                pcs_of(old(l)@),
                old(visited)@,
                t.pc as int,
                fuel,
            ) == (pcs_of(final(l)@), final(visited)@),
    decreases count_falses(visited@),
{
    let pc = t.pc;
    if visited[pc] {
        proof {
            assert forall|fuel: nat|
                fuel >= count_falses(old(visited)@) + 1 implies #[trigger] thompson_close(
                insts@,
                pcs_of(old(l)@),
                old(visited)@,
                t.pc as int,
                fuel,
            ) == (pcs_of(l@), visited@) by {};
        }
        return ;
    }
    visited.set(pc, true);
    proof {
        lemma_count_falses_update(old(visited)@, pc as int);
    }
    let ghost v_marked = visited@;
    l.push(t);
    proof {
        assert(pcs_of(l@) =~= pcs_of(old(l)@).push(pc as int));
    }
    let ghost g_pushed = pcs_of(l@);
    proof {
        assert forall|p: int| 0 <= p < visited@.len() && visited@[p] implies in_list(l@, p) by {
            if p == pc as int {
                assert(l@[l@.len() - 1].pc == p);
            } else {
                let j = choose|j: int| 0 <= j < old(l)@.len() && (#[trigger] old(l)@[j]).pc == p;
                assert(l@[j].pc == p);
            }
        };
    }
    match insts[pc] {
        Inst::Jmp(x) => {
            proof {
                assert(step_ok(insts@, s, (pc as int, off), (x as int, off)));
                lemma_reaches_step(insts@, s, 0, ooff, pc as int, off, (x as int, off));
            }
            add_thread(l, Thread::new(x), visited, insts, Ghost(s), Ghost(ooff), Ghost(off));
            proof {
                assert forall|fuel: nat|
                    fuel >= count_falses(old(visited)@) + 1 implies #[trigger] thompson_close(
                    insts@,
                    pcs_of(old(l)@),
                    old(visited)@,
                    t.pc as int,
                    fuel,
                ) == (pcs_of(l@), visited@) by {
                    assert(thompson_close(insts@, pcs_of(old(l)@), old(visited)@, t.pc as int, fuel)
                        == thompson_close(insts@, g_pushed, v_marked, x as int, (fuel - 1) as nat));
                };
            }
        },
        Inst::Split(x, y) => {
            proof {
                assert(step_ok(insts@, s, (pc as int, off), (x as int, off)));
                assert(step_ok(insts@, s, (pc as int, off), (y as int, off)));
                lemma_reaches_step(insts@, s, 0, ooff, pc as int, off, (x as int, off));
                lemma_reaches_step(insts@, s, 0, ooff, pc as int, off, (y as int, off));
            }
            let ghost v1 = visited@;
            add_thread(l, Thread::new(x), visited, insts, Ghost(s), Ghost(ooff), Ghost(off));
            proof {
                lemma_count_falses_mono(v1, visited@);
            }
            let ghost g2 = pcs_of(l@);
            let ghost v2 = visited@;
            add_thread(l, Thread::new(y), visited, insts, Ghost(s), Ghost(ooff), Ghost(off));
            proof {
                assert forall|fuel: nat|
                    fuel >= count_falses(old(visited)@) + 1 implies #[trigger] thompson_close(
                    insts@,
                    pcs_of(old(l)@),
                    old(visited)@,
                    t.pc as int,
                    fuel,
                ) == (pcs_of(l@), visited@) by {
                    let f = (fuel - 1) as nat;
                    assert(f >= count_falses(v_marked) + 1);
                    assert(thompson_close(insts@, g_pushed, v_marked, x as int, f) == (g2, v2));
                    assert(f >= count_falses(v2) + 1);
                    assert(thompson_close(insts@, g2, v2, y as int, f) == (pcs_of(l@), visited@));
                };
            }
        },
        Inst::Save(_) => {
            proof {
                assert(step_ok(insts@, s, (pc as int, off), (pc + 1 as int, off)));
                lemma_reaches_step(insts@, s, 0, ooff, pc as int, off, (pc + 1 as int, off));
            }
            add_thread(l, Thread::new(pc + 1), visited, insts, Ghost(s), Ghost(ooff), Ghost(off));
            proof {
                assert forall|fuel: nat|
                    fuel >= count_falses(old(visited)@) + 1 implies #[trigger] thompson_close(
                    insts@,
                    pcs_of(old(l)@),
                    old(visited)@,
                    t.pc as int,
                    fuel,
                ) == (pcs_of(l@), visited@) by {
                    assert(thompson_close(insts@, pcs_of(old(l)@), old(visited)@, t.pc as int, fuel)
                        == thompson_close(insts@, g_pushed, v_marked, pc + 1 as int, (fuel - 1) as nat));
                };
            }
        },
        _ => {
            proof {
                assert forall|fuel: nat|
                    fuel >= count_falses(old(visited)@) + 1 implies #[trigger] thompson_close(
                    insts@,
                    pcs_of(old(l)@),
                    old(visited)@,
                    t.pc as int,
                    fuel,
                ) == (pcs_of(l@), visited@) by {};
            }
        },
    }
    proof {
        lemma_count_falses_mono(old(visited)@, visited@);
        assert forall|p: int|
            0 <= p < insts@.len() && visited@[p] && !old(visited)@[p] implies eps_succ_ok(
            insts@,
            visited@,
            p,
        ) by {
            assert(inst_ok(insts@[p], p, insts@.len() as int));
        };
    }
}

/// Capture store of the whole-match engine before any match is seen:
/// every slot unset but slot 0, which holds the fixed span start 0.
pub open spec fn thompson_base(n: nat) -> Seq<usize> {
    if n >= 1 {
        init_caps(n).update(0, 0usize)
    } else {
        init_caps(n)
    }
}

/// Capture store of the whole-match engine after a match ending at
/// input offset `end`.
pub open spec fn thompson_span(n: nat, end: usize) -> Seq<usize> {
    if n >= 2 {
        thompson_base(n).update(1, end)
    } else {
        thompson_base(n)
    }
}

/// Scan one generation against the character `ch` at offset `i`:
/// consuming pcs seed the next generation (built into `next` with
/// marks in `visited`), and the generation's first pc standing on
/// `Match` ends the scan at once, abandoning the remaining
/// lower-priority entries.  The result is exactly one round of the
/// reference scan, and the built generation carries the invariants
/// the next round needs.
fn scan_generation(
    insts: &Vec<Inst>,
    curr: &Vec<Thread>,
    next: &mut Vec<Thread>,
    visited: &mut Vec<bool>,
    ch: Option<char>,
    i: usize,
    Ghost(s): Ghost<Seq<char>>,
    Ghost(ooff): Ghost<int>,
) -> (found: bool)
    requires
        prog_wf(insts@),
        s.len() < usize::MAX,
        0 <= ooff <= i as int <= s.len(),
        ch == (if (i as int) < s.len() {
            Some(s[i as int])
        } else {
            None::<char>
        }),
        old(next)@.len() == 0,
        forall|k: int| 0 <= k < curr@.len() ==> (#[trigger] curr@[k]).pc < insts@.len(),
        forall|k: int|
            0 <= k < curr@.len() ==> reaches_state(
                insts@,
                s,
                0,
                ooff,
                (#[trigger] curr@[k]).pc as int,
                i as int,
            ),
    ensures
        final(visited)@.len() == insts@.len(),
        gen_inv(insts@, s, final(next)@, final(visited)@, ooff, i + 1),
        list_covers(final(next)@, final(visited)@),
        eps_closed(insts@, final(visited)@),
        final(next)@.len() <= insts@.len(),
        (pcs_of(final(next)@), final(visited)@, found) == thompson_scan(
            insts@,
            pcs_of(curr@),
            0,
            ch,
            Seq::empty(),
            no_marks_t(insts@.len()),
        ),
        found ==> accepts(insts@, s, 0, ooff, i as int),
        !found ==> (forall|k: int|
            0 <= k < curr@.len() ==> consuming_ok(
                insts@,
                ch,
                (#[trigger] curr@[k]).pc as int,
                final(visited)@,
            )),
        !found ==> (forall|k: int|
            0 <= k < curr@.len() ==> insts@[(#[trigger] curr@[k]).pc as int] != Inst::Match),
{
    let n = insts.len();
    let mut fresh = make_falses(n);
    core::mem::swap(visited, &mut fresh);
    let ghost curr_pcs = pcs_of(curr@);
    let ghost scan0 = thompson_scan(insts@, curr_pcs, 0, ch, Seq::empty(), no_marks_t(insts@.len()));
    proof {
        assert(pcs_of(next@) =~= Seq::<int>::empty());
        assert(visited@ =~= no_marks_t(insts@.len()));
    }
    let mut found = false;
    let mut j: usize = 0;
    while j < curr.len() && !found
        invariant
            prog_wf(insts@),
            s.len() < usize::MAX,
            n == insts@.len(),
            0 <= ooff <= i as int <= s.len(),
            ch == (if (i as int) < s.len() {
                Some(s[i as int])
            } else {
                None::<char>
            }),
            curr_pcs == pcs_of(curr@),
            scan0 == thompson_scan(insts@, curr_pcs, 0, ch, Seq::empty(), no_marks_t(insts@.len())),
            j <= curr@.len(),
            visited@.len() == n,
            forall|k: int| 0 <= k < curr@.len() ==> (#[trigger] curr@[k]).pc < n,
            forall|k: int|
                0 <= k < curr@.len() ==> reaches_state(
                    insts@,
                    s,
                    0,
                    ooff,
                    (#[trigger] curr@[k]).pc as int,
                    i as int,
                ),
            gen_inv(insts@, s, next@, visited@, ooff, i + 1),
            list_covers(next@, visited@),
            eps_closed(insts@, visited@),
            forall|k: int|
                0 <= k < j ==> consuming_ok(insts@, ch, (#[trigger] curr@[k]).pc as int, visited@),
            !found ==> (forall|k: int|
                0 <= k < j ==> insts@[(#[trigger] curr@[k]).pc as int] != Inst::Match),
            !found ==> thompson_scan(insts@, curr_pcs, j as int, ch, pcs_of(next@), visited@)
                == scan0,
            found ==> (accepts(insts@, s, 0, ooff, i as int) && scan0 == (
                pcs_of(next@),
                visited@,
                true,
            )),
        decreases curr@.len() - j,
    {
        let ghost v_before = visited@;
        let ghost next_before = pcs_of(next@);
        let pc = curr[j].pc;
        match insts[pc] {
            Inst::Char(c1) => {
                match ch {
                    Some(cc) => if cc != c1 {
                        proof {
                            assert(curr_pcs[j as int] == pc as int);
                            assert(thompson_scan(insts@, curr_pcs, j as int, ch, next_before, v_before)
                                == thompson_scan(insts@, curr_pcs, j + 1 as int, ch, next_before, v_before));
                        }
                    } else {
                        proof {
                            assert(step_ok(insts@, s, (pc as int, i as int), (pc + 1 as int, i + 1)));
                            lemma_reaches_step(insts@, s, 0, ooff, pc as int, i as int, (pc + 1 as int, i + 1));
                        }
                        add_thread(next, Thread::new(pc + 1), visited, insts, Ghost(s), Ghost(ooff), Ghost(i + 1));
                        proof {
                            lemma_count_falses_le_len(v_before);
                            assert(curr_pcs[j as int] == pc as int);
                            assert(thompson_close(insts@, next_before, v_before, pc + 1 as int, insts@.len() + 1)
                                == (pcs_of(next@), visited@));
                            assert(thompson_scan(insts@, curr_pcs, j as int, ch, next_before, v_before)
                                == thompson_scan(insts@, curr_pcs, j + 1 as int, ch, pcs_of(next@), visited@));
                        }
                    },
                    None => {
                        proof {
                            assert(curr_pcs[j as int] == pc as int);
                            assert(thompson_scan(insts@, curr_pcs, j as int, ch, next_before, v_before)
                                == thompson_scan(insts@, curr_pcs, j + 1 as int, ch, next_before, v_before));
                        }
                    },
                }
            },
            Inst::Any => {
                match ch {
                    Some(_) => {
                        proof {
                            assert(step_ok(insts@, s, (pc as int, i as int), (pc + 1 as int, i + 1)));
                            lemma_reaches_step(insts@, s, 0, ooff, pc as int, i as int, (pc + 1 as int, i + 1));
                        }
                        add_thread(next, Thread::new(pc + 1), visited, insts, Ghost(s), Ghost(ooff), Ghost(i + 1));
                        proof {
                            lemma_count_falses_le_len(v_before);
                            assert(curr_pcs[j as int] == pc as int);
                            assert(thompson_close(insts@, next_before, v_before, pc + 1 as int, insts@.len() + 1)
                                == (pcs_of(next@), visited@));
                            assert(thompson_scan(insts@, curr_pcs, j as int, ch, next_before, v_before)
                                == thompson_scan(insts@, curr_pcs, j + 1 as int, ch, pcs_of(next@), visited@));
                        }
                    },
                    None => {
                        proof {
                            assert(curr_pcs[j as int] == pc as int);
                            assert(thompson_scan(insts@, curr_pcs, j as int, ch, next_before, v_before)
                                == thompson_scan(insts@, curr_pcs, j + 1 as int, ch, next_before, v_before));
                        }
                    },
                }
            },
            Inst::Match => {
                found = true;
                proof {
                    assert(accepts(insts@, s, 0, ooff, i as int));
                    assert(curr_pcs[j as int] == pc as int);
                    assert(thompson_scan(insts@, curr_pcs, j as int, ch, next_before, v_before)
                        == (next_before, v_before, true));
                }
            },
            _ => {
                proof {
                    assert(curr_pcs[j as int] == pc as int);
                    assert(thompson_scan(insts@, curr_pcs, j as int, ch, next_before, v_before)
                        == thompson_scan(insts@, curr_pcs, j + 1 as int, ch, next_before, v_before));
                }
            },
        }
        proof {
            assert forall|k: int|
                0 <= k < j + 1 implies consuming_ok(
                insts@,
                ch,
                (#[trigger] curr@[k]).pc as int,
                visited@,
            ) by {
                if k < j {
                    assert(consuming_ok(insts@, ch, curr@[k].pc as int, v_before));
                }
            };
        }
        j = j + 1;
    }
    proof {
        lemma_distinct_pcs_bound(next@.map_values(|t: Thread| t.pc as int), n as nat);
        assert(next@.len() <= n);
    }
    found
}

/// One fully scanned, match-free, complete generation advances to a
/// complete next generation and rules out a match at its own offset:
/// the completeness invariants of the scan, packaged per round.
proof fn advance_generation_facts(
    insts: Seq<Inst>,
    s: Seq<char>,
    ooff: int,
    i: int,
    ch: Option<char>,
    gen: Seq<Thread>,
    nextgen: Seq<Thread>,
    v: Seq<bool>,
)
    requires
        0 <= ooff <= i <= s.len(),
        ch == (if i < s.len() {
            Some(s[i])
        } else {
            None::<char>
        }),
        v.len() == insts.len(),
        eps_closed(insts, v),
        list_covers(nextgen, v),
        forall|k: int| 0 <= k < gen.len() ==> (#[trigger] gen[k]).pc < insts.len(),
        forall|k: int|
            0 <= k < gen.len() ==> consuming_ok(insts, ch, (#[trigger] gen[k]).pc as int, v),
        forall|k: int| 0 <= k < gen.len() ==> insts[(#[trigger] gen[k]).pc as int] != Inst::Match,
        forall|pc: int|
            0 <= pc < insts.len() && reaches_state(insts, s, 0, ooff, pc, i) ==> in_list(gen, pc),
        forall|end: int| ooff <= end < i ==> !accepts(insts, s, 0, ooff, end),
    ensures
        forall|pc: int|
            0 <= pc < insts.len() && reaches_state(insts, s, 0, ooff, pc, i + 1) ==> in_list(
                nextgen,
                pc,
            ),
        forall|end: int| ooff <= end < i + 1 ==> !accepts(insts, s, 0, ooff, end),
{
    assert forall|pc: int|
        0 <= pc < insts.len() && reaches_state(insts, s, 0, ooff, pc, i) implies consuming_ok(
        insts,
        ch,
        pc,
        v,
    ) by {
        assert(in_list(gen, pc));
        let k = choose|k: int| 0 <= k < gen.len() && (#[trigger] gen[k]).pc == pc;
        assert(consuming_ok(insts, ch, gen[k].pc as int, v));
    };
    lemma_generation_step_complete(insts, s, ooff, i, ch, v);
    assert forall|pc: int|
        0 <= pc < insts.len() && reaches_state(insts, s, 0, ooff, pc, i) implies insts[pc]
        != Inst::Match by {
        assert(in_list(gen, pc));
        let k = choose|k: int| 0 <= k < gen.len() && (#[trigger] gen[k]).pc == pc;
        assert(insts[gen[k].pc as int] != Inst::Match);
    };
    lemma_no_match_at(insts, s, ooff, i);
    assert forall|pc: int|
        0 <= pc < insts.len() && reaches_state(insts, s, 0, ooff, pc, i + 1) implies in_list(
        nextgen,
        pc,
    ) by {
        assert(v[pc]);
    };
}

/// One round of the reference scan, as a single rewriting fact: with
/// a nonempty generation at offset `i`, the run continues from the
/// scanned next generation at `i + 1`, the recorded end replaced when
/// the round found a match.
proof fn run_step_fact(
    insts: Seq<Inst>,
    s: Seq<char>,
    gen: Seq<int>,
    i: int,
    matched: bool,
    end: int,
    ch: Option<char>,
    scan0: (Seq<int>, Seq<bool>, bool),
    m2: bool,
    e2: int,
)
    requires
        0 <= i <= s.len(),
        gen.len() > 0,
        ch == (if i < s.len() {
            Some(s[i])
        } else {
            None::<char>
        }),
        scan0 == thompson_scan(insts, gen, 0, ch, Seq::empty(), no_marks_t(insts.len())),
        m2 == (if scan0.2 {
            true
        } else {
            matched
        }),
        e2 == (if scan0.2 {
            i
        } else {
            end
        }),
    ensures
        thompson_run(insts, s, gen, i, matched, end) == thompson_run(insts, s, scan0.0, i + 1, m2, e2),
{
    reveal(thompson_run);
}

impl VM {
    /// Thompson simulation: a whole-match test in time linear in
    /// program size times input length.  Two deduplicated thread
    /// generations advance in lock step over the input; captures are
    /// not tracked, so on a match `sub_out` reports only the overall
    /// span (slots 0 and 1, where present), and on a miss it is left
    /// reset.  The whole answer — the boolean and the recorded end —
    /// equals the reference scan `thompson_result` exactly: each
    /// generation's first-reached `Match` records the generation's
    /// offset, later generations overwrite it, and the last recording
    /// stands.  The answer is also the machine's: a match comes with
    /// an accepting path ending at the recorded offset, and a miss
    /// means no accepting path exists at all.
    pub fn match_thompsonvm(&mut self, sub_out: &mut Sub) -> (r: bool)
        requires
            prog_wf(old(self).insts@),
            old(self).s@.len() < usize::MAX,
        ensures
            final(self).insts@ == old(self).insts@,
            final(self).s@ == old(self).s@,
            final(sub_out)@.len() == old(sub_out)@.len(),
            !r ==> final(sub_out)@ == thompson_base(old(sub_out)@.len()),
            !r ==> (forall|end: int|
                !accepts(
                    old(self).insts@,
                    old(self).s@,
                    0,
                    start_offset(old(self).offset as nat, old(self).s@.len()),
                    end,
                )),
            r ==> (exists|end: usize|
                end <= old(self).s@.len() && accepts(
                    old(self).insts@,
                    old(self).s@,
                    0,
                    start_offset(old(self).offset as nat, old(self).s@.len()),
                    end as int,
                ) && final(sub_out)@ == thompson_span(old(sub_out)@.len(), end)),
            ({
                let m = thompson_result(old(self).insts@, old(self).s@, old(self).offset as nat);
                &&& r == m.0
                &&& (m.0 ==> 0 <= m.1 <= old(self).s@.len() && final(sub_out)@ == thompson_span(
                    old(sub_out)@.len(),
                    m.1 as usize,
                ))
            }),
    {
        let ghost n0 = sub_out@.len();
        let ghost insts0 = self.insts@;
        let ghost s0 = self.s@;
        let n = self.insts.len();
        let mut curr: Vec<Thread> = Vec::new();
        let mut next: Vec<Thread> = Vec::new();
        let mut visited: Vec<bool> = make_falses(n);
        let mut i: usize = if self.offset <= self.s.len() {
            self.offset
        } else {
            self.s.len()
        };
        let ghost ooff = i as int;
        let ghost run0 = thompson_result(insts0, s0, self.offset as nat);
        proof {
            lemma_reaches_self(insts0, s0, 0, ooff);
        }
        add_thread(&mut curr, Thread::new(0), &mut visited, &self.insts, Ghost(s0), Ghost(ooff), Ghost(ooff));
        proof {
            lemma_count_falses_le_len(no_marks_t(insts0.len()));
            assert(Seq::new(n as nat, |q: int| false) =~= no_marks_t(insts0.len()));
            assert(pcs_of(Seq::<Thread>::empty()) =~= Seq::<int>::empty());
            assert(thompson_close(insts0, Seq::empty(), no_marks_t(insts0.len()), 0, insts0.len() + 1)
                == (pcs_of(curr@), visited@));
            reveal(thompson_run);
            reveal(thompson_result);
            assert(thompson_run(insts0, s0, pcs_of(curr@), ooff, false, 0) == run0);
            assert(eps_closed(insts0, visited@));
            assert forall|pc: int|
                0 <= pc < n && reaches_state(insts0, s0, 0, ooff, pc, ooff) implies in_list(
                curr@,
                pc,
            ) by {
                let p = choose|p: Seq<(int, int)>|
                    path_ok(insts0, s0, p) && p.first() == (0int, ooff) && p.last() == (pc, ooff);
                lemma_eps_closure_contains(insts0, s0, visited@, p);
            };
        }

        sub_out.reset();
        if sub_out.len() >= 1 {
            sub_out.set(0, 0);
        }
        proof {
            assert(sub_out@ =~= thompson_base(n0));
        }

        let mut matched = false;
        let ghost mut end_g: usize = 0;
        while i <= self.s.len()
            invariant
                prog_wf(insts0),
                insts0 == old(self).insts@,
                s0 == old(self).s@,
                n0 == old(sub_out)@.len(),
                ooff == start_offset(old(self).offset as nat, s0.len()),
                run0 == thompson_result(insts0, s0, old(self).offset as nat),
                self.insts@ == insts0,
                self.s@ == s0,
                s0.len() < usize::MAX,
                n == insts0.len(),
                0 <= ooff <= i <= s0.len() + 1,
                ooff <= s0.len(),
                visited@.len() == n,
                next@.len() == 0,
                gen_inv(insts0, s0, curr@, visited@, ooff, i as int),
                list_covers(curr@, visited@),
                eps_closed(insts0, visited@),
                sub_out@.len() == n0,
                matched ==> end_g <= s0.len() && accepts(insts0, s0, 0, ooff, end_g as int)
                    && sub_out@ == thompson_span(n0, end_g),
                !matched ==> sub_out@ == thompson_base(n0),
                !matched ==> (forall|pc: int|
                    0 <= pc < n && reaches_state(insts0, s0, 0, ooff, pc, i as int) ==> in_list(
                        curr@,
                        pc,
                    )),
                !matched ==> (forall|end: int| ooff <= end < i ==> !accepts(insts0, s0, 0, ooff, end)),
                thompson_run(insts0, s0, pcs_of(curr@), i as int, matched, end_g as int) == run0,
            decreases s0.len() + 1 - i,
        {
            let ghost curr_start = curr@;
            let ghost matched0 = matched;
            let ghost end0 = end_g;
            let ch: Option<char> = if i < self.s.len() {
                Some(self.s[i])
            } else {
                None
            };
            if curr.len() == 0 {
                proof {
                    reveal(thompson_run);
                    assert(pcs_of(curr@).len() == 0);
                    assert(run0 == (matched, end_g as int));
                    if !matched {
                        assert forall|pc: int|
                            0 <= pc < insts0.len() && reaches_state(insts0, s0, 0, ooff, pc, i as int)
                                implies !is_resting(#[trigger] insts0[pc]) by {
                            assert(in_list(curr@, pc));
                            let k = choose|k: int| 0 <= k < curr@.len() && (#[trigger] curr@[k]).pc == pc;
                            assert(false);
                        };
                        assert forall|end: int| !accepts(insts0, s0, 0, ooff, end) by {
                            lemma_no_accepts_no_threads(insts0, s0, ooff, end, i as int);
                        };
                    }
                }
                return matched;
            }
            let found = scan_generation(
                &self.insts,
                &curr,
                &mut next,
                &mut visited,
                ch,
                i,
                Ghost(s0),
                Ghost(ooff),
            );
            if found {
                if sub_out.len() >= 2 {
                    sub_out.set(1, i);
                }
                matched = true;
                proof {
                    end_g = i;
                    assert(sub_out@ =~= thompson_span(n0, i));
                }
            }
            let tmp = curr;
            curr = next;
            next = tmp;
            next.clear();
            proof {
                if !matched {
                    advance_generation_facts(insts0, s0, ooff, i as int, ch, curr_start, curr@, visited@);
                }
                let scan0 = thompson_scan(
                    insts0,
                    pcs_of(curr_start),
                    0,
                    ch,
                    Seq::empty(),
                    no_marks_t(insts0.len()),
                );
                assert(scan0 == (pcs_of(curr@), visited@, found));
                run_step_fact(
                    insts0,
                    s0,
                    pcs_of(curr_start),
                    i as int,
                    matched0,
                    end0 as int,
                    ch,
                    scan0,
                    matched,
                    end_g as int,
                );
                assert(thompson_run(insts0, s0, pcs_of(curr@), i + 1, matched, end_g as int) == run0);
            }
            i = i + 1;
        }
        proof {
            reveal(thompson_run);
            assert(run0 == (matched, end_g as int));
            if !matched {
                assert forall|end: int| !accepts(insts0, s0, 0, ooff, end) by {
                    lemma_no_accepts_past_input(insts0, s0, ooff, end, i as int);
                };
            }
        }
        matched
    }
}

} // verus!
