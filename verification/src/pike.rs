use vstd::prelude::*;

use crate::regexp::{init_caps, inst_ok, make_falses, prog_wf, Inst, Sub, VM};
use crate::semantics::{
    accepts, accepts_with_caps, caps_step, consuming_ok, count_falses, eps_closed, eps_succ_ok,
    is_resting, lemma_count_falses_le_len, lemma_count_falses_mono, lemma_count_falses_update,
    lemma_distinct_pcs_bound, lemma_eps_closure_contains, lemma_generation_step_complete,
    lemma_no_accepts_no_threads, lemma_no_accepts_past_input, lemma_no_match_at,
    lemma_reaches_caps_self, lemma_reaches_caps_step, lemma_reaches_self, lemma_reaches_step,
    path_ok, reaches_state, reaches_with_caps, start_offset, step_ok,
};

verus! {


/// A visited buffer with nothing marked yet.
pub open spec fn no_marks(n: nat) -> Seq<bool> {
    Seq::new(n, |q: int| false)
}

/// The reference Pike scan's epsilon closure, fueled for totality:
/// from `pc` with snapshot `caps` at input offset `off`, expand
/// through `Jmp`, both operands of `Split` (first operand first) and
/// `Save` (which records `off`), skip pcs already marked in `v`, and
/// append each consuming or matching pc with its snapshot to `gen`.
/// One mark is set per unit of fuel spent, so fuel beyond the number
/// of unmarked pcs never runs out.
pub open spec fn pike_close(
    insts: Seq<Inst>,
    gen: Seq<(int, Seq<usize>)>,
    v: Seq<bool>,
    pc: int,
    caps: Seq<usize>,
    off: int,
    fuel: nat,
) -> (Seq<(int, Seq<usize>)>, Seq<bool>)
    decreases fuel,
{
    if fuel == 0 {
        (gen, v)
    } else if pc < 0 || pc >= insts.len() {
        (gen, v)
    } else if v[pc] {
        (gen, v)
    } else {
        let v1 = v.update(pc, true);
        let f = (fuel - 1) as nat;
        match insts[pc] {
            Inst::Jmp(x) => pike_close(insts, gen, v1, x as int, caps, off, f),
            Inst::Split(x, y) => {
                let first = pike_close(insts, gen, v1, x as int, caps, off, f);
                pike_close(insts, first.0, first.1, y as int, caps, off, f)
            },
            Inst::Save(n) => pike_close(
                insts,
                gen,
                v1,
                pc + 1,
                if n < caps.len() {
                    caps.update(n as int, off as usize)
                } else {
                    caps
                },
                off,
                f,
            ),
            _ => (gen.push((pc, caps)), v1),
        }
    }
}

/// One generation of the reference Pike scan, from entry `k` on with
/// next generation `acc` and marks `v` built so far: each consuming
/// entry that matches `ch` seeds the closure at the next offset
/// `off`; the first entry standing on `Match` ends the generation at
/// once with its snapshot, abandoning the remaining lower-priority
/// entries.
pub open spec fn pike_scan(
    insts: Seq<Inst>,
    gen: Seq<(int, Seq<usize>)>,
    k: int,
    ch: Option<char>,
    off: int,
    acc: Seq<(int, Seq<usize>)>,
    v: Seq<bool>,
) -> (Seq<(int, Seq<usize>)>, Seq<bool>, Option<Seq<usize>>)
    decreases gen.len() - k,
{
    if k < 0 || k >= gen.len() {
        (acc, v, None)
    } else {
        let (pc, caps) = gen[k];
        if 0 <= pc < insts.len() {
            match insts[pc] {
                Inst::Char(c) => if ch == Some(c) {
                    let seeded = pike_close(insts, acc, v, pc + 1, caps, off, insts.len() + 1);
                    pike_scan(insts, gen, k + 1, ch, off, seeded.0, seeded.1)
                } else {
                    pike_scan(insts, gen, k + 1, ch, off, acc, v)
                },
                Inst::Any => if ch is Some {
                    let seeded = pike_close(insts, acc, v, pc + 1, caps, off, insts.len() + 1);
                    pike_scan(insts, gen, k + 1, ch, off, seeded.0, seeded.1)
                } else {
                    pike_scan(insts, gen, k + 1, ch, off, acc, v)
                },
                Inst::Match => (acc, v, Some(caps)),
                _ => pike_scan(insts, gen, k + 1, ch, off, acc, v),
            }
        } else {
            pike_scan(insts, gen, k + 1, ch, off, acc, v)
        }
    }
}

/// The reference Pike scan from input offset `i` with the current
/// generation and provisional captures: each round scans the
/// generation against the character at `i`, a generation's `Match`
/// replaces the provisional captures, and the scan ends when the
/// generation empties or the input (plus its end-of-input round) is
/// exhausted.
#[verifier::opaque]
pub open spec fn pike_run(
    insts: Seq<Inst>,
    s: Seq<char>,
    gen: Seq<(int, Seq<usize>)>,
    i: int,
    matched: Option<Seq<usize>>,
) -> Option<Seq<usize>>
    decreases s.len() + 1 - i,
{
    if i < 0 || i > s.len() {
        matched
    } else if gen.len() == 0 {
        matched
    } else {
        let ch = if i < s.len() {
            Some(s[i])
        } else {
            None::<char>
        };
        let scanned = pike_scan(insts, gen, 0, ch, i + 1, Seq::empty(), no_marks(insts.len()));
        let m2 = if scanned.2 is Some {
            scanned.2
        } else {
            matched
        };
        pike_run(insts, s, scanned.0, i + 1, m2)
    }
}

/// What the Pike VM returns, as a function of the program, the input,
/// the slot count and the cursor's offset alone: `Some` of the final
/// provisional captures, `None` for a miss.
#[verifier::opaque]
pub open spec fn pike_spec(insts: Seq<Inst>, s: Seq<char>, nsub: nat, start: nat) -> Option<
    Seq<usize>,
> {
    let i0 = start_offset(start, s.len());
    let first = pike_close(
        insts,
        Seq::empty(),
        no_marks(insts.len()),
        0,
        init_caps(nsub),
        i0,
        insts.len() + 1,
    );
    pike_run(insts, s, first.0, i0, None)
}

/// A live alternative of the Pike simulation: a program counter plus
/// that alternative's capture snapshot — the input offset is shared by
/// the whole generation.
struct Thread {
    pc: usize,
    sub: Sub,
}

impl Thread {
    /// A thread standing at `pc` with capture snapshot `sub`.
    fn new(pc: usize, sub: Sub) -> (t: Thread)
        ensures
            t.pc == pc,
            t.sub@ == sub@,
    {
        Thread { pc, sub }
    }
}

/// The provisional captures as the reference scan sees them.
spec fn opt_view(m: Option<Sub>) -> Option<Seq<usize>> {
    match m {
        Some(x) => Some(x@),
        None => None,
    }
}

/// The generation as the reference scan sees it: each thread's pc
/// with its capture snapshot, in list order.
spec fn pairs_of(l: Seq<Thread>) -> Seq<(int, Seq<usize>)> {
    l.map_values(|t: Thread| (t.pc as int, t.sub@))
}

/// `p` stands in the generation.
spec fn in_list(l: Seq<Thread>, p: int) -> bool {
    exists|j: int| 0 <= j < l.len() && (#[trigger] l[j]).pc == p
}

/// The generation holds every marked resting pc — the closure pushes
/// exactly the pcs it stops on.
spec fn list_covers(insts: Seq<Inst>, l: Seq<Thread>, v: Seq<bool>) -> bool {
    forall|p: int| #![trigger v[p]]
        0 <= p < v.len() && v[p] && is_resting(insts[p]) ==> in_list(l, p)
}

/// A well-formed generation at input offset `off` over a scan that
/// started at offset `ooff`: every pc in bounds, marked visited and
/// reachable from the scan's start, no pc listed twice, and every
/// capture snapshot of the agreed slot count.  The visited marks are
/// what keeps a generation from holding the same pc twice, bounding it
/// by the program length.
spec fn gen_inv(
    insts: Seq<Inst>,
    s: Seq<char>,
    l: Seq<Thread>,
    visited: Seq<bool>,
    nsub: nat,
    ooff: int,
    off: int,
    sub0: Seq<usize>,
) -> bool {
    &&& forall|i: int| 0 <= i < l.len() ==> (#[trigger] l[i]).pc < insts.len()
    &&& forall|i: int| 0 <= i < l.len() ==> visited[(#[trigger] l[i]).pc as int]
    &&& forall|i: int, j: int| 0 <= i < j < l.len() ==> (#[trigger] l[i]).pc != (#[trigger] l[j]).pc
    &&& forall|i: int| 0 <= i < l.len() ==> (#[trigger] l[i]).sub@.len() == nsub
    &&& forall|i: int|
        0 <= i < l.len() ==> reaches_state(insts, s, 0, ooff, (#[trigger] l[i]).pc as int, off)
    &&& forall|i: int|
        0 <= i < l.len() ==> reaches_with_caps(
            insts,
            s,
            0,
            ooff,
            sub0,
            (#[trigger] l[i]).pc as int,
            off,
            l[i].sub@,
        )
}

/// Epsilon-closure step with capture tracking: expands `t` through
/// `Jmp`, both operands of `Split` (first operand first, so generation
/// order preserves priority) and `Save` — which records `offset` into
/// the thread's own snapshot — until a consuming instruction or
/// `Match`, which are pushed onto the generation.  Visited marks
/// terminate empty-width cycles and keep pcs unique.  The closure is
/// complete as well as sound: every newly marked pc has its
/// empty-width successors marked, and every marked resting pc stands
/// in the generation.
fn add_thread(
    l: &mut Vec<Thread>,
    t: Thread,
    visited: &mut Vec<bool>,
    insts: &Vec<Inst>,
    offset: usize,
    Ghost(s): Ghost<Seq<char>>,
    Ghost(ooff): Ghost<int>,
    Ghost(goff): Ghost<int>,
    Ghost(sub0): Ghost<Seq<usize>>,
)
    requires
        prog_wf(insts@),
        old(visited)@.len() == insts@.len(),
        t.pc < insts@.len(),
        offset as int == goff,
        reaches_state(insts@, s, 0, ooff, t.pc as int, goff),
        reaches_with_caps(insts@, s, 0, ooff, sub0, t.pc as int, goff, t.sub@),
        gen_inv(insts@, s, old(l)@, old(visited)@, t.sub@.len(), ooff, goff, sub0),
        list_covers(insts@, old(l)@, old(visited)@),
    ensures
        final(visited)@.len() == insts@.len(),
        forall|i: int| 0 <= i < old(visited)@.len() && old(visited)@[i] ==> final(visited)@[i],
        count_falses(final(visited)@) <= count_falses(old(visited)@),
        final(l)@.len() >= old(l)@.len(),
        forall|i: int| 0 <= i < old(l)@.len() ==> final(l)@[i] == old(l)@[i],
        gen_inv(insts@, s, final(l)@, final(visited)@, t.sub@.len(), ooff, goff, sub0),
        list_covers(insts@, final(l)@, final(visited)@),
        final(visited)@[t.pc as int],
        forall|p: int|
            0 <= p < insts@.len() && final(visited)@[p] && !old(visited)@[p]
                ==> eps_succ_ok(insts@, final(visited)@, p),
        forall|fuel: nat|
            fuel >= count_falses(old(visited)@) + 1 ==> #[trigger] pike_close(
                insts@,
                pairs_of(old(l)@),
                old(visited)@,
                t.pc as int,
                t.sub@,
                goff,
                fuel,
            ) == (pairs_of(final(l)@), final(visited)@),
    decreases count_falses(visited@),
{
    let ghost tcaps = t.sub@;
    let pc = t.pc;
    if visited[pc] {
        proof {
            assert forall|fuel: nat|
                fuel >= count_falses(old(visited)@) + 1 implies #[trigger] pike_close(
                insts@,
                pairs_of(old(l)@),
                old(visited)@,
                t.pc as int,
                tcaps,
                goff,
                fuel,
            ) == (pairs_of(l@), visited@) by {};
        }
        return ;
    }
    visited.set(pc, true);
    proof {
        lemma_count_falses_update(old(visited)@, pc as int);
    }
    let ghost v_marked = visited@;
    match insts[pc] {
        Inst::Jmp(x) => {
            proof {
                assert(step_ok(insts@, s, (pc as int, goff), (x as int, goff)));
                lemma_reaches_step(insts@, s, 0, ooff, pc as int, goff, (x as int, goff));
                lemma_reaches_caps_step(insts@, s, 0, ooff, sub0, pc as int, goff, t.sub@, (x as int, goff));
                assert(caps_step(insts@, pc as int, goff, t.sub@) == t.sub@);
                lemma_covers_more_marks(insts@, l@, old(visited)@, visited@, pc as int);
            }
            add_thread(l, Thread::new(x, t.sub), visited, insts, offset, Ghost(s), Ghost(ooff), Ghost(goff), Ghost(sub0));
            proof {
                assert forall|fuel: nat|
                    fuel >= count_falses(old(visited)@) + 1 implies #[trigger] pike_close(
                    insts@,
                    pairs_of(old(l)@),
                    old(visited)@,
                    t.pc as int,
                    tcaps,
                    goff,
                    fuel,
                ) == (pairs_of(l@), visited@) by {
                    assert(pike_close(insts@, pairs_of(old(l)@), old(visited)@, t.pc as int, tcaps, goff, fuel)
                        == pike_close(insts@, pairs_of(old(l)@), v_marked, x as int, tcaps, goff, (fuel - 1) as nat));
                };
            }
        },
        Inst::Split(x, y) => {
            proof {
                assert(step_ok(insts@, s, (pc as int, goff), (x as int, goff)));
                assert(step_ok(insts@, s, (pc as int, goff), (y as int, goff)));
                lemma_reaches_step(insts@, s, 0, ooff, pc as int, goff, (x as int, goff));
                lemma_reaches_step(insts@, s, 0, ooff, pc as int, goff, (y as int, goff));
                lemma_reaches_caps_step(insts@, s, 0, ooff, sub0, pc as int, goff, t.sub@, (x as int, goff));
                lemma_reaches_caps_step(insts@, s, 0, ooff, sub0, pc as int, goff, t.sub@, (y as int, goff));
                assert(caps_step(insts@, pc as int, goff, t.sub@) == t.sub@);
                lemma_covers_more_marks(insts@, l@, old(visited)@, visited@, pc as int);
            }
            let sub_x = t.sub.clone();
            let ghost v1 = visited@;
            let ghost l1 = l@;
            add_thread(l, Thread::new(x, sub_x), visited, insts, offset, Ghost(s), Ghost(ooff), Ghost(goff), Ghost(sub0));
            proof {
                lemma_count_falses_mono(v1, visited@);
            }
            let ghost v2 = visited@;
            let ghost l2 = l@;
            add_thread(l, Thread::new(y, t.sub), visited, insts, offset, Ghost(s), Ghost(ooff), Ghost(goff), Ghost(sub0));
            proof {
                assert forall|fuel: nat|
                    fuel >= count_falses(old(visited)@) + 1 implies #[trigger] pike_close(
                    insts@,
                    pairs_of(old(l)@),
                    old(visited)@,
                    t.pc as int,
                    tcaps,
                    goff,
                    fuel,
                ) == (pairs_of(l@), visited@) by {
                    let f = (fuel - 1) as nat;
                    assert(f >= count_falses(v_marked) + 1);
                    assert(pike_close(insts@, pairs_of(l1), v_marked, x as int, tcaps, goff, f)
                        == (pairs_of(l2), v2));
                    assert(f >= count_falses(v2) + 1);
                    assert(pike_close(insts@, pairs_of(l2), v2, y as int, tcaps, goff, f)
                        == (pairs_of(l@), visited@));
                };
            }
        },
        Inst::Save(sn) => {
            proof {
                assert(step_ok(insts@, s, (pc as int, goff), (pc + 1 as int, goff)));
                lemma_reaches_step(insts@, s, 0, ooff, pc as int, goff, (pc + 1 as int, goff));
                lemma_reaches_caps_step(insts@, s, 0, ooff, sub0, pc as int, goff, t.sub@, (pc + 1 as int, goff));
            }
            if sn < t.sub.len() {
                let sub2 = t.sub.update(sn, offset);
                proof {
                    assert(caps_step(insts@, pc as int, goff, t.sub@) == t.sub@.update(sn as int, offset));
                    lemma_covers_more_marks(insts@, l@, old(visited)@, visited@, pc as int);
                }
                add_thread(l, Thread::new(pc + 1, sub2), visited, insts, offset, Ghost(s), Ghost(ooff), Ghost(goff), Ghost(sub0));
                proof {
                    assert forall|fuel: nat|
                        fuel >= count_falses(old(visited)@) + 1 implies #[trigger] pike_close(
                        insts@,
                        pairs_of(old(l)@),
                        old(visited)@,
                        t.pc as int,
                        tcaps,
                        goff,
                        fuel,
                    ) == (pairs_of(l@), visited@) by {
                        assert((goff as usize) == offset);
                        assert(pike_close(insts@, pairs_of(old(l)@), old(visited)@, t.pc as int, tcaps, goff, fuel)
                            == pike_close(insts@, pairs_of(old(l)@), v_marked, pc + 1 as int, tcaps.update(sn as int, offset), goff, (fuel - 1) as nat));
                    };
                }
            } else {
                proof {
                    assert(caps_step(insts@, pc as int, goff, t.sub@) == t.sub@);
                    lemma_covers_more_marks(insts@, l@, old(visited)@, visited@, pc as int);
                }
                add_thread(l, Thread::new(pc + 1, t.sub), visited, insts, offset, Ghost(s), Ghost(ooff), Ghost(goff), Ghost(sub0));
                proof {
                    assert forall|fuel: nat|
                        fuel >= count_falses(old(visited)@) + 1 implies #[trigger] pike_close(
                        insts@,
                        pairs_of(old(l)@),
                        old(visited)@,
                        t.pc as int,
                        tcaps,
                        goff,
                        fuel,
                    ) == (pairs_of(l@), visited@) by {
                        assert(pike_close(insts@, pairs_of(old(l)@), old(visited)@, t.pc as int, tcaps, goff, fuel)
                            == pike_close(insts@, pairs_of(old(l)@), v_marked, pc + 1 as int, tcaps, goff, (fuel - 1) as nat));
                    };
                }
            }
        },
        _ => {
            l.push(t);
            proof {
                assert forall|p: int|
                    0 <= p < visited@.len() && visited@[p] && is_resting(insts@[p]) implies in_list(
                    l@,
                    p,
                ) by {
                    if p == pc as int {
                        assert(l@[l@.len() - 1].pc == p);
                    } else {
                        let j = choose|j: int|
                            0 <= j < old(l)@.len() && (#[trigger] old(l)@[j]).pc == p;
                        assert(l@[j].pc == p);
                    }
                };
                assert(pairs_of(l@) =~= pairs_of(old(l)@).push((pc as int, tcaps)));
                assert forall|fuel: nat|
                    fuel >= count_falses(old(visited)@) + 1 implies #[trigger] pike_close(
                    insts@,
                    pairs_of(old(l)@),
                    old(visited)@,
                    t.pc as int,
                    tcaps,
                    goff,
                    fuel,
                ) == (pairs_of(l@), visited@) by {};
            }
        },
    }
    proof {
        lemma_count_falses_mono(old(visited)@, visited@);
        assert forall|p: int|
            0 <= p < insts@.len() && visited@[p] && !old(visited)@[p] implies eps_succ_ok(
            insts@,
            visited@,
            p,
        ) by {
            assert(inst_ok(insts@[p], p, insts@.len() as int));
        };
    }
}


/// One fully scanned, match-free, complete generation advances to a
/// complete next generation and rules out a match at its own offset:
/// the completeness invariants of the scan, packaged per round.
proof fn advance_generation_facts(
    insts: Seq<Inst>,
    s: Seq<char>,
    ooff: int,
    i: int,
    ch: Option<char>,
    gen: Seq<Thread>,
    nextgen: Seq<Thread>,
    v: Seq<bool>,
)
    requires
        0 <= ooff <= i <= s.len(),
        ch == (if i < s.len() {
            Some(s[i])
        } else {
            None::<char>
        }),
        v.len() == insts.len(),
        eps_closed(insts, v),
        list_covers(insts, nextgen, v),
        forall|k: int| 0 <= k < gen.len() ==> (#[trigger] gen[k]).pc < insts.len(),
        forall|k: int|
            0 <= k < gen.len() ==> consuming_ok(insts, ch, (#[trigger] gen[k]).pc as int, v),
        forall|k: int| 0 <= k < gen.len() ==> insts[(#[trigger] gen[k]).pc as int] != Inst::Match,
        forall|pc: int|
            0 <= pc < insts.len() && reaches_state(insts, s, 0, ooff, pc, i) && is_resting(
                insts[pc],
            ) ==> in_list(gen, pc),
        forall|end: int| ooff <= end < i ==> !accepts(insts, s, 0, ooff, end),
    ensures
        forall|pc: int|
            0 <= pc < insts.len() && reaches_state(insts, s, 0, ooff, pc, i + 1) && is_resting(
                insts[pc],
            ) ==> in_list(nextgen, pc),
        forall|end: int| ooff <= end < i + 1 ==> !accepts(insts, s, 0, ooff, end),
{
    assert forall|pc: int|
        0 <= pc < insts.len() && reaches_state(insts, s, 0, ooff, pc, i) implies consuming_ok(
        insts,
        ch,
        pc,
        v,
    ) by {
        if is_resting(insts[pc]) {
            assert(in_list(gen, pc));
            let k = choose|k: int| 0 <= k < gen.len() && (#[trigger] gen[k]).pc == pc;
            assert(consuming_ok(insts, ch, gen[k].pc as int, v));
        }
    };
    lemma_generation_step_complete(insts, s, ooff, i, ch, v);
    assert forall|pc: int|
        0 <= pc < insts.len() && reaches_state(insts, s, 0, ooff, pc, i) implies insts[pc]
        != Inst::Match by {
        if insts[pc] == Inst::Match {
            assert(in_list(gen, pc));
            let k = choose|k: int| 0 <= k < gen.len() && (#[trigger] gen[k]).pc == pc;
            assert(false);
        }
    };
    lemma_no_match_at(insts, s, ooff, i);
    assert forall|pc: int|
        0 <= pc < insts.len() && reaches_state(insts, s, 0, ooff, pc, i + 1) && is_resting(
            insts[pc],
        ) implies in_list(nextgen, pc) by {
        assert(v[pc]);
    };
}


/// One round of the reference scan, as a single rewriting fact: with
/// a nonempty generation at offset `i`, the run continues from the
/// scanned next generation at `i + 1`, the provisional captures
/// replaced when the round found a match.
proof fn run_step_fact(
    insts: Seq<Inst>,
    s: Seq<char>,
    gen_pairs: Seq<(int, Seq<usize>)>,
    i: int,
    mv0: Option<Seq<usize>>,
    ch: Option<char>,
    scan0: (Seq<(int, Seq<usize>)>, Seq<bool>, Option<Seq<usize>>),
    mv_now: Option<Seq<usize>>,
)
    requires
        0 <= i <= s.len(),
        gen_pairs.len() > 0,
        ch == (if i < s.len() {
            Some(s[i])
        } else {
            None::<char>
        }),
        scan0 == pike_scan(insts, gen_pairs, 0, ch, i + 1, Seq::empty(), no_marks(insts.len())),
        mv_now == (if scan0.2 is Some {
            scan0.2
        } else {
            mv0
        }),
    ensures
        pike_run(insts, s, gen_pairs, i, mv0) == pike_run(insts, s, scan0.0, i + 1, mv_now),
{
    reveal(pike_run);
}

/// Marking a non-resting pc leaves the generation covering: only
/// resting pcs must stand in the list.
proof fn lemma_covers_more_marks(
    insts: Seq<Inst>,
    l: Seq<Thread>,
    v_old: Seq<bool>,
    v_new: Seq<bool>,
    pc: int,
)
    requires
        list_covers(insts, l, v_old),
        v_old.len() == insts.len(),
        v_new == v_old.update(pc, true),
        0 <= pc < insts.len(),
        !is_resting(insts[pc]),
    ensures
        list_covers(insts, l, v_new),
{
    assert forall|p: int|
        0 <= p < v_new.len() && v_new[p] && is_resting(insts[p]) implies in_list(l, p) by {
        assert(p != pc);
        assert(v_old[p]);
    };
}


/// Scan one generation against the character `ch` at offset `i`:
/// consuming threads seed the next generation (built into `next` with
/// marks in `visited`), and the generation's first thread standing on
/// `Match` ends the scan at once, its snapshot returned and the
/// remaining lower-priority threads abandoned.  The result is exactly
/// one round of the reference scan, and the built generation carries
/// the invariants the next round needs.
fn scan_generation(
    insts: &Vec<Inst>,
    curr: &Vec<Thread>,
    next: &mut Vec<Thread>,
    visited: &mut Vec<bool>,
    ch: Option<char>,
    i: usize,
    Ghost(s): Ghost<Seq<char>>,
    Ghost(ooff): Ghost<int>,
    Ghost(n0): Ghost<nat>,
    Ghost(sub0): Ghost<Seq<usize>>,
) -> (found: Option<Sub>)
    requires
        prog_wf(insts@),
        s.len() < usize::MAX,
        0 <= ooff <= i as int <= s.len(),
        ch == (if (i as int) < s.len() {
            Some(s[i as int])
        } else {
            None::<char>
        }),
        old(next)@.len() == 0,
        forall|k: int| 0 <= k < curr@.len() ==> (#[trigger] curr@[k]).pc < insts@.len(),
        forall|k: int| 0 <= k < curr@.len() ==> (#[trigger] curr@[k]).sub@.len() == n0,
        forall|k: int|
            0 <= k < curr@.len() ==> reaches_state(
                insts@,
                s,
                0,
                ooff,
                (#[trigger] curr@[k]).pc as int,
                i as int,
            ),
        forall|k: int|
            0 <= k < curr@.len() ==> reaches_with_caps(
                insts@,
                s,
                0,
                ooff,
                sub0,
                (#[trigger] curr@[k]).pc as int,
                i as int,
                curr@[k].sub@,
            ),
    ensures
        final(visited)@.len() == insts@.len(),
        gen_inv(insts@, s, final(next)@, final(visited)@, n0, ooff, i + 1, sub0),
        list_covers(insts@, final(next)@, final(visited)@),
        eps_closed(insts@, final(visited)@),
        final(next)@.len() <= insts@.len(),
        (pairs_of(final(next)@), final(visited)@, opt_view(found)) == pike_scan(
            insts@,
            pairs_of(curr@),
            0,
            ch,
            i + 1,
            Seq::empty(),
            no_marks(insts@.len()),
        ),
        found matches Some(m) ==> m@.len() == n0 && accepts(insts@, s, 0, ooff, i as int)
            && accepts_with_caps(insts@, s, 0, ooff, sub0, i as int, m@),
        found is None ==> (forall|k: int|
            0 <= k < curr@.len() ==> consuming_ok(
                insts@,
                ch,
                (#[trigger] curr@[k]).pc as int,
                final(visited)@,
            )),
        found is None ==> (forall|k: int|
            0 <= k < curr@.len() ==> insts@[(#[trigger] curr@[k]).pc as int] != Inst::Match),
{
    let n = insts.len();
    let mut fresh = make_falses(n);
    core::mem::swap(visited, &mut fresh);
    let ghost curr_pairs = pairs_of(curr@);
    let ghost scan0 = pike_scan(
        insts@,
        curr_pairs,
        0,
        ch,
        i + 1,
        Seq::empty(),
        no_marks(insts@.len()),
    );
    proof {
        assert(pairs_of(next@) =~= Seq::<(int, Seq<usize>)>::empty());
        assert(visited@ =~= no_marks(insts@.len()));
    }
    let mut found: Option<Sub> = None;
    let mut j: usize = 0;
    let mut hit = false;
    while j < curr.len() && !hit
        invariant
            prog_wf(insts@),
            s.len() < usize::MAX,
            n == insts@.len(),
            0 <= ooff <= i as int <= s.len(),
            ch == (if (i as int) < s.len() {
                Some(s[i as int])
            } else {
                None::<char>
            }),
            curr_pairs == pairs_of(curr@),
            scan0 == pike_scan(
                insts@,
                curr_pairs,
                0,
                ch,
                i + 1,
                Seq::empty(),
                no_marks(insts@.len()),
            ),
            j <= curr@.len(),
            visited@.len() == n,
            forall|k: int| 0 <= k < curr@.len() ==> (#[trigger] curr@[k]).pc < n,
            forall|k: int| 0 <= k < curr@.len() ==> (#[trigger] curr@[k]).sub@.len() == n0,
            forall|k: int|
                0 <= k < curr@.len() ==> reaches_state(
                    insts@,
                    s,
                    0,
                    ooff,
                    (#[trigger] curr@[k]).pc as int,
                    i as int,
                ),
            forall|k: int|
                0 <= k < curr@.len() ==> reaches_with_caps(
                    insts@,
                    s,
                    0,
                    ooff,
                    sub0,
                    (#[trigger] curr@[k]).pc as int,
                    i as int,
                    curr@[k].sub@,
                ),
            gen_inv(insts@, s, next@, visited@, n0, ooff, i + 1, sub0),
            list_covers(insts@, next@, visited@),
            eps_closed(insts@, visited@),
            forall|k: int|
                0 <= k < j ==> consuming_ok(insts@, ch, (#[trigger] curr@[k]).pc as int, visited@),
            !hit ==> (forall|k: int|
                0 <= k < j ==> insts@[(#[trigger] curr@[k]).pc as int] != Inst::Match),
            !hit ==> pike_scan(
                insts@,
                curr_pairs,
                j as int,
                ch,
                i + 1,
                pairs_of(next@),
                visited@,
            ) == scan0,
            !hit ==> found is None,
            hit ==> (found matches Some(m) && m@.len() == n0 && accepts(insts@, s, 0, ooff, i as int)
                && accepts_with_caps(insts@, s, 0, ooff, sub0, i as int, m@) && scan0 == (
                pairs_of(next@),
                visited@,
                Some(m@),
            )),
        decreases curr@.len() - j,
    {
        let ghost v_before = visited@;
        let ghost next_before = pairs_of(next@);
        let pc = curr[j].pc;
        match insts[pc] {
            Inst::Char(c1) => {
                match ch {
                    Some(cc) => if cc != c1 {
                        proof {
                            assert(curr_pairs[j as int] == (pc as int, curr@[j as int].sub@));
                            assert(pike_scan(insts@, curr_pairs, j as int, ch, i + 1, next_before, v_before)
                                == pike_scan(insts@, curr_pairs, j + 1 as int, ch, i + 1, next_before, v_before));
                        }
                    } else {
                        let sub_j = curr[j].sub.clone();
                        proof {
                            assert(step_ok(insts@, s, (pc as int, i as int), (pc + 1 as int, i + 1)));
                            lemma_reaches_step(insts@, s, 0, ooff, pc as int, i as int, (pc + 1 as int, i + 1));
                            lemma_reaches_caps_step(
                                insts@,
                                s,
                                0,
                                ooff,
                                sub0,
                                pc as int,
                                i as int,
                                curr@[j as int].sub@,
                                (pc + 1 as int, i + 1),
                            );
                            assert(caps_step(insts@, pc as int, i as int, curr@[j as int].sub@)
                                == curr@[j as int].sub@);
                        }
                        add_thread(next, Thread::new(pc + 1, sub_j), visited, insts, i + 1, Ghost(s), Ghost(ooff), Ghost(i + 1), Ghost(sub0));
                        proof {
                            lemma_count_falses_le_len(v_before);
                            assert(curr_pairs[j as int] == (pc as int, curr@[j as int].sub@));
                            assert(pike_close(insts@, next_before, v_before, pc + 1 as int, curr@[j as int].sub@, i + 1, insts@.len() + 1)
                                == (pairs_of(next@), visited@));
                            assert(pike_scan(insts@, curr_pairs, j as int, ch, i + 1, next_before, v_before)
                                == pike_scan(insts@, curr_pairs, j + 1 as int, ch, i + 1, pairs_of(next@), visited@));
                        }
                    },
                    None => {
                        proof {
                            assert(curr_pairs[j as int] == (pc as int, curr@[j as int].sub@));
                            assert(pike_scan(insts@, curr_pairs, j as int, ch, i + 1, next_before, v_before)
                                == pike_scan(insts@, curr_pairs, j + 1 as int, ch, i + 1, next_before, v_before));
                        }
                    },
                }
            },
            Inst::Any => {
                match ch {
                    Some(_) => {
                        let sub_j = curr[j].sub.clone();
                        proof {
                            assert(step_ok(insts@, s, (pc as int, i as int), (pc + 1 as int, i + 1)));
                            lemma_reaches_step(insts@, s, 0, ooff, pc as int, i as int, (pc + 1 as int, i + 1));
                            lemma_reaches_caps_step(
                                insts@,
                                s,
                                0,
                                ooff,
                                sub0,
                                pc as int,
                                i as int,
                                curr@[j as int].sub@,
                                (pc + 1 as int, i + 1),
                            );
                            assert(caps_step(insts@, pc as int, i as int, curr@[j as int].sub@)
                                == curr@[j as int].sub@);
                        }
                        add_thread(next, Thread::new(pc + 1, sub_j), visited, insts, i + 1, Ghost(s), Ghost(ooff), Ghost(i + 1), Ghost(sub0));
                        proof {
                            lemma_count_falses_le_len(v_before);
                            assert(curr_pairs[j as int] == (pc as int, curr@[j as int].sub@));
                            assert(pike_close(insts@, next_before, v_before, pc + 1 as int, curr@[j as int].sub@, i + 1, insts@.len() + 1)
                                == (pairs_of(next@), visited@));
                            assert(pike_scan(insts@, curr_pairs, j as int, ch, i + 1, next_before, v_before)
                                == pike_scan(insts@, curr_pairs, j + 1 as int, ch, i + 1, pairs_of(next@), visited@));
                        }
                    },
                    None => {
                        proof {
                            assert(curr_pairs[j as int] == (pc as int, curr@[j as int].sub@));
                            assert(pike_scan(insts@, curr_pairs, j as int, ch, i + 1, next_before, v_before)
                                == pike_scan(insts@, curr_pairs, j + 1 as int, ch, i + 1, next_before, v_before));
                        }
                    },
                }
            },
            Inst::Match => {
                found = Some(curr[j].sub.clone());
                hit = true;
                proof {
                    assert(accepts(insts@, s, 0, ooff, i as int));
                    assert(accepts_with_caps(insts@, s, 0, ooff, sub0, i as int, curr@[j as int].sub@));
                    assert(curr_pairs[j as int] == (pc as int, curr@[j as int].sub@));
                    assert(pike_scan(insts@, curr_pairs, j as int, ch, i + 1, next_before, v_before)
                        == (next_before, v_before, Some(curr@[j as int].sub@)));
                }
            },
            _ => {
                proof {
                    assert(curr_pairs[j as int] == (pc as int, curr@[j as int].sub@));
                    assert(pike_scan(insts@, curr_pairs, j as int, ch, i + 1, next_before, v_before)
                        == pike_scan(insts@, curr_pairs, j + 1 as int, ch, i + 1, next_before, v_before));
                }
            },
        }
        proof {
            assert forall|k: int|
                0 <= k < j + 1 implies consuming_ok(
                insts@,
                ch,
                (#[trigger] curr@[k]).pc as int,
                visited@,
            ) by {
                if k < j {
                    assert(consuming_ok(insts@, ch, curr@[k].pc as int, v_before));
                }
            };
        }
        j = j + 1;
    }
    proof {
        lemma_distinct_pcs_bound(next@.map_values(|t: Thread| t.pc as int), n as nat);
        assert(next@.len() <= n);
    }
    found
}

impl VM {
    /// Pike VM: the Thompson simulation extended with per-thread
    /// capture snapshots, still linear in program size times input
    /// length.  When a thread reaches `Match`, its snapshot becomes
    /// the provisional result and the generation's remaining,
    /// lower-priority threads are abandoned; a higher-priority thread
    /// surviving into a later generation may still replace it.  On
    /// success `sub_out` holds exactly the winning thread's snapshot;
    /// on a miss it is left reset.  The answer is the machine's: a
    /// match comes with an accepting path, and a miss means no
    /// accepting path exists at all — so this engine and any engine
    /// whose answer tracks the backtracking search can never disagree
    /// on match versus no-match.  The returned captures are real: they
    /// are exactly the capture record collected along an accepting run
    /// of the machine, ending where that run accepts.
    pub fn match_pikevm(&mut self, sub_out: &mut Sub) -> (r: bool)
        requires
            prog_wf(old(self).insts@),
            old(self).s@.len() < usize::MAX,
        ensures
            final(self).insts@ == old(self).insts@,
            final(self).s@ == old(self).s@,
            final(sub_out)@.len() == old(sub_out)@.len(),
            !r ==> final(sub_out)@ == init_caps(old(sub_out)@.len()),
            !r ==> (forall|end: int|
                !accepts(
                    old(self).insts@,
                    old(self).s@,
                    0,
                    start_offset(old(self).offset as nat, old(self).s@.len()),
                    end,
                )),
            r ==> (exists|end: usize|
                end <= old(self).s@.len() && accepts(
                    old(self).insts@,
                    old(self).s@,
                    0,
                    start_offset(old(self).offset as nat, old(self).s@.len()),
                    end as int,
                ) && accepts_with_caps(
                    old(self).insts@,
                    old(self).s@,
                    0,
                    start_offset(old(self).offset as nat, old(self).s@.len()),
                    init_caps(old(sub_out)@.len()),
                    end as int,
                    final(sub_out)@,
                )),
            ({
                let m = pike_spec(
                    old(self).insts@,
                    old(self).s@,
                    old(sub_out)@.len(),
                    old(self).offset as nat,
                );
                &&& r == (m is Some)
                &&& (m matches Some(c) ==> final(sub_out)@ == c)
            }),
    {
        let ghost n0 = sub_out@.len();
        let ghost insts0 = self.insts@;
        let ghost s0 = self.s@;
        let n = self.insts.len();
        let mut curr: Vec<Thread> = Vec::new();
        let mut next: Vec<Thread> = Vec::new();
        let mut visited: Vec<bool> = make_falses(n);

        sub_out.reset();
        let mut i: usize = if self.offset <= self.s.len() {
            self.offset
        } else {
            self.s.len()
        };
        let ghost ooff = i as int;
        let ghost init0 = init_caps(n0);
        proof {
            lemma_reaches_self(insts0, s0, 0, ooff);
            lemma_reaches_caps_self(insts0, s0, 0, ooff, init0);
        }
        let t0 = Thread::new(0, Sub::new(sub_out.len()));
        let ghost spec0 = pike_spec(insts0, s0, n0, self.offset as nat);
        add_thread(&mut curr, t0, &mut visited, &self.insts, i, Ghost(s0), Ghost(ooff), Ghost(ooff), Ghost(init0));
        proof {
            lemma_count_falses_le_len(no_marks(insts0.len()));
            assert(Seq::new(n as nat, |q: int| false) =~= no_marks(insts0.len()));
            assert(pairs_of(Seq::<Thread>::empty()) =~= Seq::<(int, Seq<usize>)>::empty());
            assert(pike_close(insts0, Seq::empty(), no_marks(insts0.len()), 0, init0, ooff, insts0.len() + 1)
                == (pairs_of(curr@), visited@));
            reveal(pike_run);
            reveal(pike_spec);
            assert(pike_run(insts0, s0, pairs_of(curr@), ooff, None::<Seq<usize>>) == spec0);
            assert(eps_closed(insts0, visited@));
            assert forall|pc: int|
                0 <= pc < n && reaches_state(insts0, s0, 0, ooff, pc, ooff) && is_resting(
                    insts0[pc],
                ) implies in_list(curr@, pc) by {
                let p = choose|p: Seq<(int, int)>|
                    path_ok(insts0, s0, p) && p.first() == (0int, ooff) && p.last() == (pc, ooff);
                lemma_eps_closure_contains(insts0, s0, visited@, p);
            };
        }

        let mut matched: Option<Sub> = None;
        let ghost mut end_g: usize = 0;
        #[verifier::rlimit(100)]
        while i <= self.s.len()
            invariant
                prog_wf(insts0),
                insts0 == old(self).insts@,
                s0 == old(self).s@,
                n0 == old(sub_out)@.len(),
                ooff == start_offset(old(self).offset as nat, s0.len()),
                self.insts@ == insts0,
                self.s@ == s0,
                s0.len() < usize::MAX,
                n == insts0.len(),
                0 <= ooff <= i <= s0.len() + 1,
                ooff <= s0.len(),
                visited@.len() == n,
                next@.len() == 0,
                init0 == init_caps(n0),
                gen_inv(insts0, s0, curr@, visited@, n0, ooff, i as int, init0),
                list_covers(insts0, curr@, visited@),
                eps_closed(insts0, visited@),
                sub_out@.len() == n0,
                sub_out@ == init_caps(n0),
                matched matches Some(m) ==> m@.len() == n0 && end_g <= s0.len() && accepts(
                    insts0,
                    s0,
                    0,
                    ooff,
                    end_g as int,
                ) && accepts_with_caps(insts0, s0, 0, ooff, init0, end_g as int, m@),
                matched is None ==> (forall|pc: int|
                    0 <= pc < n && reaches_state(insts0, s0, 0, ooff, pc, i as int) && is_resting(
                        insts0[pc],
                    ) ==> in_list(curr@, pc)),
                matched is None ==> (forall|end: int|
                    ooff <= end < i ==> !accepts(insts0, s0, 0, ooff, end)),
                spec0 == pike_spec(insts0, s0, n0, old(self).offset as nat),
                pike_run(insts0, s0, pairs_of(curr@), i as int, opt_view(matched)) == spec0,
            decreases s0.len() + 1 - i,
        {
            let ghost curr_start = curr@;
            let ghost mv0 = opt_view(matched);
            let ch: Option<char> = if i < self.s.len() {
                Some(self.s[i])
            } else {
                None
            };
            if curr.len() == 0 {
                proof {
                    assert(pairs_of(curr@).len() == 0);
                }
                match matched {
                    Some(sub) => {
                        proof {
                            assert(accepts(insts0, s0, 0, ooff, end_g as int));
                            reveal(pike_run);
                            assert(spec0 == Some(sub@));
                        }
                        *sub_out = sub;
                        return true;
                    },
                    None => {
                        proof {
                            assert forall|pc: int|
                                0 <= pc < insts0.len() && reaches_state(insts0, s0, 0, ooff, pc, i as int)
                                    implies !is_resting(#[trigger] insts0[pc]) by {
                                if is_resting(insts0[pc]) {
                                    assert(in_list(curr@, pc));
                                    let k = choose|k: int|
                                        0 <= k < curr@.len() && (#[trigger] curr@[k]).pc == pc;
                                    assert(false);
                                }
                            };
                            assert forall|end: int| !accepts(insts0, s0, 0, ooff, end) by {
                                lemma_no_accepts_no_threads(insts0, s0, ooff, end, i as int);
                            };
                            reveal(pike_run);
                            assert(spec0 is None);
                        }
                        return false;
                    },
                }
            }
            let found = scan_generation(
                &self.insts,
                &curr,
                &mut next,
                &mut visited,
                ch,
                i,
                Ghost(s0),
                Ghost(ooff),
                Ghost(n0),
                Ghost(init0),
            );
            let ghost foundv = opt_view(found);
            match found {
                Some(m) => {
                    proof {
                        end_g = i;
                    }
                    matched = Some(m);
                },
                None => {},
            }
            let tmp = curr;
            curr = next;
            next = tmp;
            next.clear();
            proof {
                if matched is None {
                    advance_generation_facts(insts0, s0, ooff, i as int, ch, curr_start, curr@, visited@);
                }
                let mv_now = opt_view(matched);
                let scan0 = pike_scan(
                    insts0,
                    pairs_of(curr_start),
                    0,
                    ch,
                    i + 1,
                    Seq::empty(),
                    no_marks(insts0.len()),
                );
                assert(scan0 == (pairs_of(curr@), visited@, foundv));
                assert(mv_now == (if scan0.2 is Some {
                    scan0.2
                } else {
                    mv0
                }));
                run_step_fact(insts0, s0, pairs_of(curr_start), i as int, mv0, ch, scan0, mv_now);
                assert(pike_run(insts0, s0, pairs_of(curr@), i + 1, mv_now) == spec0);
            }
            i = i + 1;
        }
        proof {
            if matched is None {
                assert forall|end: int| !accepts(insts0, s0, 0, ooff, end) by {
                    lemma_no_accepts_past_input(insts0, s0, ooff, end, i as int);
                };
            }
        }
        match matched {
            Some(sub) => {
                proof {
                    assert(accepts(insts0, s0, 0, ooff, end_g as int));
                    reveal(pike_run);
                    assert(spec0 == Some(sub@));
                }
                *sub_out = sub;
                true
            },
            None => {
                proof {
                    reveal(pike_run);
                    assert(spec0 is None);
                }
                false
            },
        }
    }
}

} // verus!
