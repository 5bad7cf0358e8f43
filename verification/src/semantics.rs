use vstd::prelude::*;

use crate::regexp::Inst;

verus! {

/// Outcome of the prioritized backtracking search with a bounded
/// exploration depth: a match with the final capture slots, a definite
/// failure, or depth exhaustion before the search could decide.
pub enum BtOut {
    Found(Seq<usize>),
    NotFound,
    Spent,
}

/// The reference semantics every capture-reporting engine is measured
/// against: a depth-bounded, leftmost-first backtracking search of the
/// program from `pc` at input offset `off` with capture slots `sub`.
///
/// `Split` commits to its first operand and falls back to the second
/// only on definite failure, which is exactly the priority order the
/// compiler encodes; `Save` records the offset functionally, so a
/// failed branch leaves no trace.  One unit of `fuel` is spent per
/// instruction visited; `Spent` reports that the bound was hit before
/// the search decided.
pub open spec fn bt(
    insts: Seq<Inst>,
    s: Seq<char>,
    pc: int,
    off: int,
    sub: Seq<usize>,
    fuel: nat,
) -> BtOut
    decreases fuel,
{
    if fuel == 0 {
        BtOut::Spent
    } else if pc < 0 || pc >= insts.len() {
        BtOut::NotFound
    } else {
        let f = (fuel - 1) as nat;
        match insts[pc] {
            Inst::Char(c) => if 0 <= off < s.len() && s[off] == c {
                bt(insts, s, pc + 1, off + 1, sub, f)
            } else {
                BtOut::NotFound
            },
            Inst::Any => if 0 <= off < s.len() {
                bt(insts, s, pc + 1, off + 1, sub, f)
            } else {
                BtOut::NotFound
            },
            Inst::Match => BtOut::Found(sub),
            Inst::Jmp(x) => bt(insts, s, x as int, off, sub, f),
            Inst::Split(x, y) => {
                let rx = bt(insts, s, x as int, off, sub, f);
                if rx is NotFound {
                    bt(insts, s, y as int, off, sub, f)
                } else {
                    rx
                }
            },
            Inst::Save(n) => if n < sub.len() {
                bt(insts, s, pc + 1, off, sub.update(n as int, off as usize), f)
            } else {
                bt(insts, s, pc + 1, off, sub, f)
            },
        }
    }
}

/// Raising the depth bound never changes a decided outcome: once the
/// search returns `Found` or `NotFound` at some depth, every larger
/// depth returns the same thing.
pub proof fn lemma_bt_mono(
    insts: Seq<Inst>,
    s: Seq<char>,
    pc: int,
    off: int,
    sub: Seq<usize>,
    f1: nat,
    f2: nat,
)
    requires
        f1 <= f2,
        bt(insts, s, pc, off, sub, f1) != BtOut::Spent,
    ensures
        bt(insts, s, pc, off, sub, f2) == bt(insts, s, pc, off, sub, f1),
    decreases f1,
{
    if f1 == 0 {
        // bt at depth 0 is Spent, contradicting the premise.
    } else if pc < 0 || pc >= insts.len() {
    } else {
        let g1 = (f1 - 1) as nat;
        let g2 = (f2 - 1) as nat;
        match insts[pc] {
            Inst::Char(c) => {
                if 0 <= off < s.len() && s[off] == c {
                    lemma_bt_mono(insts, s, pc + 1, off + 1, sub, g1, g2);
                }
            },
            Inst::Any => {
                if 0 <= off < s.len() {
                    lemma_bt_mono(insts, s, pc + 1, off + 1, sub, g1, g2);
                }
            },
            Inst::Match => {},
            Inst::Jmp(x) => {
                lemma_bt_mono(insts, s, x as int, off, sub, g1, g2);
            },
            Inst::Split(x, y) => {
                let rx = bt(insts, s, x as int, off, sub, g1);
                if rx is NotFound {
                    lemma_bt_mono(insts, s, x as int, off, sub, g1, g2);
                    lemma_bt_mono(insts, s, y as int, off, sub, g1, g2);
                } else {
                    lemma_bt_mono(insts, s, x as int, off, sub, g1, g2);
                }
            },
            Inst::Save(n) => {
                if n < sub.len() {
                    lemma_bt_mono(insts, s, pc + 1, off, sub.update(n as int, off as usize), g1, g2);
                } else {
                    lemma_bt_mono(insts, s, pc + 1, off, sub, g1, g2);
                }
            },
        }
    }
}

/// Cross-engine equivalence, at the level of the shared search
/// semantics: any two searches of the same program, input and initial
/// capture store that both reach a decision reach the same decision.
/// Each engine's contract ties its answer to `bt` at some depth, so
/// two engines that both answer definitely must agree, captures
/// included.
pub proof fn lemma_bt_deterministic(
    insts: Seq<Inst>,
    s: Seq<char>,
    pc: int,
    off: int,
    sub: Seq<usize>,
    f1: nat,
    f2: nat,
)
    requires
        bt(insts, s, pc, off, sub, f1) != BtOut::Spent,
        bt(insts, s, pc, off, sub, f2) != BtOut::Spent,
    ensures
        bt(insts, s, pc, off, sub, f1) == bt(insts, s, pc, off, sub, f2),
{
    if f1 <= f2 {
        lemma_bt_mono(insts, s, pc, off, sub, f1, f2);
    } else {
        lemma_bt_mono(insts, s, pc, off, sub, f2, f1);
    }
}


/// Cross-engine agreement: an engine whose answer is the search at a
/// fixed depth (the recursive engines) and an engine whose answer is
/// the search at some depth (the explicit-stack engine) must agree
/// whenever both decide, captures included.
pub proof fn lemma_search_agreement(
    insts: Seq<Inst>,
    s: Seq<char>,
    pc: int,
    off: int,
    sub: Seq<usize>,
    f: nat,
    r: BtOut,
)
    requires
        bt(insts, s, pc, off, sub, f) != BtOut::Spent,
        r != BtOut::Spent,
        bt_reaches(insts, s, pc, off, sub, r),
    ensures
        bt(insts, s, pc, off, sub, f) == r,
{
    let f2 = choose|f2: nat| bt(insts, s, pc, off, sub, f2) == r;
    lemma_bt_deterministic(insts, s, pc, off, sub, f, f2);
}


/// A definite "no match" from the backtracking search is final: no
/// accepting path of the machine exists, at any end offset.  Together
/// with `lemma_bt_found_accepts` this is cross-engine equivalence on
/// match versus no-match: an engine answering through the search and
/// an engine answering through path existence can never disagree.
pub proof fn lemma_refusal_is_final(
    insts: Seq<Inst>,
    s: Seq<char>,
    pc: int,
    off: int,
    sub: Seq<usize>,
    fuel: nat,
)
    requires
        bt(insts, s, pc, off, sub, fuel) == BtOut::NotFound,
    ensures
        forall|end: int| !accepts(insts, s, pc, off, end),
{
    assert forall|end: int| !accepts(insts, s, pc, off, end) by {
        if accepts(insts, s, pc, off, end) {
            lemma_accepts_not_refused(insts, s, pc, off, end, sub, fuel);
        }
    };
}

/// One deferred alternative of a backtracking search: a program
/// counter, an input offset, and that alternative's capture snapshot.
pub struct BtFrame {
    pub pc: int,
    pub off: int,
    pub sub: Seq<usize>,
}

/// Search a stack of deferred alternatives, most recently deferred
/// first, each alternative explored to depth `fuel`.
pub open spec fn bt_frames(insts: Seq<Inst>, s: Seq<char>, frames: Seq<BtFrame>, fuel: nat) -> BtOut
    decreases frames.len(),
{
    if frames.len() == 0 {
        BtOut::NotFound
    } else {
        let top = frames.last();
        let r = bt(insts, s, top.pc, top.off, top.sub, fuel);
        if r is NotFound {
            bt_frames(insts, s, frames.drop_last(), fuel)
        } else {
            r
        }
    }
}

/// `lemma_bt_mono`, lifted to a stack of alternatives.
pub proof fn lemma_bt_frames_mono(
    insts: Seq<Inst>,
    s: Seq<char>,
    frames: Seq<BtFrame>,
    f1: nat,
    f2: nat,
)
    requires
        f1 <= f2,
        bt_frames(insts, s, frames, f1) != BtOut::Spent,
    ensures
        bt_frames(insts, s, frames, f2) == bt_frames(insts, s, frames, f1),
    decreases frames.len(),
{
    if frames.len() == 0 {
    } else {
        let top = frames.last();
        let r = bt(insts, s, top.pc, top.off, top.sub, f1);
        if r is NotFound {
            lemma_bt_mono(insts, s, top.pc, top.off, top.sub, f1, f2);
            lemma_bt_frames_mono(insts, s, frames.drop_last(), f1, f2);
        } else {
            lemma_bt_mono(insts, s, top.pc, top.off, top.sub, f1, f2);
        }
    }
}

/// Some depth decides the search of this stack as `r`.
pub open spec fn reaches_stack(insts: Seq<Inst>, s: Seq<char>, frames: Seq<BtFrame>, r: BtOut) -> bool {
    exists|f: nat| bt_frames(insts, s, frames, f) == r
}

/// Some depth decides the search from this start state as `r`.
pub open spec fn bt_reaches(
    insts: Seq<Inst>,
    s: Seq<char>,
    pc: int,
    off: int,
    sub: Seq<usize>,
    r: BtOut,
) -> bool {
    exists|f: nat| bt(insts, s, pc, off, sub, f) == r
}

/// A stack holding a single alternative searches exactly like that
/// alternative.
pub proof fn lemma_frames_single(insts: Seq<Inst>, s: Seq<char>, t: BtFrame, fuel: nat)
    ensures
        bt_frames(insts, s, seq![t], fuel) == bt(insts, s, t.pc, t.off, t.sub, fuel),
{
    let frames = seq![t];
    assert(frames.len() == 1);
    assert(frames.last() == t);
    assert(frames.drop_last() =~= Seq::<BtFrame>::empty());
    assert(bt_frames(insts, s, frames.drop_last(), fuel) == BtOut::NotFound);
}

/// Replacing the top alternative by the single state it steps to (one
/// instruction, no branching) preserves every decided outcome.
pub proof fn lemma_frames_step(
    insts: Seq<Inst>,
    s: Seq<char>,
    frames: Seq<BtFrame>,
    t: BtFrame,
    u: BtFrame,
    r: BtOut,
)
    requires
        forall|f: nat| #[trigger] bt(insts, s, t.pc, t.off, t.sub, f + 1) == bt(
            insts,
            s,
            u.pc,
            u.off,
            u.sub,
            f,
        ),
        r != BtOut::Spent,
        reaches_stack(insts, s, frames.push(u), r),
    ensures
        reaches_stack(insts, s, frames.push(t), r),
{
    let f = choose|f: nat| bt_frames(insts, s, frames.push(u), f) == r;
    assert(frames.push(u).last() == u);
    assert(frames.push(u).drop_last() =~= frames);
    assert(frames.push(t).last() == t);
    assert(frames.push(t).drop_last() =~= frames);
    let ru = bt(insts, s, u.pc, u.off, u.sub, f);
    assert(bt(insts, s, t.pc, t.off, t.sub, f + 1) == ru);
    if ru is NotFound {
        // r came from the rest of the stack at depth f.
        assert(bt_frames(insts, s, frames, f) == r);
        lemma_bt_frames_mono(insts, s, frames, f, f + 1);
        assert(bt_frames(insts, s, frames.push(t), f + 1) == r);
    } else if ru is Spent {
        assert(bt_frames(insts, s, frames.push(u), f) == BtOut::Spent);
    } else {
        assert(bt_frames(insts, s, frames.push(t), f + 1) == r);
    }
    assert(bt_frames(insts, s, frames.push(t), f + 1) == r);
}

/// Expanding the top alternative at a `Split` into its two operand
/// states, first operand on top, preserves every decided outcome.
pub proof fn lemma_frames_split(
    insts: Seq<Inst>,
    s: Seq<char>,
    frames: Seq<BtFrame>,
    t: BtFrame,
    x: usize,
    y: usize,
    r: BtOut,
)
    requires
        0 <= t.pc < insts.len(),
        insts[t.pc] == Inst::Split(x, y),
        r != BtOut::Spent,
        reaches_stack(
            insts,
            s,
            frames.push(BtFrame { pc: y as int, off: t.off, sub: t.sub }).push(
                BtFrame { pc: x as int, off: t.off, sub: t.sub },
            ),
            r,
        ),
    ensures
        reaches_stack(insts, s, frames.push(t), r),
{
    let tx = BtFrame { pc: x as int, off: t.off, sub: t.sub };
    let ty = BtFrame { pc: y as int, off: t.off, sub: t.sub };
    let st1 = frames.push(ty);
    let st2 = st1.push(tx);
    let f = choose|f: nat| bt_frames(insts, s, st2, f) == r;
    assert(st2.last() == tx);
    assert(st2.drop_last() =~= st1);
    assert(st1.last() == ty);
    assert(st1.drop_last() =~= frames);
    assert(frames.push(t).last() == t);
    assert(frames.push(t).drop_last() =~= frames);
    let rx = bt(insts, s, tx.pc, tx.off, tx.sub, f);
    let ry = bt(insts, s, ty.pc, ty.off, ty.sub, f);
    if rx is NotFound {
        assert(bt_frames(insts, s, st2, f) == bt_frames(insts, s, st1, f));
        if ry is NotFound {
            assert(bt_frames(insts, s, st1, f) == bt_frames(insts, s, frames, f));
            assert(bt_frames(insts, s, frames, f) == r);
            assert(bt(insts, s, t.pc, t.off, t.sub, f + 1) == BtOut::NotFound);
            lemma_bt_frames_mono(insts, s, frames, f, f + 1);
            assert(bt_frames(insts, s, frames.push(t), f + 1) == r);
        } else if ry is Spent {
            assert(bt_frames(insts, s, st1, f) == BtOut::Spent);
            assert(bt_frames(insts, s, st2, f) == BtOut::Spent);
        } else {
            assert(r == ry);
            assert(bt(insts, s, t.pc, t.off, t.sub, f + 1) == ry);
            assert(bt_frames(insts, s, frames.push(t), f + 1) == r);
        }
    } else if rx is Spent {
        assert(bt_frames(insts, s, st2, f) == BtOut::Spent);
    } else {
        assert(r == rx);
        assert(bt(insts, s, t.pc, t.off, t.sub, f + 1) == rx);
        assert(bt_frames(insts, s, frames.push(t), f + 1) == r);
    }
    assert(bt_frames(insts, s, frames.push(t), f + 1) == r);
}

/// Discarding a top alternative that fails at every depth preserves
/// every decided outcome.
pub proof fn lemma_frames_dead(
    insts: Seq<Inst>,
    s: Seq<char>,
    frames: Seq<BtFrame>,
    t: BtFrame,
    r: BtOut,
)
    requires
        forall|f: nat| #[trigger] bt(insts, s, t.pc, t.off, t.sub, f + 1) == BtOut::NotFound,
        r != BtOut::Spent,
        reaches_stack(insts, s, frames, r),
    ensures
        reaches_stack(insts, s, frames.push(t), r),
{
    let f = choose|f: nat| bt_frames(insts, s, frames, f) == r;
    assert(frames.push(t).last() == t);
    assert(frames.push(t).drop_last() =~= frames);
    assert(bt(insts, s, t.pc, t.off, t.sub, f + 1) == BtOut::NotFound);
    lemma_bt_frames_mono(insts, s, frames, f, f + 1);
    assert(bt_frames(insts, s, frames.push(t), f + 1) == r);
}

/// A top alternative standing on `Match` decides the stack as `Found`
/// with that alternative's captures, already at depth 1.
pub proof fn lemma_frames_found(insts: Seq<Inst>, s: Seq<char>, frames: Seq<BtFrame>, t: BtFrame)
    requires
        0 <= t.pc < insts.len(),
        insts[t.pc] == Inst::Match,
    ensures
        bt_frames(insts, s, frames.push(t), 1) == BtOut::Found(t.sub),
{
    assert(frames.push(t).last() == t);
    assert(bt(insts, s, t.pc, t.off, t.sub, 1) == BtOut::Found(t.sub));
}



/// One move of the nondeterministic machine: from state `a` (a pc and
/// an input offset) to state `b`, consuming a character at `Char` and
/// `Any` and nothing elsewhere.  `Match` has no successor.
pub open spec fn step_ok(insts: Seq<Inst>, s: Seq<char>, a: (int, int), b: (int, int)) -> bool {
    let (pc, off) = a;
    0 <= pc < insts.len() && match insts[pc] {
        Inst::Char(c) => 0 <= off < s.len() && s[off] == c && b == (pc + 1, off + 1),
        Inst::Any => 0 <= off < s.len() && b == (pc + 1, off + 1),
        Inst::Match => false,
        Inst::Jmp(x) => b == (x as int, off),
        Inst::Split(x, y) => b == (x as int, off) || b == (y as int, off),
        Inst::Save(_) => b == (pc + 1, off),
    }
}

/// A nonempty sequence of states each of which steps to the next.
pub open spec fn path_ok(insts: Seq<Inst>, s: Seq<char>, p: Seq<(int, int)>) -> bool {
    p.len() >= 1 && (forall|i: int| #![trigger p[i]]
        0 <= i < p.len() - 1 ==> step_ok(insts, s, p[i], p[i + 1]))
}

/// Some path of the machine leads from one state to another.
pub open spec fn reaches_state(
    insts: Seq<Inst>,
    s: Seq<char>,
    pc0: int,
    off0: int,
    pc: int,
    off: int,
) -> bool {
    exists|p: Seq<(int, int)>|
        path_ok(insts, s, p) && p.first() == (pc0, off0) && p.last() == (pc, off)
}

/// The machine accepts from `(pc0, off0)`: some path reaches a `Match`
/// instruction at input offset `end`.
pub open spec fn accepts(insts: Seq<Inst>, s: Seq<char>, pc0: int, off0: int, end: int) -> bool {
    exists|pc: int|
        0 <= pc < insts.len() && #[trigger] insts[pc] == Inst::Match && reaches_state(
            insts,
            s,
            pc0,
            off0,
            pc,
            end,
        )
}

/// Every state reaches itself, by the one-state path.
pub proof fn lemma_reaches_self(insts: Seq<Inst>, s: Seq<char>, pc: int, off: int)
    ensures
        reaches_state(insts, s, pc, off, pc, off),
{
    let p: Seq<(int, int)> = seq![(pc, off)];
    assert(p.first() == (pc, off));
    assert(p.last() == (pc, off));
    assert(path_ok(insts, s, p));
}

/// A path extends by any step its last state can take.
pub proof fn lemma_path_snoc(insts: Seq<Inst>, s: Seq<char>, p: Seq<(int, int)>, b: (int, int))
    requires
        path_ok(insts, s, p),
        step_ok(insts, s, p.last(), b),
    ensures
        path_ok(insts, s, p.push(b)),
        p.push(b).first() == p.first(),
        p.push(b).last() == b,
{
    let q = p.push(b);
    assert forall|i: int| 0 <= i < q.len() - 1 implies #[trigger] step_ok(insts, s, q[i], q[i + 1]) by {
        if i < p.len() - 1 {
            assert(q[i] == p[i]);
            assert(q[i + 1] == p[i + 1]);
            assert(step_ok(insts, s, p[i], p[i + 1]));
        } else {
            assert(q[i] == p.last());
            assert(q[i + 1] == b);
        }
    };
}

/// Reachability extends by a step at the far end.
pub proof fn lemma_reaches_step(
    insts: Seq<Inst>,
    s: Seq<char>,
    pc0: int,
    off0: int,
    pc: int,
    off: int,
    b: (int, int),
)
    requires
        reaches_state(insts, s, pc0, off0, pc, off),
        step_ok(insts, s, (pc, off), b),
    ensures
        reaches_state(insts, s, pc0, off0, b.0, b.1),
{
    let p = choose|p: Seq<(int, int)>|
        path_ok(insts, s, p) && p.first() == (pc0, off0) && p.last() == (pc, off);
    lemma_path_snoc(insts, s, p, b);
}

/// Wherever the depth-bounded search finds a match, an accepting path
/// exists, ending no earlier than where the search began.
pub proof fn lemma_bt_found_accepts(
    insts: Seq<Inst>,
    s: Seq<char>,
    pc: int,
    off: int,
    sub: Seq<usize>,
    fuel: nat,
)
    requires
        0 <= off <= s.len(),
        bt(insts, s, pc, off, sub, fuel) matches BtOut::Found(_),
    ensures
        exists|end: int| off <= end <= s.len() && #[trigger] accepts(insts, s, pc, off, end),
    decreases fuel,
{
    let f = (fuel - 1) as nat;
    match insts[pc] {
        Inst::Char(c) => {
            lemma_bt_found_accepts(insts, s, pc + 1, off + 1, sub, f);
            let end = choose|end: int|
                off + 1 <= end <= s.len() && #[trigger] accepts(insts, s, pc + 1, off + 1, end);
            lemma_accepts_prepend(insts, s, pc, off, (pc + 1, off + 1), end);
        },
        Inst::Any => {
            lemma_bt_found_accepts(insts, s, pc + 1, off + 1, sub, f);
            let end = choose|end: int|
                off + 1 <= end <= s.len() && #[trigger] accepts(insts, s, pc + 1, off + 1, end);
            lemma_accepts_prepend(insts, s, pc, off, (pc + 1, off + 1), end);
        },
        Inst::Match => {
            lemma_reaches_self(insts, s, pc, off);
            assert(accepts(insts, s, pc, off, off));
        },
        Inst::Jmp(x) => {
            lemma_bt_found_accepts(insts, s, x as int, off, sub, f);
            let end = choose|end: int|
                off <= end <= s.len() && #[trigger] accepts(insts, s, x as int, off, end);
            lemma_accepts_prepend(insts, s, pc, off, (x as int, off), end);
        },
        Inst::Split(x, y) => {
            let rx = bt(insts, s, x as int, off, sub, f);
            if rx is NotFound {
                lemma_bt_found_accepts(insts, s, y as int, off, sub, f);
                let end = choose|end: int|
                    off <= end <= s.len() && #[trigger] accepts(insts, s, y as int, off, end);
                lemma_accepts_prepend(insts, s, pc, off, (y as int, off), end);
            } else {
                lemma_bt_found_accepts(insts, s, x as int, off, sub, f);
                let end = choose|end: int|
                    off <= end <= s.len() && #[trigger] accepts(insts, s, x as int, off, end);
                lemma_accepts_prepend(insts, s, pc, off, (x as int, off), end);
            }
        },
        Inst::Save(n) => {
            if n < sub.len() {
                lemma_bt_found_accepts(insts, s, pc + 1, off, sub.update(n as int, off as usize), f);
            } else {
                lemma_bt_found_accepts(insts, s, pc + 1, off, sub, f);
            }
            let end = choose|end: int|
                off <= end <= s.len() && #[trigger] accepts(insts, s, pc + 1, off, end);
            lemma_accepts_prepend(insts, s, pc, off, (pc + 1, off), end);
        },
    }
}

/// Acceptance extends backwards over one step.
proof fn lemma_accepts_prepend(
    insts: Seq<Inst>,
    s: Seq<char>,
    pc: int,
    off: int,
    b: (int, int),
    end: int,
)
    requires
        step_ok(insts, s, (pc, off), b),
        accepts(insts, s, b.0, b.1, end),
    ensures
        accepts(insts, s, pc, off, end),
{
    let mpc = choose|mpc: int|
        0 <= mpc < insts.len() && #[trigger] insts[mpc] == Inst::Match && reaches_state(
            insts,
            s,
            b.0,
            b.1,
            mpc,
            end,
        );
    let p = choose|p: Seq<(int, int)>|
        path_ok(insts, s, p) && p.first() == (b.0, b.1) && p.last() == (mpc, end);
    let q = seq![(pc, off)] + p;
    assert(q.first() == (pc, off));
    assert(q.last() == (mpc, end));
    assert forall|i: int| 0 <= i < q.len() - 1 implies #[trigger] step_ok(insts, s, q[i], q[i + 1]) by {
        if i == 0 {
            assert(q[0] == (pc, off));
            assert(q[1] == p[0]);
            assert(p[0] == p.first());
        } else {
            assert(q[i] == p[i - 1]);
            assert(q[i + 1] == p[i]);
            assert(step_ok(insts, s, p[i - 1], p[i]));
        }
    };
    assert(path_ok(insts, s, q));
    assert(reaches_state(insts, s, pc, off, mpc, end));
}

/// Where an accepting path exists, no depth of the search answers
/// "no match": the engines whose contracts go through `bt` can never
/// contradict an engine that exhibited an accepting path.
pub proof fn lemma_accepts_not_refused(
    insts: Seq<Inst>,
    s: Seq<char>,
    pc: int,
    off: int,
    end: int,
    sub: Seq<usize>,
    fuel: nat,
)
    requires
        accepts(insts, s, pc, off, end),
    ensures
        bt(insts, s, pc, off, sub, fuel) != BtOut::NotFound,
{
    let mpc = choose|mpc: int|
        0 <= mpc < insts.len() && #[trigger] insts[mpc] == Inst::Match && reaches_state(
            insts,
            s,
            pc,
            off,
            mpc,
            end,
        );
    let p = choose|p: Seq<(int, int)>|
        path_ok(insts, s, p) && p.first() == (pc, off) && p.last() == (mpc, end);
    lemma_path_not_refused(insts, s, p, sub, fuel);
}

/// A path ending on `Match` rules out the `NotFound` answer at its
/// start, whatever the capture store and the depth.
proof fn lemma_path_not_refused(
    insts: Seq<Inst>,
    s: Seq<char>,
    p: Seq<(int, int)>,
    sub: Seq<usize>,
    fuel: nat,
)
    requires
        path_ok(insts, s, p),
        0 <= p.last().0 < insts.len(),
        insts[p.last().0] == Inst::Match,
    ensures
        bt(insts, s, p.first().0, p.first().1, sub, fuel) != BtOut::NotFound,
    decreases p.len(),
{
    if fuel == 0 {
        return ;
    }
    let (pc, off) = p.first();
    if p.len() == 1 {
        assert(bt(insts, s, pc, off, sub, fuel) == BtOut::Found(sub));
    } else {
        assert(step_ok(insts, s, p[0], p[1]));
        let q = p.drop_first();
        assert(q.first() == p[1]);
        assert(q.last() == p.last());
        assert forall|i: int| 0 <= i < q.len() - 1 implies #[trigger] step_ok(insts, s, q[i], q[i + 1]) by {
            assert(q[i] == p[i + 1]);
            assert(q[i + 1] == p[i + 2]);
            assert(step_ok(insts, s, p[i + 1], p[i + 2]));
        };
        let f = (fuel - 1) as nat;
        match insts[pc] {
            Inst::Char(c) => {
                lemma_path_not_refused(insts, s, q, sub, f);
            },
            Inst::Any => {
                lemma_path_not_refused(insts, s, q, sub, f);
            },
            Inst::Match => {},
            Inst::Jmp(x) => {
                lemma_path_not_refused(insts, s, q, sub, f);
            },
            Inst::Split(x, y) => {
                if p[1] == (x as int, off) {
                    lemma_path_not_refused(insts, s, q, sub, f);
                } else {
                    lemma_path_not_refused(insts, s, q, sub, f);
                }
            },
            Inst::Save(n) => {
                if n < sub.len() {
                    lemma_path_not_refused(insts, s, q, sub.update(n as int, off as usize), f);
                } else {
                    lemma_path_not_refused(insts, s, q, sub, f);
                }
            },
        }
    }
}


/// Where an engine's scan begins: the cursor's offset, clamped to the
/// input length.
pub open spec fn start_offset(off: nat, len: nat) -> int {
    if off <= len {
        off as int
    } else {
        len as int
    }
}


/// The empty-width successors of `p` are all marked in `v`: what an
/// epsilon closure guarantees of every pc it has expanded.
pub open spec fn eps_succ_ok(insts: Seq<Inst>, v: Seq<bool>, p: int) -> bool {
    match insts[p] {
        Inst::Jmp(x) => v[x as int],
        Inst::Split(x, y) => v[x as int] && v[y as int],
        Inst::Save(_) => v[p + 1],
        _ => true,
    }
}

/// A visited buffer closed under empty-width steps.
pub open spec fn eps_closed(insts: Seq<Inst>, v: Seq<bool>) -> bool {
    forall|p: int| #![trigger v[p]] 0 <= p < insts.len() && v[p] ==> eps_succ_ok(insts, v, p)
}

/// Dropping a path's first state leaves a path.
pub proof fn lemma_path_drop_first(insts: Seq<Inst>, s: Seq<char>, p: Seq<(int, int)>)
    requires
        path_ok(insts, s, p),
        p.len() >= 2,
    ensures
        path_ok(insts, s, p.drop_first()),
        p.drop_first().first() == p[1],
        p.drop_first().last() == p.last(),
{
    let q = p.drop_first();
    assert forall|i: int| #![trigger q[i]] 0 <= i < q.len() - 1 implies step_ok(insts, s, q[i], q[i + 1]) by {
        assert(q[i] == p[i + 1]);
        assert(q[i + 1] == p[i + 2]);
        assert(step_ok(insts, s, p[i + 1], p[i + 2]));
    };
}

/// Dropping a path's last state leaves a path.
pub proof fn lemma_path_drop_last(insts: Seq<Inst>, s: Seq<char>, p: Seq<(int, int)>)
    requires
        path_ok(insts, s, p),
        p.len() >= 2,
    ensures
        path_ok(insts, s, p.drop_last()),
        p.drop_last().first() == p.first(),
        p.drop_last().last() == p[p.len() - 2],
{
    let q = p.drop_last();
    assert forall|i: int| #![trigger q[i]] 0 <= i < q.len() - 1 implies step_ok(insts, s, q[i], q[i + 1]) by {
        assert(q[i] == p[i]);
        assert(q[i + 1] == p[i + 1]);
        assert(step_ok(insts, s, p[i], p[i + 1]));
    };
}

/// Input offsets never decrease along a path.
pub proof fn lemma_offset_mono(insts: Seq<Inst>, s: Seq<char>, p: Seq<(int, int)>, j: int, k: int)
    requires
        path_ok(insts, s, p),
        0 <= j <= k < p.len(),
    ensures
        p[j].1 <= p[k].1,
        p[k].1 <= p[j].1 + (k - j),
    decreases k - j,
{
    if j < k {
        lemma_offset_mono(insts, s, p, j, k - 1);
        assert(step_ok(insts, s, p[k - 1], p[k]));
    }
}

/// A path that starts inside the input stays inside it.
pub proof fn lemma_offset_upper(insts: Seq<Inst>, s: Seq<char>, p: Seq<(int, int)>, j: int)
    requires
        path_ok(insts, s, p),
        p.first().1 <= s.len(),
        0 <= j < p.len(),
    ensures
        p[j].1 <= s.len(),
    decreases j,
{
    if j > 0 {
        lemma_offset_upper(insts, s, p, j - 1);
        assert(step_ok(insts, s, p[j - 1], p[j]));
    }
}

/// A path whose ends share an offset consumes nothing, so a visited
/// buffer that is epsilon-closed and marks its first pc marks its
/// last.
pub proof fn lemma_eps_closure_contains(
    insts: Seq<Inst>,
    s: Seq<char>,
    v: Seq<bool>,
    p: Seq<(int, int)>,
)
    requires
        path_ok(insts, s, p),
        eps_closed(insts, v),
        v.len() == insts.len(),
        0 <= p.first().0,
        v[p.first().0],
        p.first().1 == p.last().1,
    ensures
        v[p.last().0],
    decreases p.len(),
{
    if p.len() >= 2 {
        assert(step_ok(insts, s, p[0], p[1]));
        lemma_offset_mono(insts, s, p, 0, 1);
        lemma_offset_mono(insts, s, p, 1, p.len() - 1);
        assert(p[1].1 == p[0].1);
        // A step that keeps the offset is an empty-width step.
        assert(v[p[0].0]);
        assert(eps_succ_ok(insts, v, p[0].0));
        assert(v[p[1].0]);
        lemma_path_drop_first(insts, s, p);
        lemma_eps_closure_contains(insts, s, v, p.drop_first());
    }
}

/// Where a path lands one offset beyond where it started or further,
/// it has a last consuming step: a position `j` at the previous
/// offset whose step consumes, after which the path stays at the
/// final offset.
pub open spec fn consume_split_at(p: Seq<(int, int)>, j: int) -> bool {
    &&& 0 <= j < p.len() - 1
    &&& p[j].1 == p.last().1 - 1
    &&& p[j + 1].1 == p.last().1
    &&& p[j + 1].0 == p[j].0 + 1
    &&& forall|k: int| #![trigger p[k]] j < k < p.len() ==> p[k].1 == p.last().1
}

/// Every path that consumes at least one character splits at its last
/// consuming step.
pub proof fn lemma_last_consume(insts: Seq<Inst>, s: Seq<char>, p: Seq<(int, int)>)
    requires
        path_ok(insts, s, p),
        p.first().1 < p.last().1,
    ensures
        exists|j: int| #[trigger] consume_split_at(p, j),
    decreases p.len(),
{
    let o = p.last().1;
    assert(p.len() >= 2);
    assert(step_ok(insts, s, p[p.len() - 2], p[p.len() - 1]));
    if p[p.len() - 2].1 < o {
        let j = p.len() - 2;
        assert(p[j].1 == o - 1);
        assert(p[j + 1].0 == p[j].0 + 1);
        assert(consume_split_at(p, j));
    } else {
        lemma_offset_mono(insts, s, p, p.len() - 2, p.len() - 1);
        assert(p[p.len() - 2].1 == o);
        lemma_path_drop_last(insts, s, p);
        let q = p.drop_last();
        lemma_last_consume(insts, s, q);
        let j = choose|j: int| #[trigger] consume_split_at(q, j);
        assert(q.last() == p[p.len() - 2]);
        assert forall|k: int| #![trigger p[k]] j < k < p.len() implies p[k].1 == o by {
            if k < p.len() - 1 {
                assert(q[k] == p[k]);
                assert(q[k].1 == q.last().1);
            }
        };
        assert(p[j] == q[j]);
        assert(p[j + 1] == q[j + 1]);
        assert(consume_split_at(p, j));
    }
}

/// A path's prefix up to position `j` is a path.
pub proof fn lemma_path_prefix(insts: Seq<Inst>, s: Seq<char>, p: Seq<(int, int)>, j: int)
    requires
        path_ok(insts, s, p),
        0 <= j < p.len(),
    ensures
        path_ok(insts, s, p.subrange(0, j + 1)),
        p.subrange(0, j + 1).first() == p.first(),
        p.subrange(0, j + 1).last() == p[j],
{
    let q = p.subrange(0, j + 1);
    assert forall|i: int| #![trigger q[i]] 0 <= i < q.len() - 1 implies step_ok(insts, s, q[i], q[i + 1]) by {
        assert(q[i] == p[i]);
        assert(q[i + 1] == p[i + 1]);
        assert(step_ok(insts, s, p[i], p[i + 1]));
    };
}

/// A path's suffix from position `j` is a path.
pub proof fn lemma_path_suffix(insts: Seq<Inst>, s: Seq<char>, p: Seq<(int, int)>, j: int)
    requires
        path_ok(insts, s, p),
        0 <= j < p.len(),
    ensures
        path_ok(insts, s, p.subrange(j, p.len() as int)),
        p.subrange(j, p.len() as int).first() == p[j],
        p.subrange(j, p.len() as int).last() == p.last(),
{
    let q = p.subrange(j, p.len() as int);
    assert forall|i: int| #![trigger q[i]] 0 <= i < q.len() - 1 implies step_ok(insts, s, q[i], q[i + 1]) by {
        assert(q[i] == p[j + i]);
        assert(q[i + 1] == p[j + i + 1]);
        assert(step_ok(insts, s, p[j + i], p[j + i + 1]));
    };
}


/// An instruction a generation rests on: the epsilon closure stops at
/// consuming instructions and at `Match`.
pub open spec fn is_resting(inst: Inst) -> bool {
    match inst {
        Inst::Char(_) => true,
        Inst::Any => true,
        Inst::Match => true,
        _ => false,
    }
}

/// A pc's consuming obligation toward the next generation is met: if
/// its instruction consumes the current character `ch`, the successor
/// pc is marked in the next generation's visited buffer `v`.
pub open spec fn consuming_ok(insts: Seq<Inst>, ch: Option<char>, pc: int, v: Seq<bool>) -> bool {
    match insts[pc] {
        Inst::Char(c) => ch == Some(c) ==> v[pc + 1],
        Inst::Any => ch is Some ==> v[pc + 1],
        _ => true,
    }
}

/// A step of `p` that leaves offset `o` for `o + 1`: necessarily a
/// consuming step.
pub open spec fn consume_cross_at(p: Seq<(int, int)>, j: int, o: int) -> bool {
    &&& 0 <= j < p.len() - 1
    &&& p[j].1 == o
    &&& p[j + 1].1 == o + 1
    &&& p[j + 1].0 == p[j].0 + 1
}

/// A path that starts at or before offset `o` and ends beyond it
/// takes a consuming step out of `o`.
pub proof fn lemma_cross_consume(insts: Seq<Inst>, s: Seq<char>, p: Seq<(int, int)>, o: int)
    requires
        path_ok(insts, s, p),
        p.first().1 <= o < p.last().1,
    ensures
        exists|j: int| #[trigger] consume_cross_at(p, j, o),
    decreases p.len(),
{
    assert(p.len() >= 2);
    assert(step_ok(insts, s, p[0], p[1]));
    if p[0].1 == o && p[1].1 == o + 1 {
        assert(consume_cross_at(p, 0, o));
    } else {
        lemma_path_drop_first(insts, s, p);
        let q = p.drop_first();
        lemma_cross_consume(insts, s, q, o);
        let j = choose|j: int| #[trigger] consume_cross_at(q, j, o);
        assert(p[j + 1] == q[j]);
        assert(p[j + 2] == q[j + 1]);
        assert(consume_cross_at(p, j + 1, o));
    }
}

/// When every pc reachable at offset `i` has met its consuming
/// obligation into an epsilon-closed buffer `v`, the buffer marks
/// everything reachable at offset `i + 1`: the simulation loses no
/// alternative when it advances a generation.
#[verifier::rlimit(60)]
pub proof fn lemma_generation_step_complete(
    insts: Seq<Inst>,
    s: Seq<char>,
    ooff: int,
    i: int,
    ch: Option<char>,
    v: Seq<bool>,
)
    requires
        0 <= ooff <= i <= s.len(),
        ch == (if i < s.len() {
            Some(s[i])
        } else {
            None::<char>
        }),
        v.len() == insts.len(),
        eps_closed(insts, v),
        forall|pc: int|
            0 <= pc < insts.len() && reaches_state(insts, s, 0, ooff, pc, i) ==> consuming_ok(
                insts,
                ch,
                pc,
                v,
            ),
    ensures
        forall|pc: int|
            0 <= pc < insts.len() && reaches_state(insts, s, 0, ooff, pc, i + 1) ==> v[pc],
{
    assert forall|pc: int|
        0 <= pc < insts.len() && reaches_state(insts, s, 0, ooff, pc, i + 1) implies v[pc] by {
        let p = choose|p: Seq<(int, int)>|
            path_ok(insts, s, p) && p.first() == (0int, ooff) && p.last() == (pc, i + 1);
        lemma_offset_upper(insts, s, p, p.len() - 1);
        lemma_last_consume(insts, s, p);
        let jj = choose|jj: int| #[trigger] consume_split_at(p, jj);
        lemma_path_prefix(insts, s, p, jj);
        assert(step_ok(insts, s, p[jj], p[jj + 1]));
        let q = p[jj].0;
        assert(reaches_state(insts, s, 0, ooff, q, i));
        assert(consuming_ok(insts, ch, q, v));
        assert(v[q + 1]);
        lemma_path_suffix(insts, s, p, jj + 1);
        lemma_eps_closure_contains(insts, s, v, p.subrange(jj + 1, p.len() as int));
    };
}

/// Where no reachable pc at offset `i` holds `Match`, no match ends
/// at offset `i`.
pub proof fn lemma_no_match_at(insts: Seq<Inst>, s: Seq<char>, ooff: int, i: int)
    requires
        forall|pc: int|
            0 <= pc < insts.len() && reaches_state(insts, s, 0, ooff, pc, i) ==> insts[pc]
                != Inst::Match,
    ensures
        !accepts(insts, s, 0, ooff, i),
{
    if accepts(insts, s, 0, ooff, i) {
        let mpc = choose|mpc: int|
            0 <= mpc < insts.len() && #[trigger] insts[mpc] == Inst::Match && reaches_state(
                insts,
                s,
                0,
                ooff,
                mpc,
                i,
            );
        assert(false);
    }
}

/// When no reachable pc at offset `i` rests on a consuming or
/// matching instruction and every earlier offset is already ruled
/// out, no accepting path exists at all: a match at or beyond `i`
/// would need a resting pc at `i`.
pub proof fn lemma_no_accepts_no_threads(
    insts: Seq<Inst>,
    s: Seq<char>,
    ooff: int,
    end: int,
    i: int,
)
    requires
        0 <= ooff <= i,
        forall|pc: int|
            0 <= pc < insts.len() && reaches_state(insts, s, 0, ooff, pc, i) ==> !is_resting(
                #[trigger] insts[pc],
            ),
        forall|e: int| ooff <= e < i ==> !accepts(insts, s, 0, ooff, e),
    ensures
        !accepts(insts, s, 0, ooff, end),
{
    if accepts(insts, s, 0, ooff, end) {
        let mpc = choose|mpc: int|
            0 <= mpc < insts.len() && #[trigger] insts[mpc] == Inst::Match && reaches_state(
                insts,
                s,
                0,
                ooff,
                mpc,
                end,
            );
        let p = choose|p: Seq<(int, int)>|
            path_ok(insts, s, p) && p.first() == (0int, ooff) && p.last() == (mpc, end);
        lemma_offset_mono(insts, s, p, 0, p.len() - 1);
        if end < i {
            assert(!accepts(insts, s, 0, ooff, end));
        } else if end == i {
            assert(reaches_state(insts, s, 0, ooff, mpc, i));
            assert(false);
        } else {
            lemma_cross_consume(insts, s, p, i);
            let j = choose|j: int| #[trigger] consume_cross_at(p, j, i);
            assert(step_ok(insts, s, p[j], p[j + 1]));
            let q = p[j].0;
            lemma_path_prefix(insts, s, p, j);
            assert(reaches_state(insts, s, 0, ooff, q, i));
            assert(is_resting(insts[q]));
            assert(false);
        }
    }
}

/// The scan has walked past the whole input, ruling out every offset
/// on the way: no accepting path ends anywhere.
pub proof fn lemma_no_accepts_past_input(
    insts: Seq<Inst>,
    s: Seq<char>,
    ooff: int,
    end: int,
    i: int,
)
    requires
        0 <= ooff <= s.len(),
        i > s.len(),
        forall|e: int| ooff <= e < i ==> !accepts(insts, s, 0, ooff, e),
    ensures
        !accepts(insts, s, 0, ooff, end),
{
    if accepts(insts, s, 0, ooff, end) {
        let mpc = choose|mpc: int|
            0 <= mpc < insts.len() && #[trigger] insts[mpc] == Inst::Match && reaches_state(
                insts,
                s,
                0,
                ooff,
                mpc,
                end,
            );
        let p = choose|p: Seq<(int, int)>|
            path_ok(insts, s, p) && p.first() == (0int, ooff) && p.last() == (mpc, end);
        lemma_offset_mono(insts, s, p, 0, p.len() - 1);
        lemma_offset_upper(insts, s, p, p.len() - 1);
        assert(ooff <= end <= s.len());
        assert(false);
    }
}


/// The explicit-stack engine's own search, mirrored exactly: one
/// frame is popped and dispatched per step, `Split` defers its second
/// operand under the first, and the two resource budgets are part of
/// the semantics — `steps` instructions in total, and at most `cap`
/// deferred alternatives when a `Split` wants to defer two more.
/// `Spent` is returned exactly when a budget is hit.
pub open spec fn bt_stack_run(
    insts: Seq<Inst>,
    s: Seq<char>,
    frames: Seq<BtFrame>,
    steps: nat,
    cap: nat,
) -> BtOut
    decreases steps,
{
    if steps == 0 {
        BtOut::Spent
    } else if frames.len() == 0 {
        BtOut::NotFound
    } else {
        let t = frames.last();
        let rest = frames.drop_last();
        let f = (steps - 1) as nat;
        if t.pc < 0 || t.pc >= insts.len() {
            bt_stack_run(insts, s, rest, f, cap)
        } else {
            match insts[t.pc] {
                Inst::Char(c) => if 0 <= t.off < s.len() && s[t.off] == c {
                    bt_stack_run(
                        insts,
                        s,
                        rest.push(BtFrame { pc: t.pc + 1, off: t.off + 1, sub: t.sub }),
                        f,
                        cap,
                    )
                } else {
                    bt_stack_run(insts, s, rest, f, cap)
                },
                Inst::Any => if 0 <= t.off < s.len() {
                    bt_stack_run(
                        insts,
                        s,
                        rest.push(BtFrame { pc: t.pc + 1, off: t.off + 1, sub: t.sub }),
                        f,
                        cap,
                    )
                } else {
                    bt_stack_run(insts, s, rest, f, cap)
                },
                Inst::Match => BtOut::Found(t.sub),
                Inst::Jmp(x) => bt_stack_run(
                    insts,
                    s,
                    rest.push(BtFrame { pc: x as int, off: t.off, sub: t.sub }),
                    f,
                    cap,
                ),
                Inst::Split(x, y) => if rest.len() + 2 > cap {
                    BtOut::Spent
                } else {
                    bt_stack_run(
                        insts,
                        s,
                        rest.push(BtFrame { pc: y as int, off: t.off, sub: t.sub }).push(
                            BtFrame { pc: x as int, off: t.off, sub: t.sub },
                        ),
                        f,
                        cap,
                    )
                },
                Inst::Save(n) => if n < t.sub.len() {
                    bt_stack_run(
                        insts,
                        s,
                        rest.push(
                            BtFrame {
                                pc: t.pc + 1,
                                off: t.off,
                                sub: t.sub.update(n as int, t.off as usize),
                            },
                        ),
                        f,
                        cap,
                    )
                } else {
                    bt_stack_run(
                        insts,
                        s,
                        rest.push(BtFrame { pc: t.pc + 1, off: t.off, sub: t.sub }),
                        f,
                        cap,
                    )
                },
            }
        }
    }
}

/// The budgeted stack search never invents an answer: any decided
/// outcome is the depth-bounded search's outcome at some depth, so the
/// stack engine agrees with the recursive engines wherever both
/// decide.
pub proof fn lemma_bt_stack_run_sound(
    insts: Seq<Inst>,
    s: Seq<char>,
    frames: Seq<BtFrame>,
    steps: nat,
    cap: nat,
    r: BtOut,
)
    requires
        bt_stack_run(insts, s, frames, steps, cap) == r,
        r != BtOut::Spent,
    ensures
        reaches_stack(insts, s, frames, r),
    decreases steps,
{
    if frames.len() == 0 {
        assert(bt_frames(insts, s, frames, 0) == BtOut::NotFound);
    } else {
        let t = frames.last();
        let rest = frames.drop_last();
        let f = (steps - 1) as nat;
        assert(frames =~= rest.push(t));
        if t.pc < 0 || t.pc >= insts.len() {
            lemma_bt_stack_run_sound(insts, s, rest, f, cap, r);
            assert forall|g: nat| #[trigger] bt(insts, s, t.pc, t.off, t.sub, g + 1)
                == BtOut::NotFound by {};
            lemma_frames_dead(insts, s, rest, t, r);
        } else {
            match insts[t.pc] {
                Inst::Char(c) => {
                    if 0 <= t.off < s.len() && s[t.off] == c {
                        let u = BtFrame { pc: t.pc + 1, off: t.off + 1, sub: t.sub };
                        lemma_bt_stack_run_sound(insts, s, rest.push(u), f, cap, r);
                        assert forall|g: nat| #[trigger] bt(insts, s, t.pc, t.off, t.sub, g + 1)
                            == bt(insts, s, u.pc, u.off, u.sub, g) by {};
                        lemma_frames_step(insts, s, rest, t, u, r);
                    } else {
                        lemma_bt_stack_run_sound(insts, s, rest, f, cap, r);
                        assert forall|g: nat| #[trigger] bt(insts, s, t.pc, t.off, t.sub, g + 1)
                            == BtOut::NotFound by {};
                        lemma_frames_dead(insts, s, rest, t, r);
                    }
                },
                Inst::Any => {
                    if 0 <= t.off < s.len() {
                        let u = BtFrame { pc: t.pc + 1, off: t.off + 1, sub: t.sub };
                        lemma_bt_stack_run_sound(insts, s, rest.push(u), f, cap, r);
                        assert forall|g: nat| #[trigger] bt(insts, s, t.pc, t.off, t.sub, g + 1)
                            == bt(insts, s, u.pc, u.off, u.sub, g) by {};
                        lemma_frames_step(insts, s, rest, t, u, r);
                    } else {
                        lemma_bt_stack_run_sound(insts, s, rest, f, cap, r);
                        assert forall|g: nat| #[trigger] bt(insts, s, t.pc, t.off, t.sub, g + 1)
                            == BtOut::NotFound by {};
                        lemma_frames_dead(insts, s, rest, t, r);
                    }
                },
                Inst::Match => {
                    lemma_frames_found(insts, s, rest, t);
                },
                Inst::Jmp(x) => {
                    let u = BtFrame { pc: x as int, off: t.off, sub: t.sub };
                    lemma_bt_stack_run_sound(insts, s, rest.push(u), f, cap, r);
                    assert forall|g: nat| #[trigger] bt(insts, s, t.pc, t.off, t.sub, g + 1) == bt(
                        insts,
                        s,
                        u.pc,
                        u.off,
                        u.sub,
                        g,
                    ) by {};
                    lemma_frames_step(insts, s, rest, t, u, r);
                },
                Inst::Split(x, y) => {
                    lemma_bt_stack_run_sound(
                        insts,
                        s,
                        rest.push(BtFrame { pc: y as int, off: t.off, sub: t.sub }).push(
                            BtFrame { pc: x as int, off: t.off, sub: t.sub },
                        ),
                        f,
                        cap,
                        r,
                    );
                    lemma_frames_split(insts, s, rest, t, x, y, r);
                },
                Inst::Save(n) => {
                    let u = if n < t.sub.len() {
                        BtFrame { pc: t.pc + 1, off: t.off, sub: t.sub.update(n as int, t.off as usize) }
                    } else {
                        BtFrame { pc: t.pc + 1, off: t.off, sub: t.sub }
                    };
                    lemma_bt_stack_run_sound(insts, s, rest.push(u), f, cap, r);
                    assert forall|g: nat| #[trigger] bt(insts, s, t.pc, t.off, t.sub, g + 1) == bt(
                        insts,
                        s,
                        u.pc,
                        u.off,
                        u.sub,
                        g,
                    ) by {};
                    lemma_frames_step(insts, s, rest, t, u, r);
                },
            }
        }
    }
}


/// The capture store one step leaves behind: leaving a `Save`
/// records the offset into the named slot, every other instruction
/// leaves the store alone.
pub open spec fn caps_step(insts: Seq<Inst>, pc: int, off: int, caps: Seq<usize>) -> Seq<usize> {
    if 0 <= pc < insts.len() {
        match insts[pc] {
            Inst::Save(n) => if n < caps.len() {
                caps.update(n as int, off as usize)
            } else {
                caps
            },
            _ => caps,
        }
    } else {
        caps
    }
}

/// The capture store collected along a path: starting from `sub0`,
/// every state the path leaves applies its instruction's capture
/// effect.
pub open spec fn caps_of_path(insts: Seq<Inst>, p: Seq<(int, int)>, sub0: Seq<usize>) -> Seq<usize>
    decreases p.len(),
{
    if p.len() <= 1 {
        sub0
    } else {
        caps_step(
            insts,
            p[p.len() - 2].0,
            p[p.len() - 2].1,
            caps_of_path(insts, p.drop_last(), sub0),
        )
    }
}

/// Some path of the machine leads from one state to another and
/// collects exactly these captures on the way.
pub open spec fn reaches_with_caps(
    insts: Seq<Inst>,
    s: Seq<char>,
    pc0: int,
    off0: int,
    sub0: Seq<usize>,
    pc: int,
    off: int,
    caps: Seq<usize>,
) -> bool {
    exists|p: Seq<(int, int)>|
        path_ok(insts, s, p) && p.first() == (pc0, off0) && p.last() == (pc, off) && caps
            == caps_of_path(insts, p, sub0)
}

/// The machine accepts from `(pc0, off0)` with exactly these
/// captures: some run reaches `Match` at offset `end` having
/// collected them.
pub open spec fn accepts_with_caps(
    insts: Seq<Inst>,
    s: Seq<char>,
    pc0: int,
    off0: int,
    sub0: Seq<usize>,
    end: int,
    caps: Seq<usize>,
) -> bool {
    exists|pc: int|
        0 <= pc < insts.len() && #[trigger] insts[pc] == Inst::Match && reaches_with_caps(
            insts,
            s,
            pc0,
            off0,
            sub0,
            pc,
            end,
            caps,
        )
}

/// Every state reaches itself with the captures it started with.
pub proof fn lemma_reaches_caps_self(
    insts: Seq<Inst>,
    s: Seq<char>,
    pc: int,
    off: int,
    sub0: Seq<usize>,
)
    ensures
        reaches_with_caps(insts, s, pc, off, sub0, pc, off, sub0),
{
    let p: Seq<(int, int)> = seq![(pc, off)];
    assert(p.first() == (pc, off));
    assert(p.last() == (pc, off));
    assert(path_ok(insts, s, p));
    assert(caps_of_path(insts, p, sub0) == sub0);
}

/// Capture-carrying reachability extends by a step at the far end,
/// applying that step's capture effect.
pub proof fn lemma_reaches_caps_step(
    insts: Seq<Inst>,
    s: Seq<char>,
    pc0: int,
    off0: int,
    sub0: Seq<usize>,
    pc: int,
    off: int,
    caps: Seq<usize>,
    b: (int, int),
)
    requires
        reaches_with_caps(insts, s, pc0, off0, sub0, pc, off, caps),
        step_ok(insts, s, (pc, off), b),
    ensures
        reaches_with_caps(insts, s, pc0, off0, sub0, b.0, b.1, caps_step(insts, pc, off, caps)),
{
    let p = choose|p: Seq<(int, int)>|
        path_ok(insts, s, p) && p.first() == (pc0, off0) && p.last() == (pc, off) && caps
            == caps_of_path(insts, p, sub0);
    lemma_path_snoc(insts, s, p, b);
    let q = p.push(b);
    assert(q.drop_last() =~= p);
    assert(q[q.len() - 2] == (pc, off));
    assert(caps_of_path(insts, q, sub0) == caps_step(insts, pc, off, caps));
}

/// Number of `false` entries in a visited buffer: the pcs a closure
/// may still add, which bounds its recursion.
pub open spec fn count_falses(v: Seq<bool>) -> nat
    decreases v.len(),
{
    if v.len() == 0 {
        0
    } else {
        count_falses(v.drop_last()) + if v.last() {
            0nat
        } else {
            1nat
        }
    }
}

/// No buffer has more unvisited entries than entries.
pub proof fn lemma_count_falses_le_len(v: Seq<bool>)
    ensures
        count_falses(v) <= v.len(),
    decreases v.len(),
{
    if v.len() > 0 {
        lemma_count_falses_le_len(v.drop_last());
    }
}

/// Marking an unvisited pc visited strictly shrinks the unvisited
/// count.
pub proof fn lemma_count_falses_update(v: Seq<bool>, i: int)
    requires
        0 <= i < v.len(),
        !v[i],
    ensures
        count_falses(v.update(i, true)) < count_falses(v),
    decreases v.len(),
{
    if i == v.len() - 1 {
        assert(v.update(i, true).drop_last() =~= v.drop_last());
    } else {
        assert(v.update(i, true).drop_last() =~= v.drop_last().update(i, true));
        lemma_count_falses_update(v.drop_last(), i);
    }
}

/// Marking never raises the unvisited count: a buffer with at least
/// the same marks has at most the same count.
pub proof fn lemma_count_falses_mono(a: Seq<bool>, b: Seq<bool>)
    requires
        a.len() == b.len(),
        forall|i: int| 0 <= i < a.len() ==> a[i] ==> b[i],
    ensures
        count_falses(b) <= count_falses(a),
    decreases a.len(),
{
    if a.len() > 0 {
        lemma_count_falses_mono(a.drop_last(), b.drop_last());
    }
}

/// The generation bound: a generation whose pcs are distinct and lie
/// inside a program of length `n` holds at most `n` threads.
pub proof fn lemma_distinct_pcs_bound(pcs: Seq<int>, n: nat)
    requires
        forall|i: int| 0 <= i < pcs.len() ==> 0 <= #[trigger] pcs[i] < n,
        forall|i: int, j: int| 0 <= i < j < pcs.len() ==> pcs[i] != pcs[j],
    ensures
        pcs.len() <= n,
{
    assert(pcs.no_duplicates());
    pcs.unique_seq_to_set();
    vstd::set_lib::lemma_int_range(0, n as int);
    assert(pcs.to_set().subset_of(vstd::set_lib::set_int_range(0, n as int)));
    vstd::set_lib::lemma_len_subset(pcs.to_set(), vstd::set_lib::set_int_range(0, n as int));
}

} // verus!
