use vstd::prelude::*;

verus! {

/// Parsed form of a pattern: a tree of alternations, concatenations,
/// literals, wildcards, groups and repetitions.
///
/// `Paren` carries the capture-group id; a freshly parsed group holds
/// `usize::MAX` until `number_parens` assigns ids left to right starting
/// at 1 (id 0 is reserved for the whole-match group that `unanchored`
/// introduces).  The `bool` on `Quest`, `Star` and `Plus` is the greedy
/// flag: `true` prefers the longer expansion, `false` the shorter.
#[derive(Debug, PartialEq, Eq)]
pub enum Regexp {
    Alt(Box<Regexp>, Box<Regexp>),
    Cat(Box<Regexp>, Box<Regexp>),
    Lit(char),
    Dot,
    Paren(usize, Box<Regexp>),
    Quest(bool, Box<Regexp>),
    Star(bool, Box<Regexp>),
    Plus(bool, Box<Regexp>),
}

/// One bytecode instruction of the regular-expression virtual machine.
#[derive(Clone, Copy, Debug, PartialEq, Eq, Structural)]
pub enum Inst {
    /// Consume one input character if it equals the operand.
    Char(char),
    /// Accept: the alternative that reaches this instruction has matched.
    Match,
    /// Continue at the operand program counter without consuming input.
    Jmp(usize),
    /// Nondeterministic branch; the first operand is tried first.
    Split(usize, usize),
    /// Consume any one input character.
    Any,
    /// Record the current input offset in the given capture slot.
    Save(usize),
}

/// The capture slots all start out unset; `usize::MAX` marks an unset slot.
pub open spec fn init_caps(n: nat) -> Seq<usize> {
    Seq::new(n, |i: int| usize::MAX)
}

/// Bounds that every instruction of a well-formed program obeys, where
/// `i` is the instruction's own position and `n` the program length:
/// consuming and saving instructions have a successor, and branch
/// targets lie inside the program.
pub open spec fn inst_ok(inst: Inst, i: int, n: int) -> bool {
    match inst {
        Inst::Char(_) => i + 1 < n,
        Inst::Any => i + 1 < n,
        Inst::Save(s) => i + 1 < n && s < usize::MAX,
        Inst::Match => true,
        Inst::Jmp(x) => x < n,
        Inst::Split(x, y) => x < n && y < n,
    }
}

/// A well-formed program: nonempty, ends in `Match`, and every
/// instruction keeps the program counter inside the program.  The
/// compiler establishes this for every program it emits, and the
/// engines rely on it to never step out of bounds.
pub open spec fn prog_wf(insts: Seq<Inst>) -> bool {
    &&& 1 <= insts.len() <= usize::MAX
    &&& insts.last() == Inst::Match
    &&& forall|i: int| 0 <= i < insts.len() ==> inst_ok(#[trigger] insts[i], i, insts.len() as int)
}

/// Greatest `n + 1` over the `Save(n)` instructions among the first
/// `i` instructions; 0 when there are none.
pub open spec fn nsub_upto(insts: Seq<Inst>, i: int) -> nat
    decreases i,
{
    if i <= 0 {
        0
    } else {
        let rest = nsub_upto(insts, i - 1);
        match insts[i - 1] {
            Inst::Save(n) => if n + 1 > rest {
                (n + 1) as nat
            } else {
                rest
            },
            _ => rest,
        }
    }
}

/// Number of capture slots a program uses: the greatest `Save` slot
/// plus one, or 0 for a program without captures.
pub open spec fn spec_nsub(insts: Seq<Inst>) -> nat {
    nsub_upto(insts, insts.len() as int)
}

/// Every `Save` slot named by the program is below `k`.
pub open spec fn saves_bounded(insts: Seq<Inst>, k: nat) -> bool {
    forall|i: int| 0 <= i < insts.len() ==> match #[trigger] insts[i] {
        Inst::Save(n) => n < k,
        _ => true,
    }
}

/// Every `Save` slot is below the program's own slot count, so a
/// capture store sized by `spec_nsub` accepts every save.
pub proof fn lemma_nsub_bounds(insts: Seq<Inst>)
    ensures
        saves_bounded(insts, spec_nsub(insts)),
{
    assert forall|i: int| 0 <= i < insts.len() implies match #[trigger] insts[i] {
        Inst::Save(n) => n < spec_nsub(insts),
        _ => true,
    } by {
        lemma_nsub_upto_bounds(insts, i, insts.len() as int);
    }
}

proof fn lemma_nsub_upto_bounds(insts: Seq<Inst>, i: int, j: int)
    requires
        0 <= i < j <= insts.len(),
    ensures
        match insts[i] {
            Inst::Save(n) => n < nsub_upto(insts, j),
            _ => true,
        },
    decreases j,
{
    if i < j - 1 {
        lemma_nsub_upto_bounds(insts, i, j - 1);
    }
}


/// Number of capture groups in `r` still waiting for an id (their id
/// is the `usize::MAX` placeholder the parser leaves).
pub open spec fn unnumbered(r: Regexp) -> nat
    decreases r,
{
    match r {
        Regexp::Alt(l, rr) => unnumbered(*l) + unnumbered(*rr),
        Regexp::Cat(l, rr) => unnumbered(*l) + unnumbered(*rr),
        Regexp::Lit(_) => 0,
        Regexp::Dot => 0,
        Regexp::Paren(id, inner) => (if id == usize::MAX {
            1nat
        } else {
            0nat
        }) + unnumbered(*inner),
        Regexp::Quest(_, inner) => unnumbered(*inner),
        Regexp::Star(_, inner) => unnumbered(*inner),
        Regexp::Plus(_, inner) => unnumbered(*inner),
    }
}

/// Group-id assignment: every group whose id is still the placeholder
/// receives the next id, ids increasing left to right, parents before
/// their children.  Returns the renumbered tree and the next unused
/// id.
pub open spec fn spec_number(r: Regexp, next: int) -> (Regexp, int)
    decreases r,
{
    match r {
        Regexp::Alt(l, rr) => {
            let (l2, n2) = spec_number(*l, next);
            let (r2, n3) = spec_number(*rr, n2);
            (Regexp::Alt(Box::new(l2), Box::new(r2)), n3)
        },
        Regexp::Cat(l, rr) => {
            let (l2, n2) = spec_number(*l, next);
            let (r2, n3) = spec_number(*rr, n2);
            (Regexp::Cat(Box::new(l2), Box::new(r2)), n3)
        },
        Regexp::Lit(c) => (Regexp::Lit(c), next),
        Regexp::Dot => (Regexp::Dot, next),
        Regexp::Paren(id, inner) => {
            let id2 = if id == usize::MAX {
                next as usize
            } else {
                id
            };
            let nn = if id == usize::MAX {
                next + 1
            } else {
                next
            };
            let (in2, n2) = spec_number(*inner, nn);
            (Regexp::Paren(id2, Box::new(in2)), n2)
        },
        Regexp::Quest(g, inner) => {
            let (in2, n2) = spec_number(*inner, next);
            (Regexp::Quest(g, Box::new(in2)), n2)
        },
        Regexp::Star(g, inner) => {
            let (in2, n2) = spec_number(*inner, next);
            (Regexp::Star(g, Box::new(in2)), n2)
        },
        Regexp::Plus(g, inner) => {
            let (in2, n2) = spec_number(*inner, next);
            (Regexp::Plus(g, Box::new(in2)), n2)
        },
    }
}

/// Assigning ids hands out exactly one per placeholder group.
pub proof fn lemma_number_next(r: Regexp, next: int)
    ensures
        spec_number(r, next).1 == next + unnumbered(r),
    decreases r,
{
    match r {
        Regexp::Alt(l, rr) => {
            lemma_number_next(*l, next);
            lemma_number_next(*rr, spec_number(*l, next).1);
        },
        Regexp::Cat(l, rr) => {
            lemma_number_next(*l, next);
            lemma_number_next(*rr, spec_number(*l, next).1);
        },
        Regexp::Lit(_) => {},
        Regexp::Dot => {},
        Regexp::Paren(id, inner) => {
            if id == usize::MAX {
                lemma_number_next(*inner, next + 1);
            } else {
                lemma_number_next(*inner, next);
            }
        },
        Regexp::Quest(_, inner) => {
            lemma_number_next(*inner, next);
        },
        Regexp::Star(_, inner) => {
            lemma_number_next(*inner, next);
        },
        Regexp::Plus(_, inner) => {
            lemma_number_next(*inner, next);
        },
    }
}

impl Regexp {
    /// Wrap the pattern for unanchored search: a non-greedy `.*`
    /// prefix lets the anchored engines start the real pattern at any
    /// offset, and the whole pattern becomes capture group 0, so slots
    /// 0 and 1 record the overall span.
    pub fn unanchored(self) -> (r: Regexp)
        ensures
            r == Regexp::Cat(
                Box::new(Regexp::Star(false, Box::new(Regexp::Dot))),
                Box::new(Regexp::Paren(0, Box::new(self))),
            ),
    {
        let paren = Box::new(Regexp::Paren(0, Box::new(self)));
        let dot_star = Box::new(Regexp::Star(false, Box::new(Regexp::Dot)));
        Regexp::Cat(dot_star, paren)
    }

    /// Assign ids to the capture groups the parser left unnumbered,
    /// left to right starting at `next`, and return the tree together
    /// with the next unused id.
    pub(crate) fn number_parens(self, next: usize) -> (res: (Regexp, usize))
        requires
            next + unnumbered(self) <= usize::MAX,
        ensures
            res.0 == spec_number(self, next as int).0,
            res.1 as int == spec_number(self, next as int).1,
        decreases self,
    {
        match self {
            Regexp::Alt(l, r) => {
                proof {
                    lemma_number_next(*l, next as int);
                }
                let (l2, n2) = (*l).number_parens(next);
                let (r2, n3) = (*r).number_parens(n2);
                (Regexp::Alt(Box::new(l2), Box::new(r2)), n3)
            },
            Regexp::Cat(l, r) => {
                proof {
                    lemma_number_next(*l, next as int);
                }
                let (l2, n2) = (*l).number_parens(next);
                let (r2, n3) = (*r).number_parens(n2);
                (Regexp::Cat(Box::new(l2), Box::new(r2)), n3)
            },
            Regexp::Lit(c) => (Regexp::Lit(c), next),
            Regexp::Dot => (Regexp::Dot, next),
            Regexp::Paren(id, inner) => {
                if id == usize::MAX {
                    let (in2, n2) = (*inner).number_parens(next + 1);
                    (Regexp::Paren(next, Box::new(in2)), n2)
                } else {
                    let (in2, n2) = (*inner).number_parens(next);
                    (Regexp::Paren(id, Box::new(in2)), n2)
                }
            },
            Regexp::Quest(g, inner) => {
                let (in2, n2) = (*inner).number_parens(next);
                (Regexp::Quest(g, Box::new(in2)), n2)
            },
            Regexp::Star(g, inner) => {
                let (in2, n2) = (*inner).number_parens(next);
                (Regexp::Star(g, Box::new(in2)), n2)
            },
            Regexp::Plus(g, inner) => {
                let (in2, n2) = (*inner).number_parens(next);
                (Regexp::Plus(g, Box::new(in2)), n2)
            },
        }
    }
}

/// A compiled program: the instruction sequence, entered at pc 0.
/// Programs are built only by the compiler, which guarantees
/// well-formedness.
#[derive(Debug, PartialEq, Eq)]
pub struct Prog {
    pub(crate) insts: Vec<Inst>,
}

impl View for Prog {
    type V = Seq<Inst>;

    closed spec fn view(&self) -> Seq<Inst> {
        self.insts@
    }
}

/// Inside the crate, a program's view is its instruction vector's.
pub(crate) proof fn lemma_prog_view(p: Prog)
    ensures
        p@ == p.insts@,
{
}

impl Prog {
    #[verifier::type_invariant]
    pub(crate) open spec fn type_inv(self) -> bool {
        prog_wf(self.insts@)
    }

    /// The full instruction sequence.
    pub fn insts(&self) -> (r: &Vec<Inst>)
        ensures
            r@ == self@,
    {
        &self.insts
    }

    /// The instruction at `pc`, or `None` past the end.
    pub fn inst(&self, pc: usize) -> (r: Option<Inst>)
        ensures
            r == (if pc < self@.len() {
                Some(self@[pc as int])
            } else {
                None::<Inst>
            }),
    {
        if pc < self.insts.len() {
            Some(self.insts[pc])
        } else {
            None
        }
    }

    /// Number of capture slots the program uses: one past the greatest
    /// `Save` slot, or 0 when the program saves nothing.
    pub fn nsub(&self) -> (r: usize)
        ensures
            r as nat == spec_nsub(self@),
    {
        proof {
            use_type_invariant(self);
        }
        let mut count: usize = 0;
        let mut i: usize = 0;
        while i < self.insts.len()
            invariant
                i <= self.insts@.len(),
                count as nat == nsub_upto(self.insts@, i as int),
                forall|k: int| 0 <= k < self.insts@.len() ==> inst_ok(
                    #[trigger] self.insts@[k],
                    k,
                    self.insts@.len() as int,
                ),
            decreases self.insts@.len() - i,
        {
            match self.insts[i] {
                Inst::Save(n) => {
                    if n + 1 > count {
                        count = n + 1;
                    }
                },
                _ => {},
            }
            i = i + 1;
        }
        count
    }
}

/// Shared execution scaffolding every engine steps through: the
/// program, a program counter, the input, and the current offset into
/// it.  The `debug` flag rides along for callers that trace a run by
/// reading the cursor; the verified engines themselves print nothing.
#[derive(Clone, Debug, PartialEq, Eq)]
pub struct VM {
    pub insts: Vec<Inst>,
    pub pc: usize,
    pub s: Vec<char>,
    pub offset: usize,
    pub debug: bool,
}

impl VM {
    /// A cursor over `prog` and the input `s`, positioned at pc 0,
    /// offset 0.
    pub fn new(prog: &Prog, s: Vec<char>, debug: bool) -> (r: VM)
        ensures
            r.insts@ == prog@,
            r.pc == 0,
            r.s@ == s@,
            r.offset == 0,
            r.debug == debug,
    {
        VM { insts: copy_insts(&prog.insts), pc: 0, s, offset: 0, debug }
    }

    /// The instruction under the cursor, advancing the program counter
    /// when there is one.
    pub fn next_inst(&mut self) -> (r: Option<Inst>)
        ensures
            final(self).insts@ == old(self).insts@,
            final(self).s@ == old(self).s@,
            final(self).offset == old(self).offset,
            final(self).debug == old(self).debug,
            r == (if old(self).pc < old(self).insts@.len() {
                Some(old(self).insts@[old(self).pc as int])
            } else {
                None::<Inst>
            }),
            final(self).pc == (if old(self).pc < old(self).insts@.len() {
                old(self).pc + 1
            } else {
                old(self).pc as int
            }),
    {
        if self.pc < self.insts.len() {
            let inst = self.insts[self.pc];
            self.pc = self.pc + 1;
            Some(inst)
        } else {
            None
        }
    }

    /// The next input character, advancing the offset when there is one.
    pub fn next_char(&mut self) -> (r: Option<char>)
        ensures
            final(self).insts@ == old(self).insts@,
            final(self).s@ == old(self).s@,
            final(self).pc == old(self).pc,
            final(self).debug == old(self).debug,
            r == (if old(self).offset < old(self).s@.len() {
                Some(old(self).s@[old(self).offset as int])
            } else {
                None::<char>
            }),
            final(self).offset == (if old(self).offset < old(self).s@.len() {
                old(self).offset + 1
            } else {
                old(self).offset as int
            }),
    {
        if self.offset < self.s.len() {
            let ch = self.s[self.offset];
            self.offset = self.offset + 1;
            Some(ch)
        } else {
            None
        }
    }

    /// The instruction under the cursor without advancing.
    pub fn inst(&self) -> (r: Option<Inst>)
        ensures
            r == (if self.pc < self.insts@.len() {
                Some(self.insts@[self.pc as int])
            } else {
                None::<Inst>
            }),
    {
        if self.pc < self.insts.len() {
            Some(self.insts[self.pc])
        } else {
            None
        }
    }

    /// Rewind to pc 0, offset 0.
    pub fn reset(&mut self)
        ensures
            final(self).insts@ == old(self).insts@,
            final(self).s@ == old(self).s@,
            final(self).debug == old(self).debug,
            final(self).pc == 0,
            final(self).offset == 0,
    {
        self.pc = 0;
        self.offset = 0;
    }
}

/// Capture store: 2N offsets, two per group, `usize::MAX` marking an
/// unset slot.  Each search alternative owns an independent snapshot.
#[derive(Debug, PartialEq, Eq)]
pub struct Sub {
    sub: Vec<usize>,
}

impl View for Sub {
    type V = Seq<usize>;

    closed spec fn view(&self) -> Seq<usize> {
        self.sub@
    }
}

impl Clone for Sub {
    /// An independent snapshot with the same slot contents.
    fn clone(&self) -> (r: Sub)
        ensures
            r@ == self@,
    {
        Sub { sub: copy_offsets(&self.sub) }
    }
}

impl Sub {
    /// A store of `nsub` unset slots.
    pub fn new(nsub: usize) -> (r: Sub)
        ensures
            r@ == init_caps(nsub as nat),
    {
        let sub = Sub { sub: vec![usize::MAX; nsub] };
        proof {
            assert(sub@ =~= init_caps(nsub as nat));
        }
        sub
    }

    /// The offset in slot `n`.
    pub fn get(&self, n: usize) -> (r: usize)
        requires
            n < self@.len(),
        ensures
            r == self@[n as int],
    {
        self.sub[n]
    }

    /// Store `offset` in slot `n`.
    pub fn set(&mut self, n: usize, offset: usize)
        requires
            n < old(self)@.len(),
        ensures
            final(self)@ == old(self)@.update(n as int, offset),
    {
        self.sub.set(n, offset);
    }

    /// The store with `offset` placed in slot `n`, consuming this one.
    pub fn update(self, n: usize, offset: usize) -> (r: Sub)
        requires
            n < self@.len(),
        ensures
            r@ == self@.update(n as int, offset),
    {
        let mut sub = self;
        sub.set(n, offset);
        sub
    }

    /// The number of slots.
    pub fn len(&self) -> (r: usize)
        ensures
            r == self@.len(),
    {
        self.sub.len()
    }

    /// Mark every slot unset again.
    pub fn reset(&mut self)
        ensures
            final(self)@ == init_caps(old(self)@.len()),
    {
        let n = self.sub.len();
        let mut i: usize = 0;
        while i < n
            invariant
                i <= n,
                self.sub@.len() == n,
                forall|k: int| 0 <= k < i ==> self.sub@[k] == usize::MAX,
            decreases n - i,
        {
            self.sub.set(i, usize::MAX);
            i = i + 1;
        }
        proof {
            assert(self@ =~= init_caps(old(self)@.len()));
        }
    }
}


/// A fresh all-false visited buffer of length `n`.
pub(crate) fn make_falses(n: usize) -> (v: Vec<bool>)
    ensures
        v@ == Seq::new(n as nat, |i: int| false),
{
    let v = vec![false; n];
    proof {
        assert(v@ =~= Seq::new(n as nat, |i: int| false));
    }
    v
}

/// An element-for-element copy of an instruction vector.
pub(crate) fn copy_insts(v: &Vec<Inst>) -> (r: Vec<Inst>)
    ensures
        r@ == v@,
{
    let mut r: Vec<Inst> = Vec::new();
    let mut i: usize = 0;
    while i < v.len()
        invariant
            i <= v@.len(),
            r@ == v@.subrange(0, i as int),
        decreases v@.len() - i,
    {
        r.push(v[i]);
        i = i + 1;
    }
    proof {
        assert(r@ =~= v@);
    }
    r
}

/// An element-for-element copy of a character vector.
pub(crate) fn copy_chars(v: &Vec<char>) -> (r: Vec<char>)
    ensures
        r@ == v@,
{
    let mut r: Vec<char> = Vec::new();
    let mut i: usize = 0;
    while i < v.len()
        invariant
            i <= v@.len(),
            r@ == v@.subrange(0, i as int),
        decreases v@.len() - i,
    {
        r.push(v[i]);
        i = i + 1;
    }
    proof {
        assert(r@ =~= v@);
    }
    r
}

/// An element-for-element copy of an offset vector.
pub(crate) fn copy_offsets(v: &Vec<usize>) -> (r: Vec<usize>)
    ensures
        r@ == v@,
{
    let mut r: Vec<usize> = Vec::new();
    let mut i: usize = 0;
    while i < v.len()
        invariant
            i <= v@.len(),
            r@ == v@.subrange(0, i as int),
        decreases v@.len() - i,
    {
        r.push(v[i]);
        i = i + 1;
    }
    proof {
        assert(r@ =~= v@);
    }
    r
}

} // verus!
