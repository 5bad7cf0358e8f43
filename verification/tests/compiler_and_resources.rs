use re1::{Inst, Outcome, Prog, Regexp, Sub, VM};

fn parse_pattern(pattern: &str) -> Regexp {
    let chars: Vec<char> = pattern.chars().collect();
    Regexp::parse(&chars).expect("pattern should parse")
}

fn compile_pattern(pattern: &str) -> Prog {
    parse_pattern(pattern).unanchored().compile()
}

#[test]
fn compilation_is_deterministic() {
    for pattern in ["a|ab", "(a(b)?)", "a*?b", "(:a|b)+c", "x.y"] {
        let p1 = compile_pattern(pattern);
        let p2 = compile_pattern(pattern);
        assert_eq!(p1.insts(), p2.insts(), "{pattern}");
    }
}

#[test]
fn exact_instruction_sequence() {
    // .*?(a|b): the non-greedy unanchored prefix, the whole-match
    // group, and an alternation preferring its first operand.
    let prog = compile_pattern("a|b");
    let expected = vec![
        Inst::Split(3, 1),
        Inst::Any,
        Inst::Jmp(0),
        Inst::Save(0),
        Inst::Split(5, 7),
        Inst::Char('a'),
        Inst::Jmp(8),
        Inst::Char('b'),
        Inst::Save(1),
        Inst::Match,
    ];
    assert_eq!(prog.insts(), &expected);
}

#[test]
fn quantifier_instruction_shapes() {
    // a* : greedy split prefers the body; a*? : swapped operands.
    let greedy = parse_pattern("a*").compile();
    assert_eq!(
        greedy.insts(),
        &vec![Inst::Split(1, 3), Inst::Char('a'), Inst::Jmp(0), Inst::Match],
    );
    let lazy = parse_pattern("a*?").compile();
    assert_eq!(
        lazy.insts(),
        &vec![Inst::Split(3, 1), Inst::Char('a'), Inst::Jmp(0), Inst::Match],
    );
    let plus = parse_pattern("a+").compile();
    assert_eq!(plus.insts(), &vec![Inst::Char('a'), Inst::Split(0, 2), Inst::Match]);
    let quest = parse_pattern("a?").compile();
    assert_eq!(quest.insts(), &vec![Inst::Split(1, 2), Inst::Char('a'), Inst::Match]);
}

#[test]
fn nsub_counts_capture_slots() {
    assert_eq!(compile_pattern("(a(b)?)").nsub(), 6);
    assert_eq!(compile_pattern("a").nsub(), 2);
    assert_eq!(parse_pattern("a").compile().nsub(), 0);
    assert_eq!(parse_pattern("(a)(b)").compile().nsub(), 6);
}

#[test]
fn prog_accessors() {
    let prog = parse_pattern("a").compile();
    assert_eq!(prog.inst(0), Some(Inst::Char('a')));
    assert_eq!(prog.inst(1), Some(Inst::Match));
    assert_eq!(prog.inst(2), None);
    assert_eq!(prog.insts().len(), 2);
}

#[test]
fn checked_count_and_groups() {
    let re = parse_pattern("(a(b)?)*|c");
    assert_eq!(re.checked_count(), Some(12));
    assert!(re.check_groups());
    let wrapped = re.unanchored();
    assert_eq!(wrapped.checked_count(), Some(17));
    assert!(wrapped.check_groups());
}

#[test]
fn stack_engine_aborts_on_blowup() {
    // An empty-width repetition loop defers one more alternative per
    // turn without consuming input, so the explicit-stack engine must
    // hit its resource cap — and abort rather than report a result.
    let prog = compile_pattern("(a*)*");
    let mut vm = VM::new(&prog, "".chars().collect(), false);
    let mut sub = Sub::new(prog.nsub());
    let before: Vec<usize> = vec![usize::MAX; prog.nsub()];
    assert_eq!(vm.match_backtrack(&mut sub), Outcome::Exhausted);
    let mut after = Vec::new();
    let mut i = 0;
    while i < sub.len() {
        after.push(sub.get(i));
        i += 1;
    }
    assert_eq!(after, before, "an aborted search must not touch the captures");
}

#[test]
fn recursive_engines_abort_on_blowup() {
    let prog = compile_pattern("(a*)*");
    let mut vm = VM::new(&prog, "".chars().collect(), false);
    let mut sub = Sub::new(prog.nsub());
    assert_eq!(vm.match_recursive(&mut sub), Outcome::Exhausted);
    vm.reset();
    sub.reset();
    assert_eq!(vm.match_recursive_loop(&mut sub), Outcome::Exhausted);
}

#[test]
fn simulation_engines_survive_blowup() {
    // The deduplicated generations keep the simulation engines linear
    // where the backtrackers go exponential: twenty optional a's
    // followed by twenty mandatory ones.
    let pattern = "a?a?a?a?a?a?a?a?a?a?a?a?a?a?a?a?a?a?a?a?aaaaaaaaaaaaaaaaaaaa";
    let input = "aaaaaaaaaaaaaaaaaaaa";
    let prog = compile_pattern(pattern);
    let mut vm = VM::new(&prog, input.chars().collect(), false);
    let mut sub = Sub::new(prog.nsub());
    assert!(vm.match_thompsonvm(&mut sub));
    vm.reset();
    assert!(vm.match_pikevm(&mut sub));
    assert_eq!(sub.get(0), 0);
    assert_eq!(sub.get(1), 20);
    // The empty-loop pattern that defeats the backtrackers is decided
    // in one generation sweep here.
    let looping = compile_pattern("(a*)*");
    let mut vm2 = VM::new(&looping, "".chars().collect(), false);
    let mut sub2 = Sub::new(looping.nsub());
    assert!(vm2.match_thompsonvm(&mut sub2));
    vm2.reset();
    assert!(vm2.match_pikevm(&mut sub2));
}
