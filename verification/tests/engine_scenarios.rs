use re1::{Outcome, Prog, Regexp, Sub, VM};

const UNSET: usize = usize::MAX;

fn compile_pattern(pattern: &str) -> Prog {
    let chars: Vec<char> = pattern.chars().collect();
    let re = Regexp::parse(&chars).expect("pattern should parse");
    re.unanchored().compile()
}

fn caps(sub: &Sub) -> Vec<usize> {
    let mut v = Vec::new();
    let mut i = 0;
    while i < sub.len() {
        v.push(sub.get(i));
        i += 1;
    }
    v
}

fn run_recursive(prog: &Prog, input: &str) -> Option<Vec<usize>> {
    let mut vm = VM::new(prog, input.chars().collect(), false);
    let mut sub = Sub::new(prog.nsub());
    match vm.match_recursive(&mut sub) {
        Outcome::Matched => Some(caps(&sub)),
        Outcome::NoMatch => None,
        Outcome::Exhausted => panic!("recursive engine exhausted"),
    }
}

fn run_recursive_loop(prog: &Prog, input: &str) -> Option<Vec<usize>> {
    let mut vm = VM::new(prog, input.chars().collect(), false);
    let mut sub = Sub::new(prog.nsub());
    match vm.match_recursive_loop(&mut sub) {
        Outcome::Matched => Some(caps(&sub)),
        Outcome::NoMatch => None,
        Outcome::Exhausted => panic!("recursive loop engine exhausted"),
    }
}

fn run_backtrack(prog: &Prog, input: &str) -> Option<Vec<usize>> {
    let mut vm = VM::new(prog, input.chars().collect(), false);
    let mut sub = Sub::new(prog.nsub());
    match vm.match_backtrack(&mut sub) {
        Outcome::Matched => Some(caps(&sub)),
        Outcome::NoMatch => None,
        Outcome::Exhausted => panic!("backtrack engine exhausted"),
    }
}

fn run_pike(prog: &Prog, input: &str) -> Option<Vec<usize>> {
    let mut vm = VM::new(prog, input.chars().collect(), false);
    let mut sub = Sub::new(prog.nsub());
    if vm.match_pikevm(&mut sub) {
        Some(caps(&sub))
    } else {
        None
    }
}

fn run_thompson(prog: &Prog, input: &str) -> bool {
    let mut vm = VM::new(prog, input.chars().collect(), false);
    let mut sub = Sub::new(prog.nsub());
    vm.match_thompsonvm(&mut sub)
}

fn assert_all(pattern: &str, input: &str, expected: Option<Vec<usize>>) {
    let prog = compile_pattern(pattern);
    assert_eq!(run_recursive(&prog, input), expected, "recursive: {pattern} vs {input}");
    assert_eq!(run_recursive_loop(&prog, input), expected, "recursive loop: {pattern} vs {input}");
    assert_eq!(run_backtrack(&prog, input), expected, "backtrack: {pattern} vs {input}");
    assert_eq!(run_pike(&prog, input), expected, "pike: {pattern} vs {input}");
    assert_eq!(run_thompson(&prog, input), expected.is_some(), "thompson: {pattern} vs {input}");
}

#[test]
fn greedy_capture() {
    assert_all("a*", "aaa", Some(vec![0, 3]));
}

#[test]
fn non_greedy_minimality() {
    assert_all("a*?b", "aaab", Some(vec![0, 4]));
    assert_all("(a*?)b", "aaab", Some(vec![0, 4, 0, 3]));
}

#[test]
fn non_greedy_stays_short() {
    // The non-greedy star keeps the shortest expansion that still
    // allows an overall match: group 1 ends where the first b begins.
    assert_all("(a*?)b", "aabab", Some(vec![0, 3, 0, 2]));
}

#[test]
fn alternation_priority() {
    assert_all("a|ab", "ab", Some(vec![0, 1]));
}

#[test]
fn capture_nesting() {
    assert_all("(a(b)?)", "a", Some(vec![0, 1, 0, 1, UNSET, UNSET]));
    assert_all("(a(b)?)", "ab", Some(vec![0, 2, 0, 2, 1, 2]));
}

#[test]
fn unanchored_search() {
    assert_all("b", "abc", Some(vec![1, 2]));
}

#[test]
fn no_match_cases() {
    assert_all("a", "", None);
    assert_all("ab", "a", None);
    assert_all("a+", "bbb", None);
    assert_all("a.c", "ab", None);
}

#[test]
fn plus_and_quest() {
    assert_all("ab+c", "abbbc", Some(vec![0, 5]));
    assert_all("a?b", "b", Some(vec![0, 1]));
    assert_all("a?b", "ab", Some(vec![0, 2]));
    assert_all("a+?b", "aab", Some(vec![0, 3]));
}

#[test]
fn dot_and_groups() {
    assert_all(".", "x", Some(vec![0, 1]));
    assert_all("a.c", "abc", Some(vec![0, 3]));
    assert_all("(a|b)*c", "abbac", Some(vec![0, 5, 3, 4]));
}

#[test]
fn non_capturing_group() {
    // (: ... ) and (?: ... ) group without allotting capture slots.
    assert_all("(:ab)+", "ababab", Some(vec![0, 6]));
    assert_all("(?:ab)+", "ababab", Some(vec![0, 6]));
    assert_all("(:a|b)c", "bc", Some(vec![0, 2]));
}

#[test]
fn empty_width_matches() {
    // A lone non-greedy star prefers the empty expansion.
    assert_all("a*?", "aaa", Some(vec![0, 0]));
    assert_all("a*", "", Some(vec![0, 0]));
    assert_all(".", "", None);
}

#[test]
fn alternation_leaves_unused_group_unset() {
    assert_all("(a)|b", "b", Some(vec![0, 1, UNSET, UNSET]));
    assert_all("(a)|b", "a", Some(vec![0, 1, 0, 1]));
}

#[test]
fn cross_engine_equivalence() {
    let patterns = [
        "a", "a*", "a*?b", "a|ab", "(a(b)?)", "ab+c", "a?b", "(:ab)+", ".", "a.c", "(a|b)*c",
        "(a*)(b*)", "a|b|c", "x+y+", "(ab|a)(c|bc)",
    ];
    let inputs = ["", "a", "ab", "abc", "aaab", "b", "bc", "abbac", "xy", "xxyy", "ababab", "ac"];
    for pattern in patterns {
        let prog = compile_pattern(pattern);
        for input in inputs {
            let r1 = run_recursive(&prog, input);
            let r2 = run_recursive_loop(&prog, input);
            let r3 = run_backtrack(&prog, input);
            let r4 = run_pike(&prog, input);
            let r5 = run_thompson(&prog, input);
            assert_eq!(r1, r2, "recursive vs loop: {pattern} vs {input}");
            assert_eq!(r1, r3, "recursive vs backtrack: {pattern} vs {input}");
            assert_eq!(r1, r4, "recursive vs pike: {pattern} vs {input}");
            assert_eq!(r1.is_some(), r5, "recursive vs thompson: {pattern} vs {input}");
        }
    }
}

#[test]
fn thompson_reports_whole_span() {
    // The whole-match engine records only the overall span, with the
    // span start pinned at 0 because its threads carry no state.
    let prog = compile_pattern("a*");
    let mut vm = VM::new(&prog, "aaa".chars().collect(), false);
    let mut sub = Sub::new(prog.nsub());
    assert!(vm.match_thompsonvm(&mut sub));
    assert_eq!(sub.get(0), 0);
    assert_eq!(sub.get(1), 3);
}
