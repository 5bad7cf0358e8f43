use re1::{Inst, Lexer, ParseError, Regexp, Sub, Token, VM};

fn chars_of(s: &str) -> Vec<char> {
    s.chars().collect()
}

#[test]
fn lexer_maps_every_character() {
    let mut lx = Lexer::new(chars_of("a|*+?():.z"));
    assert_eq!(lx.next_token(), Some((0, Token::Char('a'), 1)));
    assert_eq!(lx.next_token(), Some((1, Token::Alt, 2)));
    assert_eq!(lx.next_token(), Some((2, Token::Star, 3)));
    assert_eq!(lx.next_token(), Some((3, Token::Plus, 4)));
    assert_eq!(lx.next_token(), Some((4, Token::Quest, 5)));
    assert_eq!(lx.next_token(), Some((5, Token::ParenL, 6)));
    assert_eq!(lx.next_token(), Some((6, Token::ParenR, 7)));
    assert_eq!(lx.next_token(), Some((7, Token::Colon, 8)));
    assert_eq!(lx.next_token(), Some((8, Token::Dot, 9)));
    assert_eq!(lx.next_token(), Some((9, Token::Char('z'), 10)));
    assert_eq!(lx.next_token(), None);
    assert_eq!(lx.next_token(), None);
}

#[test]
fn parse_builds_expected_trees() {
    let re = Regexp::parse(&chars_of("ab")).unwrap();
    assert_eq!(
        re,
        Regexp::Cat(Box::new(Regexp::Lit('a')), Box::new(Regexp::Lit('b'))),
    );
    let re = Regexp::parse(&chars_of("a|b")).unwrap();
    assert_eq!(
        re,
        Regexp::Alt(Box::new(Regexp::Lit('a')), Box::new(Regexp::Lit('b'))),
    );
    let re = Regexp::parse(&chars_of("a*?")).unwrap();
    assert_eq!(re, Regexp::Star(false, Box::new(Regexp::Lit('a'))));
    let re = Regexp::parse(&chars_of(".+")).unwrap();
    assert_eq!(re, Regexp::Plus(true, Box::new(Regexp::Dot)));
}

#[test]
fn parse_numbers_groups_left_to_right() {
    let re = Regexp::parse(&chars_of("(a)((b))")).unwrap();
    let expected = Regexp::Cat(
        Box::new(Regexp::Paren(1, Box::new(Regexp::Lit('a')))),
        Box::new(Regexp::Paren(
            2,
            Box::new(Regexp::Paren(3, Box::new(Regexp::Lit('b')))),
        )),
    );
    assert_eq!(re, expected);
}

#[test]
fn non_capturing_group_takes_no_id() {
    let re = Regexp::parse(&chars_of("(:a)(b)")).unwrap();
    let expected = Regexp::Cat(
        Box::new(Regexp::Lit('a')),
        Box::new(Regexp::Paren(1, Box::new(Regexp::Lit('b')))),
    );
    assert_eq!(re, expected);
    // The (?: spelling groups without capturing as well.
    let re2 = Regexp::parse(&chars_of("(?:a)(b)")).unwrap();
    assert_eq!(re2, expected);
}

#[test]
fn parse_errors_report_offset_and_token() {
    assert_eq!(
        Regexp::parse(&chars_of("")),
        Err(ParseError { offset: 0, token: None }),
    );
    assert_eq!(
        Regexp::parse(&chars_of("(a")),
        Err(ParseError { offset: 2, token: None }),
    );
    assert_eq!(
        Regexp::parse(&chars_of("a|")),
        Err(ParseError { offset: 2, token: None }),
    );
    assert_eq!(
        Regexp::parse(&chars_of("*a")),
        Err(ParseError { offset: 0, token: Some(Token::Star) }),
    );
    assert_eq!(
        Regexp::parse(&chars_of("a**")),
        Err(ParseError { offset: 2, token: Some(Token::Star) }),
    );
    assert_eq!(
        Regexp::parse(&chars_of("a)b")),
        Err(ParseError { offset: 1, token: Some(Token::ParenR) }),
    );
    assert_eq!(
        Regexp::parse(&chars_of("a:b")),
        Err(ParseError { offset: 1, token: Some(Token::Colon) }),
    );
}

#[test]
fn unanchored_wraps_pattern_as_group_zero() {
    let re = Regexp::parse(&chars_of("x")).unwrap().unanchored();
    let expected = Regexp::Cat(
        Box::new(Regexp::Star(false, Box::new(Regexp::Dot))),
        Box::new(Regexp::Paren(0, Box::new(Regexp::Lit('x')))),
    );
    assert_eq!(re, expected);
}

#[test]
fn sub_store_operations() {
    let mut sub = Sub::new(4);
    assert_eq!(sub.len(), 4);
    assert_eq!(sub.get(0), usize::MAX);
    sub.set(1, 7);
    assert_eq!(sub.get(1), 7);
    let sub2 = sub.clone().update(2, 9);
    assert_eq!(sub2.get(1), 7);
    assert_eq!(sub2.get(2), 9);
    assert_eq!(sub.get(2), usize::MAX, "updating a snapshot leaves the source alone");
    sub.reset();
    assert_eq!(sub.get(1), usize::MAX);
}

#[test]
fn vm_cursor_operations() {
    let prog = Regexp::parse(&chars_of("ab")).unwrap().compile();
    let mut vm = VM::new(&prog, chars_of("ab"), false);
    assert_eq!(vm.inst(), Some(Inst::Char('a')));
    assert_eq!(vm.next_inst(), Some(Inst::Char('a')));
    assert_eq!(vm.pc, 1);
    assert_eq!(vm.next_char(), Some('a'));
    assert_eq!(vm.offset, 1);
    assert_eq!(vm.next_inst(), Some(Inst::Char('b')));
    assert_eq!(vm.next_inst(), Some(Inst::Match));
    assert_eq!(vm.next_inst(), None);
    assert_eq!(vm.next_char(), Some('b'));
    assert_eq!(vm.next_char(), None);
    vm.reset();
    assert_eq!(vm.pc, 0);
    assert_eq!(vm.offset, 0);
}
