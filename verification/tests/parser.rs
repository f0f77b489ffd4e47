use jqsh::builtin;
use jqsh::lang::code::Code;
use jqsh::lang::context::{Context, Precedence, PrecedenceGroup};
use jqsh::lang::filter::{Behavior, Filter};
use jqsh::lang::parser::{parse, tokenize, ParseError, Tf, Token, Tokens};

fn text_of(code: &Code) -> String {
    code.remaining().into_iter().collect()
}

fn kinds(source: &str) -> Vec<String> {
    tokenize(Code::from_text(source))
        .into_iter()
        .map(|item| match item {
            Tf::Token(Token::Invalid(c)) => format!("invalid {}", c),
            Tf::Token(Token::OpenParen) => "open".to_string(),
            Tf::Token(Token::CloseParen) => "close".to_string(),
            Tf::Token(Token::AndThen(code)) => format!("then[{}]", text_of(&code)),
            Tf::Token(Token::Whitespace) => "blank".to_string(),
            Tf::Filter(_) => "filter".to_string(),
        })
        .collect()
}

#[test]
fn code_yields_its_characters_in_order() {
    let mut code = Code::from_text("ab");
    assert_eq!(code.next(), Some('a'));
    assert_eq!(code.next(), Some('b'));
    assert_eq!(code.next(), None);
    assert_eq!(code.next(), None);
}

#[test]
fn code_peek_looks_further_each_time_and_next_resets_it() {
    let mut code = Code::new(vec!['x', 'y', 'z']);
    assert_eq!(code.peek(), Some('x'));
    assert_eq!(code.peek(), Some('y'));
    assert_eq!(code.peek(), Some('z'));
    assert_eq!(code.peek(), None);
    assert_eq!(code.next(), Some('x'));
    assert_eq!(code.peek(), Some('y'));
    assert_eq!(text_of(&code), "yz");
}

#[test]
fn code_clone_reads_the_rest_and_leaves_the_cursor() {
    let mut code = Code::from_text("hello");
    code.next();
    code.peek();
    let mut copy = code.clone();
    assert_eq!(copy.peek(), Some('e'));
    assert_eq!(text_of(&copy), "ello");
    assert_eq!(copy.next(), Some('e'));
    assert_eq!(code.next(), Some('e'));
    assert_eq!(text_of(&code), "llo");
}

#[test]
fn code_default_is_empty() {
    let mut code = Code::default();
    assert_eq!(code.peek(), None);
    assert_eq!(code.next(), None);
    assert_eq!(text_of(&code), "");
}

#[test]
fn code_keeps_characters_outside_ascii() {
    let code = Code::from_text("\u{3b1}(\u{1f600})");
    assert_eq!(text_of(&code), "\u{3b1}(\u{1f600})");
}

#[test]
fn tokens_of_blanks_and_parentheses() {
    assert_eq!(kinds(" \t\r\n()"), vec!["blank", "blank", "blank", "blank", "open", "close"]);
}

#[test]
fn tokens_of_the_empty_text() {
    assert!(kinds("").is_empty());
}

#[test]
fn a_comment_is_one_blank_and_ends_before_the_line_feed() {
    assert_eq!(kinds("# ( @ ;;\n)"), vec!["blank", "blank", "close"]);
    assert_eq!(kinds("#"), vec!["blank"]);
    assert_eq!(kinds("(#)"), vec!["open", "blank"]);
}

#[test]
fn sequencing_token_takes_all_the_text_behind_it() {
    assert_eq!(kinds("( ;; ) @ # x"), vec!["open", "blank", "then[ ) @ # x]"]);
    assert_eq!(kinds(";;"), vec!["then[]"]);
}

#[test]
fn a_single_semicolon_is_invalid() {
    assert_eq!(kinds(";"), vec!["invalid ;"]);
    assert_eq!(kinds("; ;"), vec!["invalid ;", "blank", "invalid ;"]);
    assert_eq!(kinds(";(;;"), vec!["invalid ;", "open", "then[]"]);
}

#[test]
fn tokenizer_hands_tokens_out_one_by_one() {
    let mut tokens = Tokens::new(Code::from_text("(;;rest"));
    assert!(matches!(tokens.next(), Some(Token::OpenParen)));
    match tokens.next() {
        Some(Token::AndThen(code)) => assert_eq!(text_of(&code), "rest"),
        other => panic!("unexpected token {:?}", other),
    }
    assert!(tokens.next().is_none());
    assert!(tokens.next().is_none());
}

#[test]
fn empty_and_blank_text_parse_to_the_empty_filter() {
    assert!(matches!(parse(Code::from_text(""), builtin::context_with_parentheses()), Ok(Filter::Empty)));
    assert!(matches!(parse(Code::from_text("  \n\t"), builtin::context_with_parentheses()), Ok(Filter::Empty)));
    assert!(matches!(parse(Code::from_text("# nothing here"), builtin::context()), Ok(Filter::Empty)));
    assert!(matches!(parse(Code::default(), builtin::context()), Ok(Filter::Empty)));
}

#[test]
fn double_sequencing_parses_lazily() {
    let parsed = parse(Code::from_text(";; ;;"), builtin::context()).unwrap();
    match parsed {
        Filter::AndThen { lhs, remaining_code } => {
            assert!(matches!(*lhs, Filter::Empty));
            assert_eq!(text_of(&remaining_code), " ;;");
            let inner = parse(remaining_code, builtin::context()).unwrap();
            match inner {
                Filter::AndThen { lhs, remaining_code } => {
                    assert!(matches!(*lhs, Filter::Empty));
                    assert_eq!(text_of(&remaining_code), "");
                    assert!(matches!(parse(remaining_code, builtin::context()), Ok(Filter::Empty)));
                }
                other => panic!("unexpected filter {:?}", other),
            }
        }
        other => panic!("unexpected filter {:?}", other),
    }
}

#[test]
fn unmatched_open_paren_is_unbalanced() {
    match parse(Code::from_text("("), builtin::context_with_parentheses()) {
        Err(ParseError::UnbalancedParen(Token::OpenParen)) => {}
        other => panic!("unexpected outcome {:?}", other),
    }
}

#[test]
fn unmatched_close_paren_is_unbalanced() {
    match parse(Code::from_text(")"), builtin::context_with_parentheses()) {
        Err(ParseError::UnbalancedParen(Token::CloseParen)) => {}
        other => panic!("unexpected outcome {:?}", other),
    }
    match parse(Code::from_text("())"), builtin::context_with_parentheses()) {
        Err(ParseError::UnbalancedParen(Token::CloseParen)) => {}
        other => panic!("unexpected outcome {:?}", other),
    }
    match parse(Code::from_text("(()"), builtin::context_with_parentheses()) {
        Err(ParseError::UnbalancedParen(Token::OpenParen)) => {}
        other => panic!("unexpected outcome {:?}", other),
    }
}

#[test]
fn invalid_character_is_a_lexical_error() {
    match parse(Code::from_text("@"), builtin::context()) {
        Err(ParseError::InvalidToken('@')) => {}
        other => panic!("unexpected outcome {:?}", other),
    }
}

#[test]
fn the_first_invalid_character_is_reported_before_anything_else() {
    match parse(Code::from_text("( x ) y"), builtin::context_with_parentheses()) {
        Err(ParseError::InvalidToken('x')) => {}
        other => panic!("unexpected outcome {:?}", other),
    }
    match parse(Code::from_text(") ; ("), builtin::context_with_parentheses()) {
        Err(ParseError::InvalidToken(';')) => {}
        other => panic!("unexpected outcome {:?}", other),
    }
}

#[test]
fn invalid_text_behind_sequencing_is_not_looked_at() {
    match parse(Code::from_text(";; @"), builtin::context_with_parentheses()) {
        Ok(Filter::AndThen { lhs, remaining_code }) => {
            assert!(matches!(*lhs, Filter::Empty));
            assert_eq!(text_of(&remaining_code), " @");
        }
        other => panic!("unexpected outcome {:?}", other),
    }
}

#[test]
fn parentheses_make_a_group() {
    match parse(Code::from_text("()"), builtin::context_with_parentheses()) {
        Ok(Filter::Custom { attributes, run }) => {
            assert_eq!(attributes.len(), 1);
            assert!(matches!(attributes[0], Filter::Empty));
            assert_eq!(*run.get(), Behavior::Group);
            assert_eq!(run.label().as_str(), "<filter group (\u{3b1})>");
        }
        other => panic!("unexpected outcome {:?}", other),
    }
}

#[test]
fn nested_parentheses_make_nested_groups() {
    match parse(Code::from_text(" ( ( ) ) "), builtin::context_with_parentheses()) {
        Ok(Filter::Custom { attributes, .. }) => match &attributes[0] {
            Filter::Custom { attributes, .. } => {
                assert_eq!(attributes.len(), 1);
                assert!(matches!(attributes[0], Filter::Empty));
            }
            other => panic!("unexpected filter {:?}", other),
        },
        other => panic!("unexpected outcome {:?}", other),
    }
}

#[test]
fn a_group_becomes_the_left_operand_of_sequencing() {
    match parse(Code::from_text("()  ;;()"), builtin::context_with_parentheses()) {
        Ok(Filter::AndThen { lhs, remaining_code }) => {
            assert!(matches!(*lhs, Filter::Custom { .. }));
            assert_eq!(text_of(&remaining_code), "()");
        }
        other => panic!("unexpected outcome {:?}", other),
    }
}

#[test]
fn two_groups_side_by_side_are_not_fully_parsed() {
    match parse(Code::from_text("()()"), builtin::context_with_parentheses()) {
        Err(ParseError::NotFullyParsed(left)) => {
            assert_eq!(left.len(), 2);
            assert!(matches!(left[0], Tf::Filter(Filter::Custom { .. })));
            assert!(matches!(left[1], Tf::Filter(Filter::Custom { .. })));
        }
        other => panic!("unexpected outcome {:?}", other),
    }
}

#[test]
fn parentheses_without_a_circumfix_group_are_left_over() {
    match parse(Code::from_text("()"), builtin::context()) {
        Err(ParseError::NotFullyParsed(left)) => {
            assert_eq!(left.len(), 2);
            assert!(matches!(left[0], Tf::Token(Token::OpenParen)));
            assert!(matches!(left[1], Tf::Token(Token::CloseParen)));
        }
        other => panic!("unexpected outcome {:?}", other),
    }
    match parse(Code::from_text("("), builtin::context()) {
        Err(ParseError::NotFullyParsed(left)) => {
            assert_eq!(left.len(), 1);
            assert!(matches!(left[0], Tf::Token(Token::OpenParen)));
        }
        other => panic!("unexpected outcome {:?}", other),
    }
}

#[test]
fn sequencing_takes_a_token_to_its_left_for_an_empty_operand() {
    match parse(Code::from_text("( ;;x"), builtin::context()) {
        Ok(Filter::AndThen { lhs, remaining_code }) => {
            assert!(matches!(*lhs, Filter::Empty));
            assert_eq!(text_of(&remaining_code), "x");
        }
        other => panic!("unexpected outcome {:?}", other),
    }
}

#[test]
fn precedence_decides_which_group_reduces_first() {
    let mut sequencing_first = Context::new(|_: &Filter| true);
    sequencing_first.insert_operator(Precedence::from_integer(2), PrecedenceGroup::AndThen);
    sequencing_first.insert_operator(Precedence::from_integer(1), PrecedenceGroup::Circumfix);
    match parse(Code::from_text(")( ;;"), sequencing_first) {
        Err(ParseError::UnbalancedParen(Token::CloseParen)) => {}
        other => panic!("unexpected outcome {:?}", other),
    }
    match parse(Code::from_text(")( ;;"), builtin::context_with_parentheses()) {
        Err(ParseError::UnbalancedParen(Token::OpenParen)) => {}
        other => panic!("unexpected outcome {:?}", other),
    }
}

#[test]
fn a_context_without_groups_reduces_nothing() {
    let bare = Context::new(|_: &Filter| true);
    assert!(matches!(parse(Code::from_text(" "), bare.clone()), Ok(Filter::Empty)));
    match parse(Code::from_text(";;"), bare) {
        Err(ParseError::NotFullyParsed(left)) => {
            assert_eq!(left.len(), 1);
            assert!(matches!(left[0], Tf::Token(Token::AndThen(_))));
        }
        other => panic!("unexpected outcome {:?}", other),
    }
}

#[test]
fn a_refused_filter_comes_back_in_the_error() {
    let mut no_sequencing = Context::new(|filter: &Filter| !matches!(filter, Filter::AndThen { .. }));
    no_sequencing.insert_operator(Precedence::from_integer(0), PrecedenceGroup::AndThen);
    match parse(Code::from_text(";;tail"), no_sequencing.clone()) {
        Err(ParseError::NotAllowed(Filter::AndThen { lhs, remaining_code })) => {
            assert!(matches!(*lhs, Filter::Empty));
            assert_eq!(text_of(&remaining_code), "tail");
        }
        other => panic!("unexpected outcome {:?}", other),
    }
    assert!(matches!(parse(Code::from_text(""), no_sequencing), Ok(Filter::Empty)));
}

#[test]
fn a_policy_that_refuses_everything_refuses_the_empty_filter() {
    let nothing = Context::new(|_: &Filter| false);
    match parse(Code::from_text(""), nothing) {
        Err(ParseError::NotAllowed(Filter::Empty)) => {}
        other => panic!("unexpected outcome {:?}", other),
    }
}

#[test]
fn a_refused_group_comes_back_in_the_error() {
    let mut no_groups = Context::new(|filter: &Filter| !matches!(filter, Filter::Custom { .. }));
    no_groups.insert_operator(Precedence::from_integer(0), PrecedenceGroup::Circumfix);
    match parse(Code::from_text("(())"), no_groups) {
        Err(ParseError::NotAllowed(Filter::Custom { attributes, .. })) => {
            assert_eq!(attributes.len(), 1);
            assert!(matches!(attributes[0], Filter::Empty));
        }
        other => panic!("unexpected outcome {:?}", other),
    }
}
