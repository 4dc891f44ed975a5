use reg::codegen::{get_code, Instruction};
use reg::evaluator::{eval, EvalError};
use reg::parser::{parse, Ast, ParseError};
use reg::{do_matching, dump, Error};

fn chars(s: &str) -> Vec<char> {
    s.chars().collect()
}

fn program(expr: &str) -> Vec<Instruction> {
    dump(expr).unwrap().1
}

fn targets_in_bounds(code: &[Instruction]) -> bool {
    code.iter().all(|i| match i {
        Instruction::Jump(a) => *a < code.len(),
        Instruction::Split(a, b) => *a < code.len() && *b < code.len(),
        _ => true,
    })
}

#[test]
fn test_matching() {
    assert!(do_matching("+b", "bbb", true).is_err());
    assert!(do_matching("*b", "bbb", true).is_err());
    assert!(do_matching("|b", "bbb", true).is_err());
    assert!(do_matching("?b", "bbb", true).is_err());

    assert!(do_matching("abc|def", "def", true).unwrap());
    assert!(do_matching("a*", "aa", true).unwrap());
}

#[test]
fn leading_operator_is_parse_error_in_both_modes() {
    for p in ["*a", "+a", "|a", "?a"] {
        for mode in [true, false] {
            assert_eq!(do_matching(p, "a", mode), Err(Error::Parse(ParseError::Unexpected(0))));
        }
    }
}

#[test]
fn other_parse_errors() {
    assert_eq!(do_matching("", "", true), Err(Error::Parse(ParseError::UnexpectedEnd)));
    assert_eq!(do_matching("a|", "a", false), Err(Error::Parse(ParseError::UnexpectedEnd)));
    assert_eq!(do_matching("(ab", "ab", true), Err(Error::Parse(ParseError::Unclosed(0))));
    assert_eq!(do_matching("ab)", "ab", true), Err(Error::Parse(ParseError::Unexpected(2))));
    assert_eq!(do_matching("a**", "a", true), Err(Error::Parse(ParseError::Unexpected(2))));
    assert_eq!(do_matching("()", "", true), Err(Error::Parse(ParseError::Unexpected(1))));
}

#[test]
fn alternation_scenarios() {
    assert_eq!(do_matching("abc|def", "def", true), Ok(true));
    assert_eq!(do_matching("abc|def", "xyz", true), Ok(false));
}

#[test]
fn star_scenarios() {
    assert_eq!(do_matching("a*", "aa", true), Ok(true));
    assert_eq!(do_matching("a*", "", true), Ok(true));
    assert_eq!(do_matching("a*", "b", true), Ok(false));
}

#[test]
fn plus_scenarios() {
    assert_eq!(do_matching("a+", "", true), Ok(false));
    assert_eq!(do_matching("a+", "a", true), Ok(true));
}

#[test]
fn whole_input_must_be_consumed() {
    assert_eq!(do_matching("ab", "abc", true), Ok(false));
    assert_eq!(do_matching("ab", "abc", false), Ok(false));
    assert_eq!(do_matching("a?b", "b", false), Ok(true));
}

#[test]
fn modes_agree() {
    let patterns = ["abc|def", "a*", "a+", "(ab)+", "(a|b)*c", "(a*)*", "a(bc)+|c(def)*", "x?y?"];
    let lines = ["", "a", "aa", "ab", "abab", "abc", "c", "abcbc", "cdefdef", "xy", "y", "def"];
    for p in patterns {
        for l in lines {
            assert_eq!(do_matching(p, l, true), do_matching(p, l, false), "{} on {}", p, l);
        }
    }
    assert_eq!(do_matching("(ab|cd)+", "abcdcd", true), Ok(true));
    assert_eq!(do_matching("(abc)*", "abcabc", false), Ok(true));
    assert_eq!(do_matching("(a*)*", "aab", true), Ok(false));
}

#[test]
fn dump_is_repeatable() {
    assert_eq!(dump("a(bc)+|c(def)*"), dump("a(bc)+|c(def)*"));
    assert_eq!(dump("*"), Err(Error::Parse(ParseError::Unexpected(0))));
}

#[test]
fn compiled_programs() {
    assert_eq!(
        program("a|b"),
        vec![
            Instruction::Split(1, 3),
            Instruction::Char('a'),
            Instruction::Jump(4),
            Instruction::Char('b'),
            Instruction::Match,
        ]
    );
    assert_eq!(
        program("a*"),
        vec![Instruction::Split(1, 3), Instruction::Char('a'), Instruction::Jump(0), Instruction::Match]
    );
    assert_eq!(program("a+"), vec![Instruction::Char('a'), Instruction::Split(0, 2), Instruction::Match]);
    assert_eq!(program("a?"), vec![Instruction::Split(1, 2), Instruction::Char('a'), Instruction::Match]);
    assert_eq!(program("ab"), vec![Instruction::Char('a'), Instruction::Char('b'), Instruction::Match]);
}

#[test]
fn nested_groups_have_valid_targets() {
    for p in ["(a|b)*", "(ab)+", "((a|b)*c)+d?", "(a(b|c)*)+|e", "((a?)*)+"] {
        let code = program(p);
        assert!(targets_in_bounds(&code), "{}", p);
        assert_eq!(code.last(), Some(&Instruction::Match));
    }
}

#[test]
fn parse_tree_shape() {
    let ast = parse(&chars("ab|c*")).unwrap();
    let expected = Ast::Alt(
        Box::new(Ast::Concat(Box::new(Ast::Char('a')), Box::new(Ast::Char('b')))),
        Box::new(Ast::Star(Box::new(Ast::Char('c')))),
    );
    assert_eq!(ast, expected);
    assert_eq!(get_code(&ast).unwrap().len(), 8);
}

#[test]
fn eval_rejects_bad_targets() {
    let bad = vec![Instruction::Jump(5), Instruction::Match];
    assert_eq!(eval(&bad, &chars(""), true), Err(EvalError::InvalidTarget(0)));
    let empty: Vec<Instruction> = Vec::new();
    assert_eq!(eval(&empty, &chars(""), false), Ok(false));
}

#[test]
fn unicode_characters() {
    assert_eq!(do_matching("é+ü", "ééü", false), Ok(true));
    assert_eq!(do_matching("é+ü", "ü", true), Ok(false));
}

#[test]
fn instruction_text() {
    assert_eq!(Instruction::Char('x').to_string(), "char x");
    assert_eq!(Instruction::Match.to_string(), "match");
    assert_eq!(Instruction::Jump(3).to_string(), "jump 0003");
    assert_eq!(Instruction::Jump(42).to_string(), "jump 0042");
    assert_eq!(Instruction::Split(1, 123).to_string(), "split 0001 0123");
    assert_eq!(Instruction::Split(1000, 98765).to_string(), "split 1000 98765");
}

#[test]
fn listing_of_a_pattern() {
    let lines: Vec<String> = program("a|b").iter().map(|i| i.to_string()).collect();
    assert_eq!(lines, vec!["split 0001 0003", "char a", "jump 0004", "char b", "match"]);
}
