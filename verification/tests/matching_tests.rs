use regex_engine::engine::codegen::gen_code;
use regex_engine::engine::parser::ParseError;
use regex_engine::engine::EngineError;
use regex_engine::engine::evaluator::{eval, EvalError};
use regex_engine::engine::parser::parse;
use regex_engine::engine::{do_matching, Instruction};

fn compile(expr: &str) -> Vec<Instruction> {
    gen_code(&parse(expr).unwrap()).unwrap()
}

#[test]
fn test_program_ends_in_match_with_valid_addresses() {
    for expr in ["a", "abc", "a|b", "a*", "a+", "a?", "(ab|cd)+e"] {
        let code = compile(expr);
        assert!(matches!(code.last(), Some(Instruction::Match)));
        for inst in &code {
            match inst {
                Instruction::Jump(a) => assert!(*a < code.len()),
                Instruction::Split(a1, a2) => {
                    assert!(*a1 < code.len());
                    assert!(*a2 < code.len());
                }
                _ => {}
            }
        }
    }
}

#[test]
fn test_alternation_program_shape() {
    let code = compile("a|b");
    assert_eq!(
        code,
        vec![
            Instruction::Split(1, 3),
            Instruction::Char('a'),
            Instruction::Jump(4),
            Instruction::Char('b'),
            Instruction::Match,
        ]
    );
}

#[test]
fn test_concatenation_program_shape() {
    let code = compile("abc");
    assert_eq!(
        code,
        vec![
            Instruction::Char('a'),
            Instruction::Char('b'),
            Instruction::Char('c'),
            Instruction::Match,
        ]
    );
}

#[test]
fn test_star_boundaries() {
    for depth in [true, false] {
        assert_eq!(do_matching("a*", "", depth), Ok(true));
        assert_eq!(do_matching("a*", "a", depth), Ok(true));
        assert_eq!(do_matching("a*", "aaaa", depth), Ok(true));
    }
}

#[test]
fn test_plus_boundaries() {
    for depth in [true, false] {
        assert_eq!(do_matching("a+", "", depth), Ok(false));
        assert_eq!(do_matching("a+", "a", depth), Ok(true));
        assert_eq!(do_matching("a+", "aaa", depth), Ok(true));
        assert_eq!(do_matching("a+", "ba", depth), Ok(false));
    }
}

#[test]
fn test_question_boundaries() {
    for depth in [true, false] {
        assert_eq!(do_matching("a?", "", depth), Ok(true));
        assert_eq!(do_matching("a?", "a", depth), Ok(true));
    }
}

#[test]
fn test_literal_concatenation_at_offsets() {
    let code = compile("abc");
    // against "xabcx": from offset 1 the literal is found ...
    let at_offset_1: Vec<char> = "abcx".chars().collect();
    assert_eq!(eval(&code, &at_offset_1, true), Ok(true));
    assert_eq!(eval(&code, &at_offset_1, false), Ok(true));
    // ... and from offset 0 the leading 'x' fails the first instruction.
    let at_offset_0: Vec<char> = "xabcx".chars().collect();
    assert_eq!(eval(&code, &at_offset_0, true), Ok(false));
    assert_eq!(eval(&code, &at_offset_0, false), Ok(false));
}

#[test]
fn test_alternation_matches_either_branch() {
    for depth in [true, false] {
        assert_eq!(do_matching("ab|abc", "abc", depth), Ok(true));
        assert_eq!(do_matching("ab|abc", "abd", depth), Ok(true));
        assert_eq!(do_matching("abc|ab", "abd", depth), Ok(true));
        assert_eq!(do_matching("ab|abc", "ac", depth), Ok(false));
    }
}

#[test]
fn test_depth_and_width_agree() {
    let patterns = [
        "a", "ab", "a|b", "a+", "a?", "a?b", "(ab|cd)+", "(a)((b))c", "x\\?y", "()a", "a+b+",
        "(ab)+c", "a|b|c|d",
    ];
    let lines = ["", "a", "b", "ab", "abc", "cd", "abcd", "x?y", "ba", "aabb"];
    for pattern in patterns {
        for line in lines {
            let depth = do_matching(pattern, line, true);
            let width = do_matching(pattern, line, false);
            assert_eq!(depth, width, "pattern {pattern:?} on line {line:?}");
        }
    }
}

#[test]
fn test_malformed_program_reports_invalid_address() {
    let stray: Vec<Instruction> = vec![Instruction::Jump(5)];
    let empty_line: Vec<char> = Vec::new();
    assert_eq!(eval(&stray, &empty_line, true), Err(EvalError::InvalidPc));
    assert_eq!(eval(&stray, &empty_line, false), Err(EvalError::InvalidPc));
    let empty_prog: Vec<Instruction> = Vec::new();
    assert_eq!(eval(&empty_prog, &empty_line, true), Err(EvalError::InvalidPc));
}

#[test]
fn test_parse_error_is_wrapped() {
    assert_eq!(
        do_matching("+", "x", true),
        Err(EngineError::Parse(ParseError::NoOperand(0)))
    );
}
