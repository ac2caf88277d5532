//! The matching pipeline: parse a pattern, compile it, run it on a line.

use vstd::prelude::*;
use vstd::string::StrSliceExecFns;

pub mod codegen;
pub mod evaluator;
pub mod parser;

use self::codegen::{code_len, gen_code, lemma_generated_program_wf, program_spec, CodeGenError};
use self::evaluator::{
    accepts, accepts_from, at_match, eval, lemma_accepts_char, lemma_reaches_extend,
    lemma_reaches_refl, step, EvalError, VmState,
};
use self::parser::{ast_view, parse, parse_spec, AstS, ParseError};

verus! {

/// One instruction of a compiled pattern program.  Addresses held by
/// `Jump` and `Split` are indices into the same program.
#[derive(Debug, Clone, Copy, PartialEq, Eq)]
pub enum Instruction {
    /// Match one input character equal to the stored one and consume it.
    Char(char),
    /// Accept: the input consumed so far is a match.
    Match,
    /// Continue at the stored address.
    Jump(usize),
    /// Non-deterministic branch: try the first address, then the second.
    Split(usize, usize),
}

/// Ghost counterpart of `Instruction`, with mathematical addresses.
/// Program specifications are stated over sequences of these.
pub enum InstS {
    Char(char),
    Match,
    Jump(int),
    Split(int, int),
}

/// The ghost value of one instruction.
pub open spec fn inst_view(i: Instruction) -> InstS {
    match i {
        Instruction::Char(c) => InstS::Char(c),
        Instruction::Match => InstS::Match,
        Instruction::Jump(a) => InstS::Jump(a as int),
        Instruction::Split(a, b) => InstS::Split(a as int, b as int),
    }
}

/// The ghost value of a whole program.
pub open spec fn prog_view(s: Seq<Instruction>) -> Seq<InstS> {
    Seq::new(s.len(), |i: int| inst_view(s[i]))
}

/// Branch addresses of one instruction are indices into a program of
/// length `n`; instructions without addresses always qualify.
pub open spec fn inst_targets_ok(ins: InstS, n: int) -> bool {
    match ins {
        InstS::Jump(t) => 0 <= t < n,
        InstS::Split(t1, t2) => 0 <= t1 < n && 0 <= t2 < n,
        _ => true,
    }
}

/// A well-formed program: not empty, ends in `Match`, and every branch
/// address is an index into it.
pub open spec fn prog_wf(p: Seq<InstS>) -> bool {
    &&& p.len() > 0
    &&& p.last() is Match
    &&& forall|i: int| 0 <= i < p.len() ==> inst_targets_ok(#[trigger] p[i], p.len() as int)
}

/// The failing stage of a match attempt and its error.
#[derive(Debug, Clone, Copy, PartialEq, Eq)]
pub enum EngineError {
    /// The pattern was rejected by the parser.
    Parse(ParseError),
    /// The pattern could not be compiled.
    CodeGen(CodeGenError),
    /// The compiled program could not be run.
    Eval(EvalError),
}

/// Whether a pattern tree matches a line: the program it compiles to
/// accepts the line.  Matching is a prefix test from the first
/// character; trying later start offsets is the caller's business.
pub open spec fn matches_spec(a: AstS, line: Seq<char>) -> bool {
    accepts(program_spec(a), line)
}

/// Collect the characters of a string.
fn chars_vec(s: &str) -> (v: Vec<char>)
    ensures
        v@ == s@,
{
    let n = s.unicode_len();
    let mut v: Vec<char> = Vec::new();
    let mut i: usize = 0;
    while i < n
        invariant
            n == s@.len(),
            i <= n,
            v@ == s@.subrange(0, i as int),
        decreases n - i,
    {
        let c = s.get_char(i);
        v.push(c);
        proof {
            assert(v@ =~= s@.subrange(0, i + 1));
        }
        i = i + 1;
    }
    proof {
        assert(s@.subrange(0, s@.len() as int) =~= s@);
    }
    v
}

/// Match a pattern against a line: parse the pattern, compile the tree,
/// and run the program, depth first or breadth first.
///
/// `Ok(true)` means the program matches a prefix of the line starting
/// at its first character; `Ok(false)` that it matches none.  An error
/// names the stage that failed: the parser's errors come through
/// unchanged, and the only generation error a pattern can raise is an
/// exhausted address space.  Both strategies return the same answer.
pub fn do_matching(expr: &str, line: &str, is_depth: bool) -> (r: Result<bool, EngineError>)
    ensures
        match parse_spec(expr@) {
            Err(e) => r == Err::<bool, EngineError>(EngineError::Parse(e)),
            Ok(a) => if code_len(a) + 1 <= usize::MAX {
                r == Ok::<bool, EngineError>(matches_spec(a, line@))
            } else {
                r == Err::<bool, EngineError>(EngineError::CodeGen(CodeGenError::PcOverFlow))
            },
        },
{
    let ast = match parse(expr) {
        Ok(a) => a,
        Err(e) => {
            return Err(EngineError::Parse(e));
        },
    };
    let code = match gen_code(&ast) {
        Ok(c) => c,
        Err(e) => {
            return Err(EngineError::CodeGen(e));
        },
    };
    let line_chars = chars_vec(line);
    proof {
        lemma_generated_program_wf(ast_view(ast));
    }
    match eval(&code, &line_chars, is_depth) {
        Ok(b) => Ok(b),
        Err(e) => Err(EngineError::Eval(e)),
    }
}

/// Zero-or-more repetition at the boundary: the program of `c*` accepts
/// every line — the empty line and any run of `c` among them, since
/// matching is a prefix test.
pub proof fn lemma_star_char_matches_all(c: char, line: Seq<char>)
    ensures
        matches_spec(AstS::Star(Box::new(AstS::Char(c))), line),
{
    let a = AstS::Star(Box::new(AstS::Char(c)));
    let p = program_spec(a);
    reveal_with_fuel(codegen::code_at, 3);
    reveal_with_fuel(codegen::code_len, 3);
    assert(p =~= seq![InstS::Split(1, 3), InstS::Char(c), InstS::Jump(1), InstS::Match]);
    let s0 = VmState { pc: 0, sp: 0 };
    let m = VmState { pc: 3, sp: 0 };
    assert(step(p, line, s0, m));
    lemma_reaches_refl(p, line, s0);
    lemma_reaches_extend(p, line, s0, s0, m);
    assert(at_match(p, m));
    assert(accepts_from(p, line, s0));
}

/// One-or-more repetition at the boundary: the program of `c+` rejects
/// the empty line and accepts exactly the lines that start with `c` —
/// every run of one or more `c` among them.
pub proof fn lemma_plus_char_matches(c: char, line: Seq<char>)
    ensures
        matches_spec(AstS::Plus(Box::new(AstS::Char(c))), line) <==> (line.len() > 0 && line[0]
            == c),
{
    let a = AstS::Plus(Box::new(AstS::Char(c)));
    let p = program_spec(a);
    reveal_with_fuel(codegen::code_at, 3);
    reveal_with_fuel(codegen::code_len, 3);
    assert(p =~= seq![InstS::Char(c), InstS::Split(0, 2), InstS::Match]);
    let s0 = VmState { pc: 0, sp: 0 };
    let s1 = VmState { pc: 1, sp: 1 };
    let m = VmState { pc: 2, sp: 1 };
    lemma_accepts_char(p, line, s0, c);
    if line.len() > 0 && line[0] == c {
        assert(step(p, line, s0, s1));
        assert(step(p, line, s1, m));
        lemma_reaches_refl(p, line, s0);
        lemma_reaches_extend(p, line, s0, s0, s1);
        lemma_reaches_extend(p, line, s0, s1, m);
        assert(at_match(p, m));
        assert(accepts_from(p, line, s0));
    }
}

/// Zero-or-one occurrence at the boundary: the program of `c?` accepts
/// every line — the empty line and the single `c` among them.
pub proof fn lemma_question_char_matches_all(c: char, line: Seq<char>)
    ensures
        matches_spec(AstS::Question(Box::new(AstS::Char(c))), line),
{
    let a = AstS::Question(Box::new(AstS::Char(c)));
    let p = program_spec(a);
    reveal_with_fuel(codegen::code_at, 3);
    reveal_with_fuel(codegen::code_len, 3);
    assert(p =~= seq![InstS::Split(1, 2), InstS::Char(c), InstS::Match]);
    let s0 = VmState { pc: 0, sp: 0 };
    let m = VmState { pc: 2, sp: 0 };
    assert(step(p, line, s0, m));
    lemma_reaches_refl(p, line, s0);
    lemma_reaches_extend(p, line, s0, s0, m);
    assert(at_match(p, m));
    assert(accepts_from(p, line, s0));
}

} // verus!
