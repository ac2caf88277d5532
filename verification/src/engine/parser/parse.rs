//! The pattern parser: one forward pass over the pattern characters,
//! keeping a pending sequence of finished nodes, a stack of sequences
//! saved at open parentheses, and an optional left operand awaiting
//! alternation.
//!
//! The whole pass is modelled by the spec functions `pstep` (one
//! character), `scan_spec` (a prefix of the pattern) and `finalize_spec`
//! (end of input); `parse_spec` composes them.  The executable `parse`
//! returns exactly what `parse_spec` describes.

use vstd::prelude::*;
use vstd::string::StrSliceExecFns;

use super::error::ParseError;

verus! {

/// Abstract syntax tree of a pattern.
#[derive(Debug, PartialEq, Eq)]
pub enum Ast {
    /// One literal character.
    Char(char),
    /// One or more repetitions of the child.
    Plus(Box<Self>),
    /// Zero or one occurrence of the child.
    Question(Box<Self>),
    /// Zero or more repetitions of the child.
    Star(Box<Self>),
    /// Alternation of two sub-expressions; the left one is tried first.
    Or(Box<Self>, Box<Self>),
    /// Concatenation of the children, in order.
    Concat(Vec<Self>),
}

/// Ghost counterpart of `Ast`; concatenation holds a mathematical
/// sequence of children.  Parser contracts are stated over this type.
pub enum AstS {
    Char(char),
    Plus(Box<AstS>),
    Question(Box<AstS>),
    Star(Box<AstS>),
    Or(Box<AstS>, Box<AstS>),
    Concat(Seq<AstS>),
}

/// The ghost value of a syntax tree.
pub open spec fn ast_view(a: Ast) -> AstS
    decreases a,
{
    match a {
        Ast::Char(c) => AstS::Char(c),
        Ast::Plus(e) => AstS::Plus(Box::new(ast_view(*e))),
        Ast::Question(e) => AstS::Question(Box::new(ast_view(*e))),
        Ast::Star(e) => AstS::Star(Box::new(ast_view(*e))),
        Ast::Or(e1, e2) => AstS::Or(Box::new(ast_view(*e1)), Box::new(ast_view(*e2))),
        Ast::Concat(v) => AstS::Concat(seq_view(v@)),
    }
}

/// The ghost value of a sequence of syntax trees.
pub open spec fn seq_view(s: Seq<Ast>) -> Seq<AstS>
    decreases s,
{
    if s.len() == 0 {
        Seq::empty()
    } else {
        seq_view(s.drop_last()).push(ast_view(s.last()))
    }
}

/// A sequence of trees and its ghost value line up element by element.
pub proof fn lemma_seq_view_props(s: Seq<Ast>)
    ensures
        seq_view(s).len() == s.len(),
        forall|i: int| 0 <= i < s.len() ==> seq_view(s)[i] == ast_view(s[i]),
    decreases s.len(),
{
    if s.len() > 0 {
        lemma_seq_view_props(s.drop_last());
        assert forall|i: int| 0 <= i < s.len() implies seq_view(s)[i] == ast_view(s[i]) by {
            if i < s.len() - 1 {
                assert(seq_view(s)[i] == seq_view(s.drop_last())[i]);
                assert(s.drop_last()[i] == s[i]);
            }
        }
    }
}

/// The ghost value of a parse result.
pub open spec fn res_view(r: Result<Ast, ParseError>) -> Result<AstS, ParseError> {
    match r {
        Ok(a) => Ok(ast_view(a)),
        Err(e) => Err(e),
    }
}

/// Selector for the three postfix quantifiers.
pub enum Psq {
    Plus,
    Star,
    Question,
}

/// The node a quantifier wraps around its operand.
pub open spec fn psq_node(q: Psq, inner: AstS) -> AstS {
    match q {
        Psq::Plus => AstS::Plus(Box::new(inner)),
        Psq::Star => AstS::Star(Box::new(inner)),
        Psq::Question => AstS::Question(Box::new(inner)),
    }
}

/// The characters that may follow a backslash; also the characters with
/// a special meaning outside an escape.
pub open spec fn is_meta(c: char) -> bool {
    c == '\\' || c == '(' || c == ')' || c == '|' || c == '+' || c == '*' || c == '?'
}

/// What an escape produces: the literal character for a metacharacter,
/// an `InvalidEscape` error with the position and the character for
/// anything else.
pub open spec fn escape_spec(pos: usize, c: char) -> Result<AstS, ParseError> {
    if is_meta(c) {
        Ok(AstS::Char(c))
    } else {
        Err(ParseError::InvalidEscape(pos, c))
    }
}

/// Collapse a pending sequence into one node: zero nodes are an `Empty`
/// error, one node stands for itself, more become a concatenation.
pub open spec fn collapse_spec(pending: Seq<AstS>) -> Result<AstS, ParseError> {
    if pending.len() == 0 {
        Err(ParseError::Empty)
    } else if pending.len() == 1 {
        Ok(pending[0])
    } else {
        Ok(AstS::Concat(pending))
    }
}

/// An alternation operand that reduces to an empty concatenation.
pub open spec fn is_empty_cat(a: AstS) -> bool {
    match a {
        AstS::Concat(s) => s.len() == 0,
        _ => false,
    }
}

/// Combine two alternation operands; an empty operand is a `NoOperand`
/// error at the given position.
pub open spec fn make_or_spec(prev: AstS, next: AstS, pos: usize) -> Result<AstS, ParseError> {
    if is_empty_cat(prev) || is_empty_cat(next) {
        Err(ParseError::NoOperand(pos))
    } else {
        Ok(AstS::Or(Box::new(prev), Box::new(next)))
    }
}

/// What `|` does to the pending sequence and the awaiting operand: the
/// pending sequence is collapsed and either becomes the awaiting operand
/// or is combined with it into an alternation, which then awaits in turn.
pub open spec fn or_core_spec(pending: Seq<AstS>, po: Option<AstS>, pos: usize) -> Result<
    (Seq<AstS>, Option<AstS>),
    ParseError,
> {
    match po {
        Some(prev) => match collapse_spec(pending) {
            Err(_) => Err(ParseError::NoOperand(pos)),
            Ok(next) => match make_or_spec(prev, next, pos) {
                Err(e) => Err(e),
                Ok(node) => Ok((Seq::empty(), Some(node))),
            },
        },
        None => match collapse_spec(pending) {
            Err(_) => Err(ParseError::NoOperand(pos)),
            Ok(first) => Ok((Seq::empty(), Some(first))),
        },
    }
}

/// The parser state between two characters.
pub struct PState {
    /// Finished nodes of the current sequence, in order.
    pub pending: Seq<AstS>,
    /// A left operand waiting for the right-hand side of an alternation.
    pub pending_or: Option<AstS>,
    /// Pending sequences saved at open parentheses, innermost last.
    pub saved: Seq<Seq<AstS>>,
    /// Whether the previous character was an unfinished backslash.
    pub escaped: bool,
}

/// The state before any character has been read.
pub open spec fn init_state() -> PState {
    PState { pending: Seq::empty(), pending_or: None, saved: Seq::empty(), escaped: false }
}

/// One parser step: the state after reading character `c` at position
/// `pos` in state `st`.
pub open spec fn pstep(st: PState, c: char, pos: usize) -> Result<PState, ParseError> {
    if st.escaped {
        match escape_spec(pos, c) {
            Ok(a) => Ok(PState { pending: st.pending.push(a), escaped: false, ..st }),
            Err(e) => Err(e),
        }
    } else if c == '+' || c == '*' || c == '?' {
        if st.pending.len() == 0 {
            Err(ParseError::NoOperand(pos))
        } else {
            let q = if c == '+' {
                Psq::Plus
            } else if c == '*' {
                Psq::Star
            } else {
                Psq::Question
            };
            Ok(
                PState {
                    pending: st.pending.drop_last().push(psq_node(q, st.pending.last())),
                    ..st
                },
            )
        }
    } else if c == '(' {
        Ok(PState { pending: Seq::empty(), saved: st.saved.push(st.pending), ..st })
    } else if c == ')' {
        if st.saved.len() == 0 {
            Ok(st)
        } else {
            Ok(
                PState {
                    pending: st.saved.last().push(AstS::Concat(st.pending)),
                    saved: st.saved.drop_last(),
                    ..st
                },
            )
        }
    } else if c == '|' {
        match or_core_spec(st.pending, st.pending_or, pos) {
            Ok(pair) => Ok(PState { pending: pair.0, pending_or: pair.1, ..st }),
            Err(e) => Err(e),
        }
    } else if c == '\\' {
        Ok(PState { escaped: true, ..st })
    } else {
        Ok(PState { pending: st.pending.push(AstS::Char(c)), ..st })
    }
}

/// The parser state after the first `n` characters of `s`, or the first
/// error raised among them.
pub open spec fn scan_spec(s: Seq<char>, n: int) -> Result<PState, ParseError>
    decreases n,
{
    if n <= 0 {
        Ok(init_state())
    } else {
        match scan_spec(s, n - 1) {
            Err(e) => Err(e),
            Ok(st) => pstep(st, s[n - 1], (n - 1) as usize),
        }
    }
}

/// End of input: an unclosed group fails, an awaiting alternation
/// operand is combined with the remaining pending sequence (failing
/// `NoOperand` when that remainder is empty), and the result collapses
/// to a single node.  A backslash with nothing after it is ignored.
pub open spec fn finalize_spec(st: PState, endpos: usize) -> Result<AstS, ParseError> {
    if st.saved.len() > 0 {
        Err(ParseError::NoRightParen)
    } else {
        match st.pending_or {
            Some(prev) => {
                if st.pending.len() == 0 {
                    Err(ParseError::NoOperand(endpos))
                } else {
                    let next = if st.pending.len() == 1 {
                        st.pending[0]
                    } else {
                        AstS::Concat(st.pending)
                    };
                    make_or_spec(prev, next, endpos)
                }
            },
            None => collapse_spec(st.pending),
        }
    }
}

/// The meaning of a whole pattern: the tree it parses to, or the error
/// it is rejected with.
pub open spec fn parse_spec(s: Seq<char>) -> Result<AstS, ParseError> {
    match scan_spec(s, s.len() as int) {
        Err(e) => Err(e),
        Ok(st) => finalize_spec(st, s.len() as usize),
    }
}

/// Once a prefix of the pattern has failed, the whole scan reports that
/// same error.
pub proof fn lemma_scan_err_mono(s: Seq<char>, n0: int, n1: int)
    requires
        0 <= n0 <= n1,
        scan_spec(s, n0) is Err,
    ensures
        scan_spec(s, n1) == scan_spec(s, n0),
    decreases n1 - n0,
{
    if n1 > n0 {
        lemma_scan_err_mono(s, n0, n1 - 1);
    }
}

/// An escape of a character without a special meaning is rejected with
/// `InvalidEscape` carrying that exact character and its position.
pub proof fn lemma_invalid_escape_rejected(s: Seq<char>, i: int)
    requires
        0 <= i < s.len(),
        scan_spec(s, i) matches Ok(st) && st.escaped,
        !is_meta(s[i]),
    ensures
        parse_spec(s) == Err::<AstS, ParseError>(ParseError::InvalidEscape(i as usize, s[i])),
{
    assert(scan_spec(s, i + 1) == Err::<PState, ParseError>(
        ParseError::InvalidEscape(i as usize, s[i]),
    ));
    lemma_scan_err_mono(s, i + 1, s.len() as int);
}

/// A pattern whose scan ends with an open group is rejected with
/// `NoRightParen`.
pub proof fn lemma_unclosed_group_rejected(s: Seq<char>)
    requires
        scan_spec(s, s.len() as int) matches Ok(st) && st.saved.len() > 0,
    ensures
        parse_spec(s) == Err::<AstS, ParseError>(ParseError::NoRightParen),
{
}

/// A pattern whose scan ends with an alternation operand still awaiting
/// and nothing pending after the last `|` is rejected with `NoOperand`
/// at the end-of-input position.
pub proof fn lemma_trailing_or_rejected(s: Seq<char>)
    requires
        scan_spec(s, s.len() as int) matches Ok(st) && st.saved.len() == 0 && st.pending_or is Some
            && st.pending.len() == 0,
    ensures
        parse_spec(s) == Err::<AstS, ParseError>(ParseError::NoOperand(s.len() as usize)),
{
}

proof fn lemma_seq_view_push(s: Seq<Ast>, x: Ast)
    ensures
        seq_view(s.push(x)) == seq_view(s).push(ast_view(x)),
{
    assert(s.push(x).drop_last() =~= s);
    assert(s.push(x).last() == x);
}

proof fn lemma_seq_view_drop_last(s: Seq<Ast>)
    requires
        s.len() > 0,
    ensures
        seq_view(s.drop_last()) == seq_view(s).drop_last(),
        seq_view(s).last() == ast_view(s.last()),
        seq_view(s).len() == s.len(),
{
    lemma_seq_view_props(s);
    assert(seq_view(s.drop_last()).push(ast_view(s.last())).drop_last() =~= seq_view(
        s.drop_last(),
    ));
}

proof fn lemma_seq_view_empty()
    ensures
        seq_view(Seq::<Ast>::empty()) == Seq::<AstS>::empty(),
{
    assert(seq_view(Seq::<Ast>::empty()) =~= Seq::<AstS>::empty());
}

/// Internal two-state mode of the scanner: an ordinary character, or the
/// character right after a backslash.
enum ParseState {
    Char,
    Escape,
}

spec fn opt_view(o: Option<Box<Ast>>) -> Option<AstS> {
    match o {
        Some(b) => Some(ast_view(*b)),
        None => None,
    }
}

spec fn stack_view(s: Seq<Vec<Ast>>) -> Seq<Seq<AstS>> {
    Seq::new(s.len(), |i: int| seq_view(s[i]@))
}

proof fn lemma_stack_view_push(s: Seq<Vec<Ast>>, x: Vec<Ast>)
    ensures
        stack_view(s.push(x)) == stack_view(s).push(seq_view(x@)),
{
    assert(stack_view(s.push(x)) =~= stack_view(s).push(seq_view(x@)));
}

proof fn lemma_stack_view_drop_last(s: Seq<Vec<Ast>>)
    requires
        s.len() > 0,
    ensures
        stack_view(s.drop_last()) == stack_view(s).drop_last(),
{
    assert(stack_view(s.drop_last()) =~= stack_view(s).drop_last());
}

proof fn lemma_stack_view_empty()
    ensures
        stack_view(Seq::<Vec<Ast>>::empty()) == Seq::<Seq<AstS>>::empty(),
{
    assert(stack_view(Seq::<Vec<Ast>>::empty()) =~= Seq::<Seq<AstS>>::empty());
}

/// The ghost parser state for the scanner's working values.
spec fn cur_view(
    pending: Seq<Ast>,
    po: Option<Box<Ast>>,
    saved: Seq<Vec<Ast>>,
    state: ParseState,
) -> PState {
    PState {
        pending: seq_view(pending),
        pending_or: opt_view(po),
        saved: stack_view(saved),
        escaped: state is Escape,
    }
}

/// Turn an escaped character into its literal node, or reject it.
fn parse_escape(pos: usize, c: char) -> (r: Result<Ast, ParseError>)
    ensures
        res_view(r) == escape_spec(pos, c),
{
    match c {
        '\\' | '(' | ')' | '|' | '+' | '*' | '?' => Ok(Ast::Char(c)),
        _ => Err(ParseError::InvalidEscape(pos, c)),
    }
}

/// Wrap the last pending node in the requested quantifier; with nothing
/// pending the quantifier has no operand.
fn parse_plus_star_question(seq: &mut Vec<Ast>, qtype: Psq, pos: usize) -> (r: Result<
    (),
    ParseError,
>)
    ensures
        match r {
            Ok(_) => old(seq)@.len() > 0 && seq_view(final(seq)@) == seq_view(old(seq)@).drop_last().push(
                psq_node(qtype, ast_view(old(seq)@.last())),
            ),
            Err(e) => old(seq)@.len() == 0 && e == ParseError::NoOperand(pos) && final(seq)@ == old(seq)@,
        },
{
    match seq.pop() {
        Some(prev) => {
            let ghost prev_g = prev;
            let ast = match qtype {
                Psq::Plus => Ast::Plus(Box::new(prev)),
                Psq::Star => Ast::Star(Box::new(prev)),
                Psq::Question => Ast::Question(Box::new(prev)),
            };
            let ghost ast_g = ast;
            seq.push(ast);
            proof {
                lemma_seq_view_drop_last(old(seq)@);
                lemma_seq_view_push(old(seq)@.drop_last(), ast_g);
                assert(ast_view(ast_g) == psq_node(qtype, ast_view(prev_g)));
            }
            Ok(())
        },
        None => Err(ParseError::NoOperand(pos)),
    }
}

/// Collapse the pending sequence into one node and leave it empty.
fn parse_seq(seq: &mut Vec<Ast>) -> (r: Result<Ast, ParseError>)
    ensures
        final(seq)@.len() == 0,
        res_view(r) == collapse_spec(seq_view(old(seq)@)),
{
    proof {
        lemma_seq_view_props(seq@);
    }
    if seq.len() == 0 {
        Err(ParseError::Empty)
    } else if seq.len() == 1 {
        let a = seq.pop().unwrap();
        Ok(a)
    } else {
        let mut v: Vec<Ast> = Vec::new();
        core::mem::swap(&mut v, seq);
        Ok(Ast::Concat(v))
    }
}

/// Combine two alternation operands, rejecting an empty one.
fn make_or(prev: Ast, next: Ast, pos: usize) -> (r: Result<Ast, ParseError>)
    ensures
        res_view(r) == make_or_spec(ast_view(prev), ast_view(next), pos),
{
    let prev_empty = match &prev {
        Ast::Concat(s) => s.len() == 0,
        _ => false,
    };
    let next_empty = match &next {
        Ast::Concat(s) => s.len() == 0,
        _ => false,
    };
    proof {
        match &prev {
            Ast::Concat(v) => lemma_seq_view_props(v@),
            _ => {},
        }
        match &next {
            Ast::Concat(v) => lemma_seq_view_props(v@),
            _ => {},
        }
    }
    if prev_empty || next_empty {
        Err(ParseError::NoOperand(pos))
    } else {
        Ok(Ast::Or(Box::new(prev), Box::new(next)))
    }
}

/// Close the left-hand side of an alternation at a `|`.
fn parse_or(seq: &mut Vec<Ast>, or_operand: &mut Option<Box<Ast>>, pos: usize) -> (r: Result<
    (),
    ParseError,
>)
    ensures
        match r {
            Ok(_) => or_core_spec(seq_view(old(seq)@), opt_view(*old(or_operand)), pos) == Ok::<
                _,
                ParseError,
            >((seq_view(final(seq)@), opt_view(*final(or_operand)))),
            Err(e) => or_core_spec(seq_view(old(seq)@), opt_view(*old(or_operand)), pos)
                == Err::<(Seq<AstS>, Option<AstS>), _>(e),
        },
{
    let taken = or_operand.take();
    match taken {
        Some(prev) => {
            let next = match parse_seq(seq) {
                Ok(a) => a,
                Err(_) => {
                    return Err(ParseError::NoOperand(pos));
                },
            };
            let node = match make_or(*prev, next, pos) {
                Ok(a) => a,
                Err(e) => {
                    return Err(e);
                },
            };
            let ghost node_g = node;
            let ghost pre = seq@;
            seq.push(node);
            proof {
                lemma_seq_view_push(pre, node_g);
            }
        },
        None => {},
    }
    let first = match parse_seq(seq) {
        Ok(a) => a,
        Err(_) => {
            return Err(ParseError::NoOperand(pos));
        },
    };
    *or_operand = Some(Box::new(first));
    proof {
        assert(seq_view(seq@) =~= Seq::<AstS>::empty());
    }
    Ok(())
}

/// Parse a pattern into a syntax tree, or report the first syntax error.
///
/// The result is exactly `parse_spec` applied to the pattern's
/// characters.
pub fn parse(expr: &str) -> (r: Result<Ast, ParseError>)
    ensures
        res_view(r) == parse_spec(expr@),
{
    let n = expr.unicode_len();
    let mut seq: Vec<Ast> = Vec::new();
    let mut or_operand: Option<Box<Ast>> = None;
    let mut stack: Vec<Vec<Ast>> = Vec::new();
    let mut state = ParseState::Char;
    let mut i: usize = 0;
    proof {
        lemma_seq_view_empty();
        lemma_stack_view_empty();
    }
    while i < n
        invariant
            n == expr@.len(),
            i <= n,
            scan_spec(expr@, i as int) == Ok::<PState, ParseError>(
                cur_view(seq@, or_operand, stack@, state),
            ),
        decreases n - i,
    {
        let ghost st = cur_view(seq@, or_operand, stack@, state);
        let ghost pre_seq = seq@;
        let ghost pre_stack = stack@;
        let c = expr.get_char(i);
        match state {
            ParseState::Char => {
                match c {
                    '+' | '*' | '?' => {
                        let qtype = if c == '+' {
                            Psq::Plus
                        } else if c == '*' {
                            Psq::Star
                        } else {
                            Psq::Question
                        };
                        match parse_plus_star_question(&mut seq, qtype, i) {
                            Ok(_) => {},
                            Err(e) => {
                                proof {
                                    lemma_scan_err_mono(expr@, i + 1, n as int);
                                }
                                return Err(e);
                            },
                        }
                    },
                    '(' => {
                        let mut prev: Vec<Ast> = Vec::new();
                        core::mem::swap(&mut prev, &mut seq);
                        let ghost prev_g = prev;
                        stack.push(prev);
                        proof {
                            lemma_seq_view_empty();
                            lemma_stack_view_push(pre_stack, prev_g);
                        }
                    },
                    ')' => {
                        match stack.pop() {
                            Some(prev) => {
                                let next = seq;
                                let ghost next_g = next;
                                seq = prev;
                                seq.push(Ast::Concat(next));
                                proof {
                                    lemma_stack_view_drop_last(pre_stack);
                                    lemma_seq_view_push(
                                        pre_stack.last()@,
                                        Ast::Concat(next_g),
                                    );
                                }
                            },
                            None => {},
                        }
                    },
                    '|' => {
                        match parse_or(&mut seq, &mut or_operand, i) {
                            Ok(_) => {},
                            Err(e) => {
                                proof {
                                    lemma_scan_err_mono(expr@, i + 1, n as int);
                                }
                                return Err(e);
                            },
                        }
                    },
                    '\\' => {
                        state = ParseState::Escape;
                    },
                    _ => {
                        seq.push(Ast::Char(c));
                        proof {
                            lemma_seq_view_push(pre_seq, Ast::Char(c));
                        }
                    },
                }
            },
            ParseState::Escape => {
                match parse_escape(i, c) {
                    Ok(ast) => {
                        let ghost ast_g = ast;
                        seq.push(ast);
                        state = ParseState::Char;
                        proof {
                            lemma_seq_view_push(pre_seq, ast_g);
                        }
                    },
                    Err(e) => {
                        proof {
                            lemma_scan_err_mono(expr@, i + 1, n as int);
                        }
                        return Err(e);
                    },
                }
            },
        }
        i = i + 1;
    }
    if stack.len() > 0 {
        return Err(ParseError::NoRightParen);
    }
    let taken = or_operand.take();
    match taken {
        Some(prev) => {
            if seq.len() == 0 {
                return Err(ParseError::NoOperand(n));
            }
            let next = match parse_seq(&mut seq) {
                Ok(a) => a,
                Err(_) => {
                    return Err(ParseError::NoOperand(n));
                },
            };
            let node = match make_or(*prev, next, n) {
                Ok(a) => a,
                Err(e) => {
                    return Err(e);
                },
            };
            let ghost node_g = node;
            let ghost pre = seq@;
            seq.push(node);
            proof {
                lemma_seq_view_push(pre, node_g);
            }
        },
        None => {},
    }
    parse_seq(&mut seq)
}

} // verus!
