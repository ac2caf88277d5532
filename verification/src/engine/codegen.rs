//! Compilation of a syntax tree into an instruction program.
//!
//! Each tree shape emits a fixed instruction skeleton; forward branch
//! addresses are first written as placeholders and patched once the
//! length of the enclosed code is known.  The spec functions `code_at`
//! and `code_seq_at` give the emitted instructions directly, with every
//! address already in place, and the generator is proved to produce
//! exactly that sequence followed by a final `Match`.

use vstd::prelude::*;

use super::parser::{ast_view, lemma_seq_view_props, seq_view, Ast, AstS};
use super::{inst_view, prog_view, InstS, Instruction};

verus! {

/// Errors reported while generating code.
#[derive(Debug, Clone, Copy, PartialEq, Eq)]
pub enum CodeGenError {
    /// The program grew past the address space of the program counter.
    PcOverFlow,
    /// A backpatched `Split` slot did not hold a `Split`; signals a defect
    /// in the generator itself, never a property of the pattern.
    FailPlus,
    /// As `FailPlus`, for a zero-or-more loop.
    FailStar,
    /// As `FailPlus`, for a zero-or-one branch.
    FailQuestion,
    /// As `FailPlus`, for an alternation.
    FailOr,
}

/// Number of nodes of a tree; the termination measure of the emitters.
spec fn ast_size(a: AstS) -> nat
    decreases a,
{
    match a {
        AstS::Char(_) => 1,
        AstS::Plus(e) => ast_size(*e) + 1,
        AstS::Question(e) => ast_size(*e) + 1,
        AstS::Star(e) => ast_size(*e) + 1,
        AstS::Or(e1, e2) => ast_size(*e1) + ast_size(*e2) + 1,
        AstS::Concat(s) => ast_size_seq(s) + 1,
    }
}

/// Number of nodes of a sequence of trees.
spec fn ast_size_seq(s: Seq<AstS>) -> nat
    decreases s,
{
    if s.len() == 0 {
        0
    } else {
        ast_size_seq(s.drop_last()) + ast_size(s.last())
    }
}

/// A member of a sequence is no larger than the whole sequence.
proof fn lemma_ast_size_seq_bound(s: Seq<AstS>, i: int)
    requires
        0 <= i < s.len(),
    ensures
        ast_size(s[i]) <= ast_size_seq(s),
    decreases s.len(),
{
    if i < s.len() - 1 {
        lemma_ast_size_seq_bound(s.drop_last(), i);
        assert(s.drop_last()[i] == s[i]);
    }
}

/// How many instructions a tree compiles to.
pub open spec fn code_len(a: AstS) -> nat
    decreases a,
{
    match a {
        AstS::Char(_) => 1,
        AstS::Plus(e) => code_len(*e) + 1,
        AstS::Question(e) => code_len(*e) + 1,
        AstS::Star(e) => code_len(*e) + 2,
        AstS::Or(e1, e2) => code_len(*e1) + code_len(*e2) + 2,
        AstS::Concat(s) => code_len_seq(s),
    }
}

/// How many instructions a sequence of trees compiles to.
pub open spec fn code_len_seq(s: Seq<AstS>) -> nat
    decreases s,
{
    if s.len() == 0 {
        0
    } else {
        code_len_seq(s.drop_last()) + code_len(s.last())
    }
}

/// The instructions a tree emits when its first instruction stands at
/// address `base`.
pub open spec fn code_at(a: AstS, base: int) -> Seq<InstS>
    decreases a,
{
    match a {
        AstS::Char(c) => seq![InstS::Char(c)],
        AstS::Plus(e) => code_at(*e, base) + seq![
            InstS::Split(base, base + code_len(*e) + 1),
        ],
        AstS::Question(e) => seq![InstS::Split(base + 1, base + 1 + code_len(*e))] + code_at(
            *e,
            base + 1,
        ),
        AstS::Star(e) => seq![InstS::Split(base + 1, base + code_len(*e) + 2)] + code_at(
            *e,
            base + 1,
        ) + seq![InstS::Jump(base + 1)],
        AstS::Or(e1, e2) => seq![InstS::Split(base + 1, base + 2 + code_len(*e1))] + code_at(
            *e1,
            base + 1,
        ) + seq![InstS::Jump(base + 2 + code_len(*e1) + code_len(*e2))] + code_at(
            *e2,
            base + 2 + code_len(*e1),
        ),
        AstS::Concat(s) => code_seq_at(s, base),
    }
}

/// The instructions a sequence of trees emits, concatenated in order
/// starting at address `base`.
pub open spec fn code_seq_at(s: Seq<AstS>, base: int) -> Seq<InstS>
    decreases s,
{
    if s.len() == 0 {
        Seq::empty()
    } else {
        code_seq_at(s.drop_last(), base) + code_at(
            s.last(),
            base + code_len_seq(s.drop_last()),
        )
    }
}

/// The whole program of a tree: its code at address 0 and a final
/// `Match`.
pub open spec fn program_spec(a: AstS) -> Seq<InstS> {
    code_at(a, 0) + seq![InstS::Match]
}

/// The emitted code has exactly the predicted length.
pub proof fn lemma_code_at_len(a: AstS, base: int)
    ensures
        code_at(a, base).len() == code_len(a),
    decreases a,
{
    match a {
        AstS::Char(_) => {},
        AstS::Plus(e) => lemma_code_at_len(*e, base),
        AstS::Question(e) => lemma_code_at_len(*e, base + 1),
        AstS::Star(e) => lemma_code_at_len(*e, base + 1),
        AstS::Or(e1, e2) => {
            lemma_code_at_len(*e1, base + 1);
            lemma_code_at_len(*e2, base + 2 + code_len(*e1));
        },
        AstS::Concat(s) => lemma_code_seq_at_len(s, base),
    }
}

/// The emitted code of a sequence has exactly the predicted length.
pub proof fn lemma_code_seq_at_len(s: Seq<AstS>, base: int)
    ensures
        code_seq_at(s, base).len() == code_len_seq(s),
    decreases s,
{
    if s.len() > 0 {
        lemma_code_seq_at_len(s.drop_last(), base);
        lemma_code_at_len(s.last(), base + code_len_seq(s.drop_last()));
    }
}

/// The predicted length of a sequence splits at any point.
proof fn lemma_code_len_seq_split(s: Seq<AstS>, k: int)
    requires
        0 <= k <= s.len(),
    ensures
        code_len_seq(s) == code_len_seq(s.subrange(0, k)) + code_len_seq(
            s.subrange(k, s.len() as int),
        ),
    decreases s.len(),
{
    if k == s.len() {
        assert(s.subrange(0, k) =~= s);
        assert(s.subrange(k, s.len() as int) =~= Seq::empty());
    } else {
        lemma_code_len_seq_split(s.drop_last(), k);
        assert(s.drop_last().subrange(0, k) =~= s.subrange(0, k));
        assert(s.drop_last().subrange(k, s.len() - 1) =~= s.subrange(k, s.len() - 1));
        let tail = s.subrange(k, s.len() as int);
        assert(tail.drop_last() =~= s.subrange(k, s.len() - 1));
        assert(tail.last() == s.last());
    }
}

/// Every branch address in emitted code lies between `base` and the
/// address just past the code.
pub proof fn lemma_code_at_targets(a: AstS, base: int)
    ensures
        forall|i: int|
            0 <= i < code_at(a, base).len() ==> target_in(
                #[trigger] code_at(a, base)[i],
                base,
                base + code_len(a),
            ),
    decreases a,
{
    lemma_code_at_len(a, base);
    let n = code_len(a) as int;
    match a {
        AstS::Char(_) => {},
        AstS::Plus(e) => {
            lemma_code_at_len(*e, base);
            lemma_code_at_targets(*e, base);
            let m = code_len(*e) as int;
            assert forall|i: int| 0 <= i < code_at(a, base).len() implies target_in(
                #[trigger] code_at(a, base)[i],
                base,
                base + n,
            ) by {
                if i < m {
                    assert(code_at(a, base)[i] == code_at(*e, base)[i]);
                    assert(target_in(code_at(*e, base)[i], base, base + m));
                } else {
                    assert(code_at(a, base)[i] == InstS::Split(base, base + m + 1));
                }
            }
        },
        AstS::Question(e) => {
            lemma_code_at_len(*e, base + 1);
            lemma_code_at_targets(*e, base + 1);
            let m = code_len(*e) as int;
            assert forall|i: int| 0 <= i < code_at(a, base).len() implies target_in(
                #[trigger] code_at(a, base)[i],
                base,
                base + n,
            ) by {
                if i == 0 {
                    assert(code_at(a, base)[i] == InstS::Split(base + 1, base + 1 + m));
                } else {
                    assert(code_at(a, base)[i] == code_at(*e, base + 1)[i - 1]);
                    assert(target_in(code_at(*e, base + 1)[i - 1], base + 1, base + 1 + m));
                }
            }
        },
        AstS::Star(e) => {
            lemma_code_at_len(*e, base + 1);
            lemma_code_at_targets(*e, base + 1);
            let m = code_len(*e) as int;
            assert forall|i: int| 0 <= i < code_at(a, base).len() implies target_in(
                #[trigger] code_at(a, base)[i],
                base,
                base + n,
            ) by {
                if i == 0 {
                    assert(code_at(a, base)[i] == InstS::Split(base + 1, base + m + 2));
                } else if i < 1 + m {
                    assert(code_at(a, base)[i] == code_at(*e, base + 1)[i - 1]);
                    assert(target_in(code_at(*e, base + 1)[i - 1], base + 1, base + 1 + m));
                } else {
                    assert(code_at(a, base)[i] == InstS::Jump(base + 1));
                }
            }
        },
        AstS::Or(e1, e2) => {
            lemma_code_at_len(*e1, base + 1);
            lemma_code_at_len(*e2, base + 2 + code_len(*e1));
            lemma_code_at_targets(*e1, base + 1);
            lemma_code_at_targets(*e2, base + 2 + code_len(*e1));
            let m1 = code_len(*e1) as int;
            let m2 = code_len(*e2) as int;
            assert forall|i: int| 0 <= i < code_at(a, base).len() implies target_in(
                #[trigger] code_at(a, base)[i],
                base,
                base + n,
            ) by {
                if i == 0 {
                    assert(code_at(a, base)[i] == InstS::Split(base + 1, base + 2 + m1));
                } else if i < 1 + m1 {
                    assert(code_at(a, base)[i] == code_at(*e1, base + 1)[i - 1]);
                    assert(target_in(code_at(*e1, base + 1)[i - 1], base + 1, base + 1 + m1));
                } else if i == 1 + m1 {
                    assert(code_at(a, base)[i] == InstS::Jump(base + 2 + m1 + m2));
                } else {
                    assert(code_at(a, base)[i] == code_at(*e2, base + 2 + m1)[i - 2 - m1]);
                    assert(target_in(
                        code_at(*e2, base + 2 + m1)[i - 2 - m1],
                        base + 2 + m1,
                        base + 2 + m1 + m2,
                    ));
                }
            }
        },
        AstS::Concat(s) => {
            lemma_code_seq_at_targets(s, base);
            assert forall|i: int| 0 <= i < code_at(a, base).len() implies target_in(
                #[trigger] code_at(a, base)[i],
                base,
                base + n,
            ) by {
                assert(code_at(a, base)[i] == code_seq_at(s, base)[i]);
                assert(target_in(code_seq_at(s, base)[i], base, base + code_len_seq(s)));
            }
        },
    }
}

/// As `lemma_code_at_targets`, for a sequence of trees.
pub proof fn lemma_code_seq_at_targets(s: Seq<AstS>, base: int)
    ensures
        forall|i: int|
            0 <= i < code_seq_at(s, base).len() ==> target_in(
                #[trigger] code_seq_at(s, base)[i],
                base,
                base + code_len_seq(s),
            ),
    decreases s,
{
    lemma_code_seq_at_len(s, base);
    if s.len() > 0 {
        lemma_code_seq_at_len(s.drop_last(), base);
        lemma_code_at_len(s.last(), base + code_len_seq(s.drop_last()));
        lemma_code_seq_at_targets(s.drop_last(), base);
        lemma_code_at_targets(s.last(), base + code_len_seq(s.drop_last()));
        let m = code_len_seq(s.drop_last()) as int;
        let n = code_len_seq(s) as int;
        assert forall|i: int| 0 <= i < code_seq_at(s, base).len() implies target_in(
            #[trigger] code_seq_at(s, base)[i],
            base,
            base + n,
        ) by {
            if i < m {
                assert(code_seq_at(s, base)[i] == code_seq_at(s.drop_last(), base)[i]);
                assert(target_in(code_seq_at(s.drop_last(), base)[i], base, base + m));
            } else {
                assert(code_seq_at(s, base)[i] == code_at(s.last(), base + m)[i - m]);
                assert(target_in(
                    code_at(s.last(), base + m)[i - m],
                    base + m,
                    base + m + code_len(s.last()),
                ));
            }
        }
    }
}

/// Branch addresses of one instruction lie inside the given bounds;
/// instructions without addresses always do.
pub open spec fn target_in(ins: InstS, lo: int, hi: int) -> bool {
    match ins {
        InstS::Jump(t) => lo <= t <= hi,
        InstS::Split(t1, t2) => lo <= t1 <= hi && lo <= t2 <= hi,
        _ => true,
    }
}

/// A program a pattern compiles to is well formed: it is not empty, it
/// ends in `Match`, and every branch address is an index into it.
pub proof fn lemma_generated_program_wf(a: AstS)
    ensures
        super::prog_wf(program_spec(a)),
{
    lemma_code_at_len(a, 0);
    lemma_code_at_targets(a, 0);
    let p = program_spec(a);
    assert(p.last() is Match);
    assert forall|i: int| 0 <= i < p.len() implies super::inst_targets_ok(
        #[trigger] p[i],
        p.len() as int,
    ) by {
        if i < code_len(a) {
            assert(p[i] == code_at(a, 0)[i]);
            assert(target_in(code_at(a, 0)[i], 0, code_len(a) as int));
        } else {
            assert(p[i] == InstS::Match);
        }
    }
}

/// The working state of the generator: the next free address and the
/// instructions emitted so far.
struct Generator {
    pc: usize,
    insts: Vec<Instruction>,
}

proof fn lemma_prog_view_push(s: Seq<Instruction>, x: Instruction)
    ensures
        prog_view(s.push(x)) == prog_view(s).push(inst_view(x)),
{
    assert(prog_view(s.push(x)) =~= prog_view(s).push(inst_view(x)));
}

proof fn lemma_prog_view_update(s: Seq<Instruction>, i: int, x: Instruction)
    requires
        0 <= i < s.len(),
    ensures
        prog_view(s.update(i, x)) == prog_view(s).update(i, inst_view(x)),
{
    assert(prog_view(s.update(i, x)) =~= prog_view(s).update(i, inst_view(x)));
}

impl Generator {
    /// The address cursor always stands one past the emitted code.
    spec fn wf(self) -> bool {
        self.pc == self.insts@.len()
    }

    /// Advance the address cursor, or fail when the address space is
    /// exhausted.
    fn inc_pc(&mut self) -> (r: Result<(), CodeGenError>)
        ensures
            match r {
                Ok(_) => old(self).pc < usize::MAX && final(self).pc == old(self).pc + 1
                    && final(self).insts == old(self).insts,
                Err(e) => old(self).pc == usize::MAX && e == CodeGenError::PcOverFlow
                    && *final(self) == *old(self),
            },
    {
        match self.pc.checked_add(1) {
            Some(v) => {
                self.pc = v;
                Ok(())
            },
            None => Err(CodeGenError::PcOverFlow),
        }
    }

    /// Emit the code of a whole tree followed by the final `Match`.
    fn gen_code(&mut self, ast: &Ast) -> (r: Result<(), CodeGenError>)
        requires
            old(self).wf(),
        ensures
            ({
                let a = ast_view(*ast);
                match r {
                    Ok(_) => old(self).pc + code_len(a) + 1 <= usize::MAX && final(self).wf()
                        && final(self).pc == old(self).pc + code_len(a) + 1 && prog_view(
                        final(self).insts@,
                    ) == prog_view(old(self).insts@) + code_at(a, old(self).pc as int) + seq![
                        InstS::Match,
                    ],
                    Err(e) => e == CodeGenError::PcOverFlow && old(self).pc + code_len(a) + 1
                        > usize::MAX,
                }
            }),
    {
        let ghost a = ast_view(*ast);
        let ghost base = self.pc as int;
        match self.gen_inst(ast) {
            Ok(_) => {},
            Err(e) => {
                return Err(e);
            },
        }
        let ghost mid = self.insts@;
        match self.inc_pc() {
            Ok(_) => {},
            Err(e) => {
                return Err(e);
            },
        }
        self.insts.push(Instruction::Match);
        proof {
            lemma_prog_view_push(mid, Instruction::Match);
            lemma_code_at_len(a, base);
            assert(prog_view(self.insts@) =~= prog_view(old(self).insts@) + code_at(a, base)
                + seq![InstS::Match]);
        }
        Ok(())
    }

    /// Emit the code of one tree at the current address.
    fn gen_inst(&mut self, ast: &Ast) -> (r: Result<(), CodeGenError>)
        requires
            old(self).wf(),
        ensures
            gen_post(ast_view(*ast), *old(self), *final(self), r),
        decreases ast_size(ast_view(*ast)), 1int,
    {
        match ast {
            Ast::Char(c) => self.gen_char(*c),
            Ast::Plus(e) => self.gen_plus(&**e),
            Ast::Star(e) => self.gen_star(&**e),
            Ast::Question(e) => self.gen_question(&**e),
            Ast::Or(e1, e2) => self.gen_or(&**e1, &**e2),
            Ast::Concat(v) => self.gen_seq(v),
        }
    }

    /// Emit the single instruction of a literal character.
    fn gen_char(&mut self, c: char) -> (r: Result<(), CodeGenError>)
        requires
            old(self).wf(),
        ensures
            gen_post(AstS::Char(c), *old(self), *final(self), r),
    {
        let ghost pre = self.insts@;
        let inst = Instruction::Char(c);
        self.insts.push(inst);
        proof {
            lemma_prog_view_push(pre, Instruction::Char(c));
        }
        match self.inc_pc() {
            Ok(_) => {
                proof {
                    assert(prog_view(self.insts@) =~= prog_view(pre) + code_at(
                        AstS::Char(c),
                        pre.len() as int,
                    ));
                }
                Ok(())
            },
            Err(e) => Err(e),
        }
    }

    /// Emit a one-or-more loop: the child's code, then a `Split` back to
    /// it whose exit address is patched in.
    fn gen_plus(&mut self, e: &Ast) -> (r: Result<(), CodeGenError>)
        requires
            old(self).wf(),
        ensures
            gen_post(AstS::Plus(Box::new(ast_view(*e))), *old(self), *final(self), r),
        decreases ast_size(AstS::Plus(Box::new(ast_view(*e)))), 0int,
    {
        let ghost a = AstS::Plus(Box::new(ast_view(*e)));
        let ghost base = self.pc as int;
        let ghost pre = self.insts@;
        proof {
            lemma_code_at_len(ast_view(*e), base);
        }
        let l1 = self.pc;
        match self.gen_inst(e) {
            Ok(_) => {},
            Err(err) => {
                return Err(err);
            },
        }
        let split_addr = self.pc;
        let ghost mid = self.insts@;
        self.insts.push(Instruction::Split(l1, 0));
        proof {
            lemma_prog_view_push(mid, Instruction::Split(l1, 0));
        }
        match self.inc_pc() {
            Ok(_) => {},
            Err(err) => {
                return Err(err);
            },
        }
        let ghost patched = self.insts@;
        match self.insts[split_addr] {
            Instruction::Split(a1, _) => {
                self.insts[split_addr] = Instruction::Split(a1, self.pc);
                proof {
                    lemma_prog_view_update(patched, split_addr as int, Instruction::Split(
                        a1,
                        self.pc,
                    ));
                    assert(prog_view(self.insts@) =~= prog_view(pre) + code_at(a, base));
                }
                Ok(())
            },
            _ => Err(CodeGenError::FailPlus),
        }
    }

    /// Emit a zero-or-more loop: a `Split` over the child's code and a
    /// `Jump` back to the child; the exit address is patched in.
    fn gen_star(&mut self, e: &Ast) -> (r: Result<(), CodeGenError>)
        requires
            old(self).wf(),
        ensures
            gen_post(AstS::Star(Box::new(ast_view(*e))), *old(self), *final(self), r),
        decreases ast_size(AstS::Star(Box::new(ast_view(*e)))), 0int,
    {
        let ghost a = AstS::Star(Box::new(ast_view(*e)));
        let ghost base = self.pc as int;
        let ghost pre = self.insts@;
        proof {
            lemma_code_at_len(ast_view(*e), base + 1);
        }
        let split_addr = self.pc;
        match self.inc_pc() {
            Ok(_) => {},
            Err(err) => {
                return Err(err);
            },
        }
        let l1 = self.pc;
        self.insts.push(Instruction::Split(l1, 0));
        proof {
            lemma_prog_view_push(pre, Instruction::Split(l1, 0));
        }
        match self.gen_inst(e) {
            Ok(_) => {},
            Err(err) => {
                return Err(err);
            },
        }
        let ghost mid = self.insts@;
        self.insts.push(Instruction::Jump(l1));
        proof {
            lemma_prog_view_push(mid, Instruction::Jump(l1));
        }
        match self.inc_pc() {
            Ok(_) => {},
            Err(err) => {
                return Err(err);
            },
        }
        let ghost patched = self.insts@;
        proof {
            assert(prog_view(patched)[split_addr as int] == InstS::Split(l1 as int, 0int));
            assert(prog_view(patched)[split_addr as int] == inst_view(patched[split_addr as int]));
        }
        match self.insts[split_addr] {
            Instruction::Split(a1, _) => {
                proof {
                    assert(a1 == l1);
                }
                self.insts[split_addr] = Instruction::Split(a1, self.pc);
                proof {
                    lemma_prog_view_update(patched, split_addr as int, Instruction::Split(
                        a1,
                        self.pc,
                    ));
                    assert(prog_view(self.insts@) =~= prog_view(pre) + code_at(a, base));
                }
                Ok(())
            },
            _ => Err(CodeGenError::FailStar),
        }
    }

    /// Emit a zero-or-one branch: a `Split` over the child's code; the
    /// exit address is patched in.
    fn gen_question(&mut self, e: &Ast) -> (r: Result<(), CodeGenError>)
        requires
            old(self).wf(),
        ensures
            gen_post(AstS::Question(Box::new(ast_view(*e))), *old(self), *final(self), r),
        decreases ast_size(AstS::Question(Box::new(ast_view(*e)))), 0int,
    {
        let ghost a = AstS::Question(Box::new(ast_view(*e)));
        let ghost base = self.pc as int;
        let ghost pre = self.insts@;
        proof {
            lemma_code_at_len(ast_view(*e), base + 1);
        }
        let split_addr = self.pc;
        match self.inc_pc() {
            Ok(_) => {},
            Err(err) => {
                return Err(err);
            },
        }
        let l1 = self.pc;
        self.insts.push(Instruction::Split(l1, 0));
        proof {
            lemma_prog_view_push(pre, Instruction::Split(l1, 0));
        }
        match self.gen_inst(e) {
            Ok(_) => {},
            Err(err) => {
                return Err(err);
            },
        }
        let ghost patched = self.insts@;
        proof {
            assert(prog_view(patched)[split_addr as int] == InstS::Split(l1 as int, 0int));
            assert(prog_view(patched)[split_addr as int] == inst_view(patched[split_addr as int]));
        }
        match self.insts[split_addr] {
            Instruction::Split(a1, _) => {
                proof {
                    assert(a1 == l1);
                }
                self.insts[split_addr] = Instruction::Split(a1, self.pc);
                proof {
                    lemma_prog_view_update(patched, split_addr as int, Instruction::Split(
                        a1,
                        self.pc,
                    ));
                    assert(prog_view(self.insts@) =~= prog_view(pre) + code_at(a, base));
                }
                Ok(())
            },
            _ => Err(CodeGenError::FailQuestion),
        }
    }

    /// Emit an alternation: a `Split` between the two operands' code,
    /// with a `Jump` past the second; both forward addresses are patched
    /// in.
    fn gen_or(&mut self, e1: &Ast, e2: &Ast) -> (r: Result<(), CodeGenError>)
        requires
            old(self).wf(),
        ensures
            gen_post(
                AstS::Or(Box::new(ast_view(*e1)), Box::new(ast_view(*e2))),
                *old(self),
                *final(self),
                r,
            ),
        decreases ast_size(AstS::Or(Box::new(ast_view(*e1)), Box::new(ast_view(*e2)))), 0int,
    {
        let ghost a = AstS::Or(Box::new(ast_view(*e1)), Box::new(ast_view(*e2)));
        let ghost base = self.pc as int;
        let ghost pre = self.insts@;
        proof {
            lemma_code_at_len(ast_view(*e1), base + 1);
            lemma_code_at_len(ast_view(*e2), base + 2 + code_len(ast_view(*e1)));
        }
        let split_addr = self.pc;
        match self.inc_pc() {
            Ok(_) => {},
            Err(err) => {
                return Err(err);
            },
        }
        let l1 = self.pc;
        self.insts.push(Instruction::Split(l1, 0));
        proof {
            lemma_prog_view_push(pre, Instruction::Split(l1, 0));
        }
        match self.gen_inst(e1) {
            Ok(_) => {},
            Err(err) => {
                return Err(err);
            },
        }
        let jump_addr = self.pc;
        let ghost mid1 = self.insts@;
        self.insts.push(Instruction::Jump(0));
        proof {
            lemma_prog_view_push(mid1, Instruction::Jump(0));
        }
        match self.inc_pc() {
            Ok(_) => {},
            Err(err) => {
                return Err(err);
            },
        }
        let ghost patched1 = self.insts@;
        proof {
            assert(prog_view(patched1)[split_addr as int] == InstS::Split(l1 as int, 0int));
            assert(prog_view(patched1)[split_addr as int] == inst_view(
                patched1[split_addr as int],
            ));
        }
        match self.insts[split_addr] {
            Instruction::Split(a1, _) => {
                proof {
                    assert(a1 == l1);
                }
                self.insts[split_addr] = Instruction::Split(a1, self.pc);
                proof {
                    lemma_prog_view_update(patched1, split_addr as int, Instruction::Split(
                        a1,
                        self.pc,
                    ));
                }
            },
            _ => {
                return Err(CodeGenError::FailOr);
            },
        }
        match self.gen_inst(e2) {
            Ok(_) => {},
            Err(err) => {
                return Err(err);
            },
        }
        let ghost patched2 = self.insts@;
        proof {
            assert(prog_view(patched2)[jump_addr as int] == InstS::Jump(0int));
            assert(prog_view(patched2)[jump_addr as int] == inst_view(patched2[jump_addr as int]));
        }
        match self.insts[jump_addr] {
            Instruction::Jump(_) => {
                self.insts[jump_addr] = Instruction::Jump(self.pc);
                proof {
                    lemma_prog_view_update(patched2, jump_addr as int, Instruction::Jump(self.pc));
                    assert(prog_view(self.insts@) =~= prog_view(pre) + code_at(a, base));
                }
                Ok(())
            },
            _ => Err(CodeGenError::FailOr),
        }
    }

    /// Emit the children of a concatenation, one after the other.
    fn gen_seq(&mut self, v: &Vec<Ast>) -> (r: Result<(), CodeGenError>)
        requires
            old(self).wf(),
        ensures
            gen_post(AstS::Concat(seq_view(v@)), *old(self), *final(self), r),
        decreases ast_size(AstS::Concat(seq_view(v@))), 0int,
    {
        let ghost s = seq_view(v@);
        let ghost base = self.pc as int;
        let ghost pre = self.insts@;
        proof {
            lemma_seq_view_props(v@);
        }
        let mut idx: usize = 0;
        while idx < v.len()
            invariant
                old(self).wf(),
                self.wf(),
                idx <= v@.len(),
                s == seq_view(v@),
                s.len() == v@.len(),
                forall|i: int| 0 <= i < v@.len() ==> s[i] == ast_view(v@[i]),
                base == old(self).pc,
                pre == old(self).insts@,
                self.pc == base + code_len_seq(s.subrange(0, idx as int)),
                prog_view(self.insts@) == prog_view(pre) + code_seq_at(
                    s.subrange(0, idx as int),
                    base,
                ),
            decreases v@.len() - idx,
        {
            let ghost k = idx as int;
            proof {
                assert(s.subrange(0, k + 1).drop_last() =~= s.subrange(0, k));
                assert(s.subrange(0, k + 1).last() == s[k]);
                lemma_code_len_seq_split(s, k);
                lemma_code_len_seq_split(s, k + 1);
                lemma_ast_size_seq_bound(s, k);
                assert(code_len_seq(s.subrange(0, k + 1)) == code_len_seq(s.subrange(0, k))
                    + code_len(s[k]));
            }
            match self.gen_inst(&v[idx]) {
                Ok(_) => {},
                Err(err) => {
                    proof {
                        assert(code_len_seq(s) >= code_len_seq(s.subrange(0, k)) + code_len(s[k]));
                    }
                    return Err(err);
                },
            }
            idx = idx + 1;
            proof {
                assert(prog_view(self.insts@) =~= prog_view(pre) + code_seq_at(
                    s.subrange(0, idx as int),
                    base,
                ));
            }
        }
        proof {
            assert(s.subrange(0, s.len() as int) =~= s);
        }
        Ok(())
    }
}

/// Shared contract of the per-construct emitters: on success the state
/// grew by exactly the predicted code, and the only failure is an
/// exhausted address space.
spec fn gen_post(
    a: AstS,
    pre: Generator,
    post: Generator,
    r: Result<(), CodeGenError>,
) -> bool {
    match r {
        Ok(_) => pre.pc + code_len(a) <= usize::MAX && post.wf() && post.pc == pre.pc + code_len(a)
            && prog_view(post.insts@) == prog_view(pre.insts@) + code_at(a, pre.pc as int),
        Err(e) => e == CodeGenError::PcOverFlow && pre.pc + code_len(a) > usize::MAX,
    }
}

/// Compile a syntax tree into a program.
///
/// On success the program is exactly `program_spec` of the tree: the
/// tree's code at address 0 followed by one final `Match`.  The only
/// error a pattern can raise is `PcOverFlow`, when the program would
/// outgrow the address space.
pub fn gen_code(ast: &Ast) -> (r: Result<Vec<Instruction>, CodeGenError>)
    ensures
        ({
            let a = ast_view(*ast);
            match r {
                Ok(insts) => code_len(a) + 1 <= usize::MAX && prog_view(insts@) == program_spec(a),
                Err(e) => e == CodeGenError::PcOverFlow && code_len(a) + 1 > usize::MAX,
            }
        }),
{
    let mut generator = Generator { pc: 0, insts: Vec::new() };
    match generator.gen_code(ast) {
        Ok(_) => {
            proof {
                assert(prog_view(generator.insts@) =~= program_spec(ast_view(*ast)));
            }
            Ok(generator.insts)
        },
        Err(e) => Err(e),
    }
}

} // verus!
