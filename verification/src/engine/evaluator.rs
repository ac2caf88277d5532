//! Execution of an instruction program against an input line.
//!
//! The meaning of a program is given by a small-step relation over
//! machine states (an instruction address and an input position): the
//! program accepts from a state when some chain of steps reaches a
//! `Match` instruction.  Acceptance is a prefix test: input left over
//! after the `Match` is irrelevant.
//!
//! Two executable strategies are proved against that one meaning, so
//! whenever both answer, they answer alike: a depth-first backtracking
//! search that always tries the first branch of a `Split` before the
//! second, and a breadth-first search over the reachable states, whose
//! work is bounded by the program length times the line length.

use vstd::prelude::*;

use super::{inst_view, prog_view, prog_wf, InstS, Instruction};

verus! {

/// Errors reported while evaluating a program.
#[derive(Debug, Clone, Copy, PartialEq, Eq)]
pub enum EvalError {
    /// The program counter overflowed its address width.
    PcOverFlow,
    /// The input cursor overflowed its width.
    SpOverFlow,
    /// The program counter left the program: the program is malformed.
    InvalidPc,
    /// A context for evaluation could not be built.
    InvalidContext,
}

/// One machine state: the address of the next instruction and the
/// position of the next input character.
pub struct VmState {
    pub pc: int,
    pub sp: int,
}

/// One machine step from `a` to `b` under the given program and line.
pub open spec fn step(prog: Seq<InstS>, line: Seq<char>, a: VmState, b: VmState) -> bool {
    0 <= a.pc < prog.len() && 0 <= a.sp && match prog[a.pc] {
        InstS::Char(c) => a.sp < line.len() && line[a.sp] == c && b == (VmState {
            pc: a.pc + 1,
            sp: a.sp + 1,
        }),
        InstS::Match => false,
        InstS::Jump(t) => b == (VmState { pc: t, sp: a.sp }),
        InstS::Split(t1, t2) => b.sp == a.sp && (b.pc == t1 || b.pc == t2),
    }
}

/// The state stands on a `Match` instruction.
pub open spec fn at_match(prog: Seq<InstS>, a: VmState) -> bool {
    0 <= a.pc < prog.len() && prog[a.pc] is Match
}

/// Consecutive elements are machine steps.
pub open spec fn is_path(prog: Seq<InstS>, line: Seq<char>, p: Seq<VmState>) -> bool {
    forall|i: int| 0 <= i < p.len() - 1 ==> step(prog, line, #[trigger] p[i], p[i + 1])
}

/// Some chain of steps leads from `a` to `b`.
pub open spec fn reaches(prog: Seq<InstS>, line: Seq<char>, a: VmState, b: VmState) -> bool {
    exists|p: Seq<VmState>|
        p.len() > 0 && p.first() == a && p.last() == b && is_path(prog, line, p)
}

/// The program accepts from state `a`: some chain of steps reaches a
/// `Match`.
pub open spec fn accepts_from(prog: Seq<InstS>, line: Seq<char>, a: VmState) -> bool {
    exists|b: VmState| reaches(prog, line, a, b) && at_match(prog, b)
}

/// The program accepts the line, starting at its first instruction and
/// the first input character.
pub open spec fn accepts(prog: Seq<InstS>, line: Seq<char>) -> bool {
    accepts_from(prog, line, VmState { pc: 0, sp: 0 })
}

/// The state is a sensible starting point: its address is in the
/// program and its position within the line.
pub open spec fn good(prog: Seq<InstS>, line: Seq<char>, s: VmState) -> bool {
    0 <= s.pc < prog.len() && 0 <= s.sp <= line.len()
}

/// What the evaluators promise of a result from start state `s0`: an
/// answer is exactly whether the program accepts, and the only error is
/// `InvalidPc`, raised only when some reachable state leaves the
/// program.
pub open spec fn eval_post(
    prog: Seq<InstS>,
    line: Seq<char>,
    s0: VmState,
    r: Result<bool, EvalError>,
) -> bool {
    match r {
        Ok(b) => b == accepts_from(prog, line, s0),
        Err(e) => e == EvalError::InvalidPc && (exists|s: VmState|
            reaches(prog, line, s0, s) && !(0 <= s.pc < prog.len())),
    }
}

/// Every state reaches itself.
pub proof fn lemma_reaches_refl(prog: Seq<InstS>, line: Seq<char>, a: VmState)
    ensures
        reaches(prog, line, a, a),
{
    let p = seq![a];
    assert(p.len() > 0 && p.first() == a && p.last() == a && is_path(prog, line, p));
}

/// A reachable state's successor is reachable.
pub proof fn lemma_reaches_extend(
    prog: Seq<InstS>,
    line: Seq<char>,
    a: VmState,
    b: VmState,
    c: VmState,
)
    requires
        reaches(prog, line, a, b),
        step(prog, line, b, c),
    ensures
        reaches(prog, line, a, c),
{
    let p = choose|p: Seq<VmState>|
        p.len() > 0 && p.first() == a && p.last() == b && is_path(prog, line, p);
    let q = p.push(c);
    assert forall|i: int| 0 <= i < q.len() - 1 implies step(prog, line, #[trigger] q[i], q[i + 1]) by {
        if i < p.len() - 1 {
            assert(step(prog, line, p[i], p[i + 1]));
        } else {
            assert(q[i] == b && q[i + 1] == c);
        }
    }
    assert(q.len() > 0 && q.first() == a && q.last() == c && is_path(prog, line, q));
}

/// A step into an accepting state accepts.
proof fn lemma_accepts_step_back(prog: Seq<InstS>, line: Seq<char>, a: VmState, b: VmState)
    requires
        step(prog, line, a, b),
        accepts_from(prog, line, b),
    ensures
        accepts_from(prog, line, a),
{
    let m = choose|m: VmState| reaches(prog, line, b, m) && at_match(prog, m);
    let p = choose|p: Seq<VmState>|
        p.len() > 0 && p.first() == b && p.last() == m && is_path(prog, line, p);
    let q = seq![a] + p;
    assert forall|i: int| 0 <= i < q.len() - 1 implies step(prog, line, #[trigger] q[i], q[i + 1]) by {
        if i == 0 {
            assert(q[0] == a && q[1] == p[0]);
        } else {
            assert(q[i] == p[i - 1] && q[i + 1] == p[i]);
            assert(step(prog, line, p[i - 1], p[i]));
        }
    }
    assert(q.len() > 0 && q.first() == a && q.last() == m && is_path(prog, line, q));
}

/// Acceptance unfolds one step: a state accepts exactly when it stands
/// on `Match` or one of its successors accepts.
pub proof fn lemma_accepts_unfold(prog: Seq<InstS>, line: Seq<char>, a: VmState)
    ensures
        accepts_from(prog, line, a) <==> (at_match(prog, a) || exists|b: VmState|
            step(prog, line, a, b) && accepts_from(prog, line, b)),
{
    if accepts_from(prog, line, a) {
        let m = choose|m: VmState| reaches(prog, line, a, m) && at_match(prog, m);
        let p = choose|p: Seq<VmState>|
            p.len() > 0 && p.first() == a && p.last() == m && is_path(prog, line, p);
        if p.len() == 1 {
            assert(a == m);
        } else {
            let b = p[1];
            assert(step(prog, line, p[0], p[1]));
            let q = p.subrange(1, p.len() as int);
            assert forall|i: int| 0 <= i < q.len() - 1 implies step(prog, line, #[trigger] q[i], q[i + 1]) by {
                assert(q[i] == p[i + 1] && q[i + 1] == p[i + 2]);
                assert(step(prog, line, p[i + 1], p[i + 2]));
            }
            assert(q.len() > 0 && q.first() == b && q.last() == m && is_path(prog, line, q));
            assert(reaches(prog, line, b, m));
            assert(step(prog, line, a, b) && accepts_from(prog, line, b));
        }
    }
    if at_match(prog, a) {
        lemma_reaches_refl(prog, line, a);
        assert(accepts_from(prog, line, a));
    }
    if exists|b: VmState| step(prog, line, a, b) && accepts_from(prog, line, b) {
        let b = choose|b: VmState| step(prog, line, a, b) && accepts_from(prog, line, b);
        lemma_accepts_step_back(prog, line, a, b);
    }
}

/// At a `Char` instruction acceptance is decided by the current input
/// character and the single following state.
pub proof fn lemma_accepts_char(prog: Seq<InstS>, line: Seq<char>, a: VmState, c: char)
    requires
        0 <= a.pc < prog.len(),
        0 <= a.sp,
        prog[a.pc] == InstS::Char(c),
    ensures
        accepts_from(prog, line, a) <==> (a.sp < line.len() && line[a.sp] == c && accepts_from(
            prog,
            line,
            VmState { pc: a.pc + 1, sp: a.sp + 1 },
        )),
{
    lemma_accepts_unfold(prog, line, a);
}

/// At a `Split` instruction acceptance is the disjunction of its two
/// branches.  The disjunction is symmetric: which branch a search tries
/// first cannot change the answer, only the order of exploration.
pub proof fn lemma_accepts_split(prog: Seq<InstS>, line: Seq<char>, a: VmState, t1: int, t2: int)
    requires
        0 <= a.pc < prog.len(),
        0 <= a.sp,
        prog[a.pc] == InstS::Split(t1, t2),
    ensures
        accepts_from(prog, line, a) <==> (accepts_from(prog, line, VmState { pc: t1, sp: a.sp })
            || accepts_from(prog, line, VmState { pc: t2, sp: a.sp })),
{
    lemma_accepts_unfold(prog, line, a);
}

/// Under a well-formed program, a step keeps the state sensible.
pub proof fn lemma_wf_step_good(prog: Seq<InstS>, line: Seq<char>, a: VmState, b: VmState)
    requires
        prog_wf(prog),
        good(prog, line, a),
        step(prog, line, a, b),
    ensures
        good(prog, line, b),
{
    assert(super::inst_targets_ok(prog[a.pc], prog.len() as int));
    match prog[a.pc] {
        InstS::Char(_) => {
            assert(prog.last() is Match);
            assert(a.pc != prog.len() - 1);
        },
        _ => {},
    }
}

/// Every path from a member of a step-closed set stays inside it.
proof fn lemma_path_stays(
    prog: Seq<InstS>,
    line: Seq<char>,
    states: Set<VmState>,
    p: Seq<VmState>,
)
    requires
        p.len() > 0,
        is_path(prog, line, p),
        states.contains(p.first()),
        forall|x: VmState, y: VmState|
            states.contains(x) && #[trigger] step(prog, line, x, y) ==> states.contains(y),
    ensures
        states.contains(p.last()),
    decreases p.len(),
{
    if p.len() > 1 {
        assert(step(prog, line, p[0], p[1]));
        let q = p.subrange(1, p.len() as int);
        assert forall|i: int| 0 <= i < q.len() - 1 implies step(prog, line, #[trigger] q[i], q[i + 1]) by {
            assert(q[i] == p[i + 1] && q[i + 1] == p[i + 2]);
            assert(step(prog, line, p[i + 1], p[i + 2]));
        }
        assert(states.contains(q.first()));
        lemma_path_stays(prog, line, states, q);
        assert(q.last() == p.last());
    }
}

/// A set of states closed under steps, holding no `Match` state,
/// witnesses rejection from each of its members.
pub proof fn lemma_closed_set_rejects(
    prog: Seq<InstS>,
    line: Seq<char>,
    states: Set<VmState>,
    a: VmState,
)
    requires
        states.contains(a),
        forall|x: VmState, y: VmState|
            states.contains(x) && #[trigger] step(prog, line, x, y) ==> states.contains(y),
        forall|x: VmState| states.contains(x) ==> !at_match(prog, x),
    ensures
        !accepts_from(prog, line, a),
{
    if accepts_from(prog, line, a) {
        let m = choose|m: VmState| reaches(prog, line, a, m) && at_match(prog, m);
        let p = choose|p: Seq<VmState>|
            p.len() > 0 && p.first() == a && p.last() == m && is_path(prog, line, p);
        lemma_path_stays(prog, line, states, p);
        assert(states.contains(m));
    }
}

/// The state a stacked or queued pair of counters stands for.
pub open spec fn stk(t: (usize, usize)) -> VmState {
    VmState { pc: t.0 as int, sp: t.1 as int }
}

/// Whether a state's slot in the visited table is set.
spec fn vis(visited: Seq<Vec<bool>>, s: VmState) -> bool {
    visited[s.pc]@[s.sp]
}

/// The visited table has one row per instruction and one slot per input
/// position, plus one slot for the end of the line.
spec fn dims_ok(visited: Seq<Vec<bool>>, n: int, llen: int) -> bool {
    &&& visited.len() == n
    &&& forall|r: int| 0 <= r < n ==> (#[trigger] visited[r])@.len() == llen + 1
}

/// How many slots of one row, among its first `n`, are still unset.
spec fn count_false_row(row: Seq<bool>, n: int) -> nat
    decreases n,
{
    if n <= 0 {
        0
    } else {
        count_false_row(row, n - 1) + (if !row[n - 1] {
            1nat
        } else {
            0nat
        })
    }
}

/// How many slots of the whole table are still unset.
spec fn count_false(v: Seq<Vec<bool>>, r: int, cols: int) -> nat
    decreases r,
{
    if r <= 0 {
        0
    } else {
        count_false(v, r - 1, cols) + count_false_row(v[r - 1]@, cols)
    }
}

proof fn lemma_count_row_agree(a: Seq<bool>, b: Seq<bool>, n: int)
    requires
        forall|k: int| 0 <= k < n ==> a[k] == b[k],
    ensures
        count_false_row(a, n) == count_false_row(b, n),
    decreases n,
{
    if n > 0 {
        lemma_count_row_agree(a, b, n - 1);
    }
}

proof fn lemma_count_row_set(row: Seq<bool>, n: int, i: int)
    requires
        0 <= i < n <= row.len(),
        !row[i],
    ensures
        count_false_row(row.update(i, true), n) + 1 == count_false_row(row, n),
    decreases n,
{
    if i == n - 1 {
        lemma_count_row_agree(row.update(i, true), row, n - 1);
    } else {
        lemma_count_row_set(row, n - 1, i);
    }
}

proof fn lemma_count_agree(a: Seq<Vec<bool>>, b: Seq<Vec<bool>>, r: int, cols: int)
    requires
        forall|k: int| 0 <= k < r ==> a[k] == b[k],
    ensures
        count_false(a, r, cols) == count_false(b, r, cols),
    decreases r,
{
    if r > 0 {
        lemma_count_agree(a, b, r - 1, cols);
    }
}

proof fn lemma_count_set(v: Seq<Vec<bool>>, r: int, cols: int, pcv: int, i: int, row2: Vec<bool>)
    requires
        0 <= pcv < r <= v.len(),
        0 <= i < cols <= v[pcv]@.len(),
        !v[pcv]@[i],
        row2@ == v[pcv]@.update(i, true),
    ensures
        count_false(v.update(pcv, row2), r, cols) + 1 == count_false(v, r, cols),
    decreases r,
{
    let v2 = v.update(pcv, row2);
    if pcv == r - 1 {
        lemma_count_row_set(v[pcv]@, cols, i);
        assert(forall|k: int| 0 <= k < r - 1 ==> v2[k] == v[k]);
        lemma_count_agree(v2, v, r - 1, cols);
        assert(v2[r - 1] == row2);
    } else {
        lemma_count_set(v, r - 1, cols, pcv, i, row2);
        assert(v2[r - 1] == v[r - 1]);
    }
}

/// Set one state's slot in the visited table.
fn set_visited(visited: &mut Vec<Vec<bool>>, pcv: usize, spv: usize)
    requires
        pcv < old(visited)@.len(),
        spv < old(visited)@[pcv as int]@.len(),
    ensures
        final(visited)@.len() == old(visited)@.len(),
        final(visited)@[pcv as int]@ == old(visited)@[pcv as int]@.update(spv as int, true),
        forall|r: int|
            0 <= r < old(visited)@.len() && r != pcv ==> final(visited)@[r] == old(visited)@[r],
{
    let row = &mut visited[pcv];
    row[spv] = true;
}

/// Whether a state's slot in the visited table is set.
fn is_visited(visited: &Vec<Vec<bool>>, pcv: usize, spv: usize) -> (b: bool)
    requires
        pcv < visited@.len(),
        spv < visited@[pcv as int]@.len(),
    ensures
        b == vis(visited@, (VmState { pc: pcv as int, sp: spv as int })),
{
    visited[pcv][spv]
}

/// Enqueue the successor state `(tpc, tsp)` of `cur` unless it was
/// already seen.
fn visit(
    inst: &Vec<Instruction>,
    line: &Vec<char>,
    visited: &mut Vec<Vec<bool>>,
    queue: &mut Vec<(usize, usize)>,
    tpc: usize,
    tsp: usize,
    Ghost(s0): Ghost<VmState>,
    Ghost(cur): Ghost<VmState>,
)
    requires
        tpc < inst@.len(),
        tsp <= line@.len(),
        dims_ok(old(visited)@, inst@.len() as int, line@.len() as int),
        reaches(prog_view(inst@), line@, s0, cur),
        step(prog_view(inst@), line@, cur, (VmState { pc: tpc as int, sp: tsp as int })),
    ensures
        dims_ok(final(visited)@, inst@.len() as int, line@.len() as int),
        final(queue)@.len() >= old(queue)@.len(),
        forall|j: int| 0 <= j < old(queue)@.len() ==> #[trigger] final(queue)@[j] == old(queue)@[j],
        forall|j: int|
            old(queue)@.len() <= j < final(queue)@.len() ==> good(prog_view(inst@), line@, stk(
                #[trigger] final(queue)@[j],
            )) && vis(final(visited)@, stk(final(queue)@[j])) && reaches(
                prog_view(inst@),
                line@,
                s0,
                stk(final(queue)@[j]),
            ),
        vis(final(visited)@, (VmState { pc: tpc as int, sp: tsp as int })),
        reaches(prog_view(inst@), line@, s0, (VmState { pc: tpc as int, sp: tsp as int })),
        forall|s: VmState|
            good(prog_view(inst@), line@, s) ==> (vis(final(visited)@, s) <==> vis(
                old(visited)@,
                s,
            ) || s == (VmState { pc: tpc as int, sp: tsp as int })),
        forall|s: VmState|
            good(prog_view(inst@), line@, s) && #[trigger] vis(final(visited)@, s) && !vis(
                old(visited)@,
                s,
            ) ==> exists|j: int|
                old(queue)@.len() <= j < final(queue)@.len() && stk(#[trigger] final(queue)@[j])
                    == s,
        (final(queue)@ == old(queue)@ && final(visited)@ == old(visited)@) || (final(queue)@.len()
            == old(queue)@.len() + 1 && count_false(
            final(visited)@,
            inst@.len() as int,
            line@.len() as int + 1,
        ) + 1 == count_false(old(visited)@, inst@.len() as int, line@.len() as int + 1)),
{
    let ghost prog = prog_view(inst@);
    let ghost l = line@;
    let ghost next = VmState { pc: tpc as int, sp: tsp as int };
    proof {
        lemma_reaches_extend(prog, l, s0, cur, next);
    }
    let seen = is_visited(visited, tpc, tsp);
    if !seen {
        let ghost pre = visited@;
        set_visited(visited, tpc, tsp);
        queue.push((tpc, tsp));
        proof {
            assert(visited@ =~= pre.update(tpc as int, visited@[tpc as int]));
            lemma_count_set(pre, inst@.len() as int, l.len() as int + 1, tpc as int, tsp as int,
                visited@[tpc as int]);
            assert(stk(queue@[queue@.len() - 1]) == next);
        }
    }
}

/// The invariant of both searches: every visited state is reachable,
/// and is either still waiting in the live part of the worklist or has
/// been fully handled — it is no `Match` and all its successors are
/// visited.
spec fn search_inv(
    prog: Seq<InstS>,
    l: Seq<char>,
    s0: VmState,
    visited: Seq<Vec<bool>>,
    queue: Seq<(usize, usize)>,
    head: int,
) -> bool {
    &&& forall|j: int|
        head <= j < queue.len() ==> good(prog, l, stk(#[trigger] queue[j])) && vis(
            visited,
            stk(queue[j]),
        )
    &&& forall|s: VmState|
        good(prog, l, s) && #[trigger] vis(visited, s) ==> reaches(prog, l, s0, s)
    &&& forall|s: VmState|
        good(prog, l, s) && #[trigger] vis(visited, s) ==> (exists|j: int|
            head <= j < queue.len() && stk(#[trigger] queue[j]) == s) || (!at_match(prog, s)
            && forall|y: VmState|
            #[trigger] step(prog, l, s, y) ==> good(prog, l, y) && vis(visited, y))
}

/// Run a program on a line.
///
/// Both strategies are proved against the same acceptance relation, so
/// whenever each returns an answer the answers agree: an `Ok` result is
/// exactly whether some execution path of the program reaches `Match`.
/// On a well-formed program — and every program the generator emits is
/// well formed — no error is possible.
pub fn eval(inst: &Vec<Instruction>, line: &Vec<char>, is_depth: bool) -> (r: Result<
    bool,
    EvalError,
>)
    ensures
        eval_post(prog_view(inst@), line@, (VmState { pc: 0, sp: 0 }), r),
        prog_wf(prog_view(inst@)) ==> !(r is Err),
{
    if is_depth {
        eval_depth(inst, line)
    } else {
        eval_width(inst, line)
    }
}

/// Depth-first search over reachable machine states, with an explicit
/// work stack in place of native recursion: the last alternative opened
/// is explored first, and of a `Split` the first branch is tried before
/// the second.  States already explored are not entered again, so the
/// stack stays bounded and deeply repetitive patterns cannot exhaust
/// it.
fn eval_depth(inst: &Vec<Instruction>, line: &Vec<char>) -> (r: Result<bool, EvalError>)
    ensures
        eval_post(prog_view(inst@), line@, (VmState { pc: 0, sp: 0 }), r),
        prog_wf(prog_view(inst@)) ==> !(r is Err),
{
    search(inst, line, true)
}

/// Breadth-first search over reachable machine states: all states one
/// step away are expanded before any two steps away, so the work is
/// bounded by the program length times the line length, with no
/// backtracking blow-up.
fn eval_width(inst: &Vec<Instruction>, line: &Vec<char>) -> (r: Result<bool, EvalError>)
    ensures
        eval_post(prog_view(inst@), line@, (VmState { pc: 0, sp: 0 }), r),
        prog_wf(prog_view(inst@)) ==> !(r is Err),
{
    search(inst, line, false)
}

/// The shared state search: `lifo` picks the traversal order, last-in
/// first-out for depth-first, first-in first-out for breadth-first.
/// The order chosen cannot change the answer, only which accepting path
/// is found first.
#[verifier::rlimit(100)]
fn search(inst: &Vec<Instruction>, line: &Vec<char>, lifo: bool) -> (r: Result<bool, EvalError>)
    ensures
        eval_post(prog_view(inst@), line@, (VmState { pc: 0, sp: 0 }), r),
        prog_wf(prog_view(inst@)) ==> !(r is Err),
{
    let ghost prog = prog_view(inst@);
    let ghost l = line@;
    let ghost s0 = VmState { pc: 0, sp: 0 };
    let n = inst.len();
    proof {
        lemma_reaches_refl(prog, l, s0);
    }
    if n == 0 {
        return Err(EvalError::InvalidPc);
    }
    let mut visited: Vec<Vec<bool>> = Vec::new();
    let mut i: usize = 0;
    while i < n
        invariant
            visited@.len() == i,
            i <= n,
            forall|r: int| 0 <= r < i ==> (#[trigger] visited@[r])@.len() == line@.len() + 1,
            forall|r: int, c: int|
                0 <= r < i && 0 <= c < line@.len() + 1 ==> !(#[trigger] visited@[r]@[c]),
        decreases n - i,
    {
        let mut row: Vec<bool> = vec![false; line.len()];
        row.push(false);
        visited.push(row);
        i = i + 1;
    }
    let mut queue: Vec<(usize, usize)> = Vec::new();
    let ghost tbl0 = visited@;
    set_visited(&mut visited, 0, 0);
    queue.push((0, 0));
    let mut head: usize = 0;
    proof {
        assert(stk(queue@[0]) == s0);
        assert forall|s: VmState| good(prog, l, s) && #[trigger] vis(visited@, s) implies s
            == s0 by {
            if s.pc == 0 {
                assert(visited@[0]@ == tbl0[0]@.update(0, true));
            } else {
                assert(visited@[s.pc] == tbl0[s.pc]);
            }
        }
    }
    while head < queue.len()
        invariant
            prog == prog_view(inst@),
            l == line@,
            s0 == (VmState { pc: 0, sp: 0 }),
            n == inst@.len(),
            n > 0,
            dims_ok(visited@, n as int, l.len() as int),
            head <= queue@.len(),
            !lifo || head == 0,
            vis(visited@, s0),
            good(prog, l, s0),
            search_inv(prog, l, s0, visited@, queue@, head as int),
        decreases 2 * count_false(visited@, n as int, l.len() as int + 1) + queue@.len() - head,
    {
        let ghost pre_queue = queue@;
        let ghost pre_vis = visited@;
        let ghost pre_head = head as int;
        let top: (usize, usize);
        if lifo {
            top = match queue.pop() {
                Some(t) => t,
                None => {
                    return Err(EvalError::InvalidContext);
                },
            };
        } else {
            top = queue[head];
            head = head + 1;
        }
        let ghost mid_queue = queue@;
        let pcv = top.0;
        let spv = top.1;
        let ghost cur = stk(top);
        proof {
            assert(good(prog, l, cur) && vis(visited@, cur));
            assert(forall|j: int|
                0 <= j < mid_queue.len() ==> #[trigger] mid_queue[j] == pre_queue[j]);
        }
        match inst[pcv] {
            Instruction::Match => {
                proof {
                    assert(at_match(prog, cur));
                    assert(reaches(prog, l, s0, cur));
                    assert(accepts_from(prog, l, s0));
                }
                return Ok(true);
            },
            Instruction::Char(c) => {
                let matched = spv < line.len() && line[spv] == c;
                if matched {
                    let tpc = pcv + 1;
                    let ghost next = VmState { pc: cur.pc + 1, sp: cur.sp + 1 };
                    proof {
                        assert(step(prog, l, cur, next));
                    }
                    if tpc >= n {
                        proof {
                            lemma_reaches_extend(prog, l, s0, cur, next);
                            assert(reaches(prog, l, s0, next) && !(0 <= next.pc < prog.len()));
                            if prog_wf(prog) {
                                lemma_wf_step_good(prog, l, cur, next);
                            }
                        }
                        return Err(EvalError::InvalidPc);
                    }
                    visit(inst, line, &mut visited, &mut queue, tpc, spv + 1, Ghost(s0),
                        Ghost(cur));
                }
                proof {
                    restore_inv(prog, l, s0, pre_vis, pre_queue, pre_head, mid_queue, visited@,
                        queue@, head as int, cur, lifo);
                }
            },
            Instruction::Jump(t) => {
                let ghost next = VmState { pc: t as int, sp: cur.sp };
                proof {
                    assert(step(prog, l, cur, next));
                }
                if t >= n {
                    proof {
                        lemma_reaches_extend(prog, l, s0, cur, next);
                        assert(reaches(prog, l, s0, next) && !(0 <= next.pc < prog.len()));
                        if prog_wf(prog) {
                            lemma_wf_step_good(prog, l, cur, next);
                        }
                    }
                    return Err(EvalError::InvalidPc);
                }
                visit(inst, line, &mut visited, &mut queue, t, spv, Ghost(s0), Ghost(cur));
                proof {
                    restore_inv(prog, l, s0, pre_vis, pre_queue, pre_head, mid_queue, visited@,
                        queue@, head as int, cur, lifo);
                }
            },
            Instruction::Split(t1, t2) => {
                let ghost n1 = VmState { pc: t1 as int, sp: cur.sp };
                let ghost n2 = VmState { pc: t2 as int, sp: cur.sp };
                proof {
                    assert(step(prog, l, cur, n1));
                    assert(step(prog, l, cur, n2));
                }
                if t1 >= n {
                    proof {
                        lemma_reaches_extend(prog, l, s0, cur, n1);
                        assert(reaches(prog, l, s0, n1) && !(0 <= n1.pc < prog.len()));
                        if prog_wf(prog) {
                            lemma_wf_step_good(prog, l, cur, n1);
                        }
                    }
                    return Err(EvalError::InvalidPc);
                }
                if t2 >= n {
                    proof {
                        lemma_reaches_extend(prog, l, s0, cur, n2);
                        assert(reaches(prog, l, s0, n2) && !(0 <= n2.pc < prog.len()));
                        if prog_wf(prog) {
                            lemma_wf_step_good(prog, l, cur, n2);
                        }
                    }
                    return Err(EvalError::InvalidPc);
                }
                let order: (usize, usize) = if lifo {
                    (t2, t1)
                } else {
                    (t1, t2)
                };
                visit(inst, line, &mut visited, &mut queue, order.0, spv, Ghost(s0), Ghost(cur));
                let ghost q1 = queue@;
                let ghost v1 = visited@;
                visit(inst, line, &mut visited, &mut queue, order.1, spv, Ghost(s0), Ghost(cur));
                proof {
                    assert forall|s: VmState|
                        good(prog, l, s) && #[trigger] vis(visited@, s) && !vis(
                            pre_vis,
                            s,
                        ) implies exists|j: int|
                        mid_queue.len() <= j < queue@.len() && stk(#[trigger] queue@[j])
                            == s by {
                        if vis(v1, s) {
                            let j = choose|j: int|
                                mid_queue.len() <= j < q1.len() && stk(#[trigger] q1[j]) == s;
                            assert(queue@[j] == q1[j]);
                        } else {
                            let j = choose|j: int|
                                q1.len() <= j < queue@.len() && stk(#[trigger] queue@[j]) == s;
                        }
                    }
                    restore_inv(prog, l, s0, pre_vis, pre_queue, pre_head, mid_queue, visited@,
                        queue@, head as int, cur, lifo);
                }
            },
        }
    }
    proof {
        let states = Set::new(|s: VmState| good(prog, l, s) && vis(visited@, s));
        assert(states.contains(s0));
        assert forall|x: VmState, y: VmState|
            states.contains(x) && #[trigger] step(prog, l, x, y) implies states.contains(y) by {
            assert(good(prog, l, x) && vis(visited@, x));
        }
        assert forall|x: VmState| states.contains(x) implies !at_match(prog, x) by {
            assert(good(prog, l, x) && vis(visited@, x));
        }
        lemma_closed_set_rejects(prog, l, states, s0);
    }
    Ok(false)
}

/// The handled state `cur` was taken off the live worklist, its unseen
/// successors were enqueued and marked, and nothing else changed: the
/// search invariant carries over.
#[verifier::rlimit(100)]
proof fn restore_inv(
    prog: Seq<InstS>,
    l: Seq<char>,
    s0: VmState,
    pre_vis: Seq<Vec<bool>>,
    pre_queue: Seq<(usize, usize)>,
    pre_head: int,
    mid_queue: Seq<(usize, usize)>,
    vf: Seq<Vec<bool>>,
    qf: Seq<(usize, usize)>,
    head: int,
    cur: VmState,
    lifo: bool,
)
    requires
        search_inv(prog, l, s0, pre_vis, pre_queue, pre_head),
        good(prog, l, cur),
        vis(pre_vis, cur),
        // how the live region shrank by exactly cur
        0 <= pre_head,
        if lifo {
            pre_head == 0 && head == 0 && pre_queue.len() > 0 && mid_queue
                == pre_queue.drop_last() && cur == stk(pre_queue.last())
        } else {
            head == pre_head + 1 && pre_head < pre_queue.len() && mid_queue == pre_queue && cur
                == stk(pre_queue[pre_head])
        },
        // the worklist only grew at its end
        mid_queue.len() <= qf.len(),
        forall|j: int| 0 <= j < mid_queue.len() ==> #[trigger] qf[j] == mid_queue[j],
        // every appended entry is a freshly visited good state
        forall|j: int|
            mid_queue.len() <= j < qf.len() ==> good(prog, l, stk(#[trigger] qf[j])) && vis(
                vf,
                stk(qf[j]),
            ) && reaches(prog, l, s0, stk(qf[j])),
        // the visited table only grew, by exactly the appended entries
        forall|s: VmState| good(prog, l, s) && vis(pre_vis, s) ==> vis(vf, s),
        forall|s: VmState|
            good(prog, l, s) && #[trigger] vis(vf, s) && !vis(pre_vis, s) ==> exists|j: int|
                mid_queue.len() <= j < qf.len() && stk(#[trigger] qf[j]) == s,
        // cur is fully handled
        !at_match(prog, cur),
        forall|y: VmState| #[trigger] step(prog, l, cur, y) ==> good(prog, l, y) && vis(vf, y),
    ensures
        search_inv(prog, l, s0, vf, qf, head),
{
    assert forall|j: int| head <= j < qf.len() implies good(prog, l, stk(#[trigger] qf[j]))
        && vis(vf, stk(qf[j])) by {
        if j < mid_queue.len() {
            assert(qf[j] == pre_queue[j]);
            assert(good(prog, l, stk(pre_queue[j])) && vis(pre_vis, stk(pre_queue[j])));
        }
    }
    assert forall|s: VmState| good(prog, l, s) && #[trigger] vis(vf, s) implies reaches(
        prog,
        l,
        s0,
        s,
    ) by {
        if vis(pre_vis, s) {
        } else {
            let j = choose|j: int| mid_queue.len() <= j < qf.len() && stk(qf[j]) == s;
        }
    }
    assert forall|s: VmState| good(prog, l, s) && #[trigger] vis(vf, s) implies (exists|j: int|
        head <= j < qf.len() && stk(#[trigger] qf[j]) == s) || (!at_match(prog, s) && forall|
        y: VmState,
    |
        #[trigger] step(prog, l, s, y) ==> good(prog, l, y) && vis(vf, y)) by {
        if s == cur {
            assert(!at_match(prog, s));
        } else if vis(pre_vis, s) {
            if exists|j: int| pre_head <= j < pre_queue.len() && stk(#[trigger] pre_queue[j]) == s {
                let j = choose|j: int|
                    pre_head <= j < pre_queue.len() && stk(#[trigger] pre_queue[j]) == s;
                if lifo {
                    assert(j != pre_queue.len() - 1);
                    assert(qf[j] == pre_queue[j]);
                    assert(head <= j < qf.len() && stk(qf[j]) == s);
                } else {
                    assert(j != pre_head);
                    assert(qf[j] == pre_queue[j]);
                    assert(head <= j < qf.len() && stk(qf[j]) == s);
                }
            } else {
                assert(!at_match(prog, s));
                assert forall|y: VmState| #[trigger] step(prog, l, s, y) implies good(prog, l, y)
                    && vis(vf, y) by {
                    assert(good(prog, l, y) && vis(pre_vis, y));
                }
            }
        } else {
            let j = choose|j: int| mid_queue.len() <= j < qf.len() && stk(qf[j]) == s;
            assert(head <= j < qf.len() && stk(qf[j]) == s);
        }
    }
}

} // verus!
