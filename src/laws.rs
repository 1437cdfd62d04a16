use vstd::prelude::*;
use crate::code::{Code, Instruction, spec_binop_of, spec_unop_of};
use crate::interpreter::{Globals, RunState, is_run, macro_pops, step_effect};
use crate::value::{same, ValueKey};

verus! {

/// How many keys an instruction adds to the stack (negative: removes) when
/// it succeeds.
pub open spec fn stack_delta(code: &Code, instr: Instruction) -> int {
    if spec_binop_of(instr) is Some {
        -1
    } else if spec_unop_of(instr) is Some {
        0
    } else {
        match instr {
            Instruction::LoadConst(_) | Instruction::LoadVar(_) | Instruction::LoadType(_) | Instruction::PushEmpty
            | Instruction::PushAnyPattern => 1,
            Instruction::SetVar(_) | Instruction::PopTop | Instruction::JumpIfFalse(_) | Instruction::Print => -1,
            Instruction::BuildArray(n) => 1 - n,
            Instruction::BuildDict(id) => 1 - code.name_sets@[id as int]@.len(),
            Instruction::MakeMacro(id) => -macro_pops(code.macro_build_info@[id as int].1@),
            _ => 0,
        }
    }
}

/// Every instruction that succeeds changes the stack by its fixed effect, so
/// after a run the stack holds exactly what the executed instructions left
/// on it.
pub proof fn lemma_stack_discipline(
    code: &Code,
    func: int,
    i: int,
    g0: &Globals,
    s0: Seq<ValueKey>,
    p0: Seq<ValueKey>,
    g1: &Globals,
    s1: Seq<ValueKey>,
    p1: Seq<ValueKey>,
    next: int,
)
    requires
        step_effect(code, func, i, g0, s0, p0, g1, s1, p1, next),
    ensures
        s1.len() == s0.len() + stack_delta(code, code.instr(func, i)),
{
}

/// Two `LoadVar` of one variable in a row push the same key.
pub proof fn lemma_load_var_shares(
    code: &Code,
    func: int,
    i: int,
    j: int,
    g0: &Globals,
    s0: Seq<ValueKey>,
    p0: Seq<ValueKey>,
    g1: &Globals,
    s1: Seq<ValueKey>,
    p1: Seq<ValueKey>,
    g2: &Globals,
    s2: Seq<ValueKey>,
    p2: Seq<ValueKey>,
    n1: int,
    n2: int,
)
    requires
        code.instr(func, i) is LoadVar,
        code.instr(func, j) == code.instr(func, i),
        step_effect(code, func, i, g0, s0, p0, g1, s1, p1, n1),
        step_effect(code, func, j, g1, s1, p1, g2, s2, p2, n2),
    ensures
        s1.last() == s2.last(),
        g2.heap() == g0.heap(),
{
}

/// An arithmetic or comparison instruction leaves every value already in
/// the heap, its operands among them, as it was.
pub proof fn lemma_ops_keep_operands(
    code: &Code,
    func: int,
    i: int,
    g0: &Globals,
    s0: Seq<ValueKey>,
    p0: Seq<ValueKey>,
    g1: &Globals,
    s1: Seq<ValueKey>,
    p1: Seq<ValueKey>,
    next: int,
)
    requires
        spec_binop_of(code.instr(func, i)) is Some || spec_unop_of(code.instr(func, i)) is Some,
        step_effect(code, func, i, g0, s0, p0, g1, s1, p1, next),
    ensures
        forall|k: u64| #[trigger] g0.heap().contains_key(k) ==> g1.heap().contains_key(k) && g1.heap()[k]
            == g0.heap()[k],
{
}

/// `SetVar` binds the variable to a fresh copy: the new key is none that the
/// heap held before, its value is the same as the popped one, and the popped
/// key (another variable's, say) keeps its value.
pub proof fn lemma_set_var_copies(
    code: &Code,
    func: int,
    i: int,
    g0: &Globals,
    s0: Seq<ValueKey>,
    p0: Seq<ValueKey>,
    g1: &Globals,
    s1: Seq<ValueKey>,
    p1: Seq<ValueKey>,
    next: int,
)
    requires
        code.instr(func, i) is SetVar,
        step_effect(code, func, i, g0, s0, p0, g1, s1, p1, next),
        g0.holds_all(s0),
    ensures
        ({
            let k = g1.context.binding(code.instr(func, i)->SetVar_0 as int)->Some_0;
            &&& k != s0.last()
            &&& !g0.heap().contains_key(k.0)
            &&& same(g0.heap()[s0.last().0], g1.heap()[k.0])
            &&& g1.heap()[s0.last().0] == g0.heap()[s0.last().0]
        }),
{
    assert(g0.heap().contains_key(s0[s0.len() - 1].0));
}

/// `JumpIfFalse` pops exactly one key whichever way it goes.
pub proof fn lemma_jump_if_false_pops_one(
    code: &Code,
    func: int,
    i: int,
    g0: &Globals,
    s0: Seq<ValueKey>,
    p0: Seq<ValueKey>,
    g1: &Globals,
    s1: Seq<ValueKey>,
    p1: Seq<ValueKey>,
    next: int,
)
    requires
        code.instr(func, i) is JumpIfFalse,
        step_effect(code, func, i, g0, s0, p0, g1, s1, p1, next),
    ensures
        s1.len() == s0.len() - 1,
        s1 == s0.drop_last(),
{
}

/// The summed stack effect of the first `n` instructions a run executed.
pub open spec fn run_delta(code: &Code, func: int, t: Seq<RunState>, n: int) -> int
    decreases n,
{
    if n <= 0 {
        0
    } else {
        run_delta(code, func, t, n - 1) + stack_delta(code, code.instr(func, t[n - 1].3))
    }
}

/// Over a whole run, the stack grows by the summed effect of the
/// instructions executed: what is left is what the executed instructions
/// pushed and did not pop.
pub proof fn lemma_run_stack(code: &Code, func: int, t: Seq<RunState>, n: int)
    requires
        is_run(code, func, t),
        0 <= n < t.len(),
    ensures
        t[n].1.len() == t[0].1.len() + run_delta(code, func, t, n),
    decreases n,
{
    if n > 0 {
        lemma_run_stack(code, func, t, n - 1);
        let j = n - 1;
        assert(0 <= (t[j]).3 < code.instructions@[func]@.len());
        lemma_stack_discipline(code, func, t[j].3, &t[j].0, t[j].1, t[j].2, &t[j + 1].0, t[j + 1].1, t[j + 1].2, t[j + 1].3);
    }
}

} // verus!
