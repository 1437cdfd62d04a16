use spwn_core::code::Instruction::{
    BuildArray, BuildDict, Call, Div, Jump, JumpIfFalse, LoadConst, LoadType, LoadVar, MakeMacro, Minus, Mult, Negate,
    Plus, Pow, Print, PushAnyPattern, SetVar,
};
use spwn_core::code::{Code, Instruction};
use spwn_core::interpreter::{execute, run_instruction, Globals, RuntimeError};
use spwn_core::sources::{CodeArea, SpwnSource};
use spwn_core::value::{
    binary_op, to_bool, unary_op, BinOp, MacroArg, OpError, Pattern, StoredValue, UnOp, Value, ValueKey, ValueType,
};

fn area(n: usize) -> CodeArea {
    CodeArea { source: SpwnSource { id: 0 }, span: (n, n + 1) }
}

fn stored(value: Value) -> StoredValue {
    StoredValue { value, def_area: area(0) }
}

fn code_of(instrs: Vec<Instruction>, constants: Vec<Value>) -> Code {
    Code {
        instructions: vec![instrs.into_iter().enumerate().map(|(i, x)| (x, area(i))).collect()],
        constants: constants.into_iter().map(stored).collect(),
        names: vec!["int".to_string(), "nope".to_string()],
        name_sets: vec![vec!["a".to_string(), "b".to_string()], vec![]],
        destinations: vec![],
        macro_build_info: vec![],
    }
}

fn globals_with_vars(n: usize) -> Globals {
    let mut g = Globals::new();
    g.context.vars = vec![vec![None]; n];
    g
}

fn int_at(g: &Globals, k: ValueKey) -> i64 {
    match g.get_value(k).value {
        Value::Int(n) => n,
        ref other => panic!("not an int: {:?}", other),
    }
}

#[test]
fn arithmetic_precedence_result() {
    let code = code_of(
        vec![LoadConst(0), LoadConst(1), LoadConst(2), Mult, Plus],
        vec![Value::Int(1), Value::Int(2), Value::Int(3)],
    );
    let mut g = globals_with_vars(0);
    let mut printed = vec![];
    let stack = execute(&mut g, &code, 0, &mut printed).expect("runs");
    assert_eq!(stack.len(), 1);
    assert_eq!(int_at(&g, stack[0]), 7);
    assert!(printed.is_empty());
}

#[test]
fn negated_power_value() {
    let code = code_of(vec![LoadConst(0), LoadConst(0), Pow, Negate], vec![Value::Int(2)]);
    let mut g = globals_with_vars(0);
    let stack = execute(&mut g, &code, 0, &mut vec![]).expect("runs");
    assert_eq!(int_at(&g, stack[0]), -4);
}

#[test]
fn variable_then_sum() {
    let code = code_of(
        vec![LoadConst(0), SetVar(0), LoadVar(0), LoadConst(1), Plus],
        vec![Value::Int(10), Value::Int(5)],
    );
    let mut g = globals_with_vars(1);
    let stack = execute(&mut g, &code, 0, &mut vec![]).expect("runs");
    assert_eq!(stack.len(), 1);
    assert_eq!(int_at(&g, stack[0]), 15);
}

#[test]
fn if_else_prints_one() {
    let mut code = code_of(
        vec![LoadConst(0), JumpIfFalse(0), LoadConst(1), Print, Jump(1), LoadConst(2), Print],
        vec![Value::Bool(true), Value::Int(1), Value::Int(2)],
    );
    code.destinations = vec![5, 7];
    let mut g = globals_with_vars(0);
    let mut printed = vec![];
    let stack = execute(&mut g, &code, 0, &mut printed).expect("runs");
    assert!(stack.is_empty());
    assert_eq!(printed.len(), 1);
    assert_eq!(int_at(&g, printed[0]), 1);
}

#[test]
fn while_false_terminates() {
    let mut code = code_of(vec![LoadConst(0), JumpIfFalse(1), Jump(0)], vec![Value::Bool(false)]);
    code.destinations = vec![0, 3];
    let mut g = globals_with_vars(0);
    let stack = execute(&mut g, &code, 0, &mut vec![]).expect("runs");
    assert!(stack.is_empty());
}

#[test]
fn load_var_shares_key() {
    let code = code_of(vec![LoadConst(0), SetVar(0), LoadVar(0), LoadVar(0)], vec![Value::Int(3)]);
    let mut g = globals_with_vars(1);
    let stack = execute(&mut g, &code, 0, &mut vec![]).expect("runs");
    assert_eq!(stack.len(), 2);
    assert_eq!(stack[0], stack[1]);
    assert_eq!(g.context.get_var(0), Some(stack[0]));
}

#[test]
fn arithmetic_keeps_operands() {
    let code = code_of(vec![LoadConst(0), LoadConst(1), Minus], vec![Value::Int(9), Value::Int(4)]);
    let mut g = globals_with_vars(0);
    let mut stack = vec![];
    let mut printed = vec![];
    run_instruction(&mut g, &code, 0, 0, &mut stack, &mut printed).unwrap();
    run_instruction(&mut g, &code, 0, 1, &mut stack, &mut printed).unwrap();
    let (a, b) = (stack[0], stack[1]);
    assert_eq!(run_instruction(&mut g, &code, 0, 2, &mut stack, &mut printed).unwrap(), 3);
    assert_eq!(int_at(&g, stack[0]), 5);
    assert_eq!(int_at(&g, a), 9);
    assert_eq!(int_at(&g, b), 4);
    assert_eq!(g.heap_len(), 3);
}

#[test]
fn set_var_copies() {
    // x = 1; y = x; y = y + 1
    let code = code_of(
        vec![LoadConst(0), SetVar(0), LoadVar(0), SetVar(1), LoadVar(1), LoadConst(0), Plus, SetVar(1)],
        vec![Value::Int(1)],
    );
    let mut g = globals_with_vars(2);
    let stack = execute(&mut g, &code, 0, &mut vec![]).expect("runs");
    assert!(stack.is_empty());
    let x = g.context.get_var(0).unwrap();
    let y = g.context.get_var(1).unwrap();
    assert_ne!(x, y);
    assert_eq!(int_at(&g, x), 1);
    assert_eq!(int_at(&g, y), 2);
}

#[test]
fn jump_if_false_pops_one_either_way() {
    for (b, next) in [(true, 2usize), (false, 7usize)] {
        let mut code = code_of(vec![LoadConst(0), LoadConst(1), JumpIfFalse(0)], vec![Value::Int(0), Value::Bool(b)]);
        code.destinations = vec![7];
        let mut g = globals_with_vars(0);
        let mut stack = vec![];
        let mut printed = vec![];
        run_instruction(&mut g, &code, 0, 0, &mut stack, &mut printed).unwrap();
        run_instruction(&mut g, &code, 0, 1, &mut stack, &mut printed).unwrap();
        assert_eq!(stack.len(), 2);
        let n = run_instruction(&mut g, &code, 0, 2, &mut stack, &mut printed).unwrap();
        assert_eq!(n, if b { 3 } else { next });
        assert_eq!(stack.len(), 1);
    }
}

#[test]
fn jump_if_false_needs_bool() {
    let mut code = code_of(vec![LoadConst(0), JumpIfFalse(0)], vec![Value::Int(0)]);
    code.destinations = vec![0];
    let mut g = globals_with_vars(0);
    assert!(matches!(execute(&mut g, &code, 0, &mut vec![]), Err(RuntimeError::TypeMismatch { .. })));
}

#[test]
fn load_type_known_and_unknown() {
    let code = code_of(vec![LoadType(0), LoadType(1)], vec![]);
    let mut g = globals_with_vars(0);
    let mut stack = vec![];
    let mut printed = vec![];
    run_instruction(&mut g, &code, 0, 0, &mut stack, &mut printed).unwrap();
    assert!(matches!(g.get_value(stack[0]).value, Value::TypeIndicator(ValueType::Int)));
    match run_instruction(&mut g, &code, 0, 1, &mut stack, &mut printed) {
        Err(RuntimeError::UndefinedType { name, .. }) => assert_eq!(name, "nope"),
        other => panic!("{:?}", other),
    }
}

#[test]
fn build_array_keeps_order() {
    let code = code_of(
        vec![LoadConst(0), LoadConst(1), LoadConst(2), BuildArray(3)],
        vec![Value::Int(1), Value::Int(2), Value::Int(3)],
    );
    let mut g = globals_with_vars(0);
    let stack = execute(&mut g, &code, 0, &mut vec![]).expect("runs");
    assert_eq!(stack.len(), 1);
    match &g.get_value(stack[0]).value {
        Value::Array(v) => {
            let ns: Vec<i64> = v.iter().map(|s| if let Value::Int(n) = s.value { n } else { -1 }).collect();
            assert_eq!(ns, vec![1, 2, 3]);
        },
        other => panic!("{:?}", other),
    }
}

#[test]
fn build_dict_pairs_names_in_order() {
    let code = code_of(vec![LoadConst(0), LoadConst(1), BuildDict(0)], vec![Value::Int(1), Value::Int(2)]);
    let mut g = globals_with_vars(0);
    let stack = execute(&mut g, &code, 0, &mut vec![]).expect("runs");
    match &g.get_value(stack[0]).value {
        Value::Dict(pairs) => {
            assert_eq!(pairs.len(), 2);
            assert_eq!(pairs[0].0, "a");
            assert!(matches!(pairs[0].1.value, Value::Int(1)));
            assert_eq!(pairs[1].0, "b");
            assert!(matches!(pairs[1].1.value, Value::Int(2)));
        },
        other => panic!("{:?}", other),
    }
}

#[test]
fn make_macro_pops_its_parts() {
    let mut code = code_of(
        vec![LoadConst(0), PushAnyPattern, LoadConst(1), PushAnyPattern, MakeMacro(0)],
        vec![Value::Int(7), Value::Int(8)],
    );
    code.macro_build_info = vec![(4, vec![("p".to_string(), true, true), ("q".to_string(), false, false)])];
    let mut g = globals_with_vars(0);
    let stack = execute(&mut g, &code, 0, &mut vec![]).expect("runs");
    assert_eq!(stack.len(), 2);
    match &g.get_value(stack[1]).value {
        Value::Macro(m) => {
            assert_eq!(m.func_id, 4);
            assert_eq!(m.args.len(), 2);
            let names: Vec<&str> = m.args.iter().map(|a: &MacroArg| a.name.as_str()).collect();
            assert_eq!(names, vec!["q", "p"]);
            assert!(matches!(m.ret_type.value, Value::Pattern(Pattern::Any)));
            let p = &m.args[1];
            assert!(matches!(p.default.as_ref().unwrap().value, Value::Int(8)));
            assert!(matches!(p.typ.as_ref().unwrap().value, Value::Pattern(Pattern::Any)));
        },
        other => panic!("{:?}", other),
    }
}

#[test]
fn call_errors() {
    let code = code_of(vec![LoadConst(0), Call(1)], vec![Value::Int(1)]);
    let mut g = globals_with_vars(0);
    match execute(&mut g, &code, 0, &mut vec![]) {
        Err(RuntimeError::CannotCall { base, .. }) => assert!(matches!(base.value, Value::Int(1))),
        other => panic!("{:?}", other),
    }
    let mut code = code_of(vec![PushAnyPattern, MakeMacro(0), Call(1)], vec![]);
    code.macro_build_info = vec![(0, vec![])];
    let mut g = globals_with_vars(0);
    assert!(matches!(execute(&mut g, &code, 0, &mut vec![]), Err(RuntimeError::Unimplemented { .. })));
}

#[test]
fn reserved_opcode_is_unimplemented() {
    let code = code_of(vec![Instruction::Index], vec![]);
    let mut g = globals_with_vars(0);
    match execute(&mut g, &code, 0, &mut vec![]) {
        Err(RuntimeError::Unimplemented { instruction, .. }) => assert_eq!(instruction, Instruction::Index),
        other => panic!("{:?}", other),
    }
}

#[test]
fn bad_bytecode() {
    let code = code_of(vec![Instruction::PopTop], vec![]);
    let mut g = globals_with_vars(0);
    assert!(matches!(execute(&mut g, &code, 0, &mut vec![]), Err(RuntimeError::BadBytecode { .. })));
    let code = code_of(vec![Instruction::LoadVar(0)], vec![]);
    let mut g = globals_with_vars(1);
    assert!(matches!(execute(&mut g, &code, 0, &mut vec![]), Err(RuntimeError::BadBytecode { .. })));
}

#[test]
fn division_by_zero_and_mismatch() {
    let code = code_of(vec![LoadConst(0), LoadConst(1), Div], vec![Value::Int(1), Value::Int(0)]);
    let mut g = globals_with_vars(0);
    assert!(matches!(execute(&mut g, &code, 0, &mut vec![]), Err(RuntimeError::Arithmetic { .. })));
    let code = code_of(vec![LoadConst(0), LoadConst(1), Plus], vec![Value::Int(1), Value::Bool(true)]);
    let mut g = globals_with_vars(0);
    match execute(&mut g, &code, 0, &mut vec![]) {
        Err(RuntimeError::TypeMismatch { values, .. }) => {
            assert_eq!(values.len(), 2);
            assert!(matches!(values[0].value, Value::Int(1)));
            assert!(matches!(values[1].value, Value::Bool(true)));
        },
        other => panic!("{:?}", other),
    }
}

#[test]
fn value_ops() {
    assert!(matches!(binary_op(BinOp::Mod, &Value::Int(-7), &Value::Int(3)), Ok(Value::Int(-1))));
    assert!(matches!(binary_op(BinOp::Div, &Value::Int(-7), &Value::Int(2)), Ok(Value::Int(-3))));
    assert!(matches!(binary_op(BinOp::Pow, &Value::Int(3), &Value::Int(4)), Ok(Value::Int(81))));
    assert!(matches!(binary_op(BinOp::Pow, &Value::Int(2), &Value::Int(-1)), Err(OpError::Arithmetic)));
    assert!(matches!(binary_op(BinOp::Plus, &Value::Int(i64::MAX), &Value::Int(1)), Err(OpError::Arithmetic)));
    assert!(matches!(binary_op(BinOp::LesserEq, &Value::Int(2), &Value::Int(2)), Ok(Value::Bool(true))));
    assert!(matches!(
        binary_op(BinOp::Eq, &Value::String("a".to_string()), &Value::String("a".to_string())),
        Ok(Value::Bool(true))
    ));
    assert!(matches!(binary_op(BinOp::NotEq, &Value::Empty, &Value::Empty), Ok(Value::Bool(false))));
    assert!(matches!(binary_op(BinOp::Greater, &Value::Bool(true), &Value::Bool(false)), Err(OpError::TypeMismatch(_))));
    assert!(matches!(unary_op(UnOp::Not, &Value::Bool(false)), Ok(Value::Bool(true))));
    assert!(matches!(unary_op(UnOp::Negate, &Value::Int(i64::MIN)), Err(OpError::Arithmetic)));
    assert!(matches!(to_bool(&Value::Bool(true)), Ok(true)));
    assert!(to_bool(&Value::Empty).is_err());
}

#[test]
fn types_registry_seeded() {
    let mut code = code_of(vec![LoadType(0)], vec![]);
    for name in ["float", "string", "bool", "empty", "array", "dictionary", "maybe", "type_indicator", "pattern", "group", "trigger_function", "macro"] {
        code.names[0] = name.to_string();
        let mut g = globals_with_vars(0);
        assert!(execute(&mut g, &code, 0, &mut vec![]).is_ok(), "{}", name);
    }
    code.names[0] = "Int".to_string();
    let mut g = globals_with_vars(0);
    assert!(matches!(execute(&mut g, &code, 0, &mut vec![]), Err(RuntimeError::UndefinedType { .. })));
}

#[test]
fn deep_clone_keeps_value() {
    let mut g = globals_with_vars(0);
    let v = stored(Value::Array(vec![stored(Value::Int(1)), stored(Value::String("s".to_string()))]));
    let k = g.allocate(v);
    let c = g.key_deep_clone(k);
    assert_ne!(k, c);
    match &g.get_value(c).value {
        Value::Array(v) => {
            assert!(matches!(v[0].value, Value::Int(1)));
            assert!(matches!(&v[1].value, Value::String(s) if s == "s"));
        },
        other => panic!("{:?}", other),
    }
    assert_eq!(g.heap_len(), 2);
}

#[test]
fn stack_discipline_residuals() {

    // `1; 2;` with the first result popped and the second left.
    let code = code_of(vec![LoadConst(0), Instruction::PopTop, LoadConst(1)], vec![Value::Int(1), Value::Int(2)]);
    let mut g = globals_with_vars(0);
    let stack = execute(&mut g, &code, 0, &mut vec![]).expect("runs");
    assert_eq!(stack.len(), 1);
    assert_eq!(int_at(&g, stack[0]), 2);
}
