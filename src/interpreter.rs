use vstd::prelude::*;
use ahash::AHashMap;
use slotmap::{DefaultKey, Key, KeyData, SlotMap};
use crate::ast::ARENA_LIMIT;
use crate::code::{ArgInfo, Code, Instruction, binop_of, is_reserved, spec_binop_of, spec_unop_of};
use crate::sources::CodeArea;
use crate::value::{
    binary_op, binop_types_ok, same, spec_type_of, spec_binop, spec_unop, to_bool, unary_op, Macro, MacroArg, OpError, Pattern, StoredValue, UnOp,
    Value, ValueKey, ValueType,
};

verus! {

/// Why execution stopped.
#[derive(Debug)]
pub enum RuntimeError {
    /// A value operation is not defined on these types.
    TypeMismatch { values: Vec<StoredValue>, area: CodeArea },
    /// Overflow, division by zero or a negative exponent.
    Arithmetic { area: CodeArea },
    UndefinedType { name: String, area: CodeArea },
    /// The value called is no macro.
    CannotCall { base: StoredValue, area: CodeArea },
    Unimplemented { instruction: Instruction, area: CodeArea },
    /// The code asks for what is not there: a missing pool entry, variable
    /// or stack slot.
    BadBytecode { area: CodeArea },
    /// The heap is full or the step budget is spent.
    ResourceLimit,
}

/// What a type member names: a builtin, or a value in the heap.
#[derive(Clone, Copy, Debug, PartialEq, Eq, Structural)]
pub enum TypeMember {
    Builtin(u64),
    Custom(ValueKey),
}

/// The slot map that holds the heap's values.
#[verifier::external_body]
pub struct ValueSlots {
    slots: SlotMap<DefaultKey, StoredValue>,
}

/// What the heap's slot map holds, by the key's `u64` form.
pub uninterp spec fn value_slots(m: ValueSlots) -> Map<u64, StoredValue>;

/// Relies on slotmap's `SlotMap::new`: a new map is empty.
#[verifier::external_body]
fn new_value_slots() -> (r: ValueSlots)
    ensures
        value_slots(r).dom() == Set::<u64>::empty(),
{
    ValueSlots { slots: SlotMap::new() }
}

/// Relies on slotmap's `SlotMap::insert`: the value is stored under a key that
/// no stored value has, and the others stay. It panics only once `u32::MAX`
/// slots (one of them a sentinel) are taken.
#[verifier::external_body]
fn insert_value_slot(m: &mut ValueSlots, v: StoredValue) -> (r: u64)
    requires
        value_slots(*old(m)).dom().finite(),
        value_slots(*old(m)).len() + 1 < u32::MAX,
    ensures
        !value_slots(*old(m)).contains_key(r),
        value_slots(*final(m)) == value_slots(*old(m)).insert(r, v),
{
    m.slots.insert(v).data().as_ffi()
}

/// Relies on slotmap's `Index` with a key rebuilt by `KeyData::from_ffi`,
/// which gives back the key that `as_ffi` was taken of.
#[verifier::external_body]
fn value_slot(m: &ValueSlots, k: u64) -> (r: &StoredValue)
    requires
        value_slots(*m).contains_key(k),
    ensures
        *r == value_slots(*m)[k],
{
    &m.slots[DefaultKey::from(KeyData::from_ffi(k))]
}

/// Relies on slotmap's `SlotMap::len`: the number of stored values.
#[verifier::external_body]
fn value_slots_len(m: &ValueSlots) -> (r: usize)
    ensures
        r == value_slots(*m).len(),
{
    m.slots.len()
}

/// Type names with the type each stands for.
#[verifier::external_body]
pub struct TypeRegistry {
    map: AHashMap<String, ValueType>,
}

/// What the registry maps each name to.
pub uninterp spec fn registered(m: TypeRegistry) -> Map<Seq<char>, ValueType>;

/// Relies on ahash's `AHashMap::new`: a new map is empty.
#[verifier::external_body]
fn new_registry() -> (r: TypeRegistry)
    ensures
        registered(r).dom() == Set::<Seq<char>>::empty(),
{
    TypeRegistry { map: AHashMap::new() }
}

/// Relies on ahash's `AHashMap::insert`: the name now maps to `t`, the other
/// names keep theirs.
#[verifier::external_body]
fn register_type(m: &mut TypeRegistry, name: String, t: ValueType)
    ensures
        registered(*final(m)) == registered(*old(m)).insert(name@, t),
{
    m.map.insert(name, t);
}

/// Relies on ahash's `AHashMap::get`: the type the name maps to, if any.
#[verifier::external_body]
fn lookup_type(m: &TypeRegistry, name: &String) -> (r: Option<ValueType>)
    ensures
        registered(*m).contains_key(name@) ==> r == Some(registered(*m)[name@]),
        !registered(*m).contains_key(name@) ==> r is None,
{
    m.map.get(name).copied()
}

/// `m` with the builtin type names added.
pub open spec fn with_builtin_types(m: Map<Seq<char>, ValueType>) -> Map<Seq<char>, ValueType> {
    m.insert("int"@, ValueType::Int)
        .insert("float"@, ValueType::Float)
        .insert("string"@, ValueType::String)
        .insert("bool"@, ValueType::Bool)
        .insert("empty"@, ValueType::Empty)
        .insert("array"@, ValueType::Array)
        .insert("dictionary"@, ValueType::Dict)
        .insert("maybe"@, ValueType::Maybe)
        .insert("type_indicator"@, ValueType::TypeIndicator)
        .insert("pattern"@, ValueType::Pattern)
        .insert("group"@, ValueType::Group)
        .insert("trigger_function"@, ValueType::TriggerFunc)
        .insert("macro"@, ValueType::Macro)
}

/// The variables of the running context: for each variable id, a stack of
/// frames, the last one visible.
pub struct Context {
    pub vars: Vec<Vec<Option<ValueKey>>>,
}

impl Context {
    /// The key that variable `id` is bound to in its visible frame.
    pub open spec fn binding(&self, id: int) -> Option<ValueKey> {
        if 0 <= id < self.vars@.len() && self.vars@[id]@.len() > 0 {
            self.vars@[id]@.last()
        } else {
            None
        }
    }

    pub fn get_var(&self, id: usize) -> (r: Option<ValueKey>)
        ensures
            r == self.binding(id as int),
    {
        if id < self.vars.len() && self.vars[id].len() > 0 {
            let frames = &self.vars[id];
            frames[frames.len() - 1]
        } else {
            None
        }
    }
}

/// The heap, the type registry and the running context.
pub struct Globals {
    pub memory: ValueSlots,
    pub types: TypeRegistry,
    pub context: Context,
}

impl Globals {
    pub open spec fn heap(&self) -> Map<u64, StoredValue> {
        value_slots(self.memory)
    }

    /// The heap is finite and every bound variable resolves in it.
    pub open spec fn wf(&self) -> bool {
        &&& self.heap().dom().finite()
        &&& forall|i: int, j: int|
            0 <= i < self.context.vars@.len() && 0 <= j < self.context.vars@[i]@.len()
                && (#[trigger] self.context.vars@[i]@[j]) is Some
                ==> self.heap().contains_key(self.context.vars@[i]@[j]->Some_0.0)
    }

    /// Every key of `keys` resolves in the heap.
    pub open spec fn holds_all(&self, keys: Seq<ValueKey>) -> bool {
        forall|i: int| 0 <= i < keys.len() ==> self.heap().contains_key(#[trigger] keys[i].0)
    }

    /// An empty heap, the builtin types, and no variables.
    pub fn new() -> (r: Globals)
        ensures
            r.heap().dom() == Set::<u64>::empty(),
            registered(r.types) == with_builtin_types(Map::empty()),
            r.context.vars@.len() == 0,
            r.wf(),
    {
        let mut g = Globals { memory: new_value_slots(), types: new_registry(), context: Context { vars: Vec::new() } };
        proof {
            assert(registered(g.types) == Map::<Seq<char>, ValueType>::empty());
        }
        g.init();
        g
    }

    /// Registers the builtin type names.
    pub fn init(&mut self)
        ensures
            registered(final(self).types) == with_builtin_types(registered(old(self).types)),
            final(self).heap() == old(self).heap(),
            final(self).context == old(self).context,
    {
        register_type(&mut self.types, "int".to_owned(), ValueType::Int);
        register_type(&mut self.types, "float".to_owned(), ValueType::Float);
        register_type(&mut self.types, "string".to_owned(), ValueType::String);
        register_type(&mut self.types, "bool".to_owned(), ValueType::Bool);
        register_type(&mut self.types, "empty".to_owned(), ValueType::Empty);
        register_type(&mut self.types, "array".to_owned(), ValueType::Array);
        register_type(&mut self.types, "dictionary".to_owned(), ValueType::Dict);
        register_type(&mut self.types, "maybe".to_owned(), ValueType::Maybe);
        register_type(&mut self.types, "type_indicator".to_owned(), ValueType::TypeIndicator);
        register_type(&mut self.types, "pattern".to_owned(), ValueType::Pattern);
        register_type(&mut self.types, "group".to_owned(), ValueType::Group);
        register_type(&mut self.types, "trigger_function".to_owned(), ValueType::TriggerFunc);
        register_type(&mut self.types, "macro".to_owned(), ValueType::Macro);
    }

    /// The number of values in the heap.
    pub fn heap_len(&self) -> (r: usize)
        ensures
            r == self.heap().len(),
    {
        value_slots_len(&self.memory)
    }

    pub fn get_value(&self, k: ValueKey) -> (r: &StoredValue)
        requires
            self.heap().contains_key(k.0),
        ensures
            *r == self.heap()[k.0],
    {
        value_slot(&self.memory, k.0)
    }

    /// Stores `v` under a fresh key.
    pub fn allocate(&mut self, v: StoredValue) -> (r: ValueKey)
        requires
            old(self).wf(),
            old(self).heap().len() < ARENA_LIMIT,
        ensures
            final(self).wf(),
            !old(self).heap().contains_key(r.0),
            final(self).heap() == old(self).heap().insert(r.0, v),
            final(self).heap().len() == old(self).heap().len() + 1,
            final(self).context == old(self).context,
            registered(final(self).types) == registered(old(self).types),
            forall|keys: Seq<ValueKey>| old(self).holds_all(keys) ==> #[trigger] final(self).holds_all(keys),
    {
        let k = insert_value_slot(&mut self.memory, v);
        proof {
            assert forall|keys: Seq<ValueKey>| old(self).holds_all(keys) implies #[trigger] self.holds_all(keys) by {
                assert forall|i: int| 0 <= i < keys.len() implies self.heap().contains_key(#[trigger] keys[i].0) by {
                    assert(old(self).heap().contains_key(keys[i].0));
                }
            }
            assert forall|i: int, j: int|
                0 <= i < self.context.vars@.len() && 0 <= j < self.context.vars@[i]@.len()
                    && (#[trigger] self.context.vars@[i]@[j]) is Some
                implies self.heap().contains_key(self.context.vars@[i]@[j]->Some_0.0) by {
                assert(old(self).heap().contains_key(self.context.vars@[i]@[j]->Some_0.0));
            }
        }
        ValueKey(k)
    }

    /// Stores a copy of the value under `k` under a fresh key.
    pub fn key_deep_clone(&mut self, k: ValueKey) -> (r: ValueKey)
        requires
            old(self).wf(),
            old(self).heap().contains_key(k.0),
            old(self).heap().len() < ARENA_LIMIT,
        ensures
            final(self).wf(),
            !old(self).heap().contains_key(r.0),
            final(self).heap() == old(self).heap().insert(r.0, final(self).heap()[r.0]),
            same(old(self).heap()[k.0], final(self).heap()[r.0]),
            final(self).context == old(self).context,
            registered(final(self).types) == registered(old(self).types),
            forall|keys: Seq<ValueKey>| old(self).holds_all(keys) ==> #[trigger] final(self).holds_all(keys),
    {
        let v = value_slot(&self.memory, k.0).deep_clone();
        self.allocate(v)
    }
}

/// The number of values `MakeMacro` pops for its parameters: one per type
/// pattern and one per default.
pub open spec fn macro_pops(info: Seq<ArgInfo>) -> int
    decreases info.len(),
{
    if info.len() == 0 {
        0
    } else {
        macro_pops(info.drop_last()) + (if info.last().1 { 1int } else { 0int }) + (if info.last().2 {
            1int
        } else {
            0int
        })
    }
}

/// `arg` is parameter `j` of `info` as `MakeMacro` builds it from the heap
/// `g` and the stack `s`: above the return type pattern, each parameter in
/// order pops its default (if any) and then its type pattern (if any).
pub open spec fn macro_arg_fits(g: &Globals, s: Seq<ValueKey>, info: Seq<ArgInfo>, j: int, arg: MacroArg) -> bool {
    let top = s.len() - 1 - macro_pops(info.subrange(0, j));
    let below_default = if info[j].2 { top - 1 } else { top };
    &&& arg.name@ == info[j].0@
    &&& if info[j].2 {
        arg.default is Some && same(g.heap()[s[top - 1].0], arg.default->Some_0)
    } else {
        arg.default is None
    }
    &&& if info[j].1 {
        arg.typ is Some && same(g.heap()[s[below_default - 1].0], arg.typ->Some_0)
    } else {
        arg.typ is None
    }
}

/// The macro that `MakeMacro` with `info` builds from `g` and `s`: the
/// return type pattern from the top, then the parameters in reverse order
/// of their walk.
pub open spec fn macro_fits(g: &Globals, s: Seq<ValueKey>, info: (usize, Vec<ArgInfo>), m: Macro) -> bool {
    let n = info.1@.len();
    &&& m.func_id == info.0
    &&& same(g.heap()[s.last().0], *m.ret_type)
    &&& m.args@.len() == n
    &&& forall|k: int| 0 <= k < n ==> macro_arg_fits(g, s, info.1@, n - 1 - k, #[trigger] m.args@[k])
}

/// `s1` is `s0` without its last `n` keys, then a key that `g0` did not hold,
/// which `g1` adds to the heap.
pub open spec fn replaces_top(g0: &Globals, s0: Seq<ValueKey>, g1: &Globals, s1: Seq<ValueKey>, n: int) -> bool {
    &&& 0 <= n <= s0.len()
    &&& s1.len() == s0.len() - n + 1
    &&& s1.drop_last() == s0.subrange(0, s0.len() - n)
    &&& !g0.heap().contains_key(s1.last().0)
    &&& g1.heap() == g0.heap().insert(s1.last().0, g1.heap()[s1.last().0])
}

/// The value under the key on top of `s`.
pub open spec fn top_value(g: &Globals, s: Seq<ValueKey>, depth: int) -> StoredValue {
    g.heap()[s[s.len() - 1 - depth].0]
}

/// What running instruction `i` of `func` did, when it succeeded: from heap,
/// context, stack and printed keys `g0, s0, p0` to `g1, s1, p1`, with `next`
/// the instruction to run after it.
pub open spec fn step_effect(
    code: &Code,
    func: int,
    i: int,
    g0: &Globals,
    s0: Seq<ValueKey>,
    p0: Seq<ValueKey>,
    g1: &Globals,
    s1: Seq<ValueKey>,
    p1: Seq<ValueKey>,
    next: int,
) -> bool {
    let instr = code.instr(func, i);
    let area = code.area_of(func, i);
    let new_value = g1.heap()[s1.last().0];
    &&& (instr is Jump || instr is JumpIfFalse || next == i + 1)
    &&& (!(instr is SetVar) ==> g1.context == g0.context)
    &&& (!(instr is Print) ==> p1 == p0)
    &&& registered(g1.types) == registered(g0.types)
    &&& spec_binop_of(instr) is Some ==> s0.len() >= 2 && replaces_top(g0, s0, g1, s1, 2)
        && spec_binop(spec_binop_of(instr)->Some_0, top_value(g0, s0, 1).value, top_value(g0, s0, 0).value)
        == Some(new_value.value) && new_value.def_area == area
    &&& spec_unop_of(instr) is Some ==> s0.len() >= 1 && replaces_top(g0, s0, g1, s1, 1)
        && spec_unop(spec_unop_of(instr)->Some_0, top_value(g0, s0, 0).value) == Some(new_value.value)
        && new_value.def_area == area
    &&& instr is LoadConst ==> instr->LoadConst_0 < code.constants@.len() && replaces_top(g0, s0, g1, s1, 0)
        && new_value.def_area == area && same(
            code.constants@[instr->LoadConst_0 as int],
            StoredValue { value: new_value.value, def_area: code.constants@[instr->LoadConst_0 as int].def_area },
        )
    &&& instr is LoadVar ==> g0.context.binding(instr->LoadVar_0 as int) is Some
        && s1 == s0.push(g0.context.binding(instr->LoadVar_0 as int)->Some_0) && g1.heap() == g0.heap()
    &&& instr is SetVar ==> {
        let id = instr->SetVar_0 as int;
        let k = g1.context.binding(id)->Some_0;
        &&& s0.len() >= 1
        &&& s1 == s0.drop_last()
        &&& 0 <= id < g0.context.vars@.len()
        &&& g0.context.vars@[id]@.len() > 0
        &&& g1.context.binding(id) is Some
        &&& !g0.heap().contains_key(k.0)
        &&& g1.heap() == g0.heap().insert(k.0, g1.heap()[k.0])
        &&& same(top_value(g0, s0, 0), g1.heap()[k.0])
        &&& g1.context.vars@.len() == g0.context.vars@.len()
        &&& g1.context.vars@[id]@ == g0.context.vars@[id]@.update(g0.context.vars@[id]@.len() - 1, Some(k))
        &&& forall|j: int| 0 <= j < g0.context.vars@.len() && j != id ==> #[trigger] g1.context.vars@[j]
            == g0.context.vars@[j]
    }
    &&& instr is LoadType ==> instr->LoadType_0 < code.names@.len()
        && registered(g0.types).contains_key(code.names@[instr->LoadType_0 as int]@)
        && replaces_top(g0, s0, g1, s1, 0) && new_value == (StoredValue {
            value: Value::TypeIndicator(registered(g0.types)[code.names@[instr->LoadType_0 as int]@]),
            def_area: area,
        })
    &&& instr is BuildArray ==> {
        let n = instr->BuildArray_0 as int;
        &&& replaces_top(g0, s0, g1, s1, n)
        &&& new_value.def_area == area
        &&& new_value.value is Array
        &&& new_value.value->Array_0@.len() == n
        &&& forall|j: int| 0 <= j < n ==> same(
            #[trigger] g0.heap()[s0[s0.len() - n + j].0],
            new_value.value->Array_0@[j],
        )
    }
    &&& instr is BuildDict ==> {
        let names = code.name_sets@[instr->BuildDict_0 as int]@;
        let n = names.len() as int;
        &&& instr->BuildDict_0 < code.name_sets@.len()
        &&& replaces_top(g0, s0, g1, s1, n)
        &&& new_value.def_area == area
        &&& new_value.value is Dict
        &&& new_value.value->Dict_0@.len() == n
        &&& forall|j: int| 0 <= j < n ==> (#[trigger] new_value.value->Dict_0@[j]).0@ == names[j]@
            && same(g0.heap()[s0[s0.len() - n + j].0], new_value.value->Dict_0@[j].1)
    }
    &&& instr is PushEmpty ==> replaces_top(g0, s0, g1, s1, 0) && new_value == (StoredValue {
        value: Value::Empty,
        def_area: area,
    })
    &&& instr is PushAnyPattern ==> replaces_top(g0, s0, g1, s1, 0) && new_value == (StoredValue {
        value: Value::Pattern(Pattern::Any),
        def_area: area,
    })
    &&& instr is MakeMacro ==> {
        let info = code.macro_build_info@[instr->MakeMacro_0 as int];
        &&& instr->MakeMacro_0 < code.macro_build_info@.len()
        &&& replaces_top(g0, s0, g1, s1, 1 + macro_pops(info.1@))
        &&& new_value.def_area == area
        &&& new_value.value is Macro
        &&& macro_fits(g0, s0, info, new_value.value->Macro_0)
    }
    &&& instr is PopTop ==> s0.len() >= 1 && s1 == s0.drop_last() && g1.heap() == g0.heap()
    &&& instr is Jump ==> instr->Jump_0 < code.destinations@.len() && next == code.destinations@[instr->Jump_0 as int]
        && s1 == s0 && g1.heap() == g0.heap()
    &&& instr is JumpIfFalse ==> {
        &&& instr->JumpIfFalse_0 < code.destinations@.len()
        &&& s0.len() >= 1
        &&& s1 == s0.drop_last()
        &&& g1.heap() == g0.heap()
        &&& top_value(g0, s0, 0).value is Bool
        &&& next == if top_value(g0, s0, 0).value->Bool_0 {
            i + 1
        } else {
            code.destinations@[instr->JumpIfFalse_0 as int] as int
        }
    }
    &&& instr is Print ==> s0.len() >= 1 && s1 == s0.drop_last() && p1 == p0.push(s0.last())
        && g1.heap() == g0.heap()
    &&& (instr is EnterScope || instr is ExitScope || instr is MergeContexts) ==> s1 == s0 && g1.heap() == g0.heap()
    &&& !(instr is Call)
    &&& !is_reserved(instr)
}

/// Whether instruction `i` of `func` runs without error from `g` and `s`:
/// its pool entries, variable and operands are there and the value
/// operation it performs has a result.
pub open spec fn can_step(code: &Code, func: int, i: int, g: &Globals, s: Seq<ValueKey>) -> bool {
    let instr = code.instr(func, i);
    if spec_binop_of(instr) is Some {
        s.len() >= 2 && spec_binop(spec_binop_of(instr)->Some_0, top_value(g, s, 1).value, top_value(g, s, 0).value) is Some
    } else if spec_unop_of(instr) is Some {
        s.len() >= 1 && spec_unop(spec_unop_of(instr)->Some_0, top_value(g, s, 0).value) is Some
    } else {
        match instr {
            Instruction::LoadConst(id) => id < code.constants@.len(),
            Instruction::LoadVar(id) => g.context.binding(id as int) is Some,
            Instruction::SetVar(id) => s.len() >= 1 && id < g.context.vars@.len() && g.context.vars@[id as int]@.len() > 0,
            Instruction::LoadType(id) => id < code.names@.len() && registered(g.types).contains_key(
                code.names@[id as int]@,
            ),
            Instruction::BuildArray(n) => n <= s.len(),
            Instruction::BuildDict(id) => id < code.name_sets@.len() && code.name_sets@[id as int]@.len() <= s.len(),
            Instruction::MakeMacro(id) => id < code.macro_build_info@.len() && 1 + macro_pops(
                code.macro_build_info@[id as int].1@,
            ) <= s.len(),
            Instruction::PopTop | Instruction::Print => s.len() >= 1,
            Instruction::Jump(id) => id < code.destinations@.len(),
            Instruction::JumpIfFalse(id) => id < code.destinations@.len() && s.len() >= 1 && top_value(g, s, 0).value is Bool,
            Instruction::PushEmpty | Instruction::PushAnyPattern | Instruction::EnterScope | Instruction::ExitScope
            | Instruction::MergeContexts => true,
            _ => false,
        }
    }
}

/// The error that instruction `i` of `func` fails with from `g` and `s`.
pub open spec fn error_fits(code: &Code, func: int, i: int, g: &Globals, s: Seq<ValueKey>, e: RuntimeError) -> bool {
    let instr = code.instr(func, i);
    let area = code.area_of(func, i);
    &&& !(e is ResourceLimit)
    &&& is_reserved(instr) ==> e == (RuntimeError::Unimplemented { instruction: instr, area })
    &&& spec_binop_of(instr) is Some && s.len() >= 2 ==> {
        let (a, b) = (top_value(g, s, 1).value, top_value(g, s, 0).value);
        if binop_types_ok(spec_binop_of(instr)->Some_0, a, b) {
            e == (RuntimeError::Arithmetic { area })
        } else {
            e is TypeMismatch && e->TypeMismatch_values@.len() == 2 && same(
                top_value(g, s, 1),
                e->TypeMismatch_values@[0],
            ) && same(top_value(g, s, 0), e->TypeMismatch_values@[1]) && e->TypeMismatch_area == area
        }
    }
    &&& instr is LoadType && instr->LoadType_0 < code.names@.len() ==> e is UndefinedType
        && e->UndefinedType_name@ == code.names@[instr->LoadType_0 as int]@ && e->UndefinedType_area == area
    &&& instr is Call && s.len() >= 1 ==> if top_value(g, s, 0).value is Macro {
        e is BadBytecode || e == (RuntimeError::Unimplemented { instruction: instr, area })
    } else {
        e is CannotCall && same(top_value(g, s, 0), e->CannotCall_base) && e->CannotCall_area == area
    }
}

fn op_error(e: OpError, area: CodeArea, values: Vec<StoredValue>) -> (r: RuntimeError)
    ensures
        e is Arithmetic ==> r is Arithmetic && r->Arithmetic_area == area,
        e is TypeMismatch ==> r is TypeMismatch && r->TypeMismatch_values == values && r->TypeMismatch_area == area,
{
    match e {
        OpError::TypeMismatch(_) => RuntimeError::TypeMismatch { values, area },
        OpError::Arithmetic => RuntimeError::Arithmetic { area },
    }
}

proof fn lemma_submap_refl(m: Map<u64, StoredValue>)
    ensures
        m.submap_of(m),
{
    assert forall|k: u64| #[trigger] m.dom().contains(k) implies m.dom().contains(k) && m[k] == m[k] by {}
}

/// Adding a fresh key keeps every entry.
proof fn lemma_insert_fresh(m: Map<u64, StoredValue>, k: u64, v: StoredValue)
    requires
        !m.contains_key(k),
    ensures
        m.submap_of(m.insert(k, v)),
{
    assert forall|j: u64| #[trigger] m.dom().contains(j) implies m.insert(k, v).dom().contains(j) && m[j] == m.insert(
        k,
        v,
    )[j] by {
        assert(j != k);
    }
}

/// A key that a well-formed context binds resolves in the heap.
proof fn lemma_binding_resolves(g: &Globals, id: int)
    requires
        g.wf(),
        g.context.binding(id) is Some,
    ensures
        g.heap().contains_key(g.context.binding(id)->Some_0.0),
{
    let j = g.context.vars@[id]@.len() - 1;
    assert(g.context.vars@[id]@[j] is Some);
}

/// Pushes a fresh key holding `v`.
fn push_value(globals: &mut Globals, stack: &mut Vec<ValueKey>, v: StoredValue)
    requires
        old(globals).wf(),
        old(globals).holds_all(old(stack)@),
        old(globals).heap().len() < ARENA_LIMIT,
    ensures
        final(globals).wf(),
        final(stack)@.len() == old(stack)@.len() + 1,
        final(stack)@.drop_last() == old(stack)@,
        !old(globals).heap().contains_key(final(stack)@.last().0),
        final(globals).heap() == old(globals).heap().insert(final(stack)@.last().0, v),
        final(globals).heap().len() == old(globals).heap().len() + 1,
        final(globals).context == old(globals).context,
        registered(final(globals).types) == registered(old(globals).types),
        final(globals).holds_all(final(stack)@),
        forall|keys: Seq<ValueKey>| old(globals).holds_all(keys) ==> #[trigger] final(globals).holds_all(keys),
{
    let k = globals.allocate(v);
    let ghost s0 = stack@;
    stack.push(k);
    proof {
        assert(globals.holds_all(s0));
        assert(stack@.drop_last() =~= s0);
        assert forall|i: int| 0 <= i < stack@.len() implies globals.heap().contains_key(#[trigger] stack@[i].0) by {
            if i < s0.len() {
                assert(stack@[i] == s0[i]);
            }
        }
    }
}

/// The keys of `s` below its top `n`.
proof fn lemma_holds_prefix(g: &Globals, s: Seq<ValueKey>, n: int)
    requires
        g.holds_all(s),
        0 <= n <= s.len(),
    ensures
        g.holds_all(s.subrange(0, s.len() - n)),
{
    assert forall|i: int| 0 <= i < s.len() - n implies g.heap().contains_key(#[trigger] s.subrange(0, s.len() - n)[i].0) by {
        assert(s.subrange(0, s.len() - n)[i] == s[i]);
    }
}

/// `BuildArray(n)`: the top `n` values, copied in stack order, as one array.
fn build_array(globals: &mut Globals, stack: &mut Vec<ValueKey>, n: usize, area: CodeArea) -> (r: Result<(), RuntimeError>)
    requires
        old(globals).wf(),
        old(globals).holds_all(old(stack)@),
        old(globals).heap().len() < ARENA_LIMIT,
    ensures
        final(globals).wf(),
        final(globals).holds_all(final(stack)@),
        forall|keys: Seq<ValueKey>| old(globals).holds_all(keys) ==> #[trigger] final(globals).holds_all(keys),
        final(globals).heap().len() <= old(globals).heap().len() + 1,
        old(globals).heap().submap_of(final(globals).heap()),
        final(globals).context == old(globals).context,
        registered(final(globals).types) == registered(old(globals).types),
        r is Err ==> *final(globals) == *old(globals) && final(stack)@ == old(stack)@,
        r is Err ==> r->Err_0 is BadBytecode,
        r is Ok <==> n <= old(stack)@.len(),
        r is Ok ==> {
            let s0 = old(stack)@;
            let new_value = final(globals).heap()[final(stack)@.last().0];
            &&& replaces_top(old(globals), s0, final(globals), final(stack)@, n as int)
            &&& new_value.def_area == area
            &&& new_value.value is Array
            &&& new_value.value->Array_0@.len() == n
            &&& forall|j: int| 0 <= j < n ==> same(
                #[trigger] old(globals).heap()[s0[s0.len() - n + j].0],
                new_value.value->Array_0@[j],
            )
        },
{
    let len = stack.len();
    if n > len {
        return Err(RuntimeError::BadBytecode { area });
    }
    let mut elems: Vec<StoredValue> = Vec::new();
    let mut j: usize = len - n;
    while j < len
        invariant
            len == stack@.len(),
            len - n <= j <= len,
            elems@.len() == j - (len - n),
            globals.holds_all(stack@),
            forall|t: int| 0 <= t < elems@.len() ==> same(
                #[trigger] globals.heap()[stack@[len - n + t].0],
                elems@[t],
            ),
        decreases len - j,
    {
        let v = globals.get_value(stack[j]).deep_clone();
        elems.push(v);
        j = j + 1;
    }
    let ghost s0 = stack@;
    stack.truncate(len - n);
    proof {
        lemma_holds_prefix(globals, s0, n as int);
    }
    let ghost h0 = globals.heap();
    push_value(globals, stack, StoredValue { value: Value::Array(elems), def_area: area });
    proof {
        lemma_insert_fresh(h0, stack@.last().0, globals.heap()[stack@.last().0]);
    }
    Ok(())
}

/// `BuildDict`: the top values, copied in stack order, under `names`.
fn build_dict(globals: &mut Globals, stack: &mut Vec<ValueKey>, names: &Vec<String>, area: CodeArea) -> (r: Result<(), RuntimeError>)
    requires
        old(globals).wf(),
        old(globals).holds_all(old(stack)@),
        old(globals).heap().len() < ARENA_LIMIT,
    ensures
        final(globals).wf(),
        final(globals).holds_all(final(stack)@),
        forall|keys: Seq<ValueKey>| old(globals).holds_all(keys) ==> #[trigger] final(globals).holds_all(keys),
        final(globals).heap().len() <= old(globals).heap().len() + 1,
        old(globals).heap().submap_of(final(globals).heap()),
        final(globals).context == old(globals).context,
        registered(final(globals).types) == registered(old(globals).types),
        r is Err ==> *final(globals) == *old(globals) && final(stack)@ == old(stack)@,
        r is Err ==> r->Err_0 is BadBytecode,
        r is Ok <==> names@.len() <= old(stack)@.len(),
        r is Ok ==> {
            let s0 = old(stack)@;
            let n = names@.len() as int;
            let new_value = final(globals).heap()[final(stack)@.last().0];
            &&& replaces_top(old(globals), s0, final(globals), final(stack)@, n)
            &&& new_value.def_area == area
            &&& new_value.value is Dict
            &&& new_value.value->Dict_0@.len() == n
            &&& forall|j: int| 0 <= j < n ==> (#[trigger] new_value.value->Dict_0@[j]).0@ == names@[j]@
                && same(old(globals).heap()[s0[s0.len() - n + j].0], new_value.value->Dict_0@[j].1)
        },
{
    let len = stack.len();
    let n = names.len();
    if n > len {
        return Err(RuntimeError::BadBytecode { area });
    }
    let mut pairs: Vec<(String, StoredValue)> = Vec::new();
    let mut j: usize = 0;
    while j < n
        invariant
            len == stack@.len(),
            n == names@.len(),
            n <= len,
            j <= n,
            pairs@.len() == j,
            globals.holds_all(stack@),
            forall|t: int| 0 <= t < pairs@.len() ==> (#[trigger] pairs@[t]).0@ == names@[t]@ && same(
                globals.heap()[stack@[len - n + t].0],
                pairs@[t].1,
            ),
        decreases n - j,
    {
        let v = globals.get_value(stack[len - n + j]).deep_clone();
        pairs.push((names[j].clone(), v));
        j = j + 1;
    }
    let ghost s0 = stack@;
    stack.truncate(len - n);
    proof {
        lemma_holds_prefix(globals, s0, n as int);
    }
    let ghost h0 = globals.heap();
    push_value(globals, stack, StoredValue { value: Value::Dict(pairs), def_area: area });
    proof {
        lemma_insert_fresh(h0, stack@.last().0, globals.heap()[stack@.last().0]);
    }
    Ok(())
}

proof fn lemma_macro_pops_step(info: Seq<ArgInfo>, j: int)
    requires
        0 <= j < info.len(),
    ensures
        macro_pops(info.subrange(0, j + 1)) == macro_pops(info.subrange(0, j)) + (if info[j].1 { 1int } else { 0int })
            + (if info[j].2 { 1int } else { 0int }),
        0 <= macro_pops(info.subrange(0, j)) <= 2 * j,
    decreases j,
{
    assert(info.subrange(0, j + 1).drop_last() =~= info.subrange(0, j));
    if j > 0 {
        lemma_macro_pops_step(info, j - 1);
    } else {
        assert(info.subrange(0, 0).len() == 0);
    }
}

/// `MakeMacro`: pops the return type pattern, then for each parameter in
/// order its default (if any) and then its type pattern (if any), and
/// pushes the macro with the parameters in reverse order of that walk.
fn make_macro(globals: &mut Globals, stack: &mut Vec<ValueKey>, info: &(usize, Vec<ArgInfo>), area: CodeArea) -> (r: Result<(), RuntimeError>)
    requires
        old(globals).wf(),
        old(globals).holds_all(old(stack)@),
        old(globals).heap().len() < ARENA_LIMIT,
    ensures
        final(globals).wf(),
        final(globals).holds_all(final(stack)@),
        forall|keys: Seq<ValueKey>| old(globals).holds_all(keys) ==> #[trigger] final(globals).holds_all(keys),
        final(globals).heap().len() <= old(globals).heap().len() + 1,
        old(globals).heap().submap_of(final(globals).heap()),
        final(globals).context == old(globals).context,
        registered(final(globals).types) == registered(old(globals).types),
        r is Err ==> *final(globals) == *old(globals) && final(stack)@ == old(stack)@,
        r is Err ==> r->Err_0 is BadBytecode,
        r is Ok <==> 1 + macro_pops(info.1@) <= old(stack)@.len(),
        r is Ok ==> {
            let new_value = final(globals).heap()[final(stack)@.last().0];
            &&& replaces_top(old(globals), old(stack)@, final(globals), final(stack)@, 1 + macro_pops(info.1@))
            &&& new_value.def_area == area
            &&& new_value.value is Macro
            &&& macro_fits(old(globals), old(stack)@, *info, new_value.value->Macro_0)
        },
{
    let args_info = &info.1;
    let len = stack.len();
    let count = match count_pops(args_info, len) {
        Some(c) => c,
        None => {
            return Err(RuntimeError::BadBytecode { area });
        },
    };
    let mut remaining: usize = len - 1;
    let ret_type = globals.get_value(stack[remaining]).deep_clone();
    let ghost g0 = *globals;
    let ghost s0 = stack@;
    let mut walked: Vec<MacroArg> = Vec::new();
    let mut j: usize = 0;
    while j < args_info.len()
        invariant
            len == stack@.len(),
            count == macro_pops(args_info@),
            count < len,
            j <= args_info@.len(),
            walked@.len() == j,
            remaining == len - 1 - macro_pops(args_info@.subrange(0, j as int)),
            globals.holds_all(stack@),
            *globals == g0,
            stack@ == s0,
            forall|k: int| 0 <= k < j ==> macro_arg_fits(&g0, s0, args_info@, k, #[trigger] walked@[k]),
        decreases args_info@.len() - j,
    {
        proof {
            lemma_macro_pops_step(args_info@, j as int);
            lemma_macro_pops_prefix(args_info@, j as int + 1);
        }
        let (name, has_typ, has_def) = &args_info[j];
        let default = if *has_def {
            remaining = remaining - 1;
            Some(globals.get_value(stack[remaining]).deep_clone())
        } else {
            None
        };
        let typ = if *has_typ {
            remaining = remaining - 1;
            Some(globals.get_value(stack[remaining]).deep_clone())
        } else {
            None
        };
        let ghost before = walked@;
        walked.push(MacroArg { name: name.clone(), typ, default });
        proof {
            assert forall|k: int| 0 <= k < j + 1 implies macro_arg_fits(&g0, s0, args_info@, k, #[trigger] walked@[k]) by {
                if k < j {
                    assert(walked@[k] == before[k]);
                }
            }
        }
        j = j + 1;
    }
    proof {
        assert(args_info@.subrange(0, args_info@.len() as int) =~= args_info@);
    }
    let mut args: Vec<MacroArg> = Vec::new();
    let ghost walked0 = walked@;
    let ghost n = args_info@.len() as int;
    while walked.len() > 0
        invariant
            args@.len() + walked@.len() == n,
            walked0.len() == n,
            walked@ == walked0.subrange(0, walked@.len() as int),
            forall|k: int| 0 <= k < args@.len() ==> #[trigger] args@[k] == walked0[n - 1 - k],
        decreases walked@.len(),
    {
        let ghost before = args@;
        match walked.pop() {
            Some(a) => {
                args.push(a);
                proof {
                    assert forall|k: int| 0 <= k < args@.len() implies #[trigger] args@[k] == walked0[n - 1 - k] by {
                        if k < before.len() {
                            assert(args@[k] == before[k]);
                        }
                    }
                }
            },
            None => {},
        }
    }
    stack.truncate(remaining);
    proof {
        lemma_holds_prefix(globals, s0, 1 + count as int);
    }
    let ghost h0 = globals.heap();
    let m = Macro { func_id: info.0, args, ret_type: Box::new(ret_type) };
    proof {
        assert forall|k: int| 0 <= k < n implies macro_arg_fits(&g0, s0, info.1@, n - 1 - k, #[trigger] m.args@[k]) by {
            assert(m.args@[k] == walked0[n - 1 - k]);
        }
        assert(macro_fits(&g0, s0, *info, m));
    }
    let value = Value::Macro(m);
    push_value(globals, stack, StoredValue { value, def_area: area });
    proof {
        lemma_insert_fresh(h0, stack@.last().0, globals.heap()[stack@.last().0]);
    }
    Ok(())
}

/// `macro_pops(info)`, if it is below `limit`.
fn count_pops(info: &Vec<ArgInfo>, limit: usize) -> (r: Option<usize>)
    ensures
        r is Some ==> r->Some_0 == macro_pops(info@) && r->Some_0 < limit,
        r is None ==> macro_pops(info@) >= limit,
{
    if limit == 0 {
        proof {
            lemma_macro_pops_prefix(info@, info@.len() as int);
            lemma_macro_pops_step_nonneg(info@);
        }
        return None;
    }
    let mut count: usize = 0;
    let mut j: usize = 0;
    while j < info.len()
        invariant
            j <= info@.len(),
            count < limit,
            count == macro_pops(info@.subrange(0, j as int)),
        decreases info@.len() - j,
    {
        proof {
            lemma_macro_pops_step(info@, j as int);
        }
        let (_, has_typ, has_def) = &info[j];
        let add: usize = (if *has_typ { 1 } else { 0 }) + (if *has_def { 1 } else { 0 });
        if add >= limit - count {
            proof {
                lemma_macro_pops_prefix(info@, j as int + 1);
            }
            return None;
        }
        count = count + add;
        j = j + 1;
    }
    proof {
        assert(info@.subrange(0, info@.len() as int) =~= info@);
    }
    Some(count)
}

/// No list pops a negative number of values.
proof fn lemma_macro_pops_step_nonneg(info: Seq<ArgInfo>)
    ensures
        macro_pops(info) >= 0,
    decreases info.len(),
{
    if info.len() > 0 {
        lemma_macro_pops_step_nonneg(info.drop_last());
    }
}

/// A prefix pops no more than the whole list.
proof fn lemma_macro_pops_prefix(info: Seq<ArgInfo>, j: int)
    requires
        0 <= j <= info.len(),
    ensures
        macro_pops(info.subrange(0, j)) <= macro_pops(info),
    decreases info.len() - j,
{
    if j < info.len() {
        lemma_macro_pops_step(info, j);
        lemma_macro_pops_prefix(info, j + 1);
    } else {
        assert(info.subrange(0, j) =~= info);
    }
}

/// Runs instruction `i` of function `func`: pops its operands off `stack`,
/// stores what it produces under a fresh key of the heap and pushes that key,
/// and adds what `Print` pops to `printed`. On success it returns the index
/// of the instruction to run next; `step_effect` says what it did.
pub fn run_instruction(
    globals: &mut Globals,
    code: &Code,
    func: usize,
    i: usize,
    stack: &mut Vec<ValueKey>,
    printed: &mut Vec<ValueKey>,
) -> (r: Result<usize, RuntimeError>)
    requires
        old(globals).wf(),
        old(globals).holds_all(old(stack)@),
        old(globals).holds_all(old(printed)@),
        func < code.instructions@.len(),
        i < code.instructions@[func as int]@.len(),
        old(globals).heap().len() < ARENA_LIMIT,
    ensures
        final(globals).wf(),
        final(globals).holds_all(final(stack)@),
        final(globals).holds_all(final(printed)@),
        old(globals).heap().submap_of(final(globals).heap()),
        final(globals).heap().len() <= old(globals).heap().len() + 1,
        r is Ok ==> step_effect(
            code,
            func as int,
            i as int,
            old(globals),
            old(stack)@,
            old(printed)@,
            final(globals),
            final(stack)@,
            final(printed)@,
            r->Ok_0 as int,
        ),
        is_reserved(code.instr(func as int, i as int)) ==> r is Err && r->Err_0 is Unimplemented,
        code.instr(func as int, i as int) is Call ==> r is Err,
        r is Err ==> *final(globals) == *old(globals) && final(stack)@ == old(stack)@ && final(printed)@ == old(printed)@,
        r is Err ==> error_fits(code, func as int, i as int, old(globals), old(stack)@, r->Err_0),
        r is Ok <==> can_step(code, func as int, i as int, old(globals), old(stack)@),
{
    let count = code.instructions[func].len();
    let instr = code.instructions[func][i].0;
    let area = code.instructions[func][i].1;
    assert(i + 1 <= count);
    let ghost gg = *globals;
    let ghost ss = stack@;
    let ghost pp = printed@;
    assert(ss.subrange(0, ss.len() as int) =~= ss);
    let ghost h0 = globals.heap();
    proof {
        lemma_submap_refl(h0);
    }
    if let Some(op) = binop_of(instr) {
        let n = stack.len();
        if n < 2 {
            return Err(RuntimeError::BadBytecode { area });
        }
        let res = binary_op(op, &globals.get_value(stack[n - 2]).value, &globals.get_value(stack[n - 1]).value);
        match res {
            Ok(v) => {
                let ghost s0 = stack@;
                stack.truncate(n - 2);
                proof {
                    lemma_holds_prefix(globals, s0, 2);
                }
                push_value(globals, stack, StoredValue { value: v, def_area: area });
                proof {
                    lemma_insert_fresh(h0, stack@.last().0, globals.heap()[stack@.last().0]);
                }
                return Ok(i + 1);
            },
            Err(e) => {
                let a = globals.get_value(stack[n - 2]).deep_clone();
                let b = globals.get_value(stack[n - 1]).deep_clone();
                let values = vec![a, b];
                return Err(op_error(e, area, values));
            },
        }
    }
    match instr {
        Instruction::Negate | Instruction::Not => {
            let n = stack.len();
            if n < 1 {
                return Err(RuntimeError::BadBytecode { area });
            }
            let op = if matches!(instr, Instruction::Negate) { UnOp::Negate } else { UnOp::Not };
            match unary_op(op, &globals.get_value(stack[n - 1]).value) {
                Ok(v) => {
                    let ghost s0 = stack@;
                    stack.truncate(n - 1);
                    proof {
                        lemma_holds_prefix(globals, s0, 1);
                    }
                    push_value(globals, stack, StoredValue { value: v, def_area: area });
                    proof {
                        lemma_insert_fresh(h0, stack@.last().0, globals.heap()[stack@.last().0]);
                    }
                    Ok(i + 1)
                },
                Err(e) => Err(op_error(e, area, vec![globals.get_value(stack[n - 1]).deep_clone()])),
            }
        },
        Instruction::LoadConst(id) => {
            if id >= code.constants.len() {
                return Err(RuntimeError::BadBytecode { area });
            }
            let mut v = code.constants[id].deep_clone();
            let ghost v0 = v;
            v.def_area = area;
            proof {
                let c = code.constants@[id as int];
                assert(v0.def_area == c.def_area);
                assert((StoredValue { value: v.value, def_area: c.def_area }) == v0);
            }
            push_value(globals, stack, v);
            proof {
                lemma_insert_fresh(h0, stack@.last().0, globals.heap()[stack@.last().0]);
                assert(globals.heap()[stack@.last().0] == v);
                assert(same(code.constants@[id as int], v0));
                assert(stack@.drop_last() == ss.subrange(0, ss.len() - 0));
            }
            Ok(i + 1)
        },
        Instruction::LoadVar(id) => {
            match globals.context.get_var(id) {
                Some(k) => {
                    proof {
                        lemma_binding_resolves(globals, id as int);
                    }
                    let ghost s0 = stack@;
                    stack.push(k);
                    proof {
                        assert forall|j: int| 0 <= j < stack@.len() implies globals.heap().contains_key(
                            #[trigger] stack@[j].0) by {
                            if j < s0.len() {
                                assert(stack@[j] == s0[j]);
                            }
                        }
                    }
                    Ok(i + 1)
                },
                None => Err(RuntimeError::BadBytecode { area }),
            }
        },
        Instruction::SetVar(id) => {
            let n = stack.len();
            if n < 1 || id >= globals.context.vars.len() || globals.context.vars[id].len() == 0 {
                return Err(RuntimeError::BadBytecode { area });
            }
            let ghost g0 = *globals;
            let top = stack[n - 1];
            let k = globals.key_deep_clone(top);
            let ghost s0 = stack@;
            stack.pop();
            proof {
                lemma_holds_prefix(globals, s0, 1);
                assert(s0.subrange(0, s0.len() - 1) =~= stack@);
                lemma_insert_fresh(h0, k.0, globals.heap()[k.0]);
            }
            let mut frames: Vec<Option<ValueKey>> = Vec::new();
            globals.context.vars.set_and_swap(id, &mut frames);
            let last = frames.len() - 1;
            frames.set(last, Some(k));
            globals.context.vars.set(id, frames);
            proof {
                let vars = globals.context.vars@;
                assert forall|a: int, b: int|
                    0 <= a < vars.len() && 0 <= b < vars[a]@.len() && (#[trigger] vars[a]@[b]) is Some
                    implies globals.heap().contains_key(vars[a]@[b]->Some_0.0) by {
                    if a != id || b != last {
                        assert(g0.context.vars@[a]@[b] == vars[a]@[b]);
                        assert(g0.heap().contains_key(vars[a]@[b]->Some_0.0));
                    }
                }
            }
            proof {
                let id = id as int;
                assert(globals.context.binding(id) == Some(k));
                assert(!gg.heap().contains_key(k.0));
                assert(globals.heap() == gg.heap().insert(k.0, globals.heap()[k.0]));
                assert(same(top_value(&gg, ss, 0), globals.heap()[k.0]));
                assert(globals.context.vars@[id]@ == gg.context.vars@[id]@.update(gg.context.vars@[id]@.len() - 1, Some(k)));
                assert(stack@ == ss.drop_last());
            }
            Ok(i + 1)
        },
        Instruction::LoadType(id) => {
            if id >= code.names.len() {
                return Err(RuntimeError::BadBytecode { area });
            }
            match lookup_type(&globals.types, &code.names[id]) {
                Some(t) => {
                    assert(registered(gg.types).contains_key(code.names@[id as int]@));
                    assert(t == registered(gg.types)[code.names@[id as int]@]);
                    push_value(globals, stack, StoredValue { value: Value::TypeIndicator(t), def_area: area });
                    proof {
                        lemma_insert_fresh(h0, stack@.last().0, globals.heap()[stack@.last().0]);
                    }
                    Ok(i + 1)
                },
                None => Err(RuntimeError::UndefinedType { name: code.names[id].clone(), area }),
            }
        },
        Instruction::BuildArray(n) => {
            match build_array(globals, stack, n, area) {
                Ok(()) => Ok(i + 1),
                Err(e) => Err(e),
            }
        },
        Instruction::BuildDict(id) => {
            if id >= code.name_sets.len() {
                return Err(RuntimeError::BadBytecode { area });
            }
            match build_dict(globals, stack, &code.name_sets[id], area) {
                Ok(()) => Ok(i + 1),
                Err(e) => Err(e),
            }
        },
        Instruction::MakeMacro(id) => {
            if id >= code.macro_build_info.len() {
                return Err(RuntimeError::BadBytecode { area });
            }
            match make_macro(globals, stack, &code.macro_build_info[id], area) {
                Ok(()) => Ok(i + 1),
                Err(e) => Err(e),
            }
        },
        Instruction::PushEmpty => {
            push_value(globals, stack, StoredValue { value: Value::Empty, def_area: area });
            proof {
                lemma_insert_fresh(h0, stack@.last().0, globals.heap()[stack@.last().0]);
            }
            Ok(i + 1)
        },
        Instruction::PushAnyPattern => {
            push_value(globals, stack, StoredValue { value: Value::Pattern(Pattern::Any), def_area: area });
            proof {
                lemma_insert_fresh(h0, stack@.last().0, globals.heap()[stack@.last().0]);
            }
            Ok(i + 1)
        },
        Instruction::PopTop => {
            let ghost s0 = stack@;
            match stack.pop() {
                Some(_) => {
                    proof {
                        lemma_holds_prefix(globals, s0, 1);
                        assert(s0.subrange(0, s0.len() - 1) =~= stack@);
                    }
                    Ok(i + 1)
                },
                None => Err(RuntimeError::BadBytecode { area }),
            }
        },
        Instruction::Jump(id) => {
            if id >= code.destinations.len() {
                return Err(RuntimeError::BadBytecode { area });
            }
            Ok(code.destinations[id])
        },
        Instruction::JumpIfFalse(id) => {
            let n = stack.len();
            if id >= code.destinations.len() || n < 1 {
                return Err(RuntimeError::BadBytecode { area });
            }
            match to_bool(&globals.get_value(stack[n - 1]).value) {
                Ok(b) => {
                    let ghost s0 = stack@;
                    stack.pop();
                    proof {
                        lemma_holds_prefix(globals, s0, 1);
                        assert(s0.subrange(0, s0.len() - 1) =~= stack@);
                    }
                    if b {
                        Ok(i + 1)
                    } else {
                        Ok(code.destinations[id])
                    }
                },
                Err(e) => Err(op_error(e, area, vec![globals.get_value(stack[n - 1]).deep_clone()])),
            }
        },
        Instruction::Call(id) => {
            let n = stack.len();
            if n < 1 {
                return Err(RuntimeError::BadBytecode { area });
            }
            let base = globals.get_value(stack[n - 1]);
            match &base.value {
                Value::Macro(_) => {
                    if id >= code.name_sets.len() || code.name_sets[id].len() >= n {
                        return Err(RuntimeError::BadBytecode { area });
                    }
                    Err(RuntimeError::Unimplemented { instruction: instr, area })
                },
                _ => Err(RuntimeError::CannotCall { base: base.deep_clone(), area }),
            }
        },
        Instruction::Print => {
            let ghost s0 = stack@;
            match stack.pop() {
                Some(k) => {
                    proof {
                        lemma_holds_prefix(globals, s0, 1);
                        assert(s0.subrange(0, s0.len() - 1) =~= stack@);
                    }
                    let ghost p0 = printed@;
                    printed.push(k);
                    proof {
                        assert forall|j: int| 0 <= j < printed@.len() implies globals.heap().contains_key(
                            #[trigger] printed@[j].0) by {
                            if j < p0.len() {
                                assert(printed@[j] == p0[j]);
                            }
                        }
                    }
                    Ok(i + 1)
                },
                None => Err(RuntimeError::BadBytecode { area }),
            }
        },
        Instruction::EnterScope | Instruction::ExitScope | Instruction::MergeContexts => Ok(i + 1),
        _ => Err(RuntimeError::Unimplemented { instruction: instr, area }),
    }
}

/// One state of a run: the globals, the stack, the printed keys and the index
/// of the next instruction.
pub type RunState = (Globals, Seq<ValueKey>, Seq<ValueKey>, int);

/// `t` is a run of function `func`: each state follows from the one before
/// by a successful step of the instruction the earlier state points at.
pub open spec fn is_run(code: &Code, func: int, t: Seq<RunState>) -> bool {
    &&& t.len() >= 1
    &&& forall|j: int| 0 <= j < t.len() - 1 ==> 0 <= (#[trigger] t[j]).3 < code.instructions@[func]@.len()
        && step_effect(code, func, t[j].3, &t[j].0, t[j].1, t[j].2, &t[j + 1].0, t[j + 1].1, t[j + 1].2, t[j + 1].3)
}

/// Runs function `func` from its first instruction until control leaves its
/// instruction list, and returns the keys left on the stack. What `Print`
/// pops is added to `printed`, in order. Execution stops with
/// `ResourceLimit` when the heap is full or after `u64::MAX` steps.
pub fn execute(globals: &mut Globals, code: &Code, func: usize, printed: &mut Vec<ValueKey>) -> (r: Result<
    Vec<ValueKey>,
    RuntimeError,
>)
    requires
        old(globals).wf(),
        old(globals).holds_all(old(printed)@),
        func < code.instructions@.len(),
    ensures
        final(globals).wf(),
        final(globals).holds_all(final(printed)@),
        old(globals).heap().submap_of(final(globals).heap()),
        r is Ok ==> final(globals).holds_all(r->Ok_0@),
        r is Ok ==> exists|t: Seq<RunState>|
            #[trigger] is_run(code, func as int, t) && t[0] == (*old(globals), Seq::<ValueKey>::empty(), old(printed)@, 0int)
                && t.last() == (*final(globals), r->Ok_0@, final(printed)@, t.last().3)
                && t.last().3 >= code.instructions@[func as int]@.len(),
        r is Err ==> exists|t: Seq<RunState>|
            #[trigger] is_run(code, func as int, t) && t[0] == (*old(globals), Seq::<ValueKey>::empty(), old(printed)@, 0int)
                && t.last().0 == *final(globals) && t.last().2 == final(printed)@
                && 0 <= t.last().3 < code.instructions@[func as int]@.len() && (if r->Err_0 is ResourceLimit {
                t.last().0.heap().len() >= ARENA_LIMIT || t.len() - 1 == u64::MAX
            } else {
                !can_step(code, func as int, t.last().3, &t.last().0, t.last().1) && error_fits(
                    code,
                    func as int,
                    t.last().3,
                    &t.last().0,
                    t.last().1,
                    r->Err_0,
                )
            }),
{
    let mut stack: Vec<ValueKey> = Vec::new();
    let mut i: usize = 0;
    let mut budget: u64 = u64::MAX;
    let len = code.instructions[func].len();
    let ghost h0 = globals.heap();
    let ghost mut trace: Seq<RunState> = seq![(*globals, stack@, printed@, 0int)];
    proof {
        lemma_submap_refl(h0);
    }
    while i < len
        invariant
            len == code.instructions@[func as int]@.len(),
            func < code.instructions@.len(),
            globals.wf(),
            globals.holds_all(stack@),
            globals.holds_all(printed@),
            h0 == old(globals).heap(),
            h0.submap_of(globals.heap()),
            is_run(code, func as int, trace),
            trace[0] == (*old(globals), Seq::<ValueKey>::empty(), old(printed)@, 0int),
            trace.last() == (*globals, stack@, printed@, i as int),
            budget as int + (trace.len() - 1) == u64::MAX as int,
        decreases budget,
    {
        if budget == 0 || globals.heap_len() >= ARENA_LIMIT {
            proof {
                assert(is_run(code, func as int, trace));
            }
            return Err(RuntimeError::ResourceLimit);
        }
        budget = budget - 1;
        let ghost h1 = globals.heap();
        let ghost before = trace;
        let res = run_instruction(globals, code, func, i, &mut stack, printed);
        proof {
            lemma_submap_trans(h0, h1, globals.heap());
        }
        match res {
            Ok(next) => {
                proof {
                    trace = trace.push((*globals, stack@, printed@, next as int));
                    assert forall|j: int| 0 <= j < trace.len() - 1 implies 0 <= (#[trigger] trace[j]).3
                        < code.instructions@[func as int]@.len() && step_effect(
                        code,
                        func as int,
                        trace[j].3,
                        &trace[j].0,
                        trace[j].1,
                        trace[j].2,
                        &trace[j + 1].0,
                        trace[j + 1].1,
                        trace[j + 1].2,
                        trace[j + 1].3,
                    ) by {
                        if j < before.len() - 1 {
                            assert(trace[j] == before[j]);
                            assert(trace[j + 1] == before[j + 1]);
                        }
                    }
                }
                i = next;
            },
            Err(e) => {
                proof {
                    assert(is_run(code, func as int, trace));
                }
                return Err(e);
            },
        }
    }
    proof {
        assert(is_run(code, func as int, trace));
    }
    Ok(stack)
}

proof fn lemma_submap_trans(a: Map<u64, StoredValue>, b: Map<u64, StoredValue>, c: Map<u64, StoredValue>)
    requires
        a.submap_of(b),
        b.submap_of(c),
    ensures
        a.submap_of(c),
{
    assert forall|k: u64| #[trigger] a.dom().contains(k) implies c.dom().contains(k) && a[k] == c[k] by {
        assert(b.dom().contains(k));
        assert(c.dom().contains(k));
    }
}

} // verus!
