use vstd::prelude::*;
use crate::sources::CodeArea;

verus! {

broadcast use vstd::std_specs::vec::axiom_vec_index_decreases;

/// The type of a value, as `LoadType` and the type registry name it.
#[derive(Clone, Copy, Debug, PartialEq, Eq, Structural, Hash)]
pub enum ValueType {
    Int,
    Float,
    String,
    Bool,
    Empty,
    Array,
    Dict,
    Maybe,
    TypeIndicator,
    Pattern,
    Group,
    TriggerFunc,
    Macro,
}

/// A description of the values a position may hold.
#[derive(Clone, Copy, Debug, PartialEq, Eq, Structural)]
pub enum Pattern {
    Any,
}

/// Handle of a value in the heap.
#[derive(Clone, Copy, Debug, PartialEq, Eq, Hash, Structural)]
pub struct ValueKey(pub u64);

/// One parameter of a macro: its name, type pattern and default value.
#[derive(Debug)]
pub struct MacroArg {
    pub name: String,
    pub typ: Option<StoredValue>,
    pub default: Option<StoredValue>,
}

/// A first-class callable: the function body it runs and its parameters.
#[derive(Debug)]
pub struct Macro {
    pub func_id: usize,
    pub args: Vec<MacroArg>,
    pub ret_type: Box<StoredValue>,
}

#[derive(Debug)]
pub enum Value {
    Int(i64),
    /// The bits of an IEEE-754 double.
    Float(u64),
    String(String),
    Bool(bool),
    Empty,
    Maybe(Option<ValueKey>),
    Array(Vec<StoredValue>),
    /// Keys with their values, in the order they were built.
    Dict(Vec<(String, StoredValue)>),
    TypeIndicator(ValueType),
    Pattern(Pattern),
    Macro(Macro),
    Group(u16),
    TriggerFunc(u16),
}

/// A value with the area that produced it.
#[derive(Debug)]
pub struct StoredValue {
    pub value: Value,
    pub def_area: CodeArea,
}

/// `a` and `b` hold the same value: equal scalars, and aggregates whose
/// elements are the same one by one.
pub open spec fn same(a: StoredValue, b: StoredValue) -> bool
    decreases a,
{
    &&& a.def_area == b.def_area
    &&& match (a.value, b.value) {
        (Value::Array(x), Value::Array(y)) => {
            &&& x@.len() == y@.len()
            &&& forall|i: int| 0 <= i < x@.len() ==> same(#[trigger] x@[i], y@[i])
        },
        (Value::Dict(x), Value::Dict(y)) => {
            &&& x@.len() == y@.len()
            &&& forall|i: int| 0 <= i < x@.len() ==> (#[trigger] x@[i]).0@ == y@[i].0@ && same(x@[i].1, y@[i].1)
        },
        (Value::Macro(m), Value::Macro(n)) => {
            &&& m.func_id == n.func_id
            &&& same(*m.ret_type, *n.ret_type)
            &&& m.args@.len() == n.args@.len()
            &&& forall|i: int| 0 <= i < m.args@.len() ==> same_arg(#[trigger] m.args@[i], n.args@[i])
        },
        (Value::String(x), Value::String(y)) => x@ == y@,
        (Value::Array(_), _) | (Value::Dict(_), _) | (Value::Macro(_), _) | (Value::String(_), _) => false,
        (x, y) => x == y,
    }
}

/// Two macro parameters with the same name, pattern and default.
pub open spec fn same_arg(a: MacroArg, b: MacroArg) -> bool
    decreases a,
{
    &&& a.name@ == b.name@
    &&& match (a.typ, b.typ) {
        (Some(x), Some(y)) => same(x, y),
        (None, None) => true,
        _ => false,
    }
    &&& match (a.default, b.default) {
        (Some(x), Some(y)) => same(x, y),
        (None, None) => true,
        _ => false,
    }
}

impl StoredValue {
    /// A copy of the value that shares nothing with it.
    pub fn deep_clone(&self) -> (r: StoredValue)
        ensures
            same(*self, r),
        decreases *self,
    {
        let value = match &self.value {
            Value::Int(n) => Value::Int(*n),
            Value::Float(b) => Value::Float(*b),
            Value::String(s) => Value::String(s.clone()),
            Value::Bool(b) => Value::Bool(*b),
            Value::Empty => Value::Empty,
            Value::Maybe(k) => Value::Maybe(*k),
            Value::Array(v) => {
                let mut out: Vec<StoredValue> = Vec::new();
                let mut i: usize = 0;
                while i < v.len()
                    invariant
                        i <= v@.len(),
                        out@.len() == i,
                        self.value == Value::Array(*v),
                        forall|j: int| 0 <= j < i ==> same(#[trigger] v@[j], out@[j]),
                    decreases v@.len() - i,
                {
                    proof {
                        assert(decreases_to!(*self => self.value));
                        assert(decreases_to!(self.value => self.value->Array_0));
                        assert(decreases_to!(*v => v[i as int]));
                    }
                    out.push(v[i].deep_clone());
                    i = i + 1;
                }
                Value::Array(out)
            },
            Value::Dict(v) => {
                let mut out: Vec<(String, StoredValue)> = Vec::new();
                let mut i: usize = 0;
                while i < v.len()
                    invariant
                        i <= v@.len(),
                        out@.len() == i,
                        self.value == Value::Dict(*v),
                        forall|j: int| 0 <= j < i ==> (#[trigger] v@[j]).0@ == out@[j].0@ && same(v@[j].1, out@[j].1),
                    decreases v@.len() - i,
                {
                    let e = &v[i];
                    proof {
                        assert(decreases_to!(*self => self.value));
                        assert(decreases_to!(self.value => self.value->Dict_0));
                        assert(decreases_to!(*v => v[i as int]));
                        assert(decreases_to!(v[i as int] => v[i as int].1));
                    }
                    out.push((e.0.clone(), e.1.deep_clone()));
                    i = i + 1;
                }
                Value::Dict(out)
            },
            Value::TypeIndicator(t) => Value::TypeIndicator(*t),
            Value::Pattern(p) => Value::Pattern(*p),
            Value::Macro(m) => {
                let mut args: Vec<MacroArg> = Vec::new();
                let mut i: usize = 0;
                while i < m.args.len()
                    invariant
                        i <= m.args@.len(),
                        args@.len() == i,
                        self.value == Value::Macro(*m),
                        forall|j: int| 0 <= j < i ==> same_arg(#[trigger] m.args@[j], args@[j]),
                    decreases m.args@.len() - i,
                {
                    let a = &m.args[i];
                    proof {
                        assert(decreases_to!(*self => self.value));
                        assert(decreases_to!(self.value => self.value->Macro_0));
                        assert(decreases_to!(*m => m.args));
                        assert(decreases_to!(m.args => m.args[i as int]));
                    }
                    let typ = match &a.typ {
                        Some(t) => Some(t.deep_clone()),
                        None => None,
                    };
                    let default = match &a.default {
                        Some(d) => Some(d.deep_clone()),
                        None => None,
                    };
                    args.push(MacroArg { name: a.name.clone(), typ, default });
                    i = i + 1;
                }
                let ret = m.ret_type.deep_clone();
                Value::Macro(Macro { func_id: m.func_id, args, ret_type: Box::new(ret) })
            },
            Value::Group(g) => Value::Group(*g),
            Value::TriggerFunc(g) => Value::TriggerFunc(*g),
        };
        StoredValue { value, def_area: self.def_area }
    }
}

/// The binary operations of the value layer.
#[derive(Clone, Copy, Debug, PartialEq, Eq, Structural)]
pub enum BinOp {
    Plus,
    Minus,
    Mult,
    Div,
    Mod,
    Pow,
    Eq,
    NotEq,
    Greater,
    GreaterEq,
    Lesser,
    LesserEq,
}

/// The unary operations of the value layer.
#[derive(Clone, Copy, Debug, PartialEq, Eq, Structural)]
pub enum UnOp {
    Negate,
    Not,
}

/// Why a value operation has no result.
#[derive(Clone, Debug, PartialEq, Eq)]
pub enum OpError {
    /// The operation is not defined on these types.
    TypeMismatch(Vec<ValueType>),
    /// Overflow, division by zero or a negative exponent.
    Arithmetic,
}

pub open spec fn spec_type_of(v: Value) -> ValueType {
    match v {
        Value::Int(_) => ValueType::Int,
        Value::Float(_) => ValueType::Float,
        Value::String(_) => ValueType::String,
        Value::Bool(_) => ValueType::Bool,
        Value::Empty => ValueType::Empty,
        Value::Maybe(_) => ValueType::Maybe,
        Value::Array(_) => ValueType::Array,
        Value::Dict(_) => ValueType::Dict,
        Value::TypeIndicator(_) => ValueType::TypeIndicator,
        Value::Pattern(_) => ValueType::Pattern,
        Value::Macro(_) => ValueType::Macro,
        Value::Group(_) => ValueType::Group,
        Value::TriggerFunc(_) => ValueType::TriggerFunc,
    }
}

impl Value {
    pub fn type_of(&self) -> (r: ValueType)
        ensures
            r == spec_type_of(*self),
    {
        match self {
            Value::Int(_) => ValueType::Int,
            Value::Float(_) => ValueType::Float,
            Value::String(_) => ValueType::String,
            Value::Bool(_) => ValueType::Bool,
            Value::Empty => ValueType::Empty,
            Value::Maybe(_) => ValueType::Maybe,
            Value::Array(_) => ValueType::Array,
            Value::Dict(_) => ValueType::Dict,
            Value::TypeIndicator(_) => ValueType::TypeIndicator,
            Value::Pattern(_) => ValueType::Pattern,
            Value::Macro(_) => ValueType::Macro,
            Value::Group(_) => ValueType::Group,
            Value::TriggerFunc(_) => ValueType::TriggerFunc,
        }
    }
}

/// `x` to the power `n`, if no step of the product overflows.
pub open spec fn spec_pow(x: i64, n: nat) -> Option<i64>
    decreases n,
{
    if n == 0 {
        Some(1i64)
    } else {
        match spec_pow(x, (n - 1) as nat) {
            Some(p) => p.checked_mul(x),
            None => None,
        }
    }
}

pub open spec fn int_value(r: Option<i64>) -> Option<Value> {
    match r {
        Some(v) => Some(Value::Int(v)),
        None => None,
    }
}

/// Whether `op` is defined on the types of `a` and `b`: integers take
/// every operation, booleans, strings and the empty value take `==` and `!=`.
pub open spec fn binop_types_ok(op: BinOp, a: Value, b: Value) -> bool {
    match (a, b) {
        (Value::Int(_), Value::Int(_)) => true,
        (Value::Bool(_), Value::Bool(_)) | (Value::String(_), Value::String(_)) | (Value::Empty, Value::Empty) =>
            op == BinOp::Eq || op == BinOp::NotEq,
        _ => false,
    }
}

/// The result of `a op b`, or `None` where there is none.
pub open spec fn spec_binop(op: BinOp, a: Value, b: Value) -> Option<Value> {
    if !binop_types_ok(op, a, b) {
        None
    } else {
        match (a, b) {
            (Value::Int(x), Value::Int(y)) => match op {
                BinOp::Plus => int_value(x.checked_add(y)),
                BinOp::Minus => int_value(x.checked_sub(y)),
                BinOp::Mult => int_value(x.checked_mul(y)),
                BinOp::Div => int_value(x.checked_div(y)),
                BinOp::Mod => int_value(x.checked_rem(y)),
                BinOp::Pow => if y >= 0 { int_value(spec_pow(x, y as nat)) } else { None },
                BinOp::Eq => Some(Value::Bool(x == y)),
                BinOp::NotEq => Some(Value::Bool(x != y)),
                BinOp::Greater => Some(Value::Bool(x > y)),
                BinOp::GreaterEq => Some(Value::Bool(x >= y)),
                BinOp::Lesser => Some(Value::Bool(x < y)),
                BinOp::LesserEq => Some(Value::Bool(x <= y)),
            },
            (Value::Bool(x), Value::Bool(y)) => Some(Value::Bool((x == y) == (op == BinOp::Eq))),
            (Value::String(x), Value::String(y)) => Some(Value::Bool((x@ == y@) == (op == BinOp::Eq))),
            _ => Some(Value::Bool(op == BinOp::Eq)),
        }
    }
}

/// The result of a unary operation, or `None` where there is none.
pub open spec fn spec_unop(op: UnOp, a: Value) -> Option<Value> {
    match (op, a) {
        (UnOp::Negate, Value::Int(x)) => int_value(0i64.checked_sub(x)),
        (UnOp::Not, Value::Bool(b)) => Some(Value::Bool(!b)),
        _ => None,
    }
}

fn int_result(r: Option<i64>) -> (v: Result<Value, OpError>)
    ensures
        r is Some ==> v is Ok && v->Ok_0 == Value::Int(r->Some_0),
        r is None ==> v == Err::<Value, OpError>(OpError::Arithmetic),
{
    match r {
        Some(n) => Ok(Value::Int(n)),
        None => Err(OpError::Arithmetic),
    }
}

fn pow_int(x: i64, n: i64) -> (r: Option<i64>)
    requires
        n >= 0,
    ensures
        r == spec_pow(x, n as nat),
{
    let mut acc: i64 = 1;
    let mut k: i64 = 0;
    while k < n
        invariant
            0 <= k <= n,
            spec_pow(x, k as nat) == Some(acc),
        decreases n - k,
    {
        match acc.checked_mul(x) {
            Some(p) => {
                acc = p;
            },
            None => {
                proof {
                    lemma_pow_none_stays(x, (k + 1) as nat, n as nat);
                }
                return None;
            },
        }
        k = k + 1;
    }
    Some(acc)
}

proof fn lemma_pow_none_stays(x: i64, k: nat, n: nat)
    requires
        k <= n,
        spec_pow(x, k) is None,
    ensures
        spec_pow(x, n) is None,
    decreases n - k,
{
    if k < n {
        lemma_pow_none_stays(x, k + 1, n);
    }
}

/// `a op b`: the value of `spec_binop`, `TypeMismatch` with both types where
/// the operation is not defined on them, else `Arithmetic`.
pub fn binary_op(op: BinOp, a: &Value, b: &Value) -> (r: Result<Value, OpError>)
    ensures
        spec_binop(op, *a, *b) is Some ==> r is Ok && r->Ok_0 == spec_binop(op, *a, *b)->Some_0,
        !binop_types_ok(op, *a, *b) ==> r is Err && r->Err_0 is TypeMismatch
            && r->Err_0->TypeMismatch_0@ == seq![spec_type_of(*a), spec_type_of(*b)],
        binop_types_ok(op, *a, *b) && spec_binop(op, *a, *b) is None ==> r == Err::<Value, OpError>(OpError::Arithmetic),
{
    match (a, b) {
        (Value::Int(x), Value::Int(y)) => {
            let (x, y) = (*x, *y);
            match op {
                BinOp::Plus => int_result(x.checked_add(y)),
                BinOp::Minus => int_result(x.checked_sub(y)),
                BinOp::Mult => int_result(x.checked_mul(y)),
                BinOp::Div => int_result(x.checked_div(y)),
                BinOp::Mod => int_result(x.checked_rem(y)),
                BinOp::Pow => if y >= 0 { int_result(pow_int(x, y)) } else { Err(OpError::Arithmetic) },
                BinOp::Eq => Ok(Value::Bool(x == y)),
                BinOp::NotEq => Ok(Value::Bool(x != y)),
                BinOp::Greater => Ok(Value::Bool(x > y)),
                BinOp::GreaterEq => Ok(Value::Bool(x >= y)),
                BinOp::Lesser => Ok(Value::Bool(x < y)),
                BinOp::LesserEq => Ok(Value::Bool(x <= y)),
            }
        },
        (Value::Bool(x), Value::Bool(y)) if matches!(op, BinOp::Eq | BinOp::NotEq) => {
            Ok(Value::Bool((*x == *y) == matches!(op, BinOp::Eq)))
        },
        (Value::String(x), Value::String(y)) if matches!(op, BinOp::Eq | BinOp::NotEq) => {
            Ok(Value::Bool((*x == *y) == matches!(op, BinOp::Eq)))
        },
        (Value::Empty, Value::Empty) if matches!(op, BinOp::Eq | BinOp::NotEq) => {
            Ok(Value::Bool(matches!(op, BinOp::Eq)))
        },
        _ => Err(OpError::TypeMismatch(vec![a.type_of(), b.type_of()])),
    }
}

/// `op a`: the value of `spec_unop`; `Arithmetic` when negating the least
/// integer, else `TypeMismatch`.
pub fn unary_op(op: UnOp, a: &Value) -> (r: Result<Value, OpError>)
    ensures
        spec_unop(op, *a) is Some ==> r is Ok && r->Ok_0 == spec_unop(op, *a)->Some_0,
        spec_unop(op, *a) is None ==> r is Err,
{
    match (op, a) {
        (UnOp::Negate, Value::Int(x)) => int_result(0i64.checked_sub(*x)),
        (UnOp::Not, Value::Bool(b)) => Ok(Value::Bool(!*b)),
        _ => Err(OpError::TypeMismatch(vec![a.type_of()])),
    }
}

/// The truth of a condition: only booleans have one.
pub fn to_bool(a: &Value) -> (r: Result<bool, OpError>)
    ensures
        a is Bool ==> r == Ok::<bool, OpError>(a->Bool_0),
        !(a is Bool) ==> r is Err,
{
    match a {
        Value::Bool(b) => Ok(*b),
        _ => Err(OpError::TypeMismatch(vec![a.type_of()])),
    }
}

} // verus!
