use vstd::prelude::*;
use slotmap::{DefaultKey, Key, KeyData, SlotMap};
use crate::lexer::Token;
use crate::sources::CodeArea;

verus! {

/// Handle of an expression in the arena.
#[derive(Clone, Copy, Debug, PartialEq, Eq, Hash, Structural)]
pub struct ExprKey(pub u64);

/// Handle of a statement in the arena.
#[derive(Clone, Copy, Debug, PartialEq, Eq, Hash, Structural)]
pub struct StmtKey(pub u64);

/// A handle of either kind.
#[derive(Clone, Copy, Debug, PartialEq, Eq, Structural)]
pub enum KeyType {
    Expr(ExprKey),
    StmtKey(StmtKey),
}

/// Handles whose area the arena can report.
pub trait ASTKey: Sized {
    spec fn spec_key(self) -> KeyType;

    fn into_key(self) -> (r: KeyType)
        ensures
            r == self.spec_key(),
    ;
}

impl ASTKey for ExprKey {
    open spec fn spec_key(self) -> KeyType {
        KeyType::Expr(self)
    }

    fn into_key(self) -> (r: KeyType) {
        KeyType::Expr(self)
    }
}

impl ASTKey for StmtKey {
    open spec fn spec_key(self) -> KeyType {
        KeyType::StmtKey(self)
    }

    fn into_key(self) -> (r: KeyType) {
        KeyType::StmtKey(self)
    }
}

#[derive(Clone, Debug, PartialEq)]
pub enum Literal {
    Int(usize),
    /// The bits of an IEEE-754 double.
    Float(u64),
    String(String),
    Bool(bool),
}

#[derive(Clone, Debug, PartialEq)]
pub enum Expression {
    Literal(Literal),
    Op(ExprKey, Token, ExprKey),
    Unary(Token, ExprKey),
    Var(String),
    Array(Vec<ExprKey>),
    Index { base: ExprKey, index: ExprKey },
    Empty,
}

pub type Statements = Vec<StmtKey>;

#[derive(Clone, Debug, PartialEq)]
pub enum Statement {
    Expr(ExprKey),
    Declaration(String, ExprKey),
    If { branches: Vec<(ExprKey, Statements)>, else_branch: Option<Statements> },
    While { cond: ExprKey, code: Statements },
    For { var: String, iterator: ExprKey, code: Statements },
}

/// An expression with its area.
pub type ExprEntry = (Expression, CodeArea);

/// A statement with its area.
pub type StmtEntry = (Statement, CodeArea);

/// The slot map that holds the expressions.
#[verifier::external_body]
pub struct ExprSlots {
    slots: SlotMap<DefaultKey, ExprEntry>,
}

/// The slot map that holds the statements.
#[verifier::external_body]
pub struct StmtSlots {
    slots: SlotMap<DefaultKey, StmtEntry>,
}

/// The largest number of nodes of one kind that an arena takes.
pub const ARENA_LIMIT: usize = 0xFFFF_FFF0;

/// What the expression slot map holds, by the key's `u64` form.
pub uninterp spec fn expr_slots(m: ExprSlots) -> Map<u64, ExprEntry>;

/// What the statement slot map holds, by the key's `u64` form.
pub uninterp spec fn stmt_slots(m: StmtSlots) -> Map<u64, StmtEntry>;

/// Relies on slotmap's `SlotMap::new`: a new map is empty.
#[verifier::external_body]
fn new_expr_slots() -> (r: ExprSlots)
    ensures
        expr_slots(r).dom() == Set::<u64>::empty(),
{
    ExprSlots { slots: SlotMap::new() }
}

/// Relies on slotmap's `SlotMap::new`: a new map is empty.
#[verifier::external_body]
fn new_stmt_slots() -> (r: StmtSlots)
    ensures
        stmt_slots(r).dom() == Set::<u64>::empty(),
{
    StmtSlots { slots: SlotMap::new() }
}

/// Relies on slotmap's `SlotMap::insert`: the value is stored under a key that
/// no stored value has, and the others stay. It panics only once `u32::MAX`
/// slots (one of them a sentinel) are taken.
#[verifier::external_body]
fn insert_expr_slot(m: &mut ExprSlots, v: ExprEntry) -> (r: u64)
    requires
        expr_slots(*old(m)).dom().finite(),
        expr_slots(*old(m)).len() + 1 < u32::MAX,
    ensures
        !expr_slots(*old(m)).contains_key(r),
        expr_slots(*final(m)) == expr_slots(*old(m)).insert(r, v),
{
    m.slots.insert(v).data().as_ffi()
}

/// Relies on slotmap's `SlotMap::insert`: the value is stored under a key that
/// no stored value has, and the others stay. It panics only once `u32::MAX`
/// slots (one of them a sentinel) are taken.
#[verifier::external_body]
fn insert_stmt_slot(m: &mut StmtSlots, v: StmtEntry) -> (r: u64)
    requires
        stmt_slots(*old(m)).dom().finite(),
        stmt_slots(*old(m)).len() + 1 < u32::MAX,
    ensures
        !stmt_slots(*old(m)).contains_key(r),
        stmt_slots(*final(m)) == stmt_slots(*old(m)).insert(r, v),
{
    m.slots.insert(v).data().as_ffi()
}

/// Relies on slotmap's `Index` with a key rebuilt by `KeyData::from_ffi`,
/// which gives back the key that `as_ffi` was taken of.
#[verifier::external_body]
fn expr_slot(m: &ExprSlots, k: u64) -> (r: &ExprEntry)
    requires
        expr_slots(*m).contains_key(k),
    ensures
        *r == expr_slots(*m)[k],
{
    &m.slots[DefaultKey::from(KeyData::from_ffi(k))]
}

/// Relies on slotmap's `Index` with a key rebuilt by `KeyData::from_ffi`,
/// which gives back the key that `as_ffi` was taken of.
#[verifier::external_body]
fn stmt_slot(m: &StmtSlots, k: u64) -> (r: &StmtEntry)
    requires
        stmt_slots(*m).contains_key(k),
    ensures
        *r == stmt_slots(*m)[k],
{
    &m.slots[DefaultKey::from(KeyData::from_ffi(k))]
}

/// Relies on slotmap's `SlotMap::len`: the number of stored values.
#[verifier::external_body]
fn expr_slots_len(m: &ExprSlots) -> (r: usize)
    ensures
        r == expr_slots(*m).len(),
{
    m.slots.len()
}

/// Relies on slotmap's `SlotMap::len`: the number of stored values.
#[verifier::external_body]
fn stmt_slots_len(m: &StmtSlots) -> (r: usize)
    ensures
        r == stmt_slots(*m).len(),
{
    m.slots.len()
}

/// Every handle that `e` holds resolves in `exprs`.
pub open spec fn expr_closed(exprs: Map<u64, ExprEntry>, e: Expression) -> bool {
    match e {
        Expression::Op(a, _, b) => exprs.contains_key(a.0) && exprs.contains_key(b.0),
        Expression::Unary(_, a) => exprs.contains_key(a.0),
        Expression::Array(v) => forall|i: int| 0 <= i < v@.len() ==> exprs.contains_key(#[trigger] v@[i].0),
        Expression::Index { base, index } => exprs.contains_key(base.0) && exprs.contains_key(index.0),
        _ => true,
    }
}

/// Every handle of the list resolves in `stmts`.
pub open spec fn stmts_closed(stmts: Map<u64, StmtEntry>, code: Seq<StmtKey>) -> bool {
    forall|i: int| 0 <= i < code.len() ==> stmts.contains_key(#[trigger] code[i].0)
}

/// Every handle that `s` holds resolves in the arena.
pub open spec fn stmt_closed(
    exprs: Map<u64, ExprEntry>,
    stmts: Map<u64, StmtEntry>,
    s: Statement,
) -> bool {
    match s {
        Statement::Expr(e) => exprs.contains_key(e.0),
        Statement::Declaration(_, e) => exprs.contains_key(e.0),
        Statement::If { branches, else_branch } => {
            &&& forall|i: int| 0 <= i < branches@.len() ==> exprs.contains_key(#[trigger] branches@[i].0.0)
                && stmts_closed(stmts, branches@[i].1@)
            &&& match else_branch {
                Some(code) => stmts_closed(stmts, code@),
                None => true,
            }
        },
        Statement::While { cond, code } => exprs.contains_key(cond.0) && stmts_closed(stmts, code@),
        Statement::For { iterator, code, .. } => exprs.contains_key(iterator.0) && stmts_closed(stmts, code@),
    }
}

/// The two arenas of a parse: expressions and statements with their areas.
pub struct ASTData {
    pub exprs: ExprSlots,
    pub stmts: StmtSlots,
}

impl ASTData {
    pub open spec fn expr_map(&self) -> Map<u64, ExprEntry> {
        expr_slots(self.exprs)
    }

    pub open spec fn stmt_map(&self) -> Map<u64, StmtEntry> {
        stmt_slots(self.stmts)
    }

    /// Both arenas are finite and every stored handle resolves.
    #[verifier::opaque]
    pub open spec fn wf(&self) -> bool {
        &&& self.expr_map().dom().finite()
        &&& self.stmt_map().dom().finite()
        &&& forall|k: u64| #[trigger] self.expr_map().contains_key(k) ==> expr_closed(self.expr_map(), self.expr_map()[k].0)
        &&& forall|k: u64| #[trigger] self.stmt_map().contains_key(k)
            ==> stmt_closed(self.expr_map(), self.stmt_map(), self.stmt_map()[k].0)
    }

    /// `self` holds everything that `other` holds, unchanged.
    #[verifier::opaque]
    pub open spec fn extends(&self, other: &ASTData) -> bool {
        &&& other.expr_map().submap_of(self.expr_map())
        &&& other.stmt_map().submap_of(self.stmt_map())
    }

    /// Whether `k` resolves.
    pub open spec fn has_key<K: ASTKey>(&self, k: K) -> bool {
        match k.spec_key() {
            KeyType::Expr(e) => self.expr_map().contains_key(e.0),
            KeyType::StmtKey(s) => self.stmt_map().contains_key(s.0),
        }
    }

    /// An empty pair of arenas.
    pub fn new() -> (r: ASTData)
        ensures
            r.expr_map().dom() == Set::<u64>::empty(),
            r.stmt_map().dom() == Set::<u64>::empty(),
            r.wf(),
    {
        let r = ASTData { exprs: new_expr_slots(), stmts: new_stmt_slots() };
        proof {
            reveal(ASTData::wf);
            assert(r.expr_map().dom().finite());
            assert(r.stmt_map().dom().finite());
        }
        r
    }

    /// The area of the node that `k` names.
    pub fn area<K: ASTKey>(&self, k: K) -> (r: CodeArea)
        requires
            self.has_key(k),
        ensures
            r == match k.spec_key() {
                KeyType::Expr(e) => self.expr_map()[e.0].1,
                KeyType::StmtKey(s) => self.stmt_map()[s.0].1,
            },
    {
        match k.into_key() {
            KeyType::Expr(e) => expr_slot(&self.exprs, e.0).1,
            KeyType::StmtKey(s) => stmt_slot(&self.stmts, s.0).1,
        }
    }

    pub fn get_expr(&self, k: ExprKey) -> (r: &Expression)
        requires
            self.expr_map().contains_key(k.0),
        ensures
            *r == self.expr_map()[k.0].0,
    {
        &expr_slot(&self.exprs, k.0).0
    }

    pub fn get_stmt(&self, k: StmtKey) -> (r: &Statement)
        requires
            self.stmt_map().contains_key(k.0),
        ensures
            *r == self.stmt_map()[k.0].0,
    {
        &stmt_slot(&self.stmts, k.0).0
    }

    /// The number of stored expressions.
    pub fn expr_count(&self) -> (r: usize)
        ensures
            r == self.expr_map().len(),
    {
        expr_slots_len(&self.exprs)
    }

    /// The number of stored statements.
    pub fn stmt_count(&self) -> (r: usize)
        ensures
            r == self.stmt_map().len(),
    {
        stmt_slots_len(&self.stmts)
    }

    pub fn insert_expr(&mut self, expr: Expression, area: CodeArea) -> (r: ExprKey)
        requires
            old(self).wf(),
            old(self).expr_map().len() < ARENA_LIMIT,
            expr_closed(old(self).expr_map(), expr),
        ensures
            final(self).wf(),
            !old(self).expr_map().contains_key(r.0),
            final(self).expr_map() == old(self).expr_map().insert(r.0, (expr, area)),
            final(self).stmt_map() == old(self).stmt_map(),
            final(self).expr_map().len() == old(self).expr_map().len() + 1,
            final(self).extends(old(self)),
    {
        proof {
            reveal(ASTData::wf);
            reveal(ASTData::extends);
        }
        let k = insert_expr_slot(&mut self.exprs, (expr, area));
        proof {
            let m = self.expr_map();
            assert forall|j: u64| #[trigger] m.contains_key(j) implies expr_closed(m, m[j].0) by {
                lemma_expr_closed_grows(old(self).expr_map(), m, m[j].0);
            }
            assert forall|j: u64| #[trigger] self.stmt_map().contains_key(j)
                implies stmt_closed(m, self.stmt_map(), self.stmt_map()[j].0) by {
                lemma_stmt_closed_grows(old(self).expr_map(), m, self.stmt_map(), self.stmt_map(), self.stmt_map()[j].0);
            }
        }
        ExprKey(k)
    }

    pub fn insert_stmt(&mut self, stmt: Statement, area: CodeArea) -> (r: StmtKey)
        requires
            old(self).wf(),
            old(self).stmt_map().len() < ARENA_LIMIT,
            stmt_closed(old(self).expr_map(), old(self).stmt_map(), stmt),
        ensures
            final(self).wf(),
            !old(self).stmt_map().contains_key(r.0),
            final(self).stmt_map() == old(self).stmt_map().insert(r.0, (stmt, area)),
            final(self).expr_map() == old(self).expr_map(),
            final(self).stmt_map().len() == old(self).stmt_map().len() + 1,
            final(self).extends(old(self)),
    {
        proof {
            reveal(ASTData::wf);
            reveal(ASTData::extends);
        }
        let k = insert_stmt_slot(&mut self.stmts, (stmt, area));
        proof {
            let m = self.stmt_map();
            assert forall|j: u64| #[trigger] m.contains_key(j)
                implies stmt_closed(self.expr_map(), m, m[j].0) by {
                lemma_stmt_closed_grows(self.expr_map(), self.expr_map(), old(self).stmt_map(), m, m[j].0);
            }
        }
        StmtKey(k)
    }
}

impl ASTData {
    pub proof fn lemma_extends_refl(&self)
        ensures
            self.extends(self),
    {
        reveal(ASTData::extends);
    }

    pub proof fn lemma_extends_trans(&self, b: &ASTData, c: &ASTData)
        requires
            b.extends(self),
            c.extends(b),
        ensures
            c.extends(self),
    {
        reveal(ASTData::extends);
        assert forall|k: u64| #[trigger] self.expr_map().contains_key(k) implies c.expr_map().contains_key(k)
            && c.expr_map()[k] == self.expr_map()[k] by {
            assert(b.expr_map().dom().contains(k));
            assert(c.expr_map().dom().contains(k));
        }
        assert forall|k: u64| #[trigger] self.stmt_map().contains_key(k) implies c.stmt_map().contains_key(k)
            && c.stmt_map()[k] == self.stmt_map()[k] by {
            assert(b.stmt_map().dom().contains(k));
            assert(c.stmt_map().dom().contains(k));
        }
    }

    /// Extension is growth of both maps.
    pub proof fn lemma_extends_submap(&self, b: &ASTData)
        requires
            b.extends(self),
        ensures
            self.expr_map().submap_of(b.expr_map()),
            self.stmt_map().submap_of(b.stmt_map()),
    {
        reveal(ASTData::extends);
    }

    /// What an arena holds, a larger one holds too.
    pub proof fn lemma_extends_keys(&self, b: &ASTData)
        requires
            b.extends(self),
        ensures
            forall|k: u64| #[trigger] self.expr_map().contains_key(k)
                ==> b.expr_map().contains_key(k) && b.expr_map()[k] == self.expr_map()[k],
            forall|k: u64| #[trigger] self.stmt_map().contains_key(k)
                ==> b.stmt_map().contains_key(k) && b.stmt_map()[k] == self.stmt_map()[k],
    {
        reveal(ASTData::extends);
        assert forall|k: u64| #[trigger] self.expr_map().contains_key(k) implies b.expr_map().contains_key(k)
            && b.expr_map()[k] == self.expr_map()[k] by {
            assert(b.expr_map().dom().contains(k));
        }
        assert forall|k: u64| #[trigger] self.stmt_map().contains_key(k) implies b.stmt_map().contains_key(k)
            && b.stmt_map()[k] == self.stmt_map()[k] by {
            assert(b.stmt_map().dom().contains(k));
        }
    }
}

/// A closed statement list stays closed as the arena grows.
pub proof fn lemma_stmts_closed_grows(a: &ASTData, b: &ASTData, code: Seq<StmtKey>)
    requires
        b.extends(a),
        stmts_closed(a.stmt_map(), code),
    ensures
        stmts_closed(b.stmt_map(), code),
{
    a.lemma_extends_keys(b);
    assert forall|i: int| 0 <= i < code.len() implies b.stmt_map().contains_key(#[trigger] code[i].0) by {
        assert(a.stmt_map().contains_key(code[i].0));
    }
}

/// Every condition and body of the `if` branches resolves in `a`.
pub open spec fn branches_closed(a: &ASTData, branches: Seq<(ExprKey, Statements)>) -> bool {
    forall|i: int| 0 <= i < branches.len() ==> a.expr_map().contains_key(#[trigger] branches[i].0.0)
        && stmts_closed(a.stmt_map(), branches[i].1@)
}

/// Closed `if` branches stay closed as the arena grows.
pub proof fn lemma_branches_grow(a: &ASTData, b: &ASTData, branches: Seq<(ExprKey, Statements)>)
    requires
        b.extends(a),
        branches_closed(a, branches),
    ensures
        branches_closed(b, branches),
{
    a.lemma_extends_keys(b);
    assert forall|i: int| 0 <= i < branches.len() implies b.expr_map().contains_key(#[trigger] branches[i].0.0)
        && stmts_closed(b.stmt_map(), branches[i].1@) by {
        assert(a.expr_map().contains_key(branches[i].0.0));
        lemma_stmts_closed_grows(a, b, branches[i].1@);
    }
}

/// Closedness survives growth of the arena.
pub proof fn lemma_expr_closed_grows(a: Map<u64, ExprEntry>, b: Map<u64, ExprEntry>, e: Expression)
    requires
        a.submap_of(b),
        expr_closed(a, e),
    ensures
        expr_closed(b, e),
{
    if let Expression::Array(v) = e {
        assert forall|i: int| 0 <= i < v@.len() implies b.contains_key(#[trigger] v@[i].0) by {
            assert(a.contains_key(v@[i].0));
        }
    }
}

/// Closedness survives growth of the arenas.
pub proof fn lemma_stmt_closed_grows(
    ea: Map<u64, ExprEntry>,
    eb: Map<u64, ExprEntry>,
    sa: Map<u64, StmtEntry>,
    sb: Map<u64, StmtEntry>,
    s: Statement,
)
    requires
        ea.submap_of(eb),
        sa.submap_of(sb),
        stmt_closed(ea, sa, s),
    ensures
        stmt_closed(eb, sb, s),
{
    assert forall|c: Seq<StmtKey>| stmts_closed(sa, c) implies stmts_closed(sb, c) by {
        assert forall|i: int| 0 <= i < c.len() implies sb.contains_key(#[trigger] c[i].0) by {
            assert(sa.contains_key(c[i].0));
        }
    }
    if let Statement::If { branches, else_branch } = s {
        assert forall|i: int| 0 <= i < branches@.len() implies eb.contains_key(#[trigger] branches@[i].0.0)
            && stmts_closed(sb, branches@[i].1@) by {
            assert(ea.contains_key(branches@[i].0.0));
            assert(stmts_closed(sa, branches@[i].1@));
        }
    }
}

} // verus!
