use crate::frontend::attribute::Attributes;
use crate::frontend::ast::{
    lemma_types_view, spec_type_text, text_of, types_view, TypeV, usize_text, Decl, DeclValue, Expr, ExprValue, LiquidType, LiquidTypeValue, Stmt,
    StmtValue, Type, TypeValue,
};
use crate::frontend::parser::spannable;
use crate::frontend::token::{text_len, token_end_loc, token_span_of, Token, TokenType};
use crate::utils::disjoint_sets::DisjointSets;
use crate::frontend::ast::spec_liquid_text;
use crate::utils::environment::{lookup, Environment};
use crate::utils::error::{counts_against_limit, primary_errors, Error, ErrorBuilder, ErrorCode, ErrorManager, Level, Style};
use crate::utils::id::{Gen, Id};
use crate::utils::loc::{loc_le, Loc, Span};
use vstd::prelude::*;

verus! {

/// The shape of a type term; the types inside it are term indices.
pub enum TermValue {
    Unit,
    /// A type variable, perhaps with a description of what it stands for.
    Var(Id, Option<String>),
    Name(String),
    Int64,
    Array(usize, usize),
    Function(Vec<usize>, Vec<usize>),
}

/// A type term with the tokens it came from.
pub struct Term {
    pub value: TermValue,
    pub start_token: Token,
    pub end_token: Token,
}

/// A size term with the tokens it came from.
pub struct LiquidTerm {
    pub value: LiquidTypeValue,
    pub start_token: Token,
    pub end_token: Token,
}

/// The value of a type term.
pub enum TermV {
    Unit,
    Var(Id),
    Name(Seq<char>),
    Int64,
    Array(usize, usize),
    Function(Seq<usize>, Seq<usize>),
}

/// The value of a type term, without descriptions and tokens.
pub open spec fn term_view(t: Term) -> TermV {
    match t.value {
        TermValue::Unit => TermV::Unit,
        TermValue::Var(id, _) => TermV::Var(id),
        TermValue::Name(name) => TermV::Name(name@),
        TermValue::Int64 => TermV::Int64,
        TermValue::Array(e, l) => TermV::Array(e, l),
        TermValue::Function(ins, outs) => TermV::Function(ins@, outs@),
    }
}

/// Whether two type terms have the same outermost constructor.
pub open spec fn same_shape(a: TermV, b: TermV) -> bool {
    match (a, b) {
        (TermV::Unit, TermV::Unit) => true,
        (TermV::Var(_), TermV::Var(_)) => true,
        (TermV::Name(_), TermV::Name(_)) => true,
        (TermV::Int64, TermV::Int64) => true,
        (TermV::Array(_, _), TermV::Array(_, _)) => true,
        (TermV::Function(_, _), TermV::Function(_, _)) => true,
        _ => false,
    }
}

/// The terms directly inside a term: an array's element, a function's
/// inputs then outputs.
pub open spec fn term_subterms(t: TermV) -> Seq<usize> {
    match t {
        TermV::Array(e, _) => seq![e],
        TermV::Function(ins, outs) => ins + outs,
        _ => Seq::empty(),
    }
}

/// The size terms directly inside a term.
pub open spec fn term_liquid_subterms(t: TermV) -> Seq<usize> {
    match t {
        TermV::Array(_, l) => seq![l],
        _ => Seq::empty(),
    }
}

/// A term refers only to earlier terms and existing size terms.
pub open spec fn term_ok(t: TermV, index: int, n_liquid: nat) -> bool {
    match t {
        TermV::Array(e, l) => e < index && l < n_liquid,
        TermV::Function(ins, outs) => (forall|i: int| 0 <= i < ins.len() ==> #[trigger] ins[i] < index)
            && (forall|i: int| 0 <= i < outs.len() ==> #[trigger] outs[i] < index),
        _ => true,
    }
}

/// A constraint that two terms be equal; a derived one remembers the
/// constraint it was derived from, through its ends.
#[derive(Clone, Copy)]
pub struct UnificationConstraint {
    pub expected: usize,
    pub actual: usize,
    pub root_expected: usize,
    pub root_actual: usize,
    pub is_derived: bool,
}

impl UnificationConstraint {
    /// Constructs a constraint that sets `expected` equal to `actual`.
    pub fn new(expected: usize, actual: usize) -> (result: Self)
        ensures
            result.expected == expected && result.actual == actual,
            result.root_expected == expected && result.root_actual == actual,
            !result.is_derived,
    {
        UnificationConstraint {
            expected,
            actual,
            root_expected: expected,
            root_actual: actual,
            is_derived: false,
        }
    }

    /// A constraint between subterms, derived from `source`.
    pub fn derived(expected: usize, actual: usize, source: &UnificationConstraint) -> (result: Self)
        ensures
            result.expected == expected && result.actual == actual,
            result.root_expected == source.root_expected,
            result.root_actual == source.root_actual,
            result.is_derived,
    {
        UnificationConstraint {
            expected,
            actual,
            root_expected: source.root_expected,
            root_actual: source.root_actual,
            is_derived: true,
        }
    }

    /// The expected end of the original constraint this one comes from.
    pub fn expected(&self) -> (result: usize)
        ensures
            result == self.root_expected,
    {
        self.root_expected
    }

    /// The actual end of the original constraint this one comes from.
    pub fn actual(&self) -> (result: usize)
        ensures
            result == self.root_actual,
    {
        self.root_actual
    }

    /// The constraint itself when it was derived, `None` when it is
    /// original.
    pub fn immediate(&self) -> (result: Option<&Self>)
        ensures
            result is Some <==> self.is_derived,
            result matches Some(r) ==> *r == *self,
    {
        if self.is_derived {
            Some(self)
        } else {
            None
        }
    }
}

/// Why type inference failed; the errors are recorded in the error
/// manager.
#[derive(PartialEq, Eq, Structural)]
pub enum InferError {
    UnboundName,
    UnificationFailure,
    AmbiguousType,
    OutOfIdentifiers,
}

/// Whether an expression can be type-checked: calls and member accesses are
/// not supported, and the only postfix operator is the subscript.
pub open spec fn inferable_expr(e: Expr) -> bool
    decreases e,
{
    match e.value {
        ExprValue::ConstantInt(_) => true,
        ExprValue::BoundName(_) => true,
        ExprValue::MemberAccess(_, _) => false,
        ExprValue::Call(_, _) => false,
        ExprValue::ArrayLiteral(elements, _) => inferable_exprs(elements@),
        ExprValue::PrefixOp(_, rhs) => inferable_expr(*rhs),
        ExprValue::InfixBop(lhs, _, rhs) => inferable_expr(*lhs) && inferable_expr(*rhs),
        ExprValue::PostfixBop(lhs, op1, index, op2) => op1.ty == TokenType::LeftBracket && op2.ty
            == TokenType::RightBracket && inferable_expr(*lhs) && inferable_expr(*index),
    }
}

/// Whether every expression of `es` can be type-checked.
pub open spec fn inferable_exprs(es: Seq<Expr>) -> bool
    decreases es,
{
    if es.len() == 0 {
        true
    } else {
        inferable_exprs(es.drop_last()) && inferable_expr(es.last())
    }
}

/// Whether a statement can be type-checked: dividers are not supported.
pub open spec fn inferable_stmt(s: Stmt) -> bool {
    match s.value {
        StmtValue::Let { value, .. } => inferable_expr(value),
        StmtValue::Assign(lhs, _, rhs) => inferable_expr(lhs) && inferable_expr(rhs),
        StmtValue::Divider(_) => false,
    }
}

/// Whether every declaration of a program can be type-checked.
pub open spec fn inferable_program(decls: Seq<Decl>) -> bool {
    forall|i: int|
        0 <= i < decls.len() ==> match #[trigger] decls[i].value {
            DeclValue::Function { body, .. } => forall|j: int|
                0 <= j < body@.len() ==> inferable_stmt(#[trigger] body@[j]),
        }
}

proof fn lemma_inferable_exprs(es: Seq<Expr>, i: int)
    requires
        inferable_exprs(es),
        0 <= i < es.len(),
    ensures
        inferable_expr(es[i]),
    decreases es.len(),
{
    if i < es.len() - 1 {
        assert(es.drop_last()[i] == es[i]);
        lemma_inferable_exprs(es.drop_last(), i);
    }
}

/// The number of nodes of the expression `e`; visiting a node hands out at
/// most two fresh identifiers.
pub open spec fn expr_size(e: Expr) -> nat
    decreases e,
{
    match e.value {
        ExprValue::ArrayLiteral(elements, _) => 1 + exprs_size(elements@),
        ExprValue::PrefixOp(_, rhs) => 1 + expr_size(*rhs),
        ExprValue::InfixBop(lhs, _, rhs) => 1 + expr_size(*lhs) + expr_size(*rhs),
        ExprValue::PostfixBop(lhs, _, index, _) => 1 + expr_size(*lhs) + expr_size(*index),
        _ => 1,
    }
}

/// The number of nodes of the expressions `es`.
pub open spec fn exprs_size(es: Seq<Expr>) -> nat
    decreases es,
{
    if es.len() == 0 {
        0
    } else {
        exprs_size(es.drop_last()) + expr_size(es.last())
    }
}

/// The number of expression nodes of the statement `s`.
pub open spec fn stmt_size(s: Stmt) -> nat {
    match s.value {
        StmtValue::Let { value, .. } => expr_size(value),
        StmtValue::Assign(lhs, _, rhs) => expr_size(lhs) + expr_size(rhs),
        StmtValue::Divider(_) => 0,
    }
}

/// The number of expression nodes of the statements `ss`.
pub open spec fn stmts_size(ss: Seq<Stmt>) -> nat
    decreases ss.len(),
{
    if ss.len() == 0 {
        0
    } else {
        stmts_size(ss.drop_last()) + stmt_size(ss.last())
    }
}

/// The number of expression nodes in the body of the function `d`.
pub open spec fn decl_size(d: Decl) -> nat {
    match d.value {
        DeclValue::Function { body, .. } => stmts_size(body@),
    }
}

/// The number of expression nodes of the program `ds`.
pub open spec fn decls_size(ds: Seq<Decl>) -> nat
    decreases ds.len(),
{
    if ds.len() == 0 {
        0
    } else {
        decls_size(ds.drop_last()) + decl_size(ds.last())
    }
}

proof fn lemma_exprs_size_pos(es: Seq<Expr>)
    requires
        es.len() > 0,
    ensures
        exprs_size(es) >= 1,
{
    assert(expr_size(es.last()) >= 1);
}

proof fn lemma_exprs_size_prefix(es: Seq<Expr>, i: int)
    requires
        0 <= i <= es.len(),
    ensures
        exprs_size(es.subrange(0, i)) <= exprs_size(es),
    decreases es.len(),
{
    if i < es.len() {
        assert(es.drop_last().subrange(0, i) =~= es.subrange(0, i));
        lemma_exprs_size_prefix(es.drop_last(), i);
    } else {
        assert(es.subrange(0, i) =~= es);
    }
}

proof fn lemma_stmts_size_prefix(ss: Seq<Stmt>, i: int)
    requires
        0 <= i <= ss.len(),
    ensures
        stmts_size(ss.subrange(0, i)) <= stmts_size(ss),
    decreases ss.len(),
{
    if i < ss.len() {
        assert(ss.drop_last().subrange(0, i) =~= ss.subrange(0, i));
        lemma_stmts_size_prefix(ss.drop_last(), i);
    } else {
        assert(ss.subrange(0, i) =~= ss);
    }
}

proof fn lemma_decls_size_prefix(ds: Seq<Decl>, i: int)
    requires
        0 <= i <= ds.len(),
    ensures
        decls_size(ds.subrange(0, i)) <= decls_size(ds),
    decreases ds.len(),
{
    if i < ds.len() {
        assert(ds.drop_last().subrange(0, i) =~= ds.subrange(0, i));
        lemma_decls_size_prefix(ds.drop_last(), i);
    } else {
        assert(ds.subrange(0, i) =~= ds);
    }
}

/// Where a node whose last token is `end` ends: at the start of a newline,
/// and just past the text of any other token.
pub open spec fn node_end_loc(end: Token) -> Loc {
    if end.ty == TokenType::Newline {
        end.loc
    } else {
        token_end_loc(end)
    }
}

/// The span of a node from its first token `start` to its last token `end`:
/// none when the first token has no span; from the start of `start` to the
/// end of the node when `end` has a span that does not begin before
/// `start`; otherwise the span of `start` alone.
pub open spec fn spec_node_span(start: Token, end: Token) -> Option<Span> {
    if !spannable(start) {
        None
    } else if spannable(end) && loc_le(start.loc, node_end_loc(end)) {
        Some(Span { start: start.loc, end: node_end_loc(end) })
    } else {
        Some(token_span_of(start))
    }
}

/// The span of a node from its first to its last token (see
/// [`spec_node_span`]).
fn node_span(start: &Token, end: &Token) -> (result: Option<Span>)
    ensures
        result == spec_node_span(*start, *end),
{
    let start_len = start.length();
    if start.loc.pos < 0 || start_len > isize::MAX as usize || start.loc.pos > isize::MAX
        - start_len as isize || start.loc.col > isize::MAX - start_len as isize {
        return None;
    }
    let end_len = end.length();
    if end.loc.pos >= 0 && end_len <= isize::MAX as usize && end.loc.pos <= isize::MAX
        - end_len as isize && end.loc.col <= isize::MAX - end_len as isize {
        let end_loc = if end.ty == TokenType::Newline {
            end.loc.duplicate()
        } else {
            end.end()
        };
        if start.loc.le(&end_loc) {
            return Some(Span::new(start.loc.duplicate(), end_loc));
        }
    }
    Some(start.span())
}

/// Every bound value is a term index below `n`.
pub open spec fn env_bounded(scopes: Seq<Map<Seq<char>, usize>>, n: nat) -> bool {
    forall|i: int, k: Seq<char>|
        0 <= i < scopes.len() && #[trigger] scopes[i].contains_key(k) ==> scopes[i][k] < n
}

/// An original constraint is its own root.
pub open spec fn originals_are_roots(c: UnificationConstraint) -> bool {
    !c.is_derived ==> c.root_expected == c.expected && c.root_actual == c.actual
}

proof fn lemma_lookup_bounded(scopes: Seq<Map<Seq<char>, usize>>, name: Seq<char>, n: nat)
    requires
        env_bounded(scopes, n),
    ensures
        lookup(scopes, name) matches Some(v) ==> v < n,
    decreases scopes.len(),
{
    if scopes.len() > 0 && !scopes.last().contains_key(name) {
        assert(env_bounded(scopes.drop_last(), n)) by {
            assert forall|i: int, k: Seq<char>|
                0 <= i < scopes.drop_last().len() && #[trigger] scopes.drop_last()[i].contains_key(
                    k,
                ) implies scopes.drop_last()[i][k] < n by {
                assert(scopes.drop_last()[i] == scopes[i]);
            }
        }
        lemma_lookup_bounded(scopes.drop_last(), name, n);
    }
}

/// Infers the types of a program with the standard Hindley-Milner method:
/// it gathers constraints between type terms and unifies them.
pub struct TypeInferer {
    pub terms: Vec<Term>,
    pub liquids: Vec<LiquidTerm>,
    pub env: Environment<usize>,
    pub type_constraints: Vec<UnificationConstraint>,
    pub liquid_constraints: Vec<UnificationConstraint>,
    pub gen: Gen,
    /// The type term of each expression, in the order visited.
    pub expr_types: Vec<usize>,
}

impl TypeInferer {
    /// Terms refer only to earlier terms and existing size terms, and every
    /// constraint relates existing terms.
    pub open spec fn wf(&self) -> bool {
        &&& self.env.wf()
        &&& forall|i: int|
            0 <= i < self.terms@.len() ==> term_ok(
                term_view(#[trigger] self.terms@[i]),
                i,
                self.liquids@.len(),
            )
        &&& forall|i: int|
            0 <= i < self.type_constraints@.len() ==> {
                let c = #[trigger] self.type_constraints@[i];
                c.expected < self.terms@.len() && c.actual < self.terms@.len()
                    && c.root_expected < self.terms@.len() && c.root_actual < self.terms@.len()
            }
        &&& forall|i: int|
            0 <= i < self.liquid_constraints@.len() ==> {
                let c = #[trigger] self.liquid_constraints@[i];
                c.expected < self.liquids@.len() && c.actual < self.liquids@.len()
                    && c.root_expected < self.liquids@.len() && c.root_actual
                    < self.liquids@.len()
            }
        &&& forall|i: int|
            0 <= i < self.expr_types@.len() ==> #[trigger] self.expr_types@[i] < self.terms@.len()
        &&& env_bounded(self.env.view(), self.terms@.len())
        &&& forall|i: int|
            0 <= i < self.type_constraints@.len() ==> originals_are_roots(
                #[trigger] self.type_constraints@[i],
            )
        &&& forall|i: int|
            0 <= i < self.liquid_constraints@.len() ==> originals_are_roots(
                #[trigger] self.liquid_constraints@[i],
            )
    }

    /// What growing the inferer keeps: well-formedness and every existing
    /// term, size term and constraint.
    pub open spec fn grows(old_self: TypeInferer, new_self: TypeInferer) -> bool {
        &&& new_self.wf()
        &&& old_self.terms@.len() <= new_self.terms@.len()
        &&& forall|i: int|
            0 <= i < old_self.terms@.len() ==> term_view(#[trigger] new_self.terms@[i])
                == term_view(old_self.terms@[i])
        &&& old_self.liquids@.len() <= new_self.liquids@.len()
        &&& old_self.type_constraints@.len() <= new_self.type_constraints@.len()
        &&& forall|i: int|
            0 <= i < old_self.type_constraints@.len() ==> #[trigger] new_self.type_constraints@[i]
                == old_self.type_constraints@[i]
        &&& old_self.liquid_constraints@.len() <= new_self.liquid_constraints@.len()
        &&& forall|i: int|
            0 <= i < old_self.liquid_constraints@.len() ==> #[trigger] new_self.liquid_constraints@[i]
                == old_self.liquid_constraints@[i]
    }

    /// An inferer with no terms, constraints or bindings.
    pub fn new() -> (result: Self)
        ensures
            result.wf(),
            result.terms@.len() == 0,
            result.type_constraints@.len() == 0,
            result.liquid_constraints@.len() == 0,
            result.liquids@.len() == 0,
            result.expr_types@.len() == 0,
            result.env.view() == seq![Map::<Seq<char>, usize>::empty()],
            result.gen.upcoming() == 0,
    {
        TypeInferer {
            terms: Vec::new(),
            liquids: Vec::new(),
            env: Environment::new(),
            type_constraints: Vec::new(),
            liquid_constraints: Vec::new(),
            gen: Gen::new(),
            expr_types: Vec::new(),
        }
    }

    /// Adds a term.
    fn add_term(&mut self, value: TermValue, start_token: Token, end_token: Token) -> (result: usize)
        requires
            old(self).wf(),
            term_ok(
                term_view(Term { value, start_token, end_token }),
                old(self).terms@.len() as int,
                old(self).liquids@.len(),
            ),
        ensures
            TypeInferer::grows(*old(self), *final(self)),
            result == old(self).terms@.len(),
            final(self).terms@.len() == old(self).terms@.len() + 1,
            term_view(final(self).terms@[result as int]) == term_view(
                Term { value, start_token, end_token },
            ),
            final(self).liquids@ == old(self).liquids@,
            final(self).type_constraints@ == old(self).type_constraints@,
            final(self).liquid_constraints@ == old(self).liquid_constraints@,
            final(self).gen == old(self).gen,
            final(self).env == old(self).env,
            final(self).expr_types == old(self).expr_types,
    {
        let result = self.terms.len();
        self.terms.push(Term { value, start_token, end_token });
        proof {
            assert(self.type_constraints@.subrange(0, old(self).type_constraints@.len() as int)
                =~= old(self).type_constraints@);
            assert(self.liquid_constraints@.subrange(
                0,
                old(self).liquid_constraints@.len() as int,
            ) =~= old(self).liquid_constraints@);
            assert forall|i: int| 0 <= i < self.terms@.len() implies term_ok(
                term_view(#[trigger] self.terms@[i]),
                i,
                self.liquids@.len(),
            ) by {
                if i < result {
                    assert(self.terms@[i] == old(self).terms@[i]);
                }
            }
        }
        result
    }

    /// Adds a size term.
    fn add_liquid(&mut self, value: LiquidTypeValue, start_token: Token, end_token: Token) -> (result:
        usize)
        requires
            old(self).wf(),
        ensures
            TypeInferer::grows(*old(self), *final(self)),
            result == old(self).liquids@.len(),
            final(self).liquids@.len() == old(self).liquids@.len() + 1,
            final(self).liquids@[result as int].value == value,
            final(self).terms@ == old(self).terms@,
            final(self).type_constraints@ == old(self).type_constraints@,
            final(self).liquid_constraints@ == old(self).liquid_constraints@,
            final(self).gen == old(self).gen,
            final(self).env == old(self).env,
            final(self).expr_types == old(self).expr_types,
    {
        let result = self.liquids.len();
        self.liquids.push(LiquidTerm { value, start_token, end_token });
        proof {
            assert(self.type_constraints@.subrange(0, old(self).type_constraints@.len() as int)
                =~= old(self).type_constraints@);
            assert(self.liquid_constraints@.subrange(
                0,
                old(self).liquid_constraints@.len() as int,
            ) =~= old(self).liquid_constraints@);
            assert forall|i: int| 0 <= i < self.terms@.len() implies term_ok(
                term_view(#[trigger] self.terms@[i]),
                i,
                self.liquids@.len(),
            ) by {
                assert(term_ok(term_view(old(self).terms@[i]), i, old(self).liquids@.len()));
            }
        }
        result
    }

    /// Records that `expected` and `actual` must be the same type.
    fn new_constraint(&mut self, expected: usize, actual: usize)
        requires
            old(self).wf(),
            expected < old(self).terms@.len(),
            actual < old(self).terms@.len(),
        ensures
            TypeInferer::grows(*old(self), *final(self)),
            final(self).terms@ == old(self).terms@,
            final(self).liquids@ == old(self).liquids@,
            final(self).type_constraints@ == old(self).type_constraints@.push(
                UnificationConstraint::new_spec(expected, actual),
            ),
            final(self).liquid_constraints@ == old(self).liquid_constraints@,
            final(self).gen == old(self).gen,
            final(self).env == old(self).env,
            final(self).expr_types == old(self).expr_types,
    {
        self.type_constraints.push(UnificationConstraint::new(expected, actual));
        proof {
            assert(self.type_constraints@.subrange(0, old(self).type_constraints@.len() as int)
                =~= old(self).type_constraints@);
            assert(self.liquid_constraints@.subrange(
                0,
                old(self).liquid_constraints@.len() as int,
            ) =~= old(self).liquid_constraints@);
        }
    }

    /// Turns a type from the program into terms.
    fn intern_type(&mut self, t: &Type) -> (result: usize)
        requires
            old(self).wf(),
        ensures
            TypeInferer::grows(*old(self), *final(self)),
            result < final(self).terms@.len(),
            old(self).terms@.len() <= result,
            interned_as(term_view(final(self).terms@[result as int]), t@),
            final(self).type_constraints@ == old(self).type_constraints@,
            final(self).liquid_constraints@ == old(self).liquid_constraints@,
            final(self).gen == old(self).gen,
            final(self).env == old(self).env,
            final(self).expr_types == old(self).expr_types,
        decreases *t,
    {
        let value = match &t.value {
            TypeValue::Unit => TermValue::Unit,
            TypeValue::Var(id) => TermValue::Var(*id, None),
            TypeValue::Name(name) => TermValue::Name(name.clone()),
            TypeValue::Int64 => TermValue::Int64,
            TypeValue::Array(element, count) => {
                let e = self.intern_type(element);
                let l = self.add_liquid(
                    count.value,
                    count.start_token.duplicate(),
                    count.end_token.duplicate(),
                );
                TermValue::Array(e, l)
            },
            TypeValue::Function { inputs, outputs } => {
                let ins = self.intern_types(inputs);
                let outs = self.intern_types(outputs);
                proof {
                    lemma_types_view(inputs@);
                    lemma_types_view(outputs@);
                }
                TermValue::Function(ins, outs)
            },
        };
        self.add_term(value, t.start_token.duplicate(), t.end_token.duplicate())
    }

    /// Turns a list of types from the program into terms.
    fn intern_types(&mut self, ts: &Vec<Type>) -> (result: Vec<usize>)
        requires
            old(self).wf(),
        ensures
            TypeInferer::grows(*old(self), *final(self)),
            forall|i: int| 0 <= i < result@.len() ==> #[trigger] result@[i] < final(self).terms@.len(),
            result@.len() == ts@.len(),
            forall|i: int|
                0 <= i < result@.len() ==> old(self).terms@.len() <= #[trigger] result@[i]
                    && interned_as(term_view(final(self).terms@[result@[i] as int]), ts@[i]@),
            final(self).type_constraints@ == old(self).type_constraints@,
            final(self).liquid_constraints@ == old(self).liquid_constraints@,
            final(self).gen == old(self).gen,
            final(self).env == old(self).env,
            final(self).expr_types == old(self).expr_types,
        decreases ts@,
    {
        let mut result: Vec<usize> = Vec::new();
        let n = ts.len();
        let mut i: usize = 0;
        let ghost start = *self;
        proof {
            lemma_grows_refl(start);
        }
        while i < n
            invariant
                0 <= i <= n,
                n == ts@.len(),
                TypeInferer::grows(start, *self),
                start == *old(self),
                forall|j: int| 0 <= j < result@.len() ==> #[trigger] result@[j] < self.terms@.len(),
                result@.len() == i,
                forall|j: int|
                    0 <= j < result@.len() ==> old(self).terms@.len() <= #[trigger] result@[j]
                        && interned_as(term_view(self.terms@[result@[j] as int]), ts@[j]@),
                self.type_constraints@ == old(self).type_constraints@,
                self.liquid_constraints@ == old(self).liquid_constraints@,
                self.gen == old(self).gen,
                self.env == old(self).env,
                self.expr_types == old(self).expr_types,
            decreases n - i,
        {
            proof {
                assert(decreases_to!(ts@ => ts@[i as int]));
            }
            let ghost before = *self;
            let t = self.intern_type(&ts[i]);
            result.push(t);
            proof {
                lemma_grows_trans(start, before, *self);
            }
            i = i + 1;
        }
        result
    }
}

impl UnificationConstraint {
    /// The constraint [`UnificationConstraint::new`] makes.
    pub open spec fn new_spec(expected: usize, actual: usize) -> UnificationConstraint {
        UnificationConstraint {
            expected,
            actual,
            root_expected: expected,
            root_actual: actual,
            is_derived: false,
        }
    }
}

proof fn lemma_grows_refl(a: TypeInferer)
    requires
        a.wf(),
    ensures
        TypeInferer::grows(a, a),
{
    assert(a.type_constraints@.subrange(0, a.type_constraints@.len() as int) =~= a.type_constraints@);
    assert(a.liquid_constraints@.subrange(0, a.liquid_constraints@.len() as int)
        =~= a.liquid_constraints@);
}

proof fn lemma_grows_trans(a: TypeInferer, b: TypeInferer, c: TypeInferer)
    requires
        TypeInferer::grows(a, b),
        TypeInferer::grows(b, c),
    ensures
        TypeInferer::grows(a, c),
{
    assert(c.type_constraints@.subrange(0, a.type_constraints@.len() as int) =~= b.type_constraints@.subrange(
        0,
        a.type_constraints@.len() as int,
    ));
    assert(c.liquid_constraints@.subrange(0, a.liquid_constraints@.len() as int)
        =~= b.liquid_constraints@.subrange(0, a.liquid_constraints@.len() as int));
    assert forall|i: int| 0 <= i < a.terms@.len() implies term_view(#[trigger] c.terms@[i])
        == term_view(a.terms@[i]) by {
        assert(term_view(c.terms@[i]) == term_view(b.terms@[i]));
    }
}

/// Whether a term has the outermost form of the type it was made from: the
/// same unit, variable, name or integer; an array for an array; and a
/// function with as many inputs and outputs for a function.
pub open spec fn interned_as(t: TermV, ty: TypeV) -> bool {
    match (t, ty) {
        (TermV::Unit, TypeV::Unit) => true,
        (TermV::Var(a), TypeV::Var(b)) => a == b,
        (TermV::Name(a), TypeV::Name(b)) => a == b,
        (TermV::Int64, TypeV::Int64) => true,
        (TermV::Array(_, _), TypeV::Array(_, _)) => true,
        (TermV::Function(ins, outs), TypeV::Function(tins, touts)) => ins.len() == tins.len()
            && outs.len() == touts.len(),
        _ => false,
    }
}

/// The names of the first `end` parameters.
pub open spec fn names_upto(params: Seq<(Token, Type)>, end: int) -> Set<Seq<char>> {
    Set::new(|x: Seq<char>| exists|j: int| 0 <= j < end && (#[trigger] params[j]).0.value@ == x)
}

/// Two scopes bind every name outside `names` alike.
pub open spec fn same_outside(a: Map<Seq<char>, usize>, b: Map<Seq<char>, usize>, names: Set<Seq<char>>) -> bool {
    forall|x: Seq<char>|
        #![trigger a.contains_key(x)]
        #![trigger b.contains_key(x)]
        !names.contains(x) ==> (a.contains_key(x) == b.contains_key(x) && (a.contains_key(x) ==> a[x]
            == b[x]))
}

/// The names of the first `i + 1` parameters are those of the first `i` and
/// that of parameter `i`.
proof fn lemma_names_upto_step(params: Seq<(Token, Type)>, i: int)
    requires
        0 <= i < params.len(),
    ensures
        names_upto(params, i + 1) == names_upto(params, i).insert(params[i].0.value@),
{
    let name = params[i].0.value@;
    assert forall|x: Seq<char>| names_upto(params, i + 1).contains(x) implies names_upto(
        params,
        i,
    ).insert(name).contains(x) by {
        let j = choose|j: int| 0 <= j < i + 1 && params[j].0.value@ == x;
        if j < i {
            assert(names_upto(params, i).contains(x));
        }
    }
    assert forall|x: Seq<char>| names_upto(params, i).insert(name).contains(x) implies names_upto(
        params,
        i + 1,
    ).contains(x) by {
        if x == name {
            assert(params[i].0.value@ == x);
        } else {
            let j = choose|j: int| 0 <= j < i && params[j].0.value@ == x;
            assert(0 <= j < i + 1 && params[j].0.value@ == x);
        }
    }
    assert(names_upto(params, i + 1) =~= names_upto(params, i).insert(name));
}

/// The names that the scopes `scopes` bind.
pub open spec fn names_of(scopes: Seq<Map<Seq<char>, usize>>) -> Set<Seq<char>> {
    Set::new(|x: Seq<char>| lookup(scopes, x) is Some)
}

/// Whether every name that the expression `e` reads is among `names`.
pub open spec fn expr_names_bound(e: Expr, names: Set<Seq<char>>) -> bool
    decreases e,
{
    match e.value {
        ExprValue::BoundName(name) => names.contains(name.value@),
        ExprValue::ArrayLiteral(elements, _) => exprs_names_bound(elements@, names),
        ExprValue::PrefixOp(_, rhs) => expr_names_bound(*rhs, names),
        ExprValue::InfixBop(lhs, _, rhs) => expr_names_bound(*lhs, names) && expr_names_bound(
            *rhs,
            names,
        ),
        ExprValue::PostfixBop(lhs, _, index, _) => expr_names_bound(*lhs, names)
            && expr_names_bound(*index, names),
        _ => true,
    }
}

/// Whether every name that the expressions `es` read is among `names`.
pub open spec fn exprs_names_bound(es: Seq<Expr>, names: Set<Seq<char>>) -> bool
    decreases es,
{
    if es.len() == 0 {
        true
    } else {
        exprs_names_bound(es.drop_last(), names) && expr_names_bound(es.last(), names)
    }
}

/// Whether every name that the statement `s` reads is among `names`.
pub open spec fn stmt_names_bound(s: Stmt, names: Set<Seq<char>>) -> bool {
    match s.value {
        StmtValue::Let { value, .. } => expr_names_bound(value, names),
        StmtValue::Assign(lhs, _, rhs) => expr_names_bound(lhs, names) && expr_names_bound(rhs, names),
        StmtValue::Divider(_) => true,
    }
}

/// The names bound after the statements `ss`, starting from `names`: each
/// `let` binds its name.
pub open spec fn names_after(ss: Seq<Stmt>, names: Set<Seq<char>>) -> Set<Seq<char>>
    decreases ss.len(),
{
    if ss.len() == 0 {
        names
    } else {
        names_after_stmt(ss.last(), names_after(ss.drop_last(), names))
    }
}

/// The names bound after the statement `s`, starting from `names`.
pub open spec fn names_after_stmt(s: Stmt, names: Set<Seq<char>>) -> Set<Seq<char>> {
    match s.value {
        StmtValue::Let { name, .. } => names.insert(name.value@),
        _ => names,
    }
}

/// Whether every statement of `ss` reads only names bound before it,
/// starting from `names`.
pub open spec fn stmts_names_bound(ss: Seq<Stmt>, names: Set<Seq<char>>) -> bool
    decreases ss.len(),
{
    if ss.len() == 0 {
        true
    } else {
        stmts_names_bound(ss.drop_last(), names) && stmt_names_bound(
            ss.last(),
            names_after(ss.drop_last(), names),
        )
    }
}

/// Whether the body of the function `d` reads only names bound before:
/// `names`, its parameters, and its earlier `let` bindings.
pub open spec fn decl_names_bound(d: Decl, names: Set<Seq<char>>) -> bool {
    match d.value {
        DeclValue::Function { inputs, outputs, body, .. } => stmts_names_bound(
            body@,
            names.union(names_upto(inputs@, inputs@.len() as int)).union(
                names_upto(outputs@, outputs@.len() as int),
            ),
        ),
    }
}

/// The names of the functions `ds`.
pub open spec fn fn_names(ds: Seq<Decl>) -> Set<Seq<char>> {
    Set::new(
        |x: Seq<char>|
            exists|i: int|
                0 <= i < ds.len() && match (#[trigger] ds[i]).value {
                    DeclValue::Function { name, .. } => name.value@ == x,
                },
    )
}

/// Whether every function of `ds` reads only names bound before, starting
/// from `names`.
pub open spec fn decls_names_bound(ds: Seq<Decl>, names: Set<Seq<char>>) -> bool {
    forall|i: int| 0 <= i < ds.len() ==> decl_names_bound(#[trigger] ds[i], names)
}

proof fn lemma_exprs_names_bound(es: Seq<Expr>, i: int, names: Set<Seq<char>>)
    requires
        exprs_names_bound(es, names),
        0 <= i < es.len(),
    ensures
        expr_names_bound(es[i], names),
    decreases es.len(),
{
    if i < es.len() - 1 {
        assert(es.drop_last()[i] == es[i]);
        lemma_exprs_names_bound(es.drop_last(), i, names);
    }
}

proof fn lemma_stmts_names_bound_prefix(ss: Seq<Stmt>, j: int, names: Set<Seq<char>>)
    requires
        stmts_names_bound(ss, names),
        0 <= j <= ss.len(),
    ensures
        stmts_names_bound(ss.subrange(0, j), names),
    decreases ss.len(),
{
    if j < ss.len() {
        assert(ss.drop_last().subrange(0, j) =~= ss.subrange(0, j));
        lemma_stmts_names_bound_prefix(ss.drop_last(), j, names);
    } else {
        assert(ss.subrange(0, j) =~= ss);
    }
}

/// Changing only the top scope: the names bound are those of the other
/// scopes and of the new top scope.
proof fn lemma_names_top(a: Seq<Map<Seq<char>, usize>>, b: Seq<Map<Seq<char>, usize>>)
    requires
        a.len() > 0,
        b.len() == a.len(),
        b.drop_last() == a.drop_last(),
    ensures
        names_of(b) == names_of(a.drop_last()).union(b.last().dom()),
        names_of(a) == names_of(a.drop_last()).union(a.last().dom()),
{
    assert(names_of(b) =~= names_of(a.drop_last()).union(b.last().dom()));
    assert(names_of(a) =~= names_of(a.drop_last()).union(a.last().dom()));
}

/// Binding parameters in the top scope adds their names to those bound.
proof fn lemma_names_params(
    a: Seq<Map<Seq<char>, usize>>,
    b: Seq<Map<Seq<char>, usize>>,
    params: Seq<(Token, Type)>,
)
    requires
        a.len() > 0,
        b.len() == a.len(),
        b.drop_last() == a.drop_last(),
        forall|k: int| 0 <= k < params.len() ==> b.last().contains_key((#[trigger] params[k]).0.value@),
        same_outside(b.last(), a.last(), names_upto(params, params.len() as int)),
    ensures
        names_of(b) == names_of(a).union(names_upto(params, params.len() as int)),
{
    lemma_names_top(a, b);
    let ns = names_upto(params, params.len() as int);
    assert forall|x: Seq<char>| b.last().dom().contains(x) <==> (a.last().dom().contains(x)
        || ns.contains(x)) by {
        if ns.contains(x) {
            let j = choose|j: int| 0 <= j < params.len() && (#[trigger] params[j]).0.value@ == x;
            assert(b.last().contains_key(params[j].0.value@));
        } else {
            assert(b.last().contains_key(x) == a.last().contains_key(x));
        }
    }
    assert(names_of(b) =~= names_of(a).union(ns));
}

/// A new empty scope on top binds nothing new.
proof fn lemma_names_push(a: Seq<Map<Seq<char>, usize>>)
    ensures
        names_of(a.push(Map::empty())) == names_of(a),
{
    assert(a.push(Map::empty()).drop_last() =~= a);
    assert(names_of(a.push(Map::empty())) =~= names_of(a));
}

/// Binding `name` in the base scope adds it to the names bound.
proof fn lemma_names_base(a: Seq<Map<Seq<char>, usize>>, name: Seq<char>, v: usize)
    requires
        a.len() > 0,
    ensures
        names_of(a.update(0, a[0].insert(name, v))) == names_of(a).insert(name),
    decreases a.len(),
{
    let b = a.update(0, a[0].insert(name, v));
    if a.len() == 1 {
        assert(a.drop_last() =~= Seq::<Map<Seq<char>, usize>>::empty());
        assert(b.drop_last() =~= Seq::<Map<Seq<char>, usize>>::empty());
        assert(names_of(b) =~= names_of(a).insert(name));
    } else {
        let a1 = a.drop_last();
        assert(b.drop_last() =~= a1.update(0, a1[0].insert(name, v)));
        lemma_names_base(a1, name, v);
        assert forall|x: Seq<char>| names_of(b).contains(x) <==> names_of(a).insert(name).contains(x) by {
            assert(names_of(b.drop_last()).contains(x) <==> names_of(a1).insert(name).contains(x));
        }
        assert(names_of(b) =~= names_of(a).insert(name));
    }
}

/// Binding `name` leaves the other names of a scope as they were.
proof fn lemma_scope_untouched(
    prev: Map<Seq<char>, usize>,
    new: Map<Seq<char>, usize>,
    orig: Map<Seq<char>, usize>,
    names: Set<Seq<char>>,
    name: Seq<char>,
    t: usize,
)
    requires
        same_outside(prev, orig, names),
        new == prev.insert(name, t),
    ensures
        same_outside(new, orig, names.insert(name)),
{
    assert forall|x: Seq<char>| !names.insert(name).contains(x) implies (new.contains_key(x)
        == orig.contains_key(x) && (new.contains_key(x) ==> new[x] == orig[x])) by {
        assert(x != name);
        assert(!names.contains(x));
        assert(prev.contains_key(x) == orig.contains_key(x));
        assert(new.contains_key(x) == prev.contains_key(x));
    }
}

/// Every scope binds the names outside the empty set as itself does.
proof fn lemma_same_outside_refl(a: Map<Seq<char>, usize>, names: Set<Seq<char>>)
    ensures
        same_outside(a, a, names),
{
}

/// The names of a list of parameters, in order.
pub open spec fn param_names(params: Seq<(Token, Type)>) -> Seq<Seq<char>> {
    Seq::new(params.len(), |k: int| params[k].0.value@)
}

/// No parameter after the `k`th and before the `end`th has the same name:
/// the `k`th is the one whose binding stands.
pub open spec fn last_binding(params: Seq<(Token, Type)>, k: int, end: int) -> bool {
    forall|j: int| k < j < end ==> (#[trigger] params[j]).0.value@ != params[k].0.value@
}

/// The values of the terms of `terms`.
pub open spec fn term_views(terms: Seq<Term>) -> Seq<TermV> {
    Seq::new(terms.len(), |i: int| term_view(terms[i]))
}

/// The values of the size terms of `liquids`.
pub open spec fn liquid_values(liquids: Seq<LiquidTerm>) -> Seq<LiquidTypeValue> {
    Seq::new(liquids.len(), |i: int| liquids[i].value)
}

/// The size at index `l`, or an unknown size outside the list.
pub open spec fn liquid_at(ls: Seq<LiquidTypeValue>, l: usize) -> LiquidTypeValue {
    if l < ls.len() {
        ls[l as int]
    } else {
        LiquidTypeValue::All(0)
    }
}

/// The type that term `i` stands for, with its subterms expanded; a
/// subterm that does not come before its term reads as unit.
pub open spec fn term_tree(ts: Seq<TermV>, ls: Seq<LiquidTypeValue>, i: int) -> TypeV
    decreases i, 1nat, 0nat,
{
    if 0 <= i < ts.len() {
        match ts[i] {
            TermV::Unit => TypeV::Unit,
            TermV::Var(id) => TypeV::Var(id),
            TermV::Name(name) => TypeV::Name(name),
            TermV::Int64 => TypeV::Int64,
            TermV::Array(e, l) => TypeV::Array(
                Box::new(
                    if e < i {
                        term_tree(ts, ls, e as int)
                    } else {
                        TypeV::Unit
                    },
                ),
                liquid_at(ls, l),
            ),
            TermV::Function(ins, outs) => TypeV::Function(
                term_trees(ts, ls, ins, i),
                term_trees(ts, ls, outs, i),
            ),
        }
    } else {
        TypeV::Unit
    }
}

/// The types that the terms `s` stand for, each of which must come before
/// `bound`.
pub open spec fn term_trees(ts: Seq<TermV>, ls: Seq<LiquidTypeValue>, s: Seq<usize>, bound: int) -> Seq<
    TypeV,
>
    decreases bound, 0nat, s.len(),
{
    if s.len() == 0 {
        Seq::empty()
    } else {
        term_trees(ts, ls, s.drop_last(), bound).push(
            if 0 <= s.last() < bound {
                term_tree(ts, ls, s.last() as int)
            } else {
                TypeV::Unit
            },
        )
    }
}

proof fn lemma_term_trees_len(ts: Seq<TermV>, ls: Seq<LiquidTypeValue>, s: Seq<usize>, bound: int)
    ensures
        term_trees(ts, ls, s, bound).len() == s.len(),
    decreases s.len(),
{
    if s.len() > 0 {
        lemma_term_trees_len(ts, ls, s.drop_last(), bound);
    }
}

impl TypeInferer {
    /// The type that term `i` stands for.
    pub open spec fn tree(&self, i: int) -> TypeV {
        term_tree(term_views(self.terms@), liquid_values(self.liquids@), i)
    }

    /// Builds the type that term `i` stands for.
    fn term_type(&self, i: usize) -> (result: Type)
        requires
            self.wf(),
            i < self.terms@.len(),
        ensures
            result@ == self.tree(i as int),
        decreases i,
    {
        let ghost ts = term_views(self.terms@);
        let ghost ls = liquid_values(self.liquids@);
        let term = &self.terms[i];
        assert(term_ok(term_view(self.terms@[i as int]), i as int, self.liquids@.len()));
        assert(ts[i as int] == term_view(*term));
        let value = match &term.value {
            TermValue::Unit => TypeValue::Unit,
            TermValue::Var(id, _) => TypeValue::Var(*id),
            TermValue::Name(name) => TypeValue::Name(name.clone()),
            TermValue::Int64 => TypeValue::Int64,
            TermValue::Array(e, l) => {
                let element = self.term_type(*e);
                let count = &self.liquids[*l];
                TypeValue::Array(
                    Box::new(element),
                    Box::new(
                        LiquidType {
                            value: count.value,
                            attributes: Attributes::empty(),
                            start_token: count.start_token.duplicate(),
                            end_token: count.end_token.duplicate(),
                        },
                    ),
                )
            },
            TermValue::Function(ins, outs) => {
                let inputs = self.term_types(ins, i);
                let outputs = self.term_types(outs, i);
                TypeValue::Function { inputs, outputs }
            },
        };
        Type {
            value,
            attributes: Attributes::empty(),
            start_token: term.start_token.duplicate(),
            end_token: term.end_token.duplicate(),
        }
    }

    /// Builds the types that the terms `s` stand for.
    fn term_types(&self, s: &Vec<usize>, bound: usize) -> (result: Vec<Type>)
        requires
            self.wf(),
            bound < self.terms@.len(),
            forall|k: int| 0 <= k < s@.len() ==> #[trigger] s@[k] < bound,
        ensures
            types_view(result@) == term_trees(
                term_views(self.terms@),
                liquid_values(self.liquids@),
                s@,
                bound as int,
            ),
        decreases bound, 0nat, s@.len(),
    {
        let ghost ts = term_views(self.terms@);
        let ghost ls = liquid_values(self.liquids@);
        let mut result: Vec<Type> = Vec::new();
        let n = s.len();
        let mut k: usize = 0;
        assert(s@.subrange(0, 0) =~= Seq::<usize>::empty());
        while k < n
            invariant
                self.wf(),
                0 <= k <= n,
                n == s@.len(),
                bound < self.terms@.len(),
                forall|j: int| 0 <= j < s@.len() ==> #[trigger] s@[j] < bound,
                ts == term_views(self.terms@),
                ls == liquid_values(self.liquids@),
                types_view(result@) == term_trees(ts, ls, s@.subrange(0, k as int), bound as int),
            decreases n - k,
        {
            let t = self.term_type(s[k]);
            let ghost before = result@;
            result.push(t);
            proof {
                let pre = s@.subrange(0, k + 1);
                assert(pre.drop_last() =~= s@.subrange(0, k as int));
                assert(result@.drop_last() =~= before);
            }
            k = k + 1;
        }
        assert(s@.subrange(0, n as int) =~= s@);
        result
    }

    /// How term `i` is displayed (see [`spec_type_text`]).
    pub fn term_text(&self, i: usize) -> (result: String)
        requires
            self.wf(),
            i < self.terms@.len(),
        ensures
            result@ == spec_type_text(self.tree(i as int)),
    {
        self.term_type(i).to_text()
    }
}

/// Adds the error `error` to `em`.
fn report(em: &mut ErrorManager, error: Error)
    requires
        old(em).wf(),
    ensures
        final(em).wf(),
        final(em).limit() == old(em).limit(),
        primary_errors(old(em).recorded()) < old(em).limit() ==> final(em).recorded() == old(
            em,
        ).recorded().push(error),
        final(em).recorded().len() >= old(em).recorded().len(),
        forall|k: int|
            0 <= k < old(em).recorded().len() ==> #[trigger] final(em).recorded()[k] == old(
                em,
            ).recorded()[k],
{
    let _ = em.record(error);
}

/// `a`, `b` and `c` one after another.
fn concat3(a: &str, b: &str, c: &str) -> (result: String)
    ensures
        result@ == a@ + b@ + c@,
{
    let mut result = text_of(a);
    result.append(b);
    result.append(c);
    result
}

/// Locates the error under construction at `span`, or nowhere when there is
/// no span.
fn located(builder: ErrorBuilder, span: Option<Span>) -> (result: ErrorBuilder)
    ensures
        result@ == (Error { span, ..builder@ }),
{
    match span {
        Some(span) => builder.span(span),
        None => builder.without_loc(),
    }
}

/// `Unbound function or variable` followed by the name in backquotes.
pub open spec fn unbound_message(name: Seq<char>) -> Seq<char> {
    "Unbound function or variable `"@ + name + "`"@
}

/// Whether, going from `a` to `b`, the error manager recorded that the name
/// `x` is bound to nothing, as it must when it had room.
pub open spec fn reported_name(a: ErrorManager, b: ErrorManager, x: Seq<char>) -> bool {
    primary_errors(a.recorded()) < a.limit() ==> exists|k: int|
        a.recorded().len() <= k < b.recorded().len() && {
            let err = #[trigger] b.recorded()[k];
            &&& err.code == ErrorCode::UnboundName
            &&& err.style == Style::Primary
            &&& err.level == Level::Error
            &&& err.message@ == unbound_message(x)
        }
}

/// Whether the expression `e` reads the name `x`.
pub open spec fn expr_reads(e: Expr, x: Seq<char>) -> bool
    decreases e,
{
    match e.value {
        ExprValue::BoundName(name) => name.value@ == x,
        ExprValue::ArrayLiteral(elements, _) => exprs_read(elements@, x),
        ExprValue::PrefixOp(_, rhs) => expr_reads(*rhs, x),
        ExprValue::InfixBop(lhs, _, rhs) => expr_reads(*lhs, x) || expr_reads(*rhs, x),
        ExprValue::PostfixBop(lhs, _, index, _) => expr_reads(*lhs, x) || expr_reads(*index, x),
        _ => false,
    }
}

/// Whether one of the expressions `es` reads the name `x`.
pub open spec fn exprs_read(es: Seq<Expr>, x: Seq<char>) -> bool
    decreases es,
{
    if es.len() == 0 {
        false
    } else {
        exprs_read(es.drop_last(), x) || expr_reads(es.last(), x)
    }
}

/// Whether the statement `s` reads the name `x`.
pub open spec fn stmt_reads(s: Stmt, x: Seq<char>) -> bool {
    match s.value {
        StmtValue::Let { value, .. } => expr_reads(value, x),
        StmtValue::Assign(lhs, _, rhs) => expr_reads(lhs, x) || expr_reads(rhs, x),
        StmtValue::Divider(_) => false,
    }
}

/// Whether some statement of `ss` reads `x` where `x` is not bound: not
/// among `names` nor bound by an earlier `let`.
pub open spec fn stmts_read_unbound(ss: Seq<Stmt>, names: Set<Seq<char>>, x: Seq<char>) -> bool {
    exists|j: int|
        0 <= j < ss.len() && #[trigger] stmt_reads(ss[j], x) && !names_after(
            ss.subrange(0, j),
            names,
        ).contains(x)
}

/// Whether the body of the function `d` reads `x` where it is not bound:
/// not among `names`, its parameters or its earlier `let` bindings.
pub open spec fn decl_reads_unbound(d: Decl, names: Set<Seq<char>>, x: Seq<char>) -> bool {
    match d.value {
        DeclValue::Function { inputs, outputs, body, .. } => stmts_read_unbound(
            body@,
            names.union(names_upto(inputs@, inputs@.len() as int)).union(
                names_upto(outputs@, outputs@.len() as int),
            ),
            x,
        ),
    }
}

/// Whether some function of `ds` reads `x` where it is not bound.
pub open spec fn program_reads_unbound(ds: Seq<Decl>, names: Set<Seq<char>>, x: Seq<char>) -> bool {
    exists|i: int| 0 <= i < ds.len() && #[trigger] decl_reads_unbound(ds[i], names, x)
}

proof fn lemma_reported_name_from(a: ErrorManager, m: ErrorManager, b: ErrorManager, x: Seq<char>)
    requires
        m.recorded() == a.recorded(),
        m.limit() == a.limit(),
        reported_name(m, b, x),
    ensures
        reported_name(a, b, x),
{
}

/// Whether some function of `ds` reads a name `x` that is not bound (not
/// among `names`, its parameters or its earlier `let` bindings), and going
/// from `a` to `b` the error manager recorded that `x` is bound to nothing.
pub open spec fn reported_unbound_read(ds: Seq<Decl>, names: Set<Seq<char>>, a: ErrorManager, b: ErrorManager) -> bool {
    exists|x: Seq<char>|
        #![trigger reported_name(a, b, x)]
        program_reads_unbound(ds, names, x) && reported_name(a, b, x)
}

proof fn lemma_exprs_read(es: Seq<Expr>, i: int, x: Seq<char>)
    requires
        0 <= i < es.len(),
        expr_reads(es[i], x),
    ensures
        exprs_read(es, x),
    decreases es.len(),
{
    if i < es.len() - 1 {
        assert(es.drop_last()[i] == es[i]);
        lemma_exprs_read(es.drop_last(), i, x);
    }
}

/// Whether, going from `a` to `b`, the error manager recorded a primary
/// error that some name is bound to nothing, as it must when it had room.
pub open spec fn reported_unbound(a: ErrorManager, b: ErrorManager) -> bool {
    primary_errors(a.recorded()) < a.limit() ==> exists|k: int|
        a.recorded().len() <= k < b.recorded().len() && {
            let err = #[trigger] b.recorded()[k];
            &&& err.code == ErrorCode::UnboundName
            &&& err.style == Style::Primary
            &&& err.level == Level::Error
            &&& exists|x: Seq<char>| err.message@ == unbound_message(x)
        }
}

/// Reports that `name` is bound to nothing.
fn report_unbound_name(name: &Token, em: &mut ErrorManager)
    requires
        old(em).wf(),
    ensures
        final(em).wf(),
        final(em).limit() == old(em).limit(),
        primary_errors(old(em).recorded()) < old(em).limit() ==> {
            &&& final(em).recorded().len() == old(em).recorded().len() + 1
            &&& final(em).recorded().last().code == ErrorCode::UnboundName
            &&& final(em).recorded().last().style == Style::Primary
            &&& final(em).recorded().last().level == Level::Error
            &&& final(em).recorded().last().message@ == unbound_message(name.value@)
        },
{
    let mut message = text_of("Unbound function or variable `");
    message.append(name.value.as_str());
    message.append("`");
    proof {
        reveal_strlit("Unbound function or variable `");
        reveal_strlit("`");
    }
    let builder = ErrorBuilder::new().of_style(Style::Primary).at_level(Level::Error).with_code(
        ErrorCode::UnboundName,
    );
    let error = located(builder, node_span(name, name)).message(message).build();
    report(em, error);
}

impl TypeInferer {
    /// A fresh type variable for the node from `start` to `end`; the
    /// description names what it stands for.
    fn new_type_var(&mut self, start: &Token, end: &Token, description: String) -> (result: Result<
        usize,
        InferError,
    >)
        requires
            old(self).wf(),
        ensures
            match result {
                Ok(t) => {
                    &&& TypeInferer::grows(*old(self), *final(self))
                    &&& t == old(self).terms@.len()
                    &&& final(self).terms@.len() == t + 1
                    &&& term_view(final(self).terms@[t as int]) == TermV::Var(
                        old(self).gen.upcoming() as usize,
                    )
                    &&& final(self).gen.upcoming() == old(self).gen.upcoming() + 1
                    &&& final(self).liquids@ == old(self).liquids@
                    &&& final(self).type_constraints@ == old(self).type_constraints@
                    &&& final(self).liquid_constraints@ == old(self).liquid_constraints@
                    &&& final(self).env == old(self).env
                    &&& final(self).expr_types == old(self).expr_types
                },
                Err(e) => e == InferError::OutOfIdentifiers && *final(self) == *old(self)
                    && old(self).gen.upcoming() >= usize::MAX,
            },
    {
        if !self.gen.has_next() {
            return Err(InferError::OutOfIdentifiers);
        }
        let id = self.gen.next();
        let ghost mid = *self;
        let t = self.add_term(
            TermValue::Var(id, Some(description)),
            start.duplicate(),
            end.duplicate(),
        );
        Ok(t)
    }

    /// A fresh unknown size for the node from `start` to `end`.
    fn new_size_var(&mut self, start: &Token, end: &Token) -> (result: Result<usize, InferError>)
        requires
            old(self).wf(),
        ensures
            match result {
                Ok(l) => {
                    &&& TypeInferer::grows(*old(self), *final(self))
                    &&& l == old(self).liquids@.len()
                    &&& final(self).liquids@.len() == l + 1
                    &&& final(self).liquids@[l as int].value == LiquidTypeValue::All(
                        old(self).gen.upcoming() as usize,
                    )
                    &&& final(self).gen.upcoming() == old(self).gen.upcoming() + 1
                    &&& final(self).terms@ == old(self).terms@
                    &&& final(self).type_constraints@ == old(self).type_constraints@
                    &&& final(self).liquid_constraints@ == old(self).liquid_constraints@
                    &&& final(self).env == old(self).env
                    &&& final(self).expr_types == old(self).expr_types
                },
                Err(e) => e == InferError::OutOfIdentifiers && *final(self) == *old(self)
                    && old(self).gen.upcoming() >= usize::MAX,
            },
    {
        if !self.gen.has_next() {
            return Err(InferError::OutOfIdentifiers);
        }
        let id = self.gen.next();
        let l = self.add_liquid(LiquidTypeValue::All(id), start.duplicate(), end.duplicate());
        Ok(l)
    }

    /// Gathers the constraints of the expression `e` and returns the term of
    /// its type: a fresh or resolved term. Each expression's term is also
    /// appended to `expr_types`, after those of its parts.
    fn visit_expr(&mut self, e: &Expr, em: &mut ErrorManager) -> (result: Result<usize, InferError>)
        requires
            old(self).wf(),
            old(em).wf(),
            inferable_expr(*e),
        ensures
            result is Ok ==> final(em).recorded() == old(em).recorded(),
            (result matches Err(InferError::UnboundName)) ==> reported_unbound(*old(em), *final(em)),
            (result matches Err(InferError::UnboundName)) ==> exists|x: Seq<char>|
                #![trigger reported_name(*old(em), *final(em), x)]
                expr_reads(*e, x) && !names_of(old(self).env.view()).contains(x) && reported_name(
                *old(em),
                *final(em),
                x,
            ),
            final(em).wf(),
            final(em).limit() == old(em).limit(),
            visit_keeps(*old(self), *final(self)),
            (result matches Err(InferError::UnboundName)) ==> !expr_names_bound(*e, names_of(old(self).env.view())),
            !expr_names_bound(*e, names_of(old(self).env.view())) ==> result is Err,
            final(self).gen.upcoming() <= old(self).gen.upcoming() + 2 * expr_size(*e),
            result matches Err(InferError::OutOfIdentifiers) ==> old(self).gen.upcoming() + 2
                * expr_size(*e) >= usize::MAX,
            result is Ok ==> final(self).expr_types@.len() > old(self).expr_types@.len(),
            result is Ok ==> final(self).expr_types@.len() == old(self).expr_types@.len() + expr_size(*e),
            result matches Ok(t) ==> expr_rule(
                *e,
                *final(self),
                old(self).type_constraints@.len() as int,
                old(self).expr_types@.len() as int,
                t,
            ),
            match result {
                Ok(t) => {
                    &&& t < final(self).terms@.len()
                    &&& final(self).expr_types@.len() > 0
                    &&& final(self).expr_types@.last() == t
                    &&& visit_shape(e.value, term_view(final(self).terms@[t as int]))
                    &&& (e.value matches ExprValue::BoundName(name) ==> old(self).env.spec_find(
                        name.value@,
                    ) == Some(t))
                },
                Err(err) => err == InferError::UnboundName || err == InferError::OutOfIdentifiers,
            },
            e.value matches ExprValue::BoundName(name) ==> (result is Err <==> old(
                self,
            ).env.spec_find(name.value@) is None),
        decreases *e, 1nat,
    {
        let result = match &e.value {
            ExprValue::ConstantInt(_) => self.add_term(
                TermValue::Int64,
                e.start_token.duplicate(),
                e.end_token.duplicate(),
            ),
            ExprValue::BoundName(name) => {
                proof {
                    lemma_lookup_bounded(self.env.view(), name.value@, self.terms@.len());
                }
                match self.env.find(&name.value) {
                    Some(ty) => *ty,
                    None => {
                        report_unbound_name(name, em);
                        proof {
                            if primary_errors(old(em).recorded()) < old(em).limit() {
                                let k = old(em).recorded().len() as int;
                                assert(em.recorded()[k] == em.recorded().last());
                            }
                            assert(reported_name(*old(em), *em, name.value@));
                        }
                        return Err(InferError::UnboundName);
                    },
                }
            },
            ExprValue::ArrayLiteral(_, _) => self.visit_array(e, em)?,
            ExprValue::PrefixOp(_, _) => self.visit_operator(e, em)?,
            ExprValue::InfixBop(_, _, _) => self.visit_operator(e, em)?,
            ExprValue::PostfixBop(_, _, _, _) => self.visit_subscript(e, em)?,
            _ => {
                proof {
                    assert(false);
                }
                return Err(InferError::UnboundName);
            },
        };
        let ghost before_push = *self;
        self.expr_types.push(result);
        proof {
            assert forall|i: int| 0 <= i < before_push.expr_types@.len() implies #[trigger] self.expr_types@[i]
                == before_push.expr_types@[i] by {}
            if e.value is PrefixOp || e.value is InfixBop || e.value is PostfixBop || e.value is ArrayLiteral {
                lemma_expr_rule_keep(
                    *e,
                    before_push,
                    *self,
                    old(self).type_constraints@.len() as int,
                    old(self).expr_types@.len() as int,
                    result,
                );
            }
        }
        Ok(result)
    }

    /// The term of an array literal: a variable for an empty literal of
    /// unknown size, otherwise an array of the first element's type, every
    /// other element constrained to it, sized by the number of elements or
    /// by a fresh unknown size.
    fn visit_array(&mut self, e: &Expr, em: &mut ErrorManager) -> (result: Result<usize, InferError>)
        requires
            old(self).wf(),
            old(em).wf(),
            inferable_expr(*e),
            e.value is ArrayLiteral,
        ensures
            result is Ok ==> final(em).recorded() == old(em).recorded(),
            (result matches Err(InferError::UnboundName)) ==> reported_unbound(*old(em), *final(em)),
            (result matches Err(InferError::UnboundName)) ==> exists|x: Seq<char>|
                #![trigger reported_name(*old(em), *final(em), x)]
                expr_reads(*e, x) && !names_of(old(self).env.view()).contains(x) && reported_name(
                *old(em),
                *final(em),
                x,
            ),
            final(em).wf(),
            final(em).limit() == old(em).limit(),
            visit_keeps(*old(self), *final(self)),
            (result matches Err(InferError::UnboundName)) ==> !expr_names_bound(*e, names_of(old(self).env.view())),
            !expr_names_bound(*e, names_of(old(self).env.view())) ==> result is Err,
            final(self).gen.upcoming() <= old(self).gen.upcoming() + 2 * expr_size(*e),
            result matches Err(InferError::OutOfIdentifiers) ==> old(self).gen.upcoming() + 2
                * expr_size(*e) >= usize::MAX,
            final(self).expr_types@.len() >= old(self).expr_types@.len(),
            result is Ok ==> final(self).expr_types@.len() + 1 == old(self).expr_types@.len() + expr_size(*e),
            result matches Ok(t) ==> expr_rule(
                *e,
                *final(self),
                old(self).type_constraints@.len() as int,
                old(self).expr_types@.len() as int,
                t,
            ),
            match result {
                Ok(t) => t < final(self).terms@.len() && visit_shape(
                    e.value,
                    term_view(final(self).terms@[t as int]),
                ),
                Err(err) => err == InferError::UnboundName || err == InferError::OutOfIdentifiers,
            },
        decreases *e, 0nat,
    {
        match &e.value {
            ExprValue::ArrayLiteral(elements, should_continue) => {
                proof {
                    if elements@.len() == 0 {
                        assert(exprs_size(elements@) == 0);
                        assert(exprs_names_bound(elements@, names_of(self.env.view())));
                    }
                }
                if elements.len() == 0 && should_continue.is_some() {
                    self.new_type_var(
                        &e.start_token,
                        &e.end_token,
                        text_of("this empty and size-indeterminate array literal"),
                    )
                } else {
                    let count = elements.len();
                    let element_type = if count > 0 {
                        self.visit_elements(elements, em)?
                    } else {
                        self.new_type_var(
                            &e.start_token,
                            &e.end_token,
                            text_of("the array literal's element"),
                        )?
                    };
                    let ghost after_elements = *self;
                    let size = if should_continue.is_some() {
                        self.new_size_var(&e.start_token, &e.end_token)?
                    } else {
                        self.add_liquid(
                            LiquidTypeValue::Equal(count),
                            e.start_token.duplicate(),
                            e.end_token.duplicate(),
                        )
                    };
                    let ghost after_size = *self;
                    let t = self.add_term(
                        TermValue::Array(element_type, size),
                        e.start_token.duplicate(),
                        e.end_token.duplicate(),
                    );
                    proof {
                        if count > 0 {
                            let from = old(self).type_constraints@.len() as int;
                            let b = old(self).expr_types@.len() as int;
                            lemma_elements_keep(after_elements, *self, from, b, elements@, element_type);
                            assert(self.liquids@[size as int] == after_size.liquids@[size as int]);
                        }
                    }
                    Ok(t)
                }
            },
            _ => {
                proof {
                    assert(false);
                }
                Err(InferError::UnboundName)
            },
        }
    }

    /// The term of an operator application: operators act on integers, so
    /// each operand is constrained to a fresh integer term and the result is
    /// one.
    fn visit_operator(&mut self, e: &Expr, em: &mut ErrorManager) -> (result: Result<
        usize,
        InferError,
    >)
        requires
            old(self).wf(),
            old(em).wf(),
            inferable_expr(*e),
            e.value is PrefixOp || e.value is InfixBop,
        ensures
            result is Ok ==> final(em).recorded() == old(em).recorded(),
            (result matches Err(InferError::UnboundName)) ==> reported_unbound(*old(em), *final(em)),
            (result matches Err(InferError::UnboundName)) ==> exists|x: Seq<char>|
                #![trigger reported_name(*old(em), *final(em), x)]
                expr_reads(*e, x) && !names_of(old(self).env.view()).contains(x) && reported_name(
                *old(em),
                *final(em),
                x,
            ),
            final(em).wf(),
            final(em).limit() == old(em).limit(),
            visit_keeps(*old(self), *final(self)),
            (result matches Err(InferError::UnboundName)) ==> !expr_names_bound(*e, names_of(old(self).env.view())),
            !expr_names_bound(*e, names_of(old(self).env.view())) ==> result is Err,
            final(self).gen.upcoming() <= old(self).gen.upcoming() + 2 * expr_size(*e),
            result matches Err(InferError::OutOfIdentifiers) ==> old(self).gen.upcoming() + 2
                * expr_size(*e) >= usize::MAX,
            final(self).expr_types@.len() >= old(self).expr_types@.len(),
            result is Ok ==> final(self).expr_types@.len() + 1 == old(self).expr_types@.len() + expr_size(*e),
            result matches Ok(t) ==> expr_rule(
                *e,
                *final(self),
                old(self).type_constraints@.len() as int,
                old(self).expr_types@.len() as int,
                t,
            ),
            match result {
                Ok(t) => t < final(self).terms@.len() && term_view(final(self).terms@[t as int])
                    == TermV::Int64,
                Err(err) => err == InferError::UnboundName || err == InferError::OutOfIdentifiers,
            },
        decreases *e, 0nat,
    {
        match &e.value {
            ExprValue::PrefixOp(op, rhs) => {
                let op_rhs_type = self.add_term(TermValue::Int64, op.duplicate(), op.duplicate());
                let op_result_type = self.add_term(
                    TermValue::Int64,
                    op.duplicate(),
                    op.duplicate(),
                );
                let rhs_type = self.visit_expr(rhs, em)?;
                let ghost k = self.type_constraints@.len() as int;
                self.new_constraint(op_rhs_type, rhs_type);
                proof {
                    let b = old(self).expr_types@.len() as int;
                    assert(self.expr_types@[b + expr_size(**rhs) - 1] == rhs_type);
                    assert(self.type_constraints@[k].actual == rhs_type);
                    assert(int_constrained(*self, old(self).type_constraints@.len() as int, rhs_type));
                }
                Ok(op_result_type)
            },
            ExprValue::InfixBop(lhs, op, rhs) => {
                let op_lhs_type = self.add_term(TermValue::Int64, op.duplicate(), op.duplicate());
                let op_rhs_type = self.add_term(TermValue::Int64, op.duplicate(), op.duplicate());
                let op_result_type = self.add_term(
                    TermValue::Int64,
                    op.duplicate(),
                    op.duplicate(),
                );
                let lhs_type = self.visit_expr(lhs, em)?;
                let ghost after_lhs = self.expr_types@;
                let ghost em_mid = *em;
                let rhs_type = match self.visit_expr(rhs, em) {
                    Ok(t) => t,
                    Err(err) => {
                        proof {
                            if err == InferError::UnboundName {
                                let x = choose|x: Seq<char>|
                                    #![trigger reported_name(em_mid, *em, x)]
                                    expr_reads(**rhs, x) && !names_of(old(self).env.view()).contains(x)
                                        && reported_name(em_mid, *em, x);
                                lemma_reported_name_from(*old(em), em_mid, *em, x);
                            }
                        }
                        return Err(err);
                    },
                };
                let ghost k = self.type_constraints@.len() as int;
                self.new_constraint(op_lhs_type, lhs_type);
                self.new_constraint(op_rhs_type, rhs_type);
                proof {
                    let b = old(self).expr_types@.len() as int;
                    let i = b + expr_size(**lhs) - 1;
                    assert(after_lhs[i] == lhs_type);
                    assert(self.expr_types@[i] == after_lhs[i]);
                    assert(self.expr_types@[b + expr_size(**lhs) + expr_size(**rhs) - 1] == rhs_type);
                    assert(self.type_constraints@[k].actual == lhs_type);
                    assert(self.type_constraints@[k + 1].actual == rhs_type);
                    assert(int_constrained(*self, old(self).type_constraints@.len() as int, lhs_type));
                    assert(int_constrained(*self, old(self).type_constraints@.len() as int, rhs_type));
                }
                Ok(op_result_type)
            },
            _ => {
                proof {
                    assert(false);
                }
                Err(InferError::UnboundName)
            },
        }
    }

    /// The term of a subscript `a[i]`: the index is constrained to an
    /// integer, and `a` to an array of unknown size whose element type, a
    /// fresh variable, is the result.
    fn visit_subscript(&mut self, e: &Expr, em: &mut ErrorManager) -> (result: Result<
        usize,
        InferError,
    >)
        requires
            old(self).wf(),
            old(em).wf(),
            inferable_expr(*e),
            e.value is PostfixBop,
        ensures
            result is Ok ==> final(em).recorded() == old(em).recorded(),
            (result matches Err(InferError::UnboundName)) ==> reported_unbound(*old(em), *final(em)),
            (result matches Err(InferError::UnboundName)) ==> exists|x: Seq<char>|
                #![trigger reported_name(*old(em), *final(em), x)]
                expr_reads(*e, x) && !names_of(old(self).env.view()).contains(x) && reported_name(
                *old(em),
                *final(em),
                x,
            ),
            final(em).wf(),
            final(em).limit() == old(em).limit(),
            visit_keeps(*old(self), *final(self)),
            (result matches Err(InferError::UnboundName)) ==> !expr_names_bound(*e, names_of(old(self).env.view())),
            !expr_names_bound(*e, names_of(old(self).env.view())) ==> result is Err,
            final(self).gen.upcoming() <= old(self).gen.upcoming() + 2 * expr_size(*e),
            result matches Err(InferError::OutOfIdentifiers) ==> old(self).gen.upcoming() + 2
                * expr_size(*e) >= usize::MAX,
            final(self).expr_types@.len() >= old(self).expr_types@.len(),
            result is Ok ==> final(self).expr_types@.len() + 1 == old(self).expr_types@.len() + expr_size(*e),
            result matches Ok(t) ==> expr_rule(
                *e,
                *final(self),
                old(self).type_constraints@.len() as int,
                old(self).expr_types@.len() as int,
                t,
            ),
            match result {
                Ok(t) => t < final(self).terms@.len() && term_view(final(self).terms@[t as int]) is Var,
                Err(err) => err == InferError::UnboundName || err == InferError::OutOfIdentifiers,
            },
        decreases *e, 0nat,
    {
        match &e.value {
            ExprValue::PostfixBop(lhs, op, index, op2) => {
                let lhs_type = self.visit_expr(lhs, em)?;
                let ghost after_lhs = self.expr_types@;
                let ghost em_mid = *em;
                let index_type = match self.visit_expr(index, em) {
                    Ok(t) => t,
                    Err(err) => {
                        proof {
                            if err == InferError::UnboundName {
                                let x = choose|x: Seq<char>|
                                    #![trigger reported_name(em_mid, *em, x)]
                                    expr_reads(**index, x) && !names_of(old(self).env.view()).contains(x)
                                        && reported_name(em_mid, *em, x);
                                lemma_reported_name_from(*old(em), em_mid, *em, x);
                            }
                        }
                        return Err(err);
                    },
                };
                let op_index_type = self.add_term(
                    TermValue::Int64,
                    op.duplicate(),
                    op2.duplicate(),
                );
                let ghost k = self.type_constraints@.len() as int;
                self.new_constraint(op_index_type, index_type);
                let result_type = self.new_type_var(
                    &e.start_token,
                    &e.end_token,
                    text_of("the array's element"),
                )?;
                let lhs_size = self.new_size_var(&lhs.start_token, &lhs.end_token)?;
                let actual_lhs_type = self.add_term(
                    TermValue::Array(result_type, lhs_size),
                    lhs.start_token.duplicate(),
                    lhs.end_token.duplicate(),
                );
                let ghost k2 = self.type_constraints@.len() as int;
                self.new_constraint(lhs_type, actual_lhs_type);
                proof {
                    let b = old(self).expr_types@.len() as int;
                    let i = b + expr_size(**lhs) - 1;
                    assert(after_lhs[i] == lhs_type);
                    assert(self.expr_types@[i] == after_lhs[i]);
                    assert(self.expr_types@[b + expr_size(**lhs) + expr_size(**index) - 1] == index_type);
                    assert(self.type_constraints@[k].actual == index_type);
                    assert(int_constrained(*self, old(self).type_constraints@.len() as int, index_type));
                    assert(self.type_constraints@[k2].expected == lhs_type);
                    assert(array_constrained(
                        *self,
                        old(self).type_constraints@.len() as int,
                        lhs_type,
                        result_type,
                    ));
                }
                Ok(result_type)
            },
            _ => {
                proof {
                    assert(false);
                }
                Err(InferError::UnboundName)
            },
        }
    }

    /// Visits the elements of an array literal, constraining each to the
    /// type of the first, and returns the first's term.
    fn visit_elements(&mut self, elements: &Vec<Expr>, em: &mut ErrorManager) -> (result: Result<
        usize,
        InferError,
    >)
        requires
            old(self).wf(),
            old(em).wf(),
            elements@.len() > 0,
            inferable_exprs(elements@),
        ensures
            result is Ok ==> final(em).recorded() == old(em).recorded(),
            (result matches Err(InferError::UnboundName)) ==> reported_unbound(*old(em), *final(em)),
            (result matches Err(InferError::UnboundName)) ==> exists|x: Seq<char>|
                #![trigger reported_name(*old(em), *final(em), x)]
                exprs_read(elements@, x) && !names_of(old(self).env.view()).contains(x) && reported_name(
                *old(em),
                *final(em),
                x,
            ),
            final(em).wf(),
            final(em).limit() == old(em).limit(),
            visit_keeps(*old(self), *final(self)),
            (result matches Err(InferError::UnboundName)) ==> !exprs_names_bound(elements@, names_of(old(self).env.view())),
            !exprs_names_bound(elements@, names_of(old(self).env.view())) ==> result is Err,
            result is Ok ==> final(self).expr_types@.len() == old(self).expr_types@.len() + exprs_size(elements@),
            result matches Ok(t) ==> elements_rule(
                *final(self),
                old(self).type_constraints@.len() as int,
                old(self).expr_types@.len() as int,
                elements@,
                t,
            ),
            final(self).gen.upcoming() <= old(self).gen.upcoming() + 2 * exprs_size(elements@),
            result matches Err(InferError::OutOfIdentifiers) ==> old(self).gen.upcoming() + 2
                * exprs_size(elements@) >= usize::MAX,
            match result {
                Ok(t) => t < final(self).terms@.len(),
                Err(err) => err == InferError::UnboundName || err == InferError::OutOfIdentifiers,
            },
        decreases elements@, 0nat,
    {
        let n = elements.len();
        proof {
            lemma_inferable_exprs(elements@, 0);
            assert(decreases_to!(elements@ => elements@[0]));
            assert(elements@.subrange(0, 1).drop_last() =~= Seq::<Expr>::empty());
            assert(exprs_size(Seq::<Expr>::empty()) == 0);
            assert(elements@.subrange(0, 1).last() == elements@[0]);
            lemma_exprs_size_prefix(elements@, 1);
        }
        let ghost names = names_of(self.env.view());
        let ghost em_mid = *em;
        let first_type = match self.visit_expr(&elements[0], em) {
            Ok(t) => t,
            Err(err) => {
                proof {
                    if err == InferError::UnboundName {
                        let x = choose|x: Seq<char>|
                            #![trigger reported_name(em_mid, *em, x)]
                            expr_reads(elements@[0], x) && !names.contains(x) && reported_name(em_mid, *em, x);
                        lemma_reported_name_from(*old(em), em_mid, *em, x);
                        lemma_exprs_read(elements@, 0, x);
                    }
                    if exprs_names_bound(elements@, names) {
                        lemma_exprs_names_bound(elements@, 0, names);
                    }
                }
                return Err(err);
            },
        };
        proof {
            assert(exprs_names_bound(Seq::<Expr>::empty(), names));
            assert(exprs_names_bound(elements@.subrange(0, 1), names));
        }
        let mut k: usize = 1;
        let ghost start = *old(self);
        while k < n
            invariant
                1 <= k <= n,
                n == elements@.len(),
                inferable_exprs(elements@),
                self.wf(),
                em.wf(),
                em.limit() == old(em).limit(),
                em.recorded() == old(em).recorded(),
                visit_keeps(start, *self),
                start == *old(self),
                first_type < self.terms@.len(),
                self.gen.upcoming() <= start.gen.upcoming() + 2 * exprs_size(
                    elements@.subrange(0, k as int),
                ),
                self.expr_types@.len() == start.expr_types@.len() + exprs_size(
                    elements@.subrange(0, k as int),
                ),
                names == names_of(start.env.view()),
                exprs_names_bound(elements@.subrange(0, k as int), names),
                first_type == element_type(*self, start.expr_types@.len() as int, elements@, 0),
                elements_upto(
                    *self,
                    start.type_constraints@.len() as int,
                    start.expr_types@.len() as int,
                    elements@,
                    first_type,
                    k as int,
                ),
            decreases n - k,
        {
            proof {
                lemma_inferable_exprs(elements@, k as int);
                assert(decreases_to!(elements@ => elements@[k as int]));
                assert(elements@.subrange(0, k + 1).drop_last() =~= elements@.subrange(0, k as int));
                assert(elements@.subrange(0, k + 1).last() == elements@[k as int]);
                lemma_exprs_size_prefix(elements@, k + 1);
            }
            let ghost loop_start = *self;
            let ghost em_mid = *em;
            let other_type = match self.visit_expr(&elements[k], em) {
                Ok(t) => t,
                Err(err) => {
                    proof {
                        if err == InferError::UnboundName {
                            let x = choose|x: Seq<char>|
                                #![trigger reported_name(em_mid, *em, x)]
                                expr_reads(elements@[k as int], x) && !names.contains(x) && reported_name(
                                    em_mid,
                                    *em,
                                    x,
                                );
                            lemma_reported_name_from(*old(em), em_mid, *em, x);
                            lemma_exprs_read(elements@, k as int, x);
                        }
                        if exprs_names_bound(elements@, names) {
                            lemma_exprs_names_bound(elements@, k as int, names);
                        }
                    }
                    return Err(err);
                },
            };
            proof {
                assert(exprs_names_bound(elements@.subrange(0, k + 1), names));
            }
            let ghost before_c = *self;
            let ghost c = self.type_constraints@.len() as int;
            self.new_constraint(first_type, other_type);
            proof {
                let b = start.expr_types@.len() as int;
                assert(element_type(*self, b, elements@, k as int) == other_type);
                assert(self.type_constraints@[c].actual == other_type);
                let from = start.type_constraints@.len() as int;
                assert forall|j: int| 1 <= j < k + 1 implies #[trigger] element_constrained(
                    *self,
                    from,
                    b,
                    elements@,
                    first_type,
                    j,
                ) by {
                    if j < k {
                        lemma_exprs_size_prefix(elements@.subrange(0, k as int), j + 1);
                        assert(elements@.subrange(0, k as int).subrange(0, j + 1) =~= elements@.subrange(0, j + 1));
                        lemma_exprs_size_pos(elements@.subrange(0, j + 1));
                        let idx = b + exprs_size(elements@.subrange(0, j + 1)) - 1;
                        assert(0 <= idx < loop_start.expr_types@.len());
                        assert(self.expr_types@[idx] == loop_start.expr_types@[idx]);
                        assert(element_type(*self, b, elements@, j) == element_type(loop_start, b, elements@, j));
                        assert(element_constrained(loop_start, from, b, elements@, first_type, j));
                        let c2 = choose|c2: int|
                            from <= c2 < loop_start.type_constraints@.len()
                                && (#[trigger] loop_start.type_constraints@[c2]).expected == first_type
                                && loop_start.type_constraints@[c2].actual == element_type(
                                loop_start,
                                b,
                                elements@,
                                j,
                            );
                        assert(self.type_constraints@[c2] == loop_start.type_constraints@[c2]);
                    } else {
                        assert(self.type_constraints@[c].actual == element_type(*self, b, elements@, j));
                    }
                }
                lemma_exprs_size_prefix(elements@.subrange(0, k as int), 1);
                assert(elements@.subrange(0, k as int).subrange(0, 1) =~= elements@.subrange(0, 1));
                lemma_exprs_size_pos(elements@.subrange(0, 1));
                let idx0 = b + exprs_size(elements@.subrange(0, 1)) - 1;
                assert(0 <= idx0 < loop_start.expr_types@.len());
                assert(self.expr_types@[idx0] == loop_start.expr_types@[idx0]);
                assert(first_type == element_type(*self, b, elements@, 0));
            }
            k = k + 1;
        }
        proof {
            assert(elements@.subrange(0, n as int) =~= elements@);
            assert(k == n);
        }
        Ok(first_type)
    }
}

/// Whether, going from `a` to `b`, the error manager recorded an error with
/// the code `code`, as it must when it had room.
pub open spec fn reported(a: ErrorManager, b: ErrorManager, code: ErrorCode) -> bool {
    primary_errors(a.recorded()) < a.limit() ==> exists|k: int|
        a.recorded().len() <= k < b.recorded().len() && (#[trigger] b.recorded()[k]).code == code
}

/// What visiting keeps: the inferer only grows, the bindings stay, and
/// identifiers are only handed out.
pub open spec fn visit_keeps(a: TypeInferer, b: TypeInferer) -> bool {
    &&& TypeInferer::grows(a, b)
    &&& only_originals_added(a, b)
    &&& b.env == a.env
    &&& a.gen.upcoming() <= b.gen.upcoming()
    &&& a.expr_types@.len() <= b.expr_types@.len()
    &&& forall|i: int| 0 <= i < a.expr_types@.len() ==> #[trigger] b.expr_types@[i] == a.expr_types@[i]
}

/// Whether some constraint of `s` from index `from` on sets the term `t`
/// equal to an integer term.
pub open spec fn int_constrained(s: TypeInferer, from: int, t: usize) -> bool {
    exists|k: int|
        from <= k < s.type_constraints@.len() && (#[trigger] s.type_constraints@[k]).actual == t
            && s.type_constraints@[k].expected < s.terms@.len() && term_view(
            s.terms@[s.type_constraints@[k].expected as int],
        ) == TermV::Int64
}

/// Whether some constraint of `s` from index `from` on sets the term `a` of
/// an indexed array equal to an array of elements of the term `t`.
pub open spec fn array_constrained(s: TypeInferer, from: int, a: usize, t: usize) -> bool {
    exists|k: int|
        from <= k < s.type_constraints@.len() && (#[trigger] s.type_constraints@[k]).expected == a
            && s.type_constraints@[k].actual < s.terms@.len() && (term_view(
            s.terms@[s.type_constraints@[k].actual as int],
        ) matches TermV::Array(el, _) && el == t)
}

/// The type recorded for element `j` of `els` in `s`, the types of the
/// elements recorded from index `base` on.
pub open spec fn element_type(s: TypeInferer, base: int, els: Seq<Expr>, j: int) -> usize {
    s.expr_types@[base + exprs_size(els.subrange(0, j + 1)) - 1]
}

/// The rule of an array literal's elements: the first element's type is
/// `first`, and each later element's type is constrained to it.
pub open spec fn elements_rule(s: TypeInferer, from: int, base: int, els: Seq<Expr>, first: usize) -> bool {
    &&& first == element_type(s, base, els, 0)
    &&& elements_upto(s, from, base, els, first, els.len() as int)
}

/// Each element of `els` from the second up to (excluding) `upto` has its
/// type constrained to `first` by a constraint of `s` from index `from` on.
pub open spec fn elements_upto(
    s: TypeInferer,
    from: int,
    base: int,
    els: Seq<Expr>,
    first: usize,
    upto: int,
) -> bool {
    forall|j: int|
        1 <= j < upto ==> #[trigger] element_constrained(s, from, base, els, first, j)
}

/// Element `j` of `els` has its type constrained to `first` by a
/// constraint of `s` from index `from` on.
pub open spec fn element_constrained(
    s: TypeInferer,
    from: int,
    base: int,
    els: Seq<Expr>,
    first: usize,
    j: int,
) -> bool {
    exists|k: int|
        from <= k < s.type_constraints@.len() && (#[trigger] s.type_constraints@[k]).expected
            == first && s.type_constraints@[k].actual == element_type(s, base, els, j)
}

proof fn lemma_elements_keep(
    s1: TypeInferer,
    s2: TypeInferer,
    from: int,
    base: int,
    els: Seq<Expr>,
    first: usize,
)
    requires
        s1.type_constraints@ == s2.type_constraints@,
        forall|i: int| 0 <= i < s1.expr_types@.len() ==> #[trigger] s2.expr_types@[i] == s1.expr_types@[i],
        0 <= base,
        base + exprs_size(els) <= s1.expr_types@.len(),
        els.len() > 0,
        elements_rule(s1, from, base, els, first),
    ensures
        elements_rule(s2, from, base, els, first),
{
    assert forall|j: int| 0 <= j < els.len() implies #[trigger] element_type(s2, base, els, j)
        == element_type(s1, base, els, j) by {
        lemma_exprs_size_prefix(els, j + 1);
        lemma_exprs_size_pos(els.subrange(0, j + 1));
    }
    assert forall|j: int| 1 <= j < els.len() implies #[trigger] element_constrained(
        s2,
        from,
        base,
        els,
        first,
        j,
    ) by {
        assert(element_constrained(s1, from, base, els, first, j));
        assert(element_type(s2, base, els, j) == element_type(s1, base, els, j));
    }
    assert(element_type(s2, base, els, 0) == element_type(s1, base, els, 0));
}

/// The rule of `e` still holds in a state with the same constraints,
/// terms and sizes that keeps the types recorded up to the visit of `e`.
proof fn lemma_expr_rule_keep(e: Expr, s1: TypeInferer, s2: TypeInferer, from: int, base: int, t: usize)
    requires
        s1.type_constraints@ == s2.type_constraints@,
        s1.terms@ == s2.terms@,
        s1.liquids@ == s2.liquids@,
        forall|i: int| 0 <= i < s1.expr_types@.len() ==> #[trigger] s2.expr_types@[i] == s1.expr_types@[i],
        0 <= base,
        s1.expr_types@.len() + 1 == base + expr_size(e),
        expr_rule(e, s1, from, base, t),
    ensures
        expr_rule(e, s2, from, base, t),
{
    match e.value {
        ExprValue::PrefixOp(_, rhs) => {
            assert(expr_size(*rhs) >= 1);
            assert(s2.expr_types@[base + expr_size(*rhs) - 1] == s1.expr_types@[base + expr_size(*rhs) - 1]);
        },
        ExprValue::InfixBop(lhs, _, rhs) => {
            assert(expr_size(*lhs) >= 1 && expr_size(*rhs) >= 1);
            assert(s2.expr_types@[base + expr_size(*lhs) - 1] == s1.expr_types@[base + expr_size(*lhs) - 1]);
            assert(s2.expr_types@[base + expr_size(*lhs) + expr_size(*rhs) - 1]
                == s1.expr_types@[base + expr_size(*lhs) + expr_size(*rhs) - 1]);
        },
        ExprValue::PostfixBop(lhs, _, index, _) => {
            assert(expr_size(*lhs) >= 1 && expr_size(*index) >= 1);
            assert(s2.expr_types@[base + expr_size(*lhs) - 1] == s1.expr_types@[base + expr_size(*lhs) - 1]);
            assert(s2.expr_types@[base + expr_size(*lhs) + expr_size(*index) - 1]
                == s1.expr_types@[base + expr_size(*lhs) + expr_size(*index) - 1]);
        },
        ExprValue::ArrayLiteral(els, _) => {
            if els@.len() > 0 {
                lemma_elements_keep(s1, s2, from, base, els@, element_type(s1, base, els@, 0));
            }
        },
        _ => {},
    }
}

/// The typing rule of the expression `e` with the term `t`, in the state
/// `s` after its visit: the constraints it adds from index `from` on, over
/// the types of its parts, which `s` records from index `base` on in the
/// order they were visited. An operator constrains each operand to an
/// integer; a subscript constrains its index to an integer and the array to
/// an array of its own type.
pub open spec fn expr_rule(e: Expr, s: TypeInferer, from: int, base: int, t: usize) -> bool {
    match e.value {
        ExprValue::PrefixOp(_, rhs) => int_constrained(
            s,
            from,
            s.expr_types@[base + expr_size(*rhs) - 1],
        ),
        ExprValue::InfixBop(lhs, _, rhs) => int_constrained(
            s,
            from,
            s.expr_types@[base + expr_size(*lhs) - 1],
        ) && int_constrained(s, from, s.expr_types@[base + expr_size(*lhs) + expr_size(*rhs) - 1]),
        ExprValue::PostfixBop(lhs, _, index, _) => int_constrained(
            s,
            from,
            s.expr_types@[base + expr_size(*lhs) + expr_size(*index) - 1],
        ) && array_constrained(s, from, s.expr_types@[base + expr_size(*lhs) - 1], t),
        ExprValue::ArrayLiteral(els, cont) => els@.len() > 0 ==> {
            let first = element_type(s, base, els@, 0);
            &&& elements_rule(s, from, base, els@, first)
            &&& t < s.terms@.len()
            &&& (term_view(s.terms@[t as int]) matches TermV::Array(el, l) && el == first && l
                < s.liquids@.len() && (cont is None ==> s.liquids@[l as int].value
                == LiquidTypeValue::Equal(els@.len() as usize)) && (cont is Some
                ==> s.liquids@[l as int].value is All))
        },
        _ => true,
    }
}

/// The typing rule of the statement `s` in the state `st` after its visit,
/// over the constraints from index `from` on and the types of its
/// expressions recorded from index `base` on: a `let` binds its name to its
/// value's type, which a type hint constrains; an assignment constrains its
/// two sides to one type.
pub open spec fn stmt_rule(s: Stmt, st: TypeInferer, from: int, base: int) -> bool {
    match s.value {
        StmtValue::Let { name, hint, value } => {
            let vt = st.expr_types@[base + expr_size(value) - 1];
            &&& st.env.spec_find(name.value@) == Some(vt)
            &&& hint matches Some(h) ==> exists|k: int|
                from <= k < st.type_constraints@.len() && (#[trigger] st.type_constraints@[k]).actual
                    == vt && st.type_constraints@[k].expected < st.terms@.len() && interned_as(
                    term_view(st.terms@[st.type_constraints@[k].expected as int]),
                    h@,
                )
        },
        StmtValue::Assign(lhs, _, rhs) => exists|k: int|
            from <= k < st.type_constraints@.len() && (#[trigger] st.type_constraints@[k]).expected
                == st.expr_types@[base + expr_size(lhs) - 1] && st.type_constraints@[k].actual
                == st.expr_types@[base + expr_size(lhs) + expr_size(rhs) - 1],
        StmtValue::Divider(_) => true,
    }
}

/// What the term of an expression looks like: an integer for constants and
/// operators, a variable for a subscript, a variable or an array for an
/// array literal.
pub open spec fn visit_shape(e: ExprValue, t: TermV) -> bool {
    match e {
        ExprValue::ConstantInt(_) => t == TermV::Int64,
        ExprValue::PrefixOp(_, _) => t == TermV::Int64,
        ExprValue::InfixBop(_, _, _) => t == TermV::Int64,
        ExprValue::PostfixBop(_, _, _, _) => t is Var,
        ExprValue::ArrayLiteral(elements, should_continue) => if elements@.len() == 0
            && should_continue is Some {
            t is Var
        } else {
            t matches TermV::Array(_, _)
        },
        _ => true,
    }
}

proof fn lemma_env_bounded_bind(
    scopes: Seq<Map<Seq<char>, usize>>,
    i: int,
    name: Seq<char>,
    v: usize,
    n: nat,
)
    requires
        env_bounded(scopes, n),
        0 <= i < scopes.len(),
        v < n,
    ensures
        env_bounded(scopes.update(i, scopes[i].insert(name, v)), n),
{
    let after = scopes.update(i, scopes[i].insert(name, v));
    assert forall|j: int, k: Seq<char>|
        0 <= j < after.len() && #[trigger] after[j].contains_key(k) implies after[j][k] < n by {
        if j != i {
            assert(after[j] == scopes[j]);
        } else if k != name {
            assert(scopes[i].contains_key(k));
        }
    }
}

proof fn lemma_env_bounded_push(scopes: Seq<Map<Seq<char>, usize>>, n: nat)
    requires
        env_bounded(scopes, n),
    ensures
        env_bounded(scopes.push(Map::empty()), n),
{
    let after = scopes.push(Map::empty());
    assert forall|j: int, k: Seq<char>|
        0 <= j < after.len() && #[trigger] after[j].contains_key(k) implies after[j][k] < n by {
        if j < scopes.len() {
            assert(after[j] == scopes[j]);
        }
    }
}

proof fn lemma_env_bounded_pop(scopes: Seq<Map<Seq<char>, usize>>, n: nat)
    requires
        env_bounded(scopes, n),
        scopes.len() > 0,
    ensures
        env_bounded(scopes.drop_last(), n),
{
    let after = scopes.drop_last();
    assert forall|j: int, k: Seq<char>|
        0 <= j < after.len() && #[trigger] after[j].contains_key(k) implies after[j][k] < n by {
        assert(after[j] == scopes[j]);
    }
}

/// What a statement step keeps: visiting keeps, except that the top scope of
/// bindings may change.
pub open spec fn stmt_keeps(a: TypeInferer, b: TypeInferer) -> bool {
    &&& TypeInferer::grows(a, b)
    &&& only_originals_added(a, b)
    &&& a.gen.upcoming() <= b.gen.upcoming()
    &&& a.expr_types@.len() <= b.expr_types@.len()
}

impl TypeInferer {
    /// Binds `name` to `value` in the top scope.
    fn bind_local(&mut self, name: String, value: usize)
        requires
            old(self).wf(),
            value < old(self).terms@.len(),
        ensures
            final(self).wf(),
            final(self).env.view() == old(self).env.view().update(
                old(self).env.view().len() - 1,
                old(self).env.view().last().insert(name@, value),
            ),
            final(self).env.spec_find(name@) == Some(value),
            final(self).terms == old(self).terms,
            final(self).liquids == old(self).liquids,
            final(self).type_constraints == old(self).type_constraints,
            final(self).liquid_constraints == old(self).liquid_constraints,
            final(self).gen == old(self).gen,
            final(self).expr_types == old(self).expr_types,
    {
        proof {
            self.env.lemma_has_base();
            lemma_env_bounded_bind(
                self.env.view(),
                self.env.view().len() - 1,
                name@,
                value,
                self.terms@.len(),
            );
        }
        let _ = self.env.bind(name, value);
    }

    /// Opens a scope of bindings.
    fn push_scope(&mut self)
        requires
            old(self).wf(),
        ensures
            final(self).wf(),
            final(self).env.view() == old(self).env.view().push(Map::empty()),
            final(self).terms == old(self).terms,
            final(self).liquids == old(self).liquids,
            final(self).type_constraints == old(self).type_constraints,
            final(self).liquid_constraints == old(self).liquid_constraints,
            final(self).gen == old(self).gen,
            final(self).expr_types == old(self).expr_types,
    {
        proof {
            lemma_env_bounded_push(self.env.view(), self.terms@.len());
        }
        self.env.push();
    }

    /// Closes the top scope of bindings, unless it is the base scope.
    fn pop_scope(&mut self)
        requires
            old(self).wf(),
        ensures
            final(self).wf(),
            old(self).env.view().len() > 1 ==> final(self).env.view() == old(
                self,
            ).env.view().drop_last(),
            final(self).terms == old(self).terms,
            final(self).liquids == old(self).liquids,
            final(self).type_constraints == old(self).type_constraints,
            final(self).liquid_constraints == old(self).liquid_constraints,
            final(self).gen == old(self).gen,
            final(self).expr_types == old(self).expr_types,
    {
        proof {
            self.env.lemma_has_base();
            lemma_env_bounded_pop(self.env.view(), self.terms@.len());
        }
        let _ = self.env.pop();
    }

    /// Establishes a top-level binding for the type `ty` of `name`, useful
    /// for allowing functions to call other functions or external
    /// declarations.
    pub fn bind_top_level(&mut self, name: String, ty: &Type)
        requires
            old(self).wf(),
        ensures
            TypeInferer::grows(*old(self), *final(self)),
            final(self).env.view().len() == old(self).env.view().len(),
            final(self).env.view()[0].contains_key(name@),
            final(self).env.view()[0][name@] < final(self).terms@.len(),
    {
        let t = self.intern_type(ty);
        proof {
            self.env.lemma_has_base();
            lemma_env_bounded_bind(self.env.view(), 0, name@, t, self.terms@.len());
        }
        let _ = self.env.bind_base(name, t);
    }

    /// Gathers the constraints of the statement `s`: a `let` binds its name
    /// to the type of its value, constrained to the hint if there is one; an
    /// assignment constrains the two sides to one type.
    fn visit_stmt(&mut self, s: &Stmt, em: &mut ErrorManager) -> (result: Result<(), InferError>)
        requires
            old(self).wf(),
            old(em).wf(),
            inferable_stmt(*s),
        ensures
            result is Ok ==> final(em).recorded() == old(em).recorded(),
            (result matches Err(InferError::UnboundName)) ==> reported_unbound(*old(em), *final(em)),
            (result matches Err(InferError::UnboundName)) ==> exists|x: Seq<char>|
                #![trigger reported_name(*old(em), *final(em), x)]
                stmt_reads(*s, x) && !names_of(old(self).env.view()).contains(x) && reported_name(
                *old(em),
                *final(em),
                x,
            ),
            final(em).wf(),
            final(em).limit() == old(em).limit(),
            stmt_keeps(*old(self), *final(self)),
            final(self).gen.upcoming() <= old(self).gen.upcoming() + 2 * stmt_size(*s),
            result matches Err(InferError::OutOfIdentifiers) ==> old(self).gen.upcoming() + 2
                * stmt_size(*s) >= usize::MAX,
            result is Ok ==> final(self).env.view().len() == old(self).env.view().len()
                && final(self).env.view().drop_last() == old(self).env.view().drop_last(),
            result is Ok ==> (s.value matches StmtValue::Let { name, .. }
                ==> final(self).env.spec_find(name.value@) is Some),
            result is Ok ==> (s.value is Assign ==> final(self).env == old(self).env),
            (result matches Err(InferError::UnboundName)) ==> !stmt_names_bound(
                *s,
                names_of(old(self).env.view()),
            ),
            !stmt_names_bound(*s, names_of(old(self).env.view())) ==> result is Err,
            result is Ok ==> names_of(final(self).env.view()) == names_after_stmt(
                *s,
                names_of(old(self).env.view()),
            ),
            result is Ok ==> final(self).expr_types@.len() > old(self).expr_types@.len(),
            result is Ok ==> final(self).expr_types@.len() == old(self).expr_types@.len() + stmt_size(*s),
            result is Ok ==> stmt_rule(
                *s,
                *final(self),
                old(self).type_constraints@.len() as int,
                old(self).expr_types@.len() as int,
            ),
            match result {
                Ok(_) => true,
                Err(err) => err == InferError::UnboundName || err == InferError::OutOfIdentifiers,
            },
    {
        match &s.value {
            StmtValue::Let { name, hint, value } => {
                proof {
                    self.env.lemma_has_base();
                }
                let value_type = self.visit_expr(value, em)?;
                let ghost vt_index = old(self).expr_types@.len() + expr_size(*value) - 1;
                let ghost k = self.type_constraints@.len() as int;
                match hint {
                    Some(hint) => {
                        let hint_type = self.intern_type(hint);
                        self.new_constraint(hint_type, value_type);
                        proof {
                            assert(self.type_constraints@[k].actual == value_type);
                            assert(self.type_constraints@[k].expected == hint_type);
                        }
                    },
                    None => {},
                }
                let ghost after_hint = *self;
                let ghost before_bind = self.env.view();
                self.bind_local(name.value.clone(), value_type);
                proof {
                    assert(self.env.view().drop_last() =~= old(self).env.view().drop_last());
                    assert(self.env.view().drop_last() =~= before_bind.drop_last());
                    lemma_names_top(before_bind, self.env.view());
                    assert(names_of(self.env.view()) =~= names_of(before_bind).insert(name.value@));
                    assert(self.expr_types@[vt_index] == value_type);
                }
                Ok(())
            },
            StmtValue::Assign(lhs, _, rhs) => {
                let lhs_type = self.visit_expr(lhs, em)?;
                let ghost after_lhs = self.expr_types@;
                let ghost em_mid = *em;
                let rhs_type = match self.visit_expr(rhs, em) {
                    Ok(t) => t,
                    Err(err) => {
                        proof {
                            if err == InferError::UnboundName {
                                let x = choose|x: Seq<char>|
                                    #![trigger reported_name(em_mid, *em, x)]
                                    expr_reads(*rhs, x) && !names_of(old(self).env.view()).contains(x)
                                        && reported_name(em_mid, *em, x);
                                lemma_reported_name_from(*old(em), em_mid, *em, x);
                            }
                        }
                        return Err(err);
                    },
                };
                let ghost k = self.type_constraints@.len() as int;
                self.new_constraint(lhs_type, rhs_type);
                proof {
                    let b = old(self).expr_types@.len() as int;
                    assert(after_lhs[b + expr_size(*lhs) - 1] == lhs_type);
                    assert(self.expr_types@[b + expr_size(*lhs) - 1] == after_lhs[b + expr_size(*lhs) - 1]);
                    assert(self.type_constraints@[k].expected == lhs_type);
                }
                Ok(())
            },
            StmtValue::Divider(_) => {
                proof {
                    assert(false);
                }
                Err(InferError::UnboundName)
            },
        }
    }
}

impl TypeInferer {
    /// Interns the types of a list of named parameters.
    fn intern_params(&mut self, params: &Vec<(Token, Type)>) -> (result: Vec<usize>)
        requires
            old(self).wf(),
        ensures
            TypeInferer::grows(*old(self), *final(self)),
            result@.len() == params@.len(),
            forall|i: int| 0 <= i < result@.len() ==> #[trigger] result@[i] < final(self).terms@.len(),
            final(self).type_constraints@ == old(self).type_constraints@,
            final(self).liquid_constraints@ == old(self).liquid_constraints@,
            final(self).gen == old(self).gen,
            final(self).env == old(self).env,
            final(self).expr_types == old(self).expr_types,
    {
        let mut result: Vec<usize> = Vec::new();
        let n = params.len();
        let mut i: usize = 0;
        let ghost start = *self;
        while i < n
            invariant
                0 <= i <= n,
                n == params@.len(),
                result@.len() == i,
                TypeInferer::grows(start, *self),
                start == *old(self),
                forall|j: int| 0 <= j < result@.len() ==> #[trigger] result@[j] < self.terms@.len(),
                self.type_constraints@ == old(self).type_constraints@,
                self.liquid_constraints@ == old(self).liquid_constraints@,
                self.gen == old(self).gen,
                self.env == old(self).env,
                self.expr_types == old(self).expr_types,
            decreases n - i,
        {
            let t = self.intern_type(&params[i].1);
            result.push(t);
            i = i + 1;
        }
        result
    }

    /// Binds the name of the function `d` to its type in the base scope, so
    /// that every function can refer to every other.
    fn register_top_level_bindings(&mut self, d: &Decl)
        requires
            old(self).wf(),
        ensures
            TypeInferer::grows(*old(self), *final(self)),
            final(self).env.view().len() == old(self).env.view().len(),
            final(self).type_constraints@ == old(self).type_constraints@,
            final(self).liquid_constraints@ == old(self).liquid_constraints@,
            final(self).gen == old(self).gen,
            final(self).expr_types == old(self).expr_types,
            match d.value {
                DeclValue::Function { name, inputs, outputs, .. } => {
                    &&& final(self).env.view()[0].contains_key(name.value@)
                    &&& term_view(final(self).terms@[final(self).env.view()[0][name.value@] as int])
                        matches TermV::Function(ins, outs)
                    &&& ins.len() == inputs@.len() && outs.len() == outputs@.len()
                    &&& names_of(final(self).env.view()) == names_of(old(self).env.view()).insert(
                        name.value@,
                    )
                },
            },
    {
        match &d.value {
            DeclValue::Function { func: _, name, inputs, outputs, body: _ } => {
                let ins = self.intern_params(inputs);
                let outs = self.intern_params(outputs);
                let func_type = self.add_term(
                    TermValue::Function(ins, outs),
                    name.duplicate(),
                    name.duplicate(),
                );
                proof {
                    self.env.lemma_has_base();
                    lemma_env_bounded_bind(
                        self.env.view(),
                        0,
                        name.value@,
                        func_type,
                        self.terms@.len(),
                    );
                }
                let ghost before = self.env.view();
                let _ = self.env.bind_base(name.value.clone(), func_type);
                proof {
                    lemma_names_base(before, name.value@, func_type);
                }
            },
        }
    }

    /// Binds the parameters of a function in the top scope.
    #[verifier::rlimit(100)]
    #[verifier::spinoff_prover]
    fn bind_params(&mut self, params: &Vec<(Token, Type)>)
        requires
            old(self).wf(),
        ensures
            TypeInferer::grows(*old(self), *final(self)),
            final(self).env.view().len() == old(self).env.view().len(),
            final(self).env.view().drop_last() == old(self).env.view().drop_last(),
            final(self).type_constraints@ == old(self).type_constraints@,
            final(self).liquid_constraints@ == old(self).liquid_constraints@,
            final(self).gen == old(self).gen,
            final(self).expr_types == old(self).expr_types,
            forall|k: int|
                0 <= k < params@.len() ==> final(self).env.view().last().contains_key(
                    (#[trigger] params@[k]).0.value@,
                ),
            forall|k: int|
                0 <= k < params@.len() && last_binding(params@, k, params@.len() as int) ==> {
                    let t = final(self).env.view().last()[(#[trigger] params@[k]).0.value@];
                    &&& old(self).terms@.len() <= t < final(self).terms@.len()
                    &&& interned_as(term_view(final(self).terms@[t as int]), params@[k].1@)
                },
            same_outside(
                final(self).env.view().last(),
                old(self).env.view().last(),
                names_upto(params@, params@.len() as int),
            ),
    {
        let n = params.len();
        let mut i: usize = 0;
        let ghost start = *self;
        proof {
            self.env.lemma_has_base();
            assert(names_upto(params@, 0) =~= Set::<Seq<char>>::empty());
            lemma_same_outside_refl(self.env.view().last(), names_upto(params@, 0));
        }
        while i < n
            invariant
                0 <= i <= n,
                n == params@.len(),
                TypeInferer::grows(start, *self),
                start == *old(self),
                self.env.view().len() == old(self).env.view().len(),
                self.env.view().len() >= 1,
                self.env.view().drop_last() == old(self).env.view().drop_last(),
                self.type_constraints@ == old(self).type_constraints@,
                self.liquid_constraints@ == old(self).liquid_constraints@,
                self.gen == old(self).gen,
                self.expr_types == old(self).expr_types,
                forall|k: int|
                    0 <= k < i ==> self.env.view().last().contains_key(
                        (#[trigger] params@[k]).0.value@,
                    ),
                forall|k: int|
                    0 <= k < i && last_binding(params@, k, i as int) ==> {
                        let t = self.env.view().last()[(#[trigger] params@[k]).0.value@];
                        &&& old(self).terms@.len() <= t < self.terms@.len()
                        &&& interned_as(term_view(self.terms@[t as int]), params@[k].1@)
                    },
                same_outside(
                    self.env.view().last(),
                    old(self).env.view().last(),
                    names_upto(params@, i as int),
                ),
            decreases n - i,
        {
            let ghost prev = *self;
            let t = self.intern_type(&params[i].1);
            let ghost before = self.env.view();
            let ghost name = params@[i as int].0.value@;
            self.bind_local(params[i].0.value.clone(), t);
            proof {
                assert(self.env.view().drop_last() =~= before.drop_last());
                assert(self.env.view().last() == before.last().insert(name, t));
                lemma_names_upto_step(params@, i as int);
                lemma_scope_untouched(
                    before.last(),
                    self.env.view().last(),
                    old(self).env.view().last(),
                    names_upto(params@, i as int),
                    name,
                    t,
                );
                assert forall|k: int|
                    0 <= k < i + 1 && last_binding(params@, k, i + 1) implies {
                        let tk = self.env.view().last()[(#[trigger] params@[k]).0.value@];
                        &&& old(self).terms@.len() <= tk < self.terms@.len()
                        &&& interned_as(term_view(self.terms@[tk as int]), params@[k].1@)
                    } by {
                    if k < i {
                        assert(last_binding(params@, k, i as int));
                        assert(params@[k].0.value@ != name);
                        let tk = prev.env.view().last()[params@[k].0.value@];
                        assert(tk < prev.terms@.len());
                        assert(term_view(self.terms@[tk as int]) == term_view(prev.terms@[tk as int]));
                    }
                }
            }
            i = i + 1;
        }
        proof {
            assert(params@.subrange(0, n as int) =~= params@);
        }
    }

    /// Gathers the constraints of the function `d`: its parameters are bound
    /// to their declared types in a scope of their own, and its body is
    /// visited in a scope within that one.
    fn visit_decl(&mut self, d: &Decl, em: &mut ErrorManager) -> (result: Result<(), InferError>)
        requires
            old(self).wf(),
            old(em).wf(),
            match d.value {
                DeclValue::Function { body, .. } => forall|j: int|
                    0 <= j < body@.len() ==> inferable_stmt(#[trigger] body@[j]),
            },
        ensures
            result is Ok ==> final(em).recorded() == old(em).recorded(),
            (result matches Err(InferError::UnboundName)) ==> reported_unbound(*old(em), *final(em)),
            (result matches Err(InferError::UnboundName)) ==> exists|x: Seq<char>|
                #![trigger reported_name(*old(em), *final(em), x)]
                decl_reads_unbound(*d, names_of(old(self).env.view()), x) && reported_name(
                *old(em),
                *final(em),
                x,
            ),
            final(em).wf(),
            final(em).limit() == old(em).limit(),
            stmt_keeps(*old(self), *final(self)),
            final(self).gen.upcoming() <= old(self).gen.upcoming() + 2 * decl_size(*d),
            result matches Err(InferError::OutOfIdentifiers) ==> old(self).gen.upcoming() + 2
                * decl_size(*d) >= usize::MAX,
            result is Ok ==> final(self).env.view() == old(self).env.view(),
            (result matches Err(InferError::UnboundName)) ==> !decl_names_bound(
                *d,
                names_of(old(self).env.view()),
            ),
            !decl_names_bound(*d, names_of(old(self).env.view())) ==> result is Err,
            match d.value {
                DeclValue::Function { inputs, outputs, body, .. } => {
                    &&& result is Ok ==> final(self).expr_types@.len() == old(
                        self,
                    ).expr_types@.len() + decl_size(*d)
                    &&& result is Ok ==> final(self).expr_types@.len() >= old(
                        self,
                    ).expr_types@.len() + body@.len()
                    &&& inputs@.len() + outputs@.len() > 0 ==> final(self).terms@.len() > old(
                        self,
                    ).terms@.len()
                },
            },
            match result {
                Ok(_) => true,
                Err(err) => err == InferError::UnboundName || err == InferError::OutOfIdentifiers,
            },
    {
        match &d.value {
            DeclValue::Function { func: _, name: _, inputs, outputs, body } => {
                let ghost outer = self.env.view();
                proof {
                    self.env.lemma_has_base();
                }
                self.push_scope();
                proof {
                    assert(self.env.view().drop_last() =~= outer);
                }
                let ghost scoped = self.env.view();
                proof {
                    lemma_names_push(outer);
                }
                self.bind_params(inputs);
                let ghost with_inputs = self.env.view();
                proof {
                    lemma_names_params(scoped, with_inputs, inputs@);
                    if inputs@.len() > 0 {
                        let k = inputs@.len() - 1;
                        assert(last_binding(inputs@, k, inputs@.len() as int));
                        assert(self.env.view().last().contains_key(inputs@[k].0.value@));
                    }
                }
                self.bind_params(outputs);
                proof {
                    lemma_names_params(with_inputs, self.env.view(), outputs@);
                    if outputs@.len() > 0 {
                        let k = outputs@.len() - 1;
                        assert(last_binding(outputs@, k, outputs@.len() as int));
                        assert(self.env.view().last().contains_key(outputs@[k].0.value@));
                    }
                }
                let ghost params = self.env.view();
                let ghost bound = names_of(outer).union(names_upto(inputs@, inputs@.len() as int)).union(
                    names_upto(outputs@, outputs@.len() as int),
                );
                assert(params.drop_last() == outer);
                assert(names_of(params) == bound);
                self.push_scope();
                proof {
                    lemma_names_push(params);
                    assert(names_of(self.env.view()) == names_after(body@.subrange(0, 0), bound));
                    assert(stmts_names_bound(body@.subrange(0, 0), bound));
                }
                let n = body.len();
                let mut i: usize = 0;
                let ghost start = *old(self);
                while i < n
                    invariant
                        0 <= i <= n,
                        n == body@.len(),
                        forall|j: int| 0 <= j < body@.len() ==> inferable_stmt(#[trigger] body@[j]),
                        self.wf(),
                        em.wf(),
                        em.limit() == old(em).limit(),
                        em.recorded() == old(em).recorded(),
                        stmt_keeps(start, *self),
                        start == *old(self),
                        params.len() == outer.len() + 1,
                        outer == old(self).env.view(),
                        self.env.view().len() == params.len() + 1,
                        self.env.view().drop_last() == params,
                        self.expr_types@.len() >= old(self).expr_types@.len() + i,
                        self.expr_types@.len() == old(self).expr_types@.len() + stmts_size(body@.subrange(0, i as int)),
                        self.gen.upcoming() <= old(self).gen.upcoming() + 2 * stmts_size(
                            body@.subrange(0, i as int),
                        ),
                        d.value matches DeclValue::Function { inputs: ii, outputs: oo, body: bb, .. }
                            && ii == *inputs && oo == *outputs && bb == *body,
                        inputs@.len() + outputs@.len() > 0 ==> self.terms@.len() > old(
                            self,
                        ).terms@.len(),
                        bound == names_of(outer).union(names_upto(inputs@, inputs@.len() as int)).union(
                            names_upto(outputs@, outputs@.len() as int),
                        ),
                        names_of(self.env.view()) == names_after(body@.subrange(0, i as int), bound),
                        stmts_names_bound(body@.subrange(0, i as int), bound),
                    decreases n - i,
                {
                    proof {
                        assert(body@.subrange(0, i + 1).drop_last() =~= body@.subrange(0, i as int));
                        assert(body@.subrange(0, i + 1).last() == body@[i as int]);
                        lemma_stmts_size_prefix(body@, i + 1);
                    }
                    let ghost em_mid = *em;
                    let ghost env_mid = self.env.view();
                    match self.visit_stmt(&body[i], em) {
                        Ok(()) => {},
                        Err(err) => {
                            proof {
                                if err == InferError::UnboundName {
                                    let x = choose|x: Seq<char>|
                                        #![trigger reported_name(em_mid, *em, x)]
                                        stmt_reads(body@[i as int], x) && !names_of(env_mid).contains(x)
                                            && reported_name(em_mid, *em, x);
                                    lemma_reported_name_from(*old(em), em_mid, *em, x);
                                    assert(stmts_read_unbound(body@, bound, x));
                                    assert(decl_reads_unbound(*d, names_of(outer), x));
                                }
                                if stmts_names_bound(body@, bound) {
                                    lemma_stmts_names_bound_prefix(body@, i + 1, bound);
                                }
                            }
                            return Err(err);
                        },
                    }
                    i = i + 1;
                }
                proof {
                    assert(body@.subrange(0, n as int) =~= body@);
                }
                self.pop_scope();
                assert(self.env.view() == params);
                self.pop_scope();
                Ok(())
            },
        }
    }
}

/// A list without repeats of numbers below `n` has at most `n` entries.
pub proof fn lemma_bounded_unique_len(s: Seq<usize>, n: nat)
    requires
        s.no_duplicates(),
        forall|i: int| 0 <= i < s.len() ==> #[trigger] s[i] < n,
    ensures
        s.len() <= n,
{
    let t = s.map_values(|x: usize| x as int);
    assert(t.no_duplicates()) by {
        assert forall|i: int, j: int| 0 <= i < t.len() && 0 <= j < t.len() && i != j implies t[i]
            != t[j] by {
            assert(s[i] != s[j]);
        }
    }
    t.unique_seq_to_set();
    vstd::set_lib::lemma_int_range(0, n as int);
    assert(t.to_set().subset_of(vstd::set_lib::set_int_range(0, n as int))) by {
        assert forall|x: int| t.to_set().contains(x) implies vstd::set_lib::set_int_range(
            0,
            n as int,
        ).contains(x) by {
            let i = choose|i: int| 0 <= i < t.len() && t[i] == x;
            assert(s[i] < n);
        }
    }
    vstd::set_lib::lemma_len_subset(t.to_set(), vstd::set_lib::set_int_range(0, n as int));
}

/// Within each class, every member that is not a variable has the shape of
/// the class's representative, which is then not a variable either.
pub open spec fn classes_ok(ts: Seq<TermV>, dsu: DisjointSets) -> bool {
    forall|x: usize|
        #[trigger] dsu.dom().contains(x) ==> (!(ts[x as int] is Var) ==> !(ts[dsu.rep()[x] as int] is Var)
            && same_shape(ts[x as int], ts[dsu.rep()[x] as int]))
}

/// Unifying stops at the constraint `k` of `cs` in the classes `dsu`: every
/// earlier constraint is joined, and the two ends of `k` lie in classes whose
/// representatives are no variables and differ in their outermost
/// constructor.
pub open spec fn clash_at(ts: Seq<TermV>, cs: Seq<UnificationConstraint>, k: int, dsu: DisjointSets) -> bool {
    &&& forall|j: int| 0 <= j < k ==> joined(#[trigger] cs[j], dsu)
    &&& dsu.dom().contains(cs[k].expected)
    &&& dsu.dom().contains(cs[k].actual)
    &&& !(ts[dsu.rep()[cs[k].expected] as int] is Var)
    &&& !(ts[dsu.rep()[cs[k].actual] as int] is Var)
    &&& !same_shape(ts[dsu.rep()[cs[k].expected] as int], ts[dsu.rep()[cs[k].actual] as int])
}

/// Unifying stops at some constraint of `cs` (see [`clash_at`]).
pub open spec fn stops_with_clash(ts: Seq<TermV>, cs: Seq<UnificationConstraint>, dsu: DisjointSets) -> bool {
    exists|k: int| 0 <= k < cs.len() && #[trigger] clash_at(ts, cs, k, dsu)
}

/// Every class member is a term.
pub open spec fn members_bounded(dsu: DisjointSets, n: nat) -> bool {
    forall|x: usize| #[trigger] dsu.dom().contains(x) ==> x < n
}

/// The two ends of `c` are in one class.
pub open spec fn joined(c: UnificationConstraint, dsu: DisjointSets) -> bool {
    &&& dsu.dom().contains(c.expected)
    &&& dsu.dom().contains(c.actual)
    &&& dsu.rep()[c.expected] == dsu.rep()[c.actual]
}

/// The outcome of unifying the constraints `cs` over the terms `ts`: the
/// ends of every constraint are in one class, and every class whose
/// representative is no variable holds only terms of the representative's
/// shape and variables.
pub open spec fn unified(ts: Seq<TermV>, cs: Seq<UnificationConstraint>, dsu: DisjointSets) -> bool {
    &&& dsu.wf()
    &&& dsu.is_flat()
    &&& members_bounded(dsu, ts.len())
    &&& classes_ok(ts, dsu)
    &&& forall|k: int| 0 <= k < cs.len() ==> joined(#[trigger] cs[k], dsu)
}

proof fn lemma_add_keeps(ts: Seq<TermV>, a: DisjointSets, b: DisjointSets, v: usize)
    requires
        a.wf(),
        b.wf(),
        v < ts.len(),
        members_bounded(a, ts.len()),
        classes_ok(ts, a),
        a.dom().contains(v) ==> b.rep() == a.rep(),
        !a.dom().contains(v) ==> b.rep() == a.rep().insert(v, v),
    ensures
        members_bounded(b, ts.len()),
        classes_ok(ts, b),
        b.dom().contains(v),
        forall|x: usize| #[trigger] a.dom().contains(x) ==> b.dom().contains(x) && b.rep()[x] == a.rep()[x],
{
    a.lemma_reps();
    b.lemma_reps();
    assert forall|x: usize| #[trigger] b.dom().contains(x) implies (!(ts[x as int] is Var) ==> !(
    ts[b.rep()[x] as int] is Var) && same_shape(ts[x as int], ts[b.rep()[x] as int])) by {
        if x != v || a.dom().contains(v) {
            assert(a.dom().contains(x));
        }
    }
    assert forall|x: usize| #[trigger] b.dom().contains(x) implies x < ts.len() by {
        if x != v {
            assert(a.dom().contains(x));
        }
    }
}

proof fn lemma_union_keeps(
    ts: Seq<TermV>,
    cs: Seq<UnificationConstraint>,
    done: int,
    d1: DisjointSets,
    d2: DisjointSets,
    a: usize,
    b: usize,
)
    requires
        d1.wf(),
        d2.wf(),
        members_bounded(d1, ts.len()),
        classes_ok(ts, d1),
        0 <= done <= cs.len(),
        forall|k: int| 0 <= k < done ==> joined(#[trigger] cs[k], d1),
        d1.dom().contains(a),
        d1.dom().contains(b),
        d1.rep()[a] == a,
        d1.rep()[b] == b,
        a != b,
        ts[a as int] is Var || (!(ts[b as int] is Var) && same_shape(ts[a as int], ts[b as int])),
        d2.rep() == Map::new(
            |x: usize| d1.rep().dom().contains(x),
            |x: usize|
                if d1.rep()[x] == a || d1.rep()[x] == b {
                    b
                } else {
                    d1.rep()[x]
                },
        ),
    ensures
        members_bounded(d2, ts.len()),
        classes_ok(ts, d2),
        forall|k: int| 0 <= k < done ==> joined(#[trigger] cs[k], d2),
        d2.rep()[a] == d2.rep()[b],
        forall|x: usize| #[trigger] d1.dom().contains(x) ==> d2.dom().contains(x),
{
    d1.lemma_reps();
    d2.lemma_reps();
    assert(d2.dom() =~= d1.dom());
    assert forall|x: usize| #[trigger] d2.dom().contains(x) implies (!(ts[x as int] is Var) ==> !(
    ts[d2.rep()[x] as int] is Var) && same_shape(ts[x as int], ts[d2.rep()[x] as int])) by {
        assert(d1.dom().contains(x));
    }
    assert forall|k: int| 0 <= k < done implies joined(#[trigger] cs[k], d2) by {
        assert(joined(cs[k], d1));
    }
}

/// `Failed to unify types` followed by the two types in backquotes.
pub open spec fn failure_message(expected: Seq<char>, actual: Seq<char>) -> Seq<char> {
    "Failed to unify types `"@ + expected + "` and `"@ + actual + "`"@
}

/// Whether `e` reports a failure to unify the types with the texts
/// `expected` and `actual`.
pub open spec fn is_failure_report(e: Error, expected: Seq<char>, actual: Seq<char>) -> bool {
    &&& e.code == ErrorCode::UnificationFailure
    &&& e.style == Style::Primary
    &&& e.level == Level::Error
    &&& e.message@ == failure_message(expected, actual)
}

/// Recording `e` adds one to the count against the limit exactly when `e`
/// counts against it.
proof fn lemma_primary_push(s: Seq<Error>, e: Error)
    ensures
        primary_errors(s.push(e)) == primary_errors(s) + if counts_against_limit(e) {
            1nat
        } else {
            0nat
        },
{
    assert(s.push(e).drop_last() =~= s);
}

/// Where term `i` of `terms` stands in the source.
pub open spec fn term_span_of(terms: Seq<Term>, i: int) -> Option<Span> {
    spec_node_span(terms[i].start_token, terms[i].end_token)
}

/// Whether `e` continues a failure report with the received type's text.
pub open spec fn is_received_note(e: Error, actual: Seq<char>) -> bool {
    &&& e.style == Style::Secondary
    &&& e.level == Level::Error
    &&& e.message@ == "   ..."@
    &&& e.explain matches Some(x) && x@ == "but received `"@ + actual + "` here."@
}

/// Whether `e` is the note that names the type variable `name` with the
/// text `ty` of its type.
pub open spec fn is_name_note(e: Error, name: Seq<char>, ty: Seq<char>) -> bool {
    &&& e.style == Style::Secondary
    &&& e.level == Level::Info
    &&& e.message@ == "   ..."@
    &&& e.explain matches Some(x) && x@ == "Call the type of "@ + name + " `"@ + ty + "`."@
}

/// Whether `e` and `f` are the two notes that show the derived constraint
/// between the types with the texts `expected` and `actual`.
pub open spec fn is_derived_notes(e: Error, f: Error, expected: Seq<char>, actual: Seq<char>) -> bool {
    &&& e.style == Style::Secondary
    &&& e.level == Level::Info
    &&& e.code == ErrorCode::UnificationFailure
    &&& e.message@ == "Error encountered while unifiying `"@ + expected + "` with `"@ + actual + "`"@
    &&& e.explain matches Some(x) && x@ == "Expected `"@ + expected + "` here,"@
    &&& f.style == Style::Secondary
    &&& f.level == Level::Info
    &&& f.code == ErrorCode::UnificationFailure
    &&& f.message@ == "   ..."@
    &&& f.explain matches Some(x) && x@ == "but received `"@ + actual + "` here."@
}

/// The text of a size term's value: its number, or `?`.
fn liquid_value_text(value: LiquidTypeValue) -> (result: String)
    ensures
        result@ == spec_liquid_text(value),
{
    match value {
        LiquidTypeValue::Equal(n) => usize_text(n),
        LiquidTypeValue::All(_) => {
            proof {
                reveal_strlit("?");
            }
            text_of("?")
        },
    }
}

impl TypeInferer {
    /// Whether term `i` is a type variable.
    fn is_var(&self, i: usize) -> (result: bool)
        requires
            i < self.terms@.len(),
        ensures
            result == (term_view(self.terms@[i as int]) is Var),
    {
        match &self.terms[i].value {
            TermValue::Var(_, _) => true,
            _ => false,
        }
    }

    /// Whether terms `i` and `j` have the same outermost constructor.
    fn shapes_match(&self, i: usize, j: usize) -> (result: bool)
        requires
            i < self.terms@.len(),
            j < self.terms@.len(),
        ensures
            result == same_shape(term_view(self.terms@[i as int]), term_view(self.terms@[j as int])),
    {
        match (&self.terms[i].value, &self.terms[j].value) {
            (TermValue::Unit, TermValue::Unit) => true,
            (TermValue::Var(_, _), TermValue::Var(_, _)) => true,
            (TermValue::Name(_), TermValue::Name(_)) => true,
            (TermValue::Int64, TermValue::Int64) => true,
            (TermValue::Array(_, _), TermValue::Array(_, _)) => true,
            (TermValue::Function(_, _), TermValue::Function(_, _)) => true,
            _ => false,
        }
    }

    /// The terms directly inside term `i`.
    fn subterms(&self, i: usize) -> (result: Vec<usize>)
        requires
            self.wf(),
            i < self.terms@.len(),
        ensures
            result@ == term_subterms(term_view(self.terms@[i as int])),
            forall|k: int| 0 <= k < result@.len() ==> #[trigger] result@[k] < i,
    {
        proof {
            assert(term_ok(term_view(self.terms@[i as int]), i as int, self.liquids@.len()));
        }
        match &self.terms[i].value {
            TermValue::Array(e, _) => {
                let mut result: Vec<usize> = Vec::new();
                result.push(*e);
                assert(result@ =~= seq![*e]);
                result
            },
            TermValue::Function(ins, outs) => {
                proof {
                    lemma_function_subterms(
                        term_view(self.terms@[i as int]),
                        i as int,
                        self.liquids@.len(),
                        ins@,
                        outs@,
                    );
                }
                let mut result: Vec<usize> = Vec::new();
                let mut k: usize = 0;
                while k < ins.len()
                    invariant
                        0 <= k <= ins@.len(),
                        result@ == ins@.subrange(0, k as int),
                    decreases ins@.len() - k,
                {
                    result.push(ins[k]);
                    assert(result@ =~= ins@.subrange(0, k + 1));
                    k = k + 1;
                }
                let mut k: usize = 0;
                while k < outs.len()
                    invariant
                        0 <= k <= outs@.len(),
                        result@ == ins@ + outs@.subrange(0, k as int),
                    decreases outs@.len() - k,
                {
                    result.push(outs[k]);
                    assert(result@ =~= ins@ + outs@.subrange(0, k + 1));
                    k = k + 1;
                }
                assert(outs@.subrange(0, outs@.len() as int) =~= outs@);
                result
            },
            _ => {
                let result: Vec<usize> = Vec::new();
                assert(result@ =~= Seq::<usize>::empty());
                result
            },
        }
    }

    /// The size term directly inside term `i`, if it is an array.
    fn liquid_subterm(&self, i: usize) -> (result: Option<usize>)
        requires
            self.wf(),
            i < self.terms@.len(),
        ensures
            match term_view(self.terms@[i as int]) {
                TermV::Array(_, l) => result == Some(l) && l < self.liquids@.len(),
                _ => result is None,
            },
    {
        proof {
            assert(term_ok(term_view(self.terms@[i as int]), i as int, self.liquids@.len()));
        }
        match &self.terms[i].value {
            TermValue::Array(_, l) => Some(*l),
            _ => None,
        }
    }

    /// Where term `i` stands in the source.
    fn term_span(&self, i: usize) -> (result: Option<Span>)
        requires
            i < self.terms@.len(),
        ensures
            result == spec_node_span(self.terms@[i as int].start_token, self.terms@[i as int].end_token),
    {
        node_span(&self.terms[i].start_token, &self.terms[i].end_token)
    }

    /// Where size term `l` stands in the source.
    fn liquid_span(&self, l: usize) -> (result: Option<Span>)
        requires
            l < self.liquids@.len(),
        ensures
            result == spec_node_span(
                self.liquids@[l as int].start_token,
                self.liquids@[l as int].end_token,
            ),
    {
        node_span(&self.liquids[l].start_token, &self.liquids[l].end_token)
    }

    /// Gathers, in order and without repeats, the type variables with a
    /// description inside term `i` (see [`spec_named_vars`]).
    fn named_type_vars(&self, i: usize, out: &mut Vec<(usize, String)>)
        requires
            self.wf(),
            i < self.terms@.len(),
            forall|k: int| 0 <= k < old(out)@.len() ==> #[trigger] old(out)@[k].0 < self.terms@.len(),
        ensures
            forall|k: int| 0 <= k < final(out)@.len() ==> #[trigger] final(out)@[k].0 < self.terms@.len(),
            named_view(final(out)@) == spec_named_vars(self.terms@, i as nat, named_view(old(out)@)),
        decreases i,
    {
        proof {
            assert(term_ok(term_view(self.terms@[i as int]), i as int, self.liquids@.len()));
        }
        match &self.terms[i].value {
            TermValue::Var(_, Some(name)) => {
                let mut seen = false;
                let mut k: usize = 0;
                while k < out.len()
                    invariant
                        0 <= k <= out@.len(),
                        seen <==> exists|j: int| 0 <= j < k && (#[trigger] out@[j]).0 == i,
                    decreases out@.len() - k,
                {
                    if out[k].0 == i {
                        seen = true;
                    }
                    k = k + 1;
                }
                proof {
                    let acc = named_view(out@);
                    assert((exists|j: int| 0 <= j < acc.len() && acc[j].0 == i) <==> seen) by {
                        if seen {
                            let j = choose|j: int| 0 <= j < out@.len() && (#[trigger] out@[j]).0 == i;
                            assert(acc[j].0 == i);
                        }
                        if exists|j: int| 0 <= j < acc.len() && acc[j].0 == i {
                            let j = choose|j: int| 0 <= j < acc.len() && acc[j].0 == i;
                            assert(out@[j].0 == i);
                        }
                    }
                }
                if !seen {
                    let ghost before = out@;
                    out.push((i, name.clone()));
                    proof {
                        assert(named_view(out@) =~= named_view(before).push((i, name@)));
                    }
                }
            },
            TermValue::Array(e, _) => self.named_type_vars(*e, out),
            TermValue::Function(ins, outs) => {
                proof {
                    lemma_function_subterms(
                        term_view(self.terms@[i as int]),
                        i as int,
                        self.liquids@.len(),
                        ins@,
                        outs@,
                    );
                }
                let ghost start = named_view(out@);
                let mut k: usize = 0;
                while k < ins.len()
                    invariant
                        self.wf(),
                        i < self.terms@.len(),
                        forall|j: int| 0 <= j < ins@.len() ==> #[trigger] ins@[j] < i,
                        0 <= k <= ins@.len(),
                        forall|j: int| 0 <= j < out@.len() ==> #[trigger] out@[j].0 < self.terms@.len(),
                        named_view(out@) == spec_named_vars_list(
                            self.terms@,
                            ins@,
                            k as nat,
                            i as nat,
                            start,
                        ),
                    decreases ins@.len() - k,
                {
                    self.named_type_vars(ins[k], out);
                    k = k + 1;
                }
                let ghost middle = named_view(out@);
                let mut k: usize = 0;
                while k < outs.len()
                    invariant
                        self.wf(),
                        i < self.terms@.len(),
                        forall|j: int| 0 <= j < outs@.len() ==> #[trigger] outs@[j] < i,
                        0 <= k <= outs@.len(),
                        forall|j: int| 0 <= j < out@.len() ==> #[trigger] out@[j].0 < self.terms@.len(),
                        named_view(out@) == spec_named_vars_list(
                            self.terms@,
                            outs@,
                            k as nat,
                            i as nat,
                            middle,
                        ),
                    decreases outs@.len() - k,
                {
                    self.named_type_vars(outs[k], out);
                    k = k + 1;
                }
            },
            _ => {},
        }
    }
}

/// Gathered type variables with their descriptions.
pub open spec fn named_view(out: Seq<(usize, String)>) -> Seq<(usize, Seq<char>)> {
    Seq::new(out.len(), |k: int| (out[k].0, out[k].1@))
}

/// `acc` followed by the type variables with a description inside term `i`
/// of `terms` that it does not hold yet, in the order a walk of the term
/// meets them: a described variable itself, the element of an array, and
/// the inputs then the outputs of a function.
pub open spec fn spec_named_vars(terms: Seq<Term>, i: nat, acc: Seq<(usize, Seq<char>)>) -> Seq<
    (usize, Seq<char>),
>
    decreases i, 1nat, 0nat,
{
    if i >= terms.len() {
        acc
    } else {
        match terms[i as int].value {
            TermValue::Var(_, Some(name)) => if exists|j: int|
                0 <= j < acc.len() && acc[j].0 == i {
                acc
            } else {
                acc.push((i as usize, name@))
            },
            TermValue::Array(e, _) => if e < i {
                spec_named_vars(terms, e as nat, acc)
            } else {
                acc
            },
            TermValue::Function(ins, outs) => spec_named_vars_list(
                terms,
                outs@,
                outs@.len(),
                i,
                spec_named_vars_list(terms, ins@, ins@.len(), i, acc),
            ),
            _ => acc,
        }
    }
}

/// [`spec_named_vars`] applied to the first `k` of the terms `idxs`, each
/// below `bound`, one after another.
pub open spec fn spec_named_vars_list(
    terms: Seq<Term>,
    idxs: Seq<usize>,
    k: nat,
    bound: nat,
    acc: Seq<(usize, Seq<char>)>,
) -> Seq<(usize, Seq<char>)>
    decreases bound, 0nat, k,
{
    if k == 0 || k > idxs.len() {
        acc
    } else {
        let before = spec_named_vars_list(terms, idxs, (k - 1) as nat, bound, acc);
        if idxs[k - 1] < bound {
            spec_named_vars(terms, idxs[k - 1] as nat, before)
        } else {
            before
        }
    }
}

proof fn lemma_function_subterms(t: TermV, index: int, n: nat, ins: Seq<usize>, outs: Seq<usize>)
    requires
        term_ok(t, index, n),
        t == TermV::Function(ins, outs),
    ensures
        forall|j: int| 0 <= j < ins.len() ==> #[trigger] ins[j] < index,
        forall|j: int| 0 <= j < outs.len() ==> #[trigger] outs[j] < index,
{
    assert(t is Function);
    assert(t->Function_0 == ins);
    assert(forall|k: int| 0 <= k < t->Function_0.len() ==> #[trigger] t->Function_0[k] < index);
    assert(forall|k: int| 0 <= k < ins.len() ==> #[trigger] ins[k] < index);
    assert(t->Function_1 == outs);
    assert(forall|k: int| 0 <= k < t->Function_1.len() ==> #[trigger] t->Function_1[k] < index);
}

impl TypeInferer {
    /// Reports that the constraint `c` cannot hold: the types of the two
    /// ends of its original constraint, as unified so far, differ. The type
    /// variables with a description inside them are named, and a derived
    /// constraint is shown as well.
    fn report_type_failure(&self, em: &mut ErrorManager, c: UnificationConstraint, dsu: &mut DisjointSets)
        requires
            self.wf(),
            old(em).wf(),
            old(dsu).wf(),
            members_bounded(*old(dsu), self.terms@.len()),
            old(dsu).dom().contains(c.root_expected),
            old(dsu).dom().contains(c.root_actual),
            c.expected < self.terms@.len(),
            c.actual < self.terms@.len(),
        ensures
            final(em).wf(),
            final(em).limit() == old(em).limit(),
            final(dsu).wf(),
            final(dsu).rep() == old(dsu).rep(),
            final(dsu).order() == old(dsu).order(),
            final(dsu).merge_count() == old(dsu).merge_count(),
            final(dsu).dom() == old(dsu).dom(),
            primary_errors(old(em).recorded()) < old(em).limit() ==> {
                &&& final(em).recorded().len() > old(em).recorded().len()
                &&& is_failure_report(
                    final(em).recorded()[old(em).recorded().len() as int],
                    spec_type_text(self.tree(old(dsu).rep()[c.root_expected] as int)),
                    spec_type_text(self.tree(old(dsu).rep()[c.root_actual] as int)),
                )
                &&& final(em).recorded()[old(em).recorded().len() as int].span == term_span_of(
                    self.terms@,
                    old(dsu).rep()[c.root_expected] as int,
                )
            },
            final(em).recorded().len() >= old(em).recorded().len(),
            final(em).recorded().subrange(0, old(em).recorded().len() as int) == old(em).recorded(),
            primary_errors(old(em).recorded()) + 1 < old(em).limit() ==> ({
                let e_rep = old(dsu).rep()[c.root_expected] as int;
                let a_rep = old(dsu).rep()[c.root_actual] as int;
                let names = spec_named_vars(
                    self.terms@,
                    a_rep as nat,
                    spec_named_vars(self.terms@, e_rep as nat, Seq::empty()),
                );
                let base = old(em).recorded().len() as int;
                let recs = final(em).recorded();
                &&& recs.len() == base + 2 + names.len() + if c.is_derived {
                    2int
                } else {
                    0int
                }
                &&& is_received_note(recs[base + 1], spec_type_text(self.tree(a_rep)))
                &&& recs[base + 1].span == term_span_of(self.terms@, a_rep)
                &&& forall|j: int|
                    0 <= j < names.len() ==> is_name_note(
                        #[trigger] recs[base + 2 + j],
                        names[j].1,
                        spec_type_text(self.tree(names[j].0 as int)),
                    ) && recs[base + 2 + j].span == term_span_of(self.terms@, names[j].0 as int)
                &&& c.is_derived ==> is_derived_notes(
                    recs[base + 2 + names.len()],
                    recs[base + 3 + names.len()],
                    spec_type_text(self.tree(c.expected as int)),
                    spec_type_text(self.tree(c.actual as int)),
                ) && recs[base + 2 + names.len()].span == term_span_of(self.terms@, c.expected as int)
                    && recs[base + 3 + names.len()].span == term_span_of(self.terms@, c.actual as int)
            }),
    {
        proof {
            old(dsu).lemma_reps();
        }
        let expected = dsu.find(c.root_expected).unwrap();
        proof {
            dsu.lemma_reps();
        }
        let actual = dsu.find(c.root_actual).unwrap();
        proof {
            dsu.lemma_reps();
        }
        let ghost first_len = em.recorded().len();
        let ghost can_record = primary_errors(em.recorded()) < em.limit();
        let ghost old_rec = em.recorded();
        let ghost can_all = primary_errors(old_rec) + 1 < em.limit();
        let expected_text = self.term_text(expected);
        let actual_text = self.term_text(actual);
        let mut message = concat3("Failed to unify types `", expected_text.as_str(), "` and `");
        message.append(actual_text.as_str());
        message.append("`");
        proof {
            reveal_strlit("Failed to unify types `");
            reveal_strlit("` and `");
            reveal_strlit("`");
        }
        let explain = concat3("Expected `", expected_text.as_str(), "` here,");
        let builder = ErrorBuilder::new().of_style(Style::Primary).at_level(Level::Error).with_code(
            ErrorCode::UnificationFailure,
        );
        let error = located(builder, self.term_span(expected)).message(message).explain(
            explain,
        ).build();
        let ghost first = error;
        proof {
            lemma_primary_push(em.recorded(), error);
        }
        report(em, error);
        let explain = concat3("but received `", actual_text.as_str(), "` here.");
        proof {
            reveal_strlit("but received `");
            reveal_strlit("` here.");
        }
        let builder = ErrorBuilder::new().of_style(Style::Secondary).at_level(Level::Error);
        let error = located(builder, self.term_span(actual)).continues().explain(explain).build();
        let ghost second = error;
        proof {
            lemma_primary_push(em.recorded(), error);
        }
        let ghost before_second = em.recorded();
        report(em, error);
        proof {
            assert(em.recorded().subrange(0, first_len as int) =~= old_rec) by {
                if can_record {
                    assert(before_second.subrange(0, first_len as int) =~= old_rec);
                }
            }
        }
        let mut vars: Vec<(usize, String)> = Vec::new();
        proof {
            assert(named_view(vars@) =~= Seq::<(usize, Seq<char>)>::empty());
        }
        self.named_type_vars(expected, &mut vars);
        self.named_type_vars(actual, &mut vars);
        let ghost names = named_view(vars@);
        let mut k: usize = 0;
        while k < vars.len()
            invariant
                self.wf(),
                em.wf(),
                em.limit() == old(em).limit(),
                forall|j: int| 0 <= j < vars@.len() ==> #[trigger] vars@[j].0 < self.terms@.len(),
                em.recorded().len() > first_len || !can_record,
                can_record ==> em.recorded()[first_len as int] == first,
                first_len == old_rec.len(),
                can_all == (primary_errors(old_rec) + 1 < old(em).limit()),
                k <= vars@.len(),
                names.len() == vars@.len(),
                old_rec == old(em).recorded(),
                em.recorded().len() >= first_len,
                em.recorded().subrange(0, first_len as int) == old_rec,
                names == named_view(vars@),
                can_all ==> {
                    &&& em.recorded().len() == first_len + 2 + k
                    &&& primary_errors(em.recorded()) == primary_errors(old_rec) + 1
                    &&& em.recorded()[first_len + 1int] == second
                    &&& forall|j: int|
                        0 <= j < k ==> is_name_note(
                            #[trigger] em.recorded()[first_len + 2 + j],
                            names[j].1,
                            spec_type_text(self.tree(names[j].0 as int)),
                        ) && em.recorded()[first_len + 2 + j].span == term_span_of(
                            self.terms@,
                            names[j].0 as int,
                        )
                },
            decreases vars@.len() - k,
        {
            let (ty, name) = (vars[k].0, &vars[k].1);
            let mut explain = concat3("Call the type of ", name.as_str(), " `");
            let ty_text = self.term_text(ty);
            explain.append(ty_text.as_str());
            explain.append("`.");
            proof {
                reveal_strlit("Call the type of ");
                reveal_strlit(" `");
                reveal_strlit("`.");
            }
            let builder = ErrorBuilder::new().of_style(Style::Secondary).at_level(Level::Info);
            let error = located(builder, self.term_span(ty)).continues().explain(explain).build();
            let ghost before = em.recorded();
            proof {
                lemma_primary_push(em.recorded(), error);
            }
            report(em, error);
            proof {
                assert(em.recorded().subrange(0, first_len as int) =~= old_rec) by {
                    assert(before.subrange(0, first_len as int) == old_rec);
                }
                if can_all {
                    assert(primary_errors(before) < em.limit());
                    assert(em.recorded() == before.push(error));
                    assert(names[k as int].1 == name@);
                    assert(names[k as int].0 == ty);
                    assert(is_name_note(error, names[k as int].1, spec_type_text(self.tree(ty as int))));
                    assert forall|j: int| 0 <= j < k + 1 implies is_name_note(
                        #[trigger] em.recorded()[first_len + 2 + j],
                        names[j].1,
                        spec_type_text(self.tree(names[j].0 as int)),
                    ) && em.recorded()[first_len + 2 + j].span == term_span_of(
                        self.terms@,
                        names[j].0 as int,
                    ) by {
                        if j < k {
                            assert(em.recorded()[first_len + 2 + j] == before[first_len + 2 + j]);
                        }
                    }
                }
            }
            k = k + 1;
        }
        if c.is_derived {
            let immediate_expected = self.term_text(c.expected);
            let immediate_actual = self.term_text(c.actual);
            let mut message = concat3(
                "Error encountered while unifiying `",
                immediate_expected.as_str(),
                "` with `",
            );
            message.append(immediate_actual.as_str());
            message.append("`");
            let explain = concat3("Expected `", immediate_expected.as_str(), "` here,");
            let builder = ErrorBuilder::new().of_style(Style::Secondary).at_level(
                Level::Info,
            ).with_code(ErrorCode::UnificationFailure);
            let error = located(builder, self.term_span(c.expected)).message(message).explain(
                explain,
            ).build();
            proof {
                reveal_strlit("Error encountered while unifiying `");
                reveal_strlit("` with `");
                reveal_strlit("`");
                reveal_strlit("Expected `");
                reveal_strlit("` here,");
            }
            let ghost head = error;
            let ghost before = em.recorded();
            proof {
                lemma_primary_push(em.recorded(), error);
            }
            report(em, error);
            let explain = concat3("but received `", immediate_actual.as_str(), "` here.");
            let builder = ErrorBuilder::new().of_style(Style::Secondary).at_level(
                Level::Info,
            ).with_code(ErrorCode::UnificationFailure);
            let error = located(builder, self.term_span(c.actual)).continues().explain(
                explain,
            ).build();
            proof {
                reveal_strlit("but received `");
                reveal_strlit("` here.");
                assert(em.recorded().subrange(0, first_len as int) =~= old_rec) by {
                    assert(before.subrange(0, first_len as int) == old_rec);
                }
            }
            let ghost before2 = em.recorded();
            proof {
                if can_all {
                    assert(before2 == before.push(head));
                }
                lemma_primary_push(em.recorded(), error);
            }
            let ghost tail = error;
            report(em, error);
            proof {
                assert(em.recorded().subrange(0, first_len as int) =~= old_rec) by {
                    assert(before2.subrange(0, first_len as int) == old_rec);
                }
                if can_all {
                    assert(em.recorded() == before2.push(tail));
                    assert(em.recorded()[first_len + 2int + names.len()] == head);
                    assert(em.recorded()[first_len + 3int + names.len()] == tail);
                    assert(is_derived_notes(
                        head,
                        tail,
                        spec_type_text(self.tree(c.expected as int)),
                        spec_type_text(self.tree(c.actual as int)),
                    ));
                    assert forall|j: int| 0 <= j < names.len() implies is_name_note(
                        #[trigger] em.recorded()[first_len + 2 + j],
                        names[j].1,
                        spec_type_text(self.tree(names[j].0 as int)),
                    ) && em.recorded()[first_len + 2 + j].span == term_span_of(
                        self.terms@,
                        names[j].0 as int,
                    ) by {
                        assert(em.recorded()[first_len + 2 + j] == before[first_len + 2 + j]);
                    }
                    assert(em.recorded()[first_len + 1int] == before[first_len + 1int]);
                }
            }
        }
        proof {
            if can_all {
                assert(is_received_note(second, spec_type_text(self.tree(actual as int))));
            }
        }
    }

    /// Unifies the type constraints in order, appending the constraints
    /// that merging two types of one shape derives: those between their
    /// corresponding subterms, and those between their sizes. Returns the
    /// classes of equal types, or `None` after reporting the first
    /// constraint that cannot hold.
    fn unify_types(&mut self, em: &mut ErrorManager) -> (result: Result<DisjointSets, DisjointSets>)
        requires
            old(self).wf(),
            old(em).wf(),
            all_original(old(self).type_constraints@),
        ensures
            final(em).wf(),
            final(em).limit() == old(em).limit(),
            TypeInferer::grows(*old(self), *final(self)),
            final(self).terms == old(self).terms,
            final(self).liquids == old(self).liquids,
            final(self).env == old(self).env,
            final(self).gen == old(self).gen,
            final(self).expr_types == old(self).expr_types,
            result matches Ok(dsu) ==> unified(
                term_views(final(self).terms@),
                final(self).type_constraints@,
                dsu,
            ),
            result is Ok ==> final(em).recorded() == old(em).recorded(),
            result is Err ==> (primary_errors(old(em).recorded()) < old(em).limit() ==> (exists|
                k: int,
            |
                old(em).recorded().len() <= k < final(em).recorded().len()
                    && (#[trigger] final(em).recorded()[k]).code == ErrorCode::UnificationFailure)),
            result matches Err(failed) ==> classes_ok(term_views(final(self).terms@), failed),
            result matches Err(failed) ==> stops_with_clash(
                term_views(final(self).terms@),
                final(self).type_constraints@,
                failed,
            ),
    {
        let ghost ts = term_views(self.terms@);
        let mut dsu = DisjointSets::new();
        let mut idx: usize = 0;
        proof {
            dsu.lemma_reps();
        }
        while idx < self.type_constraints.len()
            invariant
                self.wf(),
                em.wf(),
                em.limit() == old(em).limit(),
                em.recorded() == old(em).recorded(),
                TypeInferer::grows(*old(self), *self),
                self.terms == old(self).terms,
                self.liquids == old(self).liquids,
                self.env == old(self).env,
                self.gen == old(self).gen,
                self.expr_types == old(self).expr_types,
                ts == term_views(self.terms@),
                dsu.wf(),
                0 <= idx <= self.type_constraints@.len(),
                members_bounded(dsu, ts.len()),
                classes_ok(ts, dsu),
                forall|k: int| 0 <= k < idx ==> joined(#[trigger] self.type_constraints@[k], dsu),
                forall|k: int|
                    0 <= k < self.type_constraints@.len() && (#[trigger] self.type_constraints@[k]).is_derived
                        ==> dsu.dom().contains(self.type_constraints@[k].root_expected)
                        && dsu.dom().contains(self.type_constraints@[k].root_actual),
                dsu.merge_count() <= ts.len(),
            decreases ts.len() - dsu.merge_count(), self.type_constraints@.len() - idx,
        {
            match self.unify_constraint(idx, &mut dsu, em) {
                Ok(()) => {},
                Err(()) => {
                    proof {
                        assert(stops_with_clash(term_views(self.terms@), self.type_constraints@, dsu));
                    }
                    return Err(dsu);
                },
            }
            idx = idx + 1;
        }
        let ghost before = dsu;
        dsu.collapse();
        proof {
            before.lemma_reps();
            dsu.lemma_reps();
            assert(dsu.dom() =~= before.dom());
            assert forall|k: int| 0 <= k < self.type_constraints@.len() implies joined(
                #[trigger] self.type_constraints@[k],
                dsu,
            ) by {
                assert(joined(self.type_constraints@[k], before));
            }
        }
        Ok(dsu)
    }
}

impl TypeInferer {
    /// Unifies the constraint numbered `idx`: adds its two ends to `dsu`;
    /// where their classes differ, merges them when either representative
    /// is a variable or both have one shape, keeping a representative that
    /// is no variable and, when neither is a variable, queueing a derived
    /// constraint for each pair of their subterms; otherwise reports the
    /// failure, merges nothing and returns `Err`.
    fn unify_constraint(&mut self, idx: usize, dsu: &mut DisjointSets, em: &mut ErrorManager) -> (result:
        Result<(), ()>)
        requires
            old(self).wf(),
            old(em).wf(),
            old(dsu).wf(),
            idx < old(self).type_constraints@.len(),
            members_bounded(*old(dsu), old(self).terms@.len()),
            classes_ok(term_views(old(self).terms@), *old(dsu)),
            forall|k: int| 0 <= k < idx ==> joined(#[trigger] old(self).type_constraints@[k], *old(dsu)),
            forall|k: int|
                0 <= k < old(self).type_constraints@.len() && (#[trigger] old(
                    self,
                ).type_constraints@[k]).is_derived ==> old(dsu).dom().contains(
                    old(self).type_constraints@[k].root_expected,
                ) && old(dsu).dom().contains(old(self).type_constraints@[k].root_actual),
            originals_are_roots(old(self).type_constraints@[idx as int]),
            old(dsu).merge_count() <= old(self).terms@.len(),
        ensures
            unify_step(
                *old(self),
                *final(self),
                *old(dsu),
                *final(dsu),
                idx as int,
                result is Ok,
            ),
            final(em).wf(),
            final(em).limit() == old(em).limit(),
            result is Ok ==> final(em).recorded() == old(em).recorded(),
            result is Err ==> (primary_errors(old(em).recorded()) < old(em).limit() ==> (exists|
                k: int,
            |
                old(em).recorded().len() <= k < final(em).recorded().len()
                    && (#[trigger] final(em).recorded()[k]).code == ErrorCode::UnificationFailure)),
    {
        let ghost ts = term_views(self.terms@);
        let c = self.type_constraints[idx];
        let ghost d0 = *dsu;
        dsu.add(c.expected);
        let ghost d1 = *dsu;
        proof {
            lemma_add_keeps(ts, d0, d1, c.expected);
        }
        dsu.add(c.actual);
        let ghost d2 = *dsu;
        proof {
            lemma_add_keeps(ts, d1, d2, c.actual);
            d2.lemma_reps();
            assert forall|k: int| 0 <= k < idx implies joined(
                #[trigger] self.type_constraints@[k],
                d2,
            ) by {
                assert(joined(self.type_constraints@[k], d0));
            }
            assert(originals_are_roots(self.type_constraints@[idx as int]));
            d0.lemma_reps();
            d1.lemma_reps();
            assert(d2.dom() =~= d0.dom().insert(c.expected).insert(c.actual));
            assert(d2.rep()[c.expected] == rep_once_added(d0, c.expected));
            assert(d2.rep()[c.actual] == rep_once_added(d0, c.actual));
        }
        let ghost start = *self;
        let e = dsu.find(c.expected).unwrap();
        proof {
            dsu.lemma_reps();
        }
        let a = dsu.find(c.actual).unwrap();
        proof {
            dsu.lemma_reps();
            assert forall|k: int| 0 <= k < idx implies joined(
                #[trigger] self.type_constraints@[k],
                *dsu,
            ) by {
                assert(joined(self.type_constraints@[k], d2));
            }
        }
        let ghost d3 = *dsu;
        proof {
            d3.lemma_reps();
            assert(d3.dom() =~= d2.dom());
            assert(e == rep_once_added(d0, c.expected));
            assert(a == rep_once_added(d0, c.actual));
        }
        if e != a {
            let e_var = self.is_var(e);
            let a_var = self.is_var(a);
            if e_var || a_var || self.shapes_match(e, a) {
                let ghost before = *dsu;
                let (from, into) = if e_var && !a_var {
                    (e, a)
                } else {
                    (a, e)
                };
                let _ = dsu.union(from, into, false);
                proof {
                    lemma_union_keeps(ts, self.type_constraints@, idx as int, before, *dsu, from, into);
                    dsu.lemma_counts();
                    dsu.lemma_reps();
                    assert forall|i: int| 0 <= i < dsu.order().len() implies #[trigger] dsu.order()[i]
                        < ts.len() by {
                        assert(dsu.order().contains(dsu.order()[i]));
                    }
                    lemma_bounded_unique_len(dsu.order(), ts.len());
                }
                let ghost merged = *dsu;
                proof {
                    before.lemma_reps();
                    assert(merged.dom() =~= before.dom());
                    assert(merged.rep()[c.expected] == into);
                    assert(merged.rep()[c.actual] == into);
                    assert(joined(c, merged));
                }
                if !e_var && !a_var {
                    self.derive_subterm_constraints(e, a, c);
                }
                proof {
                    assert forall|k: int| 0 <= k < idx implies joined(#[trigger] self.type_constraints@[k], *dsu) by {
                        assert(self.type_constraints@[k] == start.type_constraints@[k]);
                    }
                    assert forall|k: int|
                        0 <= k < self.type_constraints@.len() && (#[trigger] self.type_constraints@[k]).is_derived
                            implies dsu.dom().contains(self.type_constraints@[k].root_expected)
                            && dsu.dom().contains(self.type_constraints@[k].root_actual) by {
                        if k < start.type_constraints@.len() {
                            assert(self.type_constraints@[k] == start.type_constraints@[k]);
                        }
                    }
                }
            } else {
                let ghost clash_dsu = *dsu;
                proof {
                    assert(clash_at(ts, self.type_constraints@, idx as int, *dsu));
                }
                self.report_type_failure(em, c, dsu);
                proof {
                    assert forall|j: int| 0 <= j < idx implies joined(
                        #[trigger] self.type_constraints@[j],
                        *dsu,
                    ) by {
                        assert(joined(self.type_constraints@[j], clash_dsu));
                    }
                    assert(clash_at(ts, self.type_constraints@, idx as int, *dsu));
                    assert(classes_ok(ts, clash_dsu));
                    assert forall|x: usize| #[trigger] dsu.dom().contains(x) implies (!(
                    ts[x as int] is Var) ==> !(ts[dsu.rep()[x] as int] is Var) && same_shape(
                        ts[x as int],
                        ts[dsu.rep()[x] as int],
                    )) by {
                        assert(clash_dsu.dom().contains(x));
                    }
                    assert(ts == term_views(self.terms@));
                    assert(classes_ok(term_views(self.terms@), *dsu));
                    assert(0 <= idx < self.type_constraints@.len());
                    assert(clash_at(term_views(self.terms@), self.type_constraints@, idx as int, *dsu));
                    assert(stops_with_clash(term_views(self.terms@), self.type_constraints@, *dsu));
                }
                proof {
                    assert(dsu.dom() == d2.dom());
                }
                return Err(());
            }
        }
        proof {
            if e == a {
                assert(joined(c, *dsu));
            }
        }
        Ok(())
    }
}

/// The representative that `x` has in `d` once it is added there.
pub open spec fn rep_once_added(d: DisjointSets, x: usize) -> usize {
    if d.dom().contains(x) {
        d.rep()[x]
    } else {
        x
    }
}

/// One step of unification, on the constraint `c` numbered `idx`, from the
/// inferer `s` and the classes `d` to `s2` and `d2`, with `ok` telling
/// whether it succeeded. Let `e` and `a` be the representatives of `c`'s
/// ends once both are added. The step fails exactly when `e` and `a`
/// differ, neither is a variable and their shapes differ; it then merges
/// nothing and the classes hold a clash at `idx`. When it succeeds the two
/// ends are joined; merging two different classes keeps the representative
/// that is no variable and counts one merge; merging two classes of which
/// neither is a variable queues one derived constraint per pair of
/// corresponding subterms (as far as both have them), and no constraint
/// is queued otherwise. Terms are unchanged, constraints only grow, and
/// the classes keep every invariant of unification.
pub open spec fn unify_step(
    s: TypeInferer,
    s2: TypeInferer,
    d: DisjointSets,
    d2: DisjointSets,
    idx: int,
    ok: bool,
) -> bool {
    let ts = term_views(s.terms@);
    let c = s.type_constraints@[idx];
    let e = rep_once_added(d, c.expected);
    let a = rep_once_added(d, c.actual);
    let clash = e != a && !(ts[e as int] is Var) && !(ts[a as int] is Var) && !same_shape(
        ts[e as int],
        ts[a as int],
    );
    let base = s.type_constraints@.len();
    &&& TypeInferer::grows(s, s2)
    &&& s2.terms == s.terms
    &&& s2.liquids == s.liquids
    &&& s2.env == s.env
    &&& s2.gen == s.gen
    &&& s2.expr_types == s.expr_types
    &&& d2.wf()
    &&& members_bounded(d2, ts.len())
    &&& classes_ok(ts, d2)
    &&& d2.merge_count() <= ts.len()
    &&& d2.dom() == d.dom().insert(c.expected).insert(c.actual)
    &&& forall|k: int| 0 <= k < idx ==> joined(#[trigger] s2.type_constraints@[k], d2)
    &&& forall|k: int|
        0 <= k < s2.type_constraints@.len() && (#[trigger] s2.type_constraints@[k]).is_derived
            ==> d2.dom().contains(s2.type_constraints@[k].root_expected) && d2.dom().contains(
            s2.type_constraints@[k].root_actual,
        )
    &&& ok == !clash
    &&& !ok ==> {
        &&& s2.type_constraints == s.type_constraints
        &&& d2.merge_count() == d.merge_count()
        &&& clash_at(ts, s2.type_constraints@, idx, d2)
    }
    &&& ok ==> joined(c, d2)
    &&& ok && e == a ==> s2.type_constraints == s.type_constraints && d2.merge_count() == d.merge_count()
    &&& ok && e != a ==> {
        &&& d2.merge_count() == d.merge_count() + 1
        &&& d2.rep()[c.expected] == if ts[e as int] is Var && !(ts[a as int] is Var) {
            a
        } else {
            e
        }
    }
    &&& ok && e != a && (ts[e as int] is Var || ts[a as int] is Var) ==> s2.type_constraints
        == s.type_constraints
    &&& ok && e != a && !(ts[e as int] is Var) && !(ts[a as int] is Var) ==> {
        let es = term_subterms(ts[e as int]);
        let as_ = term_subterms(ts[a as int]);
        &&& s2.type_constraints@.len() == base + min_len(es, as_)
        &&& forall|k: int|
            base <= k < s2.type_constraints@.len() ==> {
                let dc = #[trigger] s2.type_constraints@[k];
                &&& dc.is_derived
                &&& dc.root_expected == c.root_expected
                &&& dc.root_actual == c.root_actual
                &&& dc.expected == es[k - base]
                &&& dc.actual == as_[k - base]
            }
    }
}

impl TypeInferer {
    /// After the terms `e` and `a` of one shape were merged because of the
    /// constraint `c`: constrains their corresponding subterms, as far as
    /// both have them, by constraints derived from `c`, and their sizes when
    /// they are arrays.
    fn derive_subterm_constraints(&mut self, e: usize, a: usize, c: UnificationConstraint)
        requires
            old(self).wf(),
            e < old(self).terms@.len(),
            a < old(self).terms@.len(),
            c.root_expected < old(self).terms@.len(),
            c.root_actual < old(self).terms@.len(),
        ensures
            TypeInferer::grows(*old(self), *final(self)),
            final(self).terms == old(self).terms,
            final(self).liquids == old(self).liquids,
            final(self).env == old(self).env,
            final(self).gen == old(self).gen,
            final(self).expr_types == old(self).expr_types,
            final(self).type_constraints@.len() == old(self).type_constraints@.len() + min_len(
                term_subterms(term_view(old(self).terms@[e as int])),
                term_subterms(term_view(old(self).terms@[a as int])),
            ),
            forall|k: int|
                old(self).type_constraints@.len() <= k < final(self).type_constraints@.len() ==> {
                    let d = #[trigger] final(self).type_constraints@[k];
                    let i = k - old(self).type_constraints@.len();
                    &&& d.is_derived
                    &&& d.root_expected == c.root_expected
                    &&& d.root_actual == c.root_actual
                    &&& d.expected == term_subterms(term_view(old(self).terms@[e as int]))[i]
                    &&& d.actual == term_subterms(term_view(old(self).terms@[a as int]))[i]
                },
    {
        let es = self.subterms(e);
        let as_ = self.subterms(a);
        let n = if es.len() < as_.len() {
            es.len()
        } else {
            as_.len()
        };
        let mut k: usize = 0;
        let ghost base = self.type_constraints@.len();
        while k < n
            invariant
                self.wf(),
                TypeInferer::grows(*old(self), *self),
                self.terms == old(self).terms,
                self.liquids == old(self).liquids,
                self.env == old(self).env,
                self.gen == old(self).gen,
                self.expr_types == old(self).expr_types,
                self.liquid_constraints == old(self).liquid_constraints,
                base == old(self).type_constraints@.len(),
                0 <= k <= n,
                n <= es@.len(),
                n <= as_@.len(),
                es@ == term_subterms(term_view(old(self).terms@[e as int])),
                as_@ == term_subterms(term_view(old(self).terms@[a as int])),
                forall|j: int| 0 <= j < es@.len() ==> #[trigger] es@[j] < e,
                forall|j: int| 0 <= j < as_@.len() ==> #[trigger] as_@[j] < a,
                c.root_expected < self.terms@.len(),
                c.root_actual < self.terms@.len(),
                e < self.terms@.len(),
                a < self.terms@.len(),
                self.type_constraints@.len() == base + k,
                forall|j: int|
                    base <= j < self.type_constraints@.len() ==> {
                        let d = #[trigger] self.type_constraints@[j];
                        &&& d.is_derived
                        &&& d.root_expected == c.root_expected
                        &&& d.root_actual == c.root_actual
                        &&& d.expected == es@[j - base]
                        &&& d.actual == as_@[j - base]
                    },
            decreases n - k,
        {
            let d = UnificationConstraint::derived(es[k], as_[k], &c);
            let ghost prev = self.type_constraints@;
            let ghost before = *self;
            self.type_constraints.push(d);
            proof {
                assert(self.type_constraints@ == prev.push(d));
                assert(es@[k as int] < e);
                assert(as_@[k as int] < a);
                assert forall|j: int| 0 <= j < prev.len() implies #[trigger] self.type_constraints@[j]
                    == prev[j] by {
                }
                assert forall|j: int| 0 <= j < self.type_constraints@.len() implies {
                    let x = #[trigger] self.type_constraints@[j];
                    x.expected < self.terms@.len() && x.actual < self.terms@.len()
                        && x.root_expected < self.terms@.len() && x.root_actual < self.terms@.len()
                } by {
                    if j < prev.len() {
                        assert(before.wf());
                        assert(self.type_constraints@[j] == before.type_constraints@[j]);
                    }
                }
                assert forall|j: int| 0 <= j < self.type_constraints@.len() implies originals_are_roots(
                    #[trigger] self.type_constraints@[j],
                ) by {
                    if j < prev.len() {
                        assert(self.type_constraints@[j] == before.type_constraints@[j]);
                    }
                }
                assert(self.wf());
            }
            k = k + 1;
        }
        match (self.liquid_subterm(e), self.liquid_subterm(a)) {
            (Some(le), Some(la)) => {
                self.liquid_constraints.push(UnificationConstraint::new(le, la));
            },
            _ => {},
        }
    }
}

/// The type constraints added from `a` to `b` are all original.
pub open spec fn only_originals_added(a: TypeInferer, b: TypeInferer) -> bool {
    forall|k: int|
        a.type_constraints@.len() <= k < b.type_constraints@.len() ==> !(
        #[trigger] b.type_constraints@[k]).is_derived
}

/// No constraint of `cs` is derived.
pub open spec fn all_original(cs: Seq<UnificationConstraint>) -> bool {
    forall|k: int| 0 <= k < cs.len() ==> !(#[trigger] cs[k]).is_derived
}

/// The shorter of the two lengths.
pub open spec fn min_len(a: Seq<usize>, b: Seq<usize>) -> nat {
    if a.len() < b.len() {
        a.len()
    } else {
        b.len()
    }
}

/// Within each class of size terms, every known size equals the
/// representative's.
pub open spec fn liquid_classes_ok(ls: Seq<LiquidTypeValue>, dsu: DisjointSets) -> bool {
    forall|x: usize|
        #[trigger] dsu.dom().contains(x) ==> (ls[x as int] is Equal ==> ls[dsu.rep()[x] as int]
            == ls[x as int])
}

/// The outcome of unifying the size constraints `cs` over the sizes `ls`.
pub open spec fn liquids_unified(
    ls: Seq<LiquidTypeValue>,
    cs: Seq<UnificationConstraint>,
    dsu: DisjointSets,
) -> bool {
    &&& dsu.wf()
    &&& dsu.is_flat()
    &&& members_bounded(dsu, ls.len())
    &&& liquid_classes_ok(ls, dsu)
    &&& forall|k: int| 0 <= k < cs.len() ==> joined(#[trigger] cs[k], dsu)
}

proof fn lemma_add_keeps_liquid(ls: Seq<LiquidTypeValue>, a: DisjointSets, b: DisjointSets, v: usize)
    requires
        a.wf(),
        b.wf(),
        v < ls.len(),
        members_bounded(a, ls.len()),
        liquid_classes_ok(ls, a),
        a.dom().contains(v) ==> b.rep() == a.rep(),
        !a.dom().contains(v) ==> b.rep() == a.rep().insert(v, v),
    ensures
        members_bounded(b, ls.len()),
        liquid_classes_ok(ls, b),
        b.dom().contains(v),
        forall|x: usize| #[trigger] a.dom().contains(x) ==> b.dom().contains(x) && b.rep()[x] == a.rep()[x],
{
    a.lemma_reps();
    b.lemma_reps();
    assert forall|x: usize| #[trigger] b.dom().contains(x) implies (ls[x as int] is Equal
        ==> ls[b.rep()[x] as int] == ls[x as int]) by {
        if x != v || a.dom().contains(v) {
            assert(a.dom().contains(x));
        }
    }
    assert forall|x: usize| #[trigger] b.dom().contains(x) implies x < ls.len() by {
        if x != v {
            assert(a.dom().contains(x));
        }
    }
}

proof fn lemma_union_keeps_liquid(
    ls: Seq<LiquidTypeValue>,
    cs: Seq<UnificationConstraint>,
    done: int,
    d1: DisjointSets,
    d2: DisjointSets,
    a: usize,
    b: usize,
)
    requires
        d1.wf(),
        d2.wf(),
        members_bounded(d1, ls.len()),
        liquid_classes_ok(ls, d1),
        0 <= done <= cs.len(),
        forall|k: int| 0 <= k < done ==> joined(#[trigger] cs[k], d1),
        d1.dom().contains(a),
        d1.dom().contains(b),
        d1.rep()[a] == a,
        d1.rep()[b] == b,
        a != b,
        ls[a as int] is All || ls[a as int] == ls[b as int],
        d2.rep() == Map::new(
            |x: usize| d1.rep().dom().contains(x),
            |x: usize|
                if d1.rep()[x] == a || d1.rep()[x] == b {
                    b
                } else {
                    d1.rep()[x]
                },
        ),
    ensures
        members_bounded(d2, ls.len()),
        liquid_classes_ok(ls, d2),
        forall|k: int| 0 <= k < done ==> joined(#[trigger] cs[k], d2),
        d2.rep()[a] == d2.rep()[b],
        forall|x: usize| #[trigger] d1.dom().contains(x) ==> d2.dom().contains(x),
{
    d1.lemma_reps();
    d2.lemma_reps();
    assert(d2.dom() =~= d1.dom());
    assert forall|x: usize| #[trigger] d2.dom().contains(x) implies (ls[x as int] is Equal
        ==> ls[d2.rep()[x] as int] == ls[x as int]) by {
        assert(d1.dom().contains(x));
    }
    assert forall|k: int| 0 <= k < done implies joined(#[trigger] cs[k], d2) by {
        assert(joined(cs[k], d1));
    }
}

impl TypeInferer {
    /// The size constraints relate existing size terms, each its own root.
    pub open spec fn liquids_wf(&self) -> bool {
        &&& forall|i: int|
            0 <= i < self.liquid_constraints@.len() ==> {
                let c = #[trigger] self.liquid_constraints@[i];
                c.expected < self.liquids@.len() && c.actual < self.liquids@.len()
                    && c.root_expected < self.liquids@.len() && c.root_actual
                    < self.liquids@.len()
            }
        &&& forall|i: int|
            0 <= i < self.liquid_constraints@.len() ==> originals_are_roots(
                #[trigger] self.liquid_constraints@[i],
            )
    }

    /// Reports that the size constraint `c` cannot hold: its two ends, as
    /// unified so far, are different known sizes.
    fn report_liquid_failure(&self, em: &mut ErrorManager, c: UnificationConstraint, dsu: &mut DisjointSets)
        requires
            old(em).wf(),
            old(dsu).wf(),
            members_bounded(*old(dsu), self.liquids@.len()),
            old(dsu).dom().contains(c.expected),
            old(dsu).dom().contains(c.actual),
        ensures
            final(em).wf(),
            final(em).limit() == old(em).limit(),
            final(dsu).wf(),
            primary_errors(old(em).recorded()) < old(em).limit() ==> {
                &&& final(em).recorded().len() > old(em).recorded().len()
                &&& is_failure_report(
                    final(em).recorded()[old(em).recorded().len() as int],
                    spec_liquid_text(self.liquids@[old(dsu).rep()[c.expected] as int].value),
                    spec_liquid_text(self.liquids@[old(dsu).rep()[c.actual] as int].value),
                )
            },
    {
        proof {
            old(dsu).lemma_reps();
        }
        let expected = dsu.find(c.expected).unwrap();
        proof {
            dsu.lemma_reps();
        }
        let actual = dsu.find(c.actual).unwrap();
        let expected_text = liquid_value_text(self.liquids[expected].value);
        let actual_text = liquid_value_text(self.liquids[actual].value);
        let mut message = concat3("Failed to unify types `", expected_text.as_str(), "` and `");
        message.append(actual_text.as_str());
        message.append("`");
        proof {
            reveal_strlit("Failed to unify types `");
            reveal_strlit("` and `");
            reveal_strlit("`");
        }
        let explain = concat3("Expected `", expected_text.as_str(), "` here,");
        let builder = ErrorBuilder::new().of_style(Style::Primary).at_level(Level::Error).with_code(
            ErrorCode::UnificationFailure,
        );
        let error = located(builder, self.liquid_span(expected)).message(message).explain(
            explain,
        ).build();
        report(em, error);
        let explain = concat3("but received `", actual_text.as_str(), "` here.");
        let builder = ErrorBuilder::new().of_style(Style::Secondary).at_level(Level::Error);
        let error = located(builder, self.liquid_span(actual)).continues().explain(explain).build();
        report(em, error);
    }

    /// Unifies the size constraints in order: an unknown size takes on the
    /// other, and two known sizes must be equal. Returns the classes of
    /// equal sizes, or `None` after reporting the first constraint that
    /// cannot hold.
    fn unify_liquids(&mut self, em: &mut ErrorManager) -> (result: Option<DisjointSets>)
        requires
            old(self).liquids_wf(),
            old(em).wf(),
        ensures
            final(em).wf(),
            final(em).limit() == old(em).limit(),
            *final(self) == *old(self),
            result matches Some(dsu) ==> liquids_unified(
                liquid_values(final(self).liquids@),
                final(self).liquid_constraints@,
                dsu,
            ),
            result is Some ==> final(em).recorded() == old(em).recorded(),
            result is None ==> (primary_errors(old(em).recorded()) < old(em).limit() ==> (exists|
                k: int,
            |
                old(em).recorded().len() <= k < final(em).recorded().len()
                    && (#[trigger] final(em).recorded()[k]).code == ErrorCode::UnificationFailure)),
    {
        let ghost ls = liquid_values(self.liquids@);
        let mut dsu = DisjointSets::new();
        let mut idx: usize = 0;
        proof {
            dsu.lemma_reps();
        }
        while idx < self.liquid_constraints.len()
            invariant
                self.liquids_wf(),
                *self == *old(self),
                em.wf(),
                em.limit() == old(em).limit(),
                em.recorded() == old(em).recorded(),
                ls == liquid_values(self.liquids@),
                dsu.wf(),
                0 <= idx <= self.liquid_constraints@.len(),
                members_bounded(dsu, ls.len()),
                liquid_classes_ok(ls, dsu),
                forall|k: int| 0 <= k < idx ==> joined(#[trigger] self.liquid_constraints@[k], dsu),
            decreases self.liquid_constraints@.len() - idx,
        {
            let c = self.liquid_constraints[idx];
            let ghost d0 = dsu;
            dsu.add(c.expected);
            let ghost d1 = dsu;
            proof {
                lemma_add_keeps_liquid(ls, d0, d1, c.expected);
            }
            dsu.add(c.actual);
            let ghost d2 = dsu;
            proof {
                lemma_add_keeps_liquid(ls, d1, d2, c.actual);
                d2.lemma_reps();
                assert forall|k: int| 0 <= k < idx implies joined(
                    #[trigger] self.liquid_constraints@[k],
                    d2,
                ) by {
                    assert(joined(self.liquid_constraints@[k], d0));
                }
            }
            let e = dsu.find(c.expected).unwrap();
            proof {
                dsu.lemma_reps();
            }
            let a = dsu.find(c.actual).unwrap();
            proof {
                dsu.lemma_reps();
                assert forall|k: int| 0 <= k < idx implies joined(
                    #[trigger] self.liquid_constraints@[k],
                    dsu,
                ) by {
                    assert(joined(self.liquid_constraints@[k], d2));
                }
            }
            if e != a {
                let ev = self.liquids[e].value;
                let av = self.liquids[a].value;
                let mergeable = match (ev, av) {
                    (LiquidTypeValue::All(_), _) => true,
                    (_, LiquidTypeValue::All(_)) => true,
                    (LiquidTypeValue::Equal(x), LiquidTypeValue::Equal(y)) => x == y,
                };
                if mergeable {
                    let ghost before = dsu;
                    let e_all = match ev {
                        LiquidTypeValue::All(_) => true,
                        _ => false,
                    };
                    let a_all = match av {
                        LiquidTypeValue::All(_) => true,
                        _ => false,
                    };
                    let (from, into) = if e_all && !a_all {
                        (e, a)
                    } else {
                        (a, e)
                    };
                    let _ = dsu.union(from, into, false);
                    proof {
                        lemma_union_keeps_liquid(
                            ls,
                            self.liquid_constraints@,
                            idx as int,
                            before,
                            dsu,
                            from,
                            into,
                        );
                    }
                } else {
                    self.report_liquid_failure(em, c, &mut dsu);
                    return None;
                }
            }
            idx = idx + 1;
        }
        let ghost before = dsu;
        dsu.collapse();
        proof {
            before.lemma_reps();
            dsu.lemma_reps();
            assert(dsu.dom() =~= before.dom());
            assert forall|k: int| 0 <= k < self.liquid_constraints@.len() implies joined(
                #[trigger] self.liquid_constraints@[k],
                dsu,
            ) by {
                assert(joined(self.liquid_constraints@[k], before));
            }
        }
        Some(dsu)
    }
}

/// `Ambiguous type` followed by the type in backquotes.
pub open spec fn ambiguous_message(ty: Seq<char>) -> Seq<char> {
    "Ambiguous type `"@ + ty + "`"@
}

/// Reports that the type with the text `ty`, at `span`, is not resolved.
fn report_ambiguous_type(em: &mut ErrorManager, span: Option<Span>, ty: String, explain: String)
    requires
        old(em).wf(),
    ensures
        final(em).wf(),
        final(em).limit() == old(em).limit(),
        primary_errors(old(em).recorded()) < old(em).limit() ==> {
            &&& final(em).recorded().len() == old(em).recorded().len() + 1
            &&& final(em).recorded().last().code == ErrorCode::AmbiguousType
            &&& final(em).recorded().last().style == Style::Primary
            &&& final(em).recorded().last().level == Level::Error
            &&& final(em).recorded().last().message@ == ambiguous_message(ty@)
        },
{
    let message = concat3("Ambiguous type `", ty.as_str(), "`");
    proof {
        reveal_strlit("Ambiguous type `");
        reveal_strlit("`");
    }
    let builder = ErrorBuilder::new().of_style(Style::Primary).at_level(Level::Error).with_code(
        ErrorCode::AmbiguousType,
    );
    let error = located(builder, span).message(message).explain(explain).build();
    report(em, error);
}

/// A copy of the indices `v`.
fn copy_indices(v: &Vec<usize>) -> (result: Vec<usize>)
    ensures
        result@ == v@,
{
    let mut result: Vec<usize> = Vec::new();
    let mut k: usize = 0;
    while k < v.len()
        invariant
            0 <= k <= v@.len(),
            result@ == v@.subrange(0, k as int),
        decreases v@.len() - k,
    {
        result.push(v[k]);
        assert(result@ =~= v@.subrange(0, k + 1));
        k = k + 1;
    }
    assert(v@.subrange(0, v@.len() as int) =~= v@);
    result
}

/// Whether, for the classes of `dsu` over the terms `before`, the terms
/// `after` hold each member replaced by its representative and every other
/// term as it was.
pub open spec fn substituted(before: Seq<Term>, after: Seq<Term>, dsu: DisjointSets) -> bool {
    &&& after.len() == before.len()
    &&& forall|x: usize|
        #[trigger] dsu.dom().contains(x) ==> term_view(after[x as int]) == term_view(
            before[dsu.rep()[x] as int],
        )
    &&& forall|i: int|
        0 <= i < before.len() && !dsu.dom().contains(i as usize) ==> #[trigger] after[i]
            == before[i]
}

impl TypeInferer {
    /// A term with the value of term `source` and the tokens of term
    /// `target`.
    fn copied_term(&self, source: usize, target: usize) -> (result: Term)
        requires
            source < self.terms@.len(),
            target < self.terms@.len(),
        ensures
            term_view(result) == term_view(self.terms@[source as int]),
    {
        let value = match &self.terms[source].value {
            TermValue::Unit => TermValue::Unit,
            TermValue::Var(id, description) => TermValue::Var(*id, description.clone()),
            TermValue::Name(name) => TermValue::Name(name.clone()),
            TermValue::Int64 => TermValue::Int64,
            TermValue::Array(e, l) => TermValue::Array(*e, *l),
            TermValue::Function(ins, outs) => TermValue::Function(
                copy_indices(ins),
                copy_indices(outs),
            ),
        };
        Term {
            value,
            start_token: self.terms[target].start_token.duplicate(),
            end_token: self.terms[target].end_token.duplicate(),
        }
    }

    /// Replaces every unified term by its representative, after checking
    /// that no representative is a variable; otherwise reports the first
    /// such variable as ambiguous and changes nothing.
    fn substitute_types(&mut self, dsu: &DisjointSets, em: &mut ErrorManager) -> (result: bool)
        requires
            old(self).wf(),
            old(em).wf(),
            unified(term_views(old(self).terms@), old(self).type_constraints@, *dsu),
        ensures
            final(em).wf(),
            final(em).limit() == old(em).limit(),
            final(self).liquids == old(self).liquids,
            final(self).type_constraints == old(self).type_constraints,
            final(self).liquid_constraints == old(self).liquid_constraints,
            final(self).env == old(self).env,
            final(self).gen == old(self).gen,
            final(self).expr_types == old(self).expr_types,
            result ==> substituted(old(self).terms@, final(self).terms@, *dsu),
            result ==> final(em).recorded() == old(em).recorded(),
            result ==> forall|x: usize| #[trigger]
                dsu.dom().contains(x) ==> !(term_view(old(self).terms@[dsu.rep()[x] as int]) is Var),
            !result ==> final(self).terms == old(self).terms,
            !result ==> (primary_errors(old(em).recorded()) < old(em).limit() ==> (final(em).recorded().len()
                > old(em).recorded().len() && final(em).recorded().last().code
                == ErrorCode::AmbiguousType)),
    {
        let ghost ts = term_views(self.terms@);
        proof {
            dsu.lemma_reps();
            dsu.lemma_counts();
        }
        let pairs = dsu.pairs();
        let n = pairs.len();
        let mut k: usize = 0;
        while k < n
            invariant
                self.wf(),
                *self == *old(self),
                *em == *old(em),
                em.wf(),
                ts == term_views(self.terms@),
                unified(ts, self.type_constraints@, *dsu),
                n == pairs@.len(),
                pairs@.len() == dsu.order().len(),
                forall|i: int|
                    0 <= i < pairs@.len() ==> #[trigger] pairs@[i] == (
                        dsu.order()[i],
                        dsu.parents()[dsu.order()[i]],
                    ),
                forall|x: usize| dsu.dom().contains(x) <==> #[trigger] dsu.order().contains(x),
                0 <= k <= n,
                forall|j: int| 0 <= j < k ==> !(ts[dsu.rep()[dsu.order()[j]] as int] is Var),
            decreases n - k,
        {
            let (x, r) = pairs[k];
            proof {
                assert(dsu.order().contains(x));
                dsu.lemma_reps();
                assert(dsu.parents().dom().contains(x));
                assert(r == dsu.rep()[x]);
                assert(dsu.dom().contains(r));
            }
            if self.is_var(r) {
                let text = self.term_text(r);
                report_ambiguous_type(
                    em,
                    self.term_span(r),
                    text,
                    text_of("Type variable not resolved (bug?)"),
                );
                return false;
            }
            k = k + 1;
        }
        let ghost before = self.terms@;
        let mut k: usize = 0;
        while k < n
            invariant
                self.liquids == old(self).liquids,
                self.type_constraints == old(self).type_constraints,
                self.liquid_constraints == old(self).liquid_constraints,
                self.env == old(self).env,
                self.gen == old(self).gen,
                self.expr_types == old(self).expr_types,
                before == old(self).terms@,
                ts == term_views(before),
                self.terms@.len() == before.len(),
                unified(ts, self.type_constraints@, *dsu),
                n == pairs@.len(),
                pairs@.len() == dsu.order().len(),
                dsu.order().no_duplicates(),
                forall|i: int|
                    0 <= i < pairs@.len() ==> #[trigger] pairs@[i] == (
                        dsu.order()[i],
                        dsu.parents()[dsu.order()[i]],
                    ),
                forall|x: usize| dsu.dom().contains(x) <==> #[trigger] dsu.order().contains(x),
                forall|j: int| 0 <= j < n ==> !(ts[dsu.rep()[dsu.order()[j]] as int] is Var),
                0 <= k <= n,
                forall|j: int|
                    0 <= j < k ==> term_view(self.terms@[#[trigger] dsu.order()[j] as int])
                        == term_view(before[dsu.rep()[dsu.order()[j]] as int]),
                forall|j: int|
                    k <= j < n ==> self.terms@[#[trigger] dsu.order()[j] as int] == before[dsu.order()[j] as int],
                forall|i: int|
                    0 <= i < before.len() && !dsu.dom().contains(i as usize) ==> #[trigger] self.terms@[i]
                        == before[i],
            decreases n - k,
        {
            let (x, r) = pairs[k];
            proof {
                assert(dsu.order().contains(x));
                dsu.lemma_reps();
                assert(dsu.parents().dom().contains(x));
                assert(r == dsu.rep()[x]);
                assert(dsu.dom().contains(r));
                assert(dsu.rep()[r] == r);
                assert(dsu.order().contains(r));
                let p = choose|p: int| 0 <= p < dsu.order().len() && dsu.order()[p] == r;
                if p < k {
                    assert(term_view(self.terms@[dsu.order()[p] as int]) == term_view(
                        before[dsu.rep()[dsu.order()[p]] as int],
                    ));
                } else {
                    assert(self.terms@[dsu.order()[p] as int] == before[dsu.order()[p] as int]);
                }
                assert(term_view(self.terms@[r as int]) == term_view(before[r as int]));
            }
            let t = self.copied_term(r, x);
            let ghost prev = self.terms@;
            self.terms.set(x, t);
            proof {
                assert(self.terms@ == prev.update(x as int, t));
                assert(x == dsu.order()[k as int]);
                assert forall|j: int| k < j < n implies self.terms@[#[trigger] dsu.order()[j] as int]
                    == before[dsu.order()[j] as int] by {
                    assert(dsu.order()[j] != dsu.order()[k as int]);
                    assert(dsu.order().contains(dsu.order()[j]));
                    assert(dsu.dom().contains(dsu.order()[j]));
                    assert(self.terms@[dsu.order()[j] as int] == prev[dsu.order()[j] as int]);
                    assert(prev[dsu.order()[j] as int] == before[dsu.order()[j] as int]);
                }
                assert forall|j: int| 0 <= j < k + 1 implies term_view(
                    self.terms@[#[trigger] dsu.order()[j] as int],
                ) == term_view(before[dsu.rep()[dsu.order()[j]] as int]) by {
                    if j < k {
                        assert(dsu.order()[j] != dsu.order()[k as int]);
                        assert(dsu.order().contains(dsu.order()[j]));
                        assert(dsu.dom().contains(dsu.order()[j]));
                        assert(self.terms@[dsu.order()[j] as int] == prev[dsu.order()[j] as int]);
                    } else {
                        assert(self.terms@[x as int] == t);
                    }
                }
                assert forall|i: int|
                    0 <= i < before.len() && !dsu.dom().contains(i as usize) implies #[trigger] self.terms@[i]
                    == before[i] by {
                    assert(i != x);
                }
            }
            k = k + 1;
        }
        proof {
            assert forall|x: usize| #[trigger] dsu.dom().contains(x) implies term_view(
                self.terms@[x as int],
            ) == term_view(before[dsu.rep()[x] as int]) && !(term_view(
                before[dsu.rep()[x] as int],
            ) is Var) by {
                assert(dsu.order().contains(x));
                let j = choose|j: int| 0 <= j < dsu.order().len() && dsu.order()[j] == x;
                assert(term_view(self.terms@[dsu.order()[j] as int]) == term_view(
                    before[dsu.rep()[dsu.order()[j]] as int],
                ));
                assert(!(ts[dsu.rep()[dsu.order()[j]] as int] is Var));
            }
        }
        true
    }
}

impl TypeInferer {
    /// Replaces every unified size term by its representative, after
    /// checking that no representative is an unknown size; otherwise reports
    /// the first such size as ambiguous and changes nothing.
    fn substitute_liquids(&mut self, dsu: &DisjointSets, em: &mut ErrorManager) -> (result: bool)
        requires
            old(em).wf(),
            liquids_unified(liquid_values(old(self).liquids@), old(self).liquid_constraints@, *dsu),
        ensures
            final(em).wf(),
            final(em).limit() == old(em).limit(),
            final(self).terms == old(self).terms,
            final(self).type_constraints == old(self).type_constraints,
            final(self).liquid_constraints == old(self).liquid_constraints,
            final(self).env == old(self).env,
            final(self).gen == old(self).gen,
            final(self).expr_types == old(self).expr_types,
            final(self).liquids@.len() == old(self).liquids@.len(),
            result ==> final(em).recorded() == old(em).recorded(),
            result ==> forall|x: usize| #[trigger]
                dsu.dom().contains(x) ==> final(self).liquids@[x as int].value == old(
                    self,
                ).liquids@[dsu.rep()[x] as int].value && old(self).liquids@[dsu.rep()[x] as int].value is Equal,
            result ==> forall|i: int|
                0 <= i < old(self).liquids@.len() && !dsu.dom().contains(i as usize)
                    ==> #[trigger] final(self).liquids@[i] == old(self).liquids@[i],
            !result ==> final(self).liquids == old(self).liquids,
            !result ==> (primary_errors(old(em).recorded()) < old(em).limit() ==> (final(em).recorded().len()
                > old(em).recorded().len() && final(em).recorded().last().code
                == ErrorCode::AmbiguousType)),
    {
        let ghost ls = liquid_values(self.liquids@);
        proof {
            dsu.lemma_reps();
            dsu.lemma_counts();
        }
        let pairs = dsu.pairs();
        let n = pairs.len();
        let mut k: usize = 0;
        while k < n
            invariant
                *self == *old(self),
                *em == *old(em),
                em.wf(),
                ls == liquid_values(self.liquids@),
                liquids_unified(ls, self.liquid_constraints@, *dsu),
                n == pairs@.len(),
                pairs@.len() == dsu.order().len(),
                forall|i: int|
                    0 <= i < pairs@.len() ==> #[trigger] pairs@[i] == (
                        dsu.order()[i],
                        dsu.parents()[dsu.order()[i]],
                    ),
                forall|x: usize| dsu.dom().contains(x) <==> #[trigger] dsu.order().contains(x),
                0 <= k <= n,
                forall|j: int| 0 <= j < k ==> ls[dsu.rep()[dsu.order()[j]] as int] is Equal,
            decreases n - k,
        {
            let (x, r) = pairs[k];
            proof {
                assert(dsu.order().contains(x));
                dsu.lemma_reps();
                assert(dsu.parents().dom().contains(x));
                assert(r == dsu.rep()[x]);
                assert(dsu.dom().contains(r));
            }
            match self.liquids[r].value {
                LiquidTypeValue::All(_) => {
                    let text = liquid_value_text(self.liquids[r].value);
                    report_ambiguous_type(
                        em,
                        self.liquid_span(r),
                        text,
                        text_of("Type variable not resolved (bug?)"),
                    );
                    return false;
                },
                LiquidTypeValue::Equal(_) => {},
            }
            k = k + 1;
        }
        let ghost before = self.liquids@;
        let mut k: usize = 0;
        while k < n
            invariant
                self.terms == old(self).terms,
                self.type_constraints == old(self).type_constraints,
                self.liquid_constraints == old(self).liquid_constraints,
                self.env == old(self).env,
                self.gen == old(self).gen,
                self.expr_types == old(self).expr_types,
                before == old(self).liquids@,
                ls == liquid_values(before),
                self.liquids@.len() == before.len(),
                liquids_unified(ls, self.liquid_constraints@, *dsu),
                n == pairs@.len(),
                pairs@.len() == dsu.order().len(),
                dsu.order().no_duplicates(),
                forall|i: int|
                    0 <= i < pairs@.len() ==> #[trigger] pairs@[i] == (
                        dsu.order()[i],
                        dsu.parents()[dsu.order()[i]],
                    ),
                forall|x: usize| dsu.dom().contains(x) <==> #[trigger] dsu.order().contains(x),
                forall|j: int| 0 <= j < n ==> ls[dsu.rep()[dsu.order()[j]] as int] is Equal,
                0 <= k <= n,
                forall|j: int|
                    0 <= j < k ==> self.liquids@[#[trigger] dsu.order()[j] as int].value
                        == before[dsu.rep()[dsu.order()[j]] as int].value,
                forall|j: int|
                    k <= j < n ==> self.liquids@[#[trigger] dsu.order()[j] as int] == before[dsu.order()[j] as int],
                forall|i: int|
                    0 <= i < before.len() && !dsu.dom().contains(i as usize) ==> #[trigger] self.liquids@[i]
                        == before[i],
            decreases n - k,
        {
            let (x, r) = pairs[k];
            proof {
                assert(dsu.order().contains(x));
                dsu.lemma_reps();
                assert(dsu.parents().dom().contains(x));
                assert(r == dsu.rep()[x]);
                assert(dsu.dom().contains(r));
                assert(dsu.rep()[r] == r);
                assert(dsu.order().contains(r));
                let p = choose|p: int| 0 <= p < dsu.order().len() && dsu.order()[p] == r;
                if p < k {
                    assert(self.liquids@[dsu.order()[p] as int].value == before[dsu.rep()[dsu.order()[p]] as int].value);
                } else {
                    assert(self.liquids@[dsu.order()[p] as int] == before[dsu.order()[p] as int]);
                }
                assert(self.liquids@[r as int].value == before[r as int].value);
            }
            let t = LiquidTerm {
                value: self.liquids[r].value,
                start_token: self.liquids[x].start_token.duplicate(),
                end_token: self.liquids[x].end_token.duplicate(),
            };
            let ghost prev = self.liquids@;
            self.liquids.set(x, t);
            proof {
                assert(self.liquids@ == prev.update(x as int, t));
                assert(x == dsu.order()[k as int]);
                assert forall|j: int| k < j < n implies self.liquids@[#[trigger] dsu.order()[j] as int]
                    == before[dsu.order()[j] as int] by {
                    assert(dsu.order()[j] != dsu.order()[k as int]);
                    assert(dsu.order().contains(dsu.order()[j]));
                    assert(dsu.dom().contains(dsu.order()[j]));
                    assert(self.liquids@[dsu.order()[j] as int] == prev[dsu.order()[j] as int]);
                }
                assert forall|j: int| 0 <= j < k + 1 implies self.liquids@[#[trigger] dsu.order()[j] as int].value
                    == before[dsu.rep()[dsu.order()[j]] as int].value by {
                    if j < k {
                        assert(dsu.order()[j] != dsu.order()[k as int]);
                        assert(dsu.order().contains(dsu.order()[j]));
                        assert(dsu.dom().contains(dsu.order()[j]));
                        assert(self.liquids@[dsu.order()[j] as int] == prev[dsu.order()[j] as int]);
                    } else {
                        assert(self.liquids@[x as int] == t);
                    }
                }
                assert forall|i: int|
                    0 <= i < before.len() && !dsu.dom().contains(i as usize) implies #[trigger] self.liquids@[i]
                    == before[i] by {
                    assert(i != x);
                }
            }
            k = k + 1;
        }
        proof {
            assert forall|x: usize| #[trigger] dsu.dom().contains(x) implies self.liquids@[x as int].value
                == before[dsu.rep()[x] as int].value && before[dsu.rep()[x] as int].value is Equal by {
                assert(dsu.order().contains(x));
                let j = choose|j: int| 0 <= j < dsu.order().len() && dsu.order()[j] == x;
                assert(self.liquids@[dsu.order()[j] as int].value == before[dsu.rep()[dsu.order()[j]] as int].value);
                assert(ls[dsu.rep()[dsu.order()[j]] as int] is Equal);
            }
        }
        true
    }
}

/// Whether every constraint of `r` holds: the two ends of each type
/// constraint are terms of one value, which is no variable, and the two ends
/// of each size constraint are one known size.
pub open spec fn solved(r: TypeInferer) -> bool {
    &&& forall|k: int|
        0 <= k < r.type_constraints@.len() ==> {
            let c = #[trigger] r.type_constraints@[k];
            &&& c.expected < r.terms@.len()
            &&& c.actual < r.terms@.len()
            &&& term_view(r.terms@[c.expected as int]) == term_view(r.terms@[c.actual as int])
            &&& !(term_view(r.terms@[c.expected as int]) is Var)
        }
    &&& forall|k: int|
        0 <= k < r.liquid_constraints@.len() ==> {
            let c = #[trigger] r.liquid_constraints@[k];
            &&& c.expected < r.liquids@.len()
            &&& c.actual < r.liquids@.len()
            &&& r.liquids@[c.expected as int].value == r.liquids@[c.actual as int].value
            &&& r.liquids@[c.expected as int].value is Equal
        }
}

impl TypeInferer {
    /// Infers the types of the program `program`: binds every function's
    /// name to its type, gathers the constraints of every function, unifies
    /// the type constraints and then the size constraints, and replaces every
    /// unified term by its class's representative. Returns the inferer with
    /// its constraints solved, or `None` after reporting an unbound name, a
    /// constraint that cannot hold or a type left unresolved.
    pub fn infer_checked(self, program: &Vec<Decl>, em: &mut ErrorManager) -> (result: Result<
        TypeInferer,
        InferError,
    >)
        requires
            self.wf(),
            all_original(self.type_constraints@),
            old(em).wf(),
            inferable_program(program@),
        ensures
            final(em).wf(),
            final(em).limit() == old(em).limit(),
            result matches Ok(r) ==> solved(r),
            result matches Ok(r) ==> r.expr_types@.len() >= self.expr_types@.len(),
            result matches Ok(r) ==> r.expr_types@.len() == self.expr_types@.len() + decls_size(program@),
            (result matches Err(InferError::UnboundName)) ==> reported_unbound(*old(em), *final(em)),
            (result matches Err(InferError::UnboundName)) ==> reported_unbound_read(
                program@,
                names_of(self.env.view()).union(fn_names(program@)),
                *old(em),
                *final(em),
            ),
            (result matches Err(InferError::UnificationFailure)) ==> reported(
                *old(em),
                *final(em),
                ErrorCode::UnificationFailure,
            ),
            (result matches Err(InferError::AmbiguousType)) ==> reported(
                *old(em),
                *final(em),
                ErrorCode::AmbiguousType,
            ),
            (result matches Err(InferError::OutOfIdentifiers)) ==> self.gen.upcoming() + 2
                * decls_size(program@) >= usize::MAX,
            (result matches Err(InferError::UnboundName)) ==> !decls_names_bound(
                program@,
                names_of(self.env.view()).union(fn_names(program@)),
            ),
            !decls_names_bound(program@, names_of(self.env.view()).union(fn_names(program@)))
                ==> (result matches Err(e) && (e == InferError::UnboundName || e
                == InferError::OutOfIdentifiers)),
    {
        let mut inferer = self;
        let ghost names = names_of(self.env.view()).union(fn_names(program@));
        proof {
            assert(fn_names(program@.subrange(0, 0)) =~= Set::<Seq<char>>::empty());
            assert(names_of(self.env.view()).union(fn_names(program@.subrange(0, 0))) =~= names_of(
                self.env.view(),
            ));
        }
        let n = program.len();
        let mut i: usize = 0;
        while i < n
            invariant
                0 <= i <= n,
                n == program@.len(),
                inferer.wf(),
                all_original(inferer.type_constraints@),
                inferer.expr_types@.len() >= self.expr_types@.len(),
                inferer.expr_types@.len() == self.expr_types@.len(),
                inferer.gen.upcoming() == self.gen.upcoming(),
                names_of(inferer.env.view()) == names_of(self.env.view()).union(
                    fn_names(program@.subrange(0, i as int)),
                ),
            decreases n - i,
        {
            inferer.register_top_level_bindings(&program[i]);
            proof {
                let pre = program@.subrange(0, i as int);
                let post = program@.subrange(0, i + 1);
                let nm = match program@[i as int].value {
                    DeclValue::Function { name, .. } => name.value@,
                };
                assert forall|x: Seq<char>| fn_names(post).contains(x) <==> fn_names(pre).insert(
                    nm,
                ).contains(x) by {
                    if fn_names(post).contains(x) {
                        let j = choose|j: int|
                            0 <= j < post.len() && match (#[trigger] post[j]).value {
                                DeclValue::Function { name, .. } => name.value@ == x,
                            };
                        if j < i {
                            assert(pre[j] == post[j]);
                        }
                    }
                    if fn_names(pre).contains(x) {
                        let j = choose|j: int|
                            0 <= j < pre.len() && match (#[trigger] pre[j]).value {
                                DeclValue::Function { name, .. } => name.value@ == x,
                            };
                        assert(post[j] == pre[j]);
                    }
                    if x == nm {
                        assert(post[i as int] == program@[i as int]);
                    }
                }
                assert(fn_names(post) =~= fn_names(pre).insert(nm));
                assert(names_of(inferer.env.view()) =~= names_of(self.env.view()).union(
                    fn_names(post),
                ));
            }
            i = i + 1;
        }
        proof {
            assert(program@.subrange(0, n as int) =~= program@);
        }
        let mut i: usize = 0;
        while i < n
            invariant
                0 <= i <= n,
                n == program@.len(),
                inferable_program(program@),
                inferer.wf(),
                all_original(inferer.type_constraints@),
                inferer.expr_types@.len() >= self.expr_types@.len(),
                inferer.expr_types@.len() == self.expr_types@.len() + decls_size(program@.subrange(0, i as int)),
                em.wf(),
                em.limit() == old(em).limit(),
                em.recorded() == old(em).recorded(),
                inferer.gen.upcoming() <= self.gen.upcoming() + 2 * decls_size(
                    program@.subrange(0, i as int),
                ),
                names == names_of(self.env.view()).union(fn_names(program@)),
                names_of(inferer.env.view()) == names,
                forall|j: int| 0 <= j < i ==> decl_names_bound(#[trigger] program@[j], names),
            decreases n - i,
        {
            let ghost before = inferer;
            proof {
                assert(program@.subrange(0, i + 1).drop_last() =~= program@.subrange(0, i as int));
                assert(program@.subrange(0, i + 1).last() == program@[i as int]);
                lemma_decls_size_prefix(program@, i + 1);
                assert(match program@[i as int].value {
                    DeclValue::Function { body, .. } => forall|j: int|
                        0 <= j < body@.len() ==> inferable_stmt(#[trigger] body@[j]),
                });
            }
            let ghost em_mid = *em;
            match inferer.visit_decl(&program[i], em) {
                Ok(()) => {},
                Err(e) => {
                    proof {
                        if e == InferError::UnboundName {
                            assert(!decl_names_bound(program@[i as int], names));
                            let x = choose|x: Seq<char>|
                                #![trigger reported_name(em_mid, *em, x)]
                                decl_reads_unbound(program@[i as int], names, x) && reported_name(
                                    em_mid,
                                    *em,
                                    x,
                                );
                            lemma_reported_name_from(*old(em), em_mid, *em, x);
                            assert(program_reads_unbound(program@, names, x));
                        }
                    }
                    return Err(e);
                },
            }
            proof {
                assert forall|k: int| 0 <= k < inferer.type_constraints@.len() implies !(
                #[trigger] inferer.type_constraints@[k]).is_derived by {
                    if k < before.type_constraints@.len() {
                        assert(inferer.type_constraints@[k] == before.type_constraints@[k]);
                    }
                }
            }
            i = i + 1;
        }
        proof {
            assert(program@.subrange(0, n as int) =~= program@);
            assert(decls_names_bound(program@, names));
        }
        let types = match inferer.unify_types(em) {
            Ok(types) => types,
            Err(_) => {
                return Err(InferError::UnificationFailure);
            },
        };
        let ghost unified_terms = inferer.terms@;
        if !inferer.substitute_types(&types, em) {
            proof {
                if primary_errors(old(em).recorded()) < old(em).limit() {
                    assert(final_code_is(*em, ErrorCode::AmbiguousType));
                }
            }
            return Err(InferError::AmbiguousType);
        }
        let sizes = match inferer.unify_liquids(em) {
            Some(sizes) => sizes,
            None => {
                return Err(InferError::UnificationFailure);
            },
        };
        let ghost unified_liquids = inferer.liquids@;
        if !inferer.substitute_liquids(&sizes, em) {
            proof {
                if primary_errors(old(em).recorded()) < old(em).limit() {
                    assert(final_code_is(*em, ErrorCode::AmbiguousType));
                }
            }
            return Err(InferError::AmbiguousType);
        }
        proof {
            assert forall|k: int| 0 <= k < inferer.type_constraints@.len() implies {
                let c = #[trigger] inferer.type_constraints@[k];
                &&& c.expected < inferer.terms@.len()
                &&& c.actual < inferer.terms@.len()
                &&& term_view(inferer.terms@[c.expected as int]) == term_view(
                    inferer.terms@[c.actual as int],
                )
                &&& !(term_view(inferer.terms@[c.expected as int]) is Var)
            } by {
                let c = inferer.type_constraints@[k];
                assert(joined(c, types));
                types.lemma_reps();
            }
            assert forall|k: int| 0 <= k < inferer.liquid_constraints@.len() implies {
                let c = #[trigger] inferer.liquid_constraints@[k];
                &&& c.expected < inferer.liquids@.len()
                &&& c.actual < inferer.liquids@.len()
                &&& inferer.liquids@[c.expected as int].value == inferer.liquids@[c.actual as int].value
                &&& inferer.liquids@[c.expected as int].value is Equal
            } by {
                let c = inferer.liquid_constraints@[k];
                assert(joined(c, sizes));
                sizes.lemma_reps();
            }
        }
        Ok(inferer)
    }
}

impl TypeInferer {
    /// Infers the types of the program `program` (see
    /// [`TypeInferer::infer_checked`]), returning the inferer with its
    /// constraints solved, or `None` after reporting what went wrong or when
    /// the fresh identifiers run out.
    pub fn infer(self, program: &Vec<Decl>, em: &mut ErrorManager) -> (result: Option<TypeInferer>)
        requires
            self.wf(),
            all_original(self.type_constraints@),
            old(em).wf(),
            inferable_program(program@),
        ensures
            final(em).wf(),
            final(em).limit() == old(em).limit(),
            result matches Some(r) ==> solved(r),
            result matches Some(r) ==> r.expr_types@.len() >= self.expr_types@.len(),
            result matches Some(r) ==> r.expr_types@.len() == self.expr_types@.len() + decls_size(program@),
            result is None ==> reported_unbound_read(
                program@,
                names_of(self.env.view()).union(fn_names(program@)),
                *old(em),
                *final(em),
            ) || reported(
                *old(em),
                *final(em),
                ErrorCode::UnificationFailure,
            ) || reported(*old(em), *final(em), ErrorCode::AmbiguousType) || self.gen.upcoming()
                + 2 * decls_size(program@) >= usize::MAX,
            !decls_names_bound(program@, names_of(self.env.view()).union(fn_names(program@)))
                ==> result is None && (reported_unbound_read(
                program@,
                names_of(self.env.view()).union(fn_names(program@)),
                *old(em),
                *final(em),
            ) || self.gen.upcoming()
                + 2 * decls_size(program@) >= usize::MAX),
            decls_names_bound(program@, names_of(self.env.view()).union(fn_names(program@)))
                && result is None ==> reported(*old(em), *final(em), ErrorCode::UnificationFailure)
                || reported(*old(em), *final(em), ErrorCode::AmbiguousType) || self.gen.upcoming()
                + 2 * decls_size(program@) >= usize::MAX,
    {
        match self.infer_checked(program, em) {
            Ok(r) => Some(r),
            Err(_) => None,
        }
    }
}

/// Whether the last error that `em` recorded has the code `code`.
pub open spec fn final_code_is(em: ErrorManager, code: ErrorCode) -> bool {
    em.recorded().len() > 0 && em.recorded().last().code == code
}

/// Whether the expression `e` can be type-checked (see [`inferable_expr`]).
pub fn expr_inferable(e: &Expr) -> (result: bool)
    ensures
        result == inferable_expr(*e),
    decreases *e,
{
    match &e.value {
        ExprValue::ConstantInt(_) => true,
        ExprValue::BoundName(_) => true,
        ExprValue::MemberAccess(_, _) => false,
        ExprValue::Call(_, _) => false,
        ExprValue::ArrayLiteral(elements, _) => exprs_inferable(elements),
        ExprValue::PrefixOp(_, rhs) => expr_inferable(rhs),
        ExprValue::InfixBop(lhs, _, rhs) => expr_inferable(lhs) && expr_inferable(rhs),
        ExprValue::PostfixBop(lhs, op1, index, op2) => op1.ty == TokenType::LeftBracket && op2.ty
            == TokenType::RightBracket && expr_inferable(lhs) && expr_inferable(index),
    }
}

/// Whether every expression of `es` can be type-checked.
pub fn exprs_inferable(es: &Vec<Expr>) -> (result: bool)
    ensures
        result == inferable_exprs(es@),
    decreases es@,
{
    let n = es.len();
    let mut k: usize = 0;
    assert(es@.subrange(0, 0) =~= Seq::<Expr>::empty());
    while k < n
        invariant
            0 <= k <= n,
            n == es@.len(),
            inferable_exprs(es@.subrange(0, k as int)),
        decreases n - k,
    {
        proof {
            assert(decreases_to!(es@ => es@[k as int]));
            assert(es@.subrange(0, k + 1).drop_last() =~= es@.subrange(0, k as int));
        }
        if !expr_inferable(&es[k]) {
            proof {
                if inferable_exprs(es@) {
                    lemma_inferable_exprs(es@, k as int);
                }
            }
            return false;
        }
        k = k + 1;
    }
    assert(es@.subrange(0, n as int) =~= es@);
    true
}

/// Whether every statement of every function of `program` can be
/// type-checked (see [`inferable_program`]).
pub fn program_inferable(program: &Vec<Decl>) -> (result: bool)
    ensures
        result == inferable_program(program@),
{
    let n = program.len();
    let mut i: usize = 0;
    while i < n
        invariant
            0 <= i <= n,
            n == program@.len(),
            forall|k: int|
                0 <= k < i ==> match #[trigger] program@[k].value {
                    DeclValue::Function { body, .. } => forall|j: int|
                        0 <= j < body@.len() ==> inferable_stmt(#[trigger] body@[j]),
                },
        decreases n - i,
    {
        match &program[i].value {
            DeclValue::Function { body, .. } => {
                let m = body.len();
                let mut j: usize = 0;
                while j < m
                    invariant
                        0 <= j <= m,
                        m == body@.len(),
                        0 <= i < program@.len(),
                        program@[i as int].value matches DeclValue::Function { body: b, .. } && b
                            == *body,
                        forall|t: int| 0 <= t < j ==> inferable_stmt(#[trigger] body@[t]),
                    decreases m - j,
                {
                    let ok = match &body[j].value {
                        StmtValue::Let { value, .. } => expr_inferable(value),
                        StmtValue::Assign(lhs, _, rhs) => expr_inferable(lhs) && expr_inferable(rhs),
                        StmtValue::Divider(_) => false,
                    };
                    if !ok {
                        proof {
                            assert(!inferable_stmt(body@[j as int]));
                            lemma_not_inferable(program@, i as int, j as int);
                        }
                        return false;
                    }
                    j = j + 1;
                }
            },
        }
        i = i + 1;
    }
    true
}

proof fn lemma_not_inferable(decls: Seq<Decl>, i: int, j: int)
    requires
        0 <= i < decls.len(),
        match decls[i].value {
            DeclValue::Function { body, .. } => 0 <= j < body@.len() && !inferable_stmt(body@[j]),
        },
    ensures
        !inferable_program(decls),
{
    match decls[i].value {
        DeclValue::Function { body, .. } => {
            assert(!inferable_stmt(body@[j]));
            assert(!(match decls[i].value {
                DeclValue::Function { body, .. } => forall|t: int|
                    0 <= t < body@.len() ==> inferable_stmt(#[trigger] body@[t]),
            }));
        },
    }
}

} // verus!
