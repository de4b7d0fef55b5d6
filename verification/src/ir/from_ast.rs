use super::cell::{cellable, spec_cell, Cell, CellV};
use super::component::{cells_map, Component};
use super::control::{spec_built, ControlBuilder, ControlV};
use super::instr::IrV;
use super::label::{spec_native_mangle, Label, Name, Visibility};
use super::pass::{comp_state, spec_run_ops, CompState, PassError, PassOp, PassRunner};
use super::port::{Port, PortV, Variable};
use crate::frontend::ast::{Decl, DeclValue, Expr, ExprValue, Stmt, StmtValue, Type};
use crate::frontend::attribute::Attribute;
use crate::frontend::token::{Token, TokenType};
use crate::utils::environment::{lookup, Environment};
use crate::utils::id::Gen;
use crate::utils::loc::utf8_len;
use vstd::prelude::*;

verus! {

/// The variable with identifier `n`.
pub open spec fn var_of(n: nat) -> Variable {
    Variable { id: n as usize }
}

/// What generating code for an expression gives: the port holding its
/// value, the control computing it, the next free identifier, and whether
/// the expression is supported.
pub struct ExprGen {
    pub port: PortV,
    pub controls: Seq<ControlV>,
    pub next: nat,
    pub ok: bool,
}

/// Code for the expression `e` with the bindings `scopes`, new variables
/// numbered from `next`: a constant is itself; a name is its bound variable;
/// `a + b` and `a * b` compute both sides and then add or multiply them into
/// a new variable; `a[i]` is a partial access; an array literal is a new
/// variable whose elements are assigned in order. Anything else, an unbound
/// name, or running out of identifiers is not supported.
pub open spec fn spec_gen_expr(e: Expr, scopes: Seq<Map<Seq<char>, Variable>>, next: nat) -> ExprGen
    decreases e,
{
    match e.value {
        ExprValue::ConstantInt(v) => ExprGen {
            port: PortV::Constant(v),
            controls: Seq::empty(),
            next,
            ok: true,
        },
        ExprValue::BoundName(name) => match lookup(scopes, name.value@) {
            Some(v) => ExprGen { port: PortV::Variable(v), controls: Seq::empty(), next, ok: true },
            None => ExprGen { port: PortV::Constant(0), controls: Seq::empty(), next, ok: false },
        },
        ExprValue::InfixBop(lhs, op, rhs) => {
            let l = spec_gen_expr(*lhs, scopes, next);
            let r = spec_gen_expr(*rhs, scopes, l.next);
            let result = PortV::Variable(var_of(r.next));
            let ir = if op.ty == TokenType::Plus {
                IrV::Add(result, l.port, r.port)
            } else {
                IrV::Mul(result, l.port, r.port)
            };
            ExprGen {
                port: result,
                controls: l.controls + r.controls + seq![ControlV::Enable(ir)],
                next: r.next + 1,
                ok: l.ok && r.ok && r.next < usize::MAX && (op.ty == TokenType::Plus || op.ty
                    == TokenType::Times),
            }
        },
        ExprValue::PostfixBop(array, op1, index, op2) => {
            let a = spec_gen_expr(*array, scopes, next);
            let i = spec_gen_expr(*index, scopes, a.next);
            ExprGen {
                port: PortV::PartialAccess(Box::new(a.port), Box::new(i.port)),
                controls: a.controls + i.controls,
                next: i.next,
                ok: a.ok && i.ok && op1.ty == TokenType::LeftBracket && op2.ty
                    == TokenType::RightBracket,
            }
        },
        ExprValue::ArrayLiteral(elements, _) => {
            let result = var_of(next);
            let g = spec_gen_elements(elements@, result, scopes, next + 1);
            ExprGen {
                port: PortV::Variable(result),
                controls: g.controls,
                next: g.next,
                ok: next < usize::MAX && g.ok,
            }
        },
        _ => ExprGen { port: PortV::Constant(0), controls: Seq::empty(), next, ok: false },
    }
}

/// Code for the elements `es` of an array literal held in `result`: each
/// element is computed and assigned to its index in turn.
pub open spec fn spec_gen_elements(
    es: Seq<Expr>,
    result: Variable,
    scopes: Seq<Map<Seq<char>, Variable>>,
    next: nat,
) -> ExprGen
    decreases es,
{
    if es.len() == 0 {
        ExprGen { port: PortV::Constant(0), controls: Seq::empty(), next, ok: true }
    } else {
        let before = spec_gen_elements(es.drop_last(), result, scopes, next);
        let g = spec_gen_expr(es.last(), scopes, before.next);
        let index = PortV::Constant((es.len() - 1) as i64);
        let target = PortV::PartialAccess(Box::new(PortV::Variable(result)), Box::new(index));
        ExprGen {
            port: PortV::Constant(0),
            controls: before.controls + g.controls + seq![
                ControlV::Enable(IrV::Assign(target, g.port)),
            ],
            next: g.next,
            ok: before.ok && g.ok && es.len() - 1 <= i64::MAX,
        }
    }
}

/// `steps` with `cs` appended to its last step.
pub open spec fn append_last(steps: Seq<Seq<ControlV>>, cs: Seq<ControlV>) -> Seq<Seq<ControlV>> {
    steps.update(steps.len() - 1, steps.last() + cs)
}

/// `scopes` with `name` bound to `v` in the top scope.
pub open spec fn bind_top(
    scopes: Seq<Map<Seq<char>, Variable>>,
    name: Seq<char>,
    v: Variable,
) -> Seq<Map<Seq<char>, Variable>> {
    scopes.update(scopes.len() - 1, scopes.last().insert(name, v))
}

/// The state of generating code for a component: the bindings, the steps
/// built so far, the next free identifier, and whether all was supported.
pub struct GenState {
    pub scopes: Seq<Map<Seq<char>, Variable>>,
    pub steps: Seq<Seq<ControlV>>,
    pub next: nat,
    pub ok: bool,
}

/// Code for the statement `s` after the state `st`: a `let` computes its
/// value and assigns it to a new variable bound to its name; an assignment
/// computes its right side, then its left side, and assigns; a divider
/// starts a new step.
pub open spec fn spec_gen_stmt(s: Stmt, st: GenState) -> GenState {
    match s.value {
        StmtValue::Let { name, value, .. } => {
            let g = spec_gen_expr(value, st.scopes, st.next);
            let var = var_of(g.next);
            GenState {
                scopes: bind_top(st.scopes, name.value@, var),
                steps: append_last(
                    st.steps,
                    g.controls.push(ControlV::Enable(IrV::Assign(PortV::Variable(var), g.port))),
                ),
                next: g.next + 1,
                ok: st.ok && g.ok && g.next < usize::MAX,
            }
        },
        StmtValue::Assign(lhs, _, rhs) => {
            let r = spec_gen_expr(rhs, st.scopes, st.next);
            let l = spec_gen_expr(lhs, st.scopes, r.next);
            GenState {
                scopes: st.scopes,
                steps: append_last(
                    st.steps,
                    r.controls + l.controls + seq![ControlV::Enable(IrV::Assign(l.port, r.port))],
                ),
                next: l.next,
                ok: st.ok && r.ok && l.ok,
            }
        },
        StmtValue::Divider(_) => GenState { steps: st.steps.push(Seq::empty()), ..st },
    }
}

/// Code for the statements `stmts` in order, after the state `start`.
pub open spec fn spec_gen_stmts(stmts: Seq<Stmt>, start: GenState) -> GenState
    decreases stmts.len(),
{
    if stmts.len() == 0 {
        start
    } else {
        spec_gen_stmt(stmts.last(), spec_gen_stmts(stmts.drop_last(), start))
    }
}

/// Binds each parameter of `params` in order to a new variable.
pub open spec fn spec_bind_params(params: Seq<(Token, Type)>, start: GenState) -> GenState
    decreases params.len(),
{
    if params.len() == 0 {
        start
    } else {
        let st = spec_bind_params(params.drop_last(), start);
        GenState {
            scopes: bind_top(st.scopes, params.last().0.value@, var_of(st.next)),
            next: st.next + 1,
            ok: st.ok && st.next < usize::MAX && cellable(params.last().1@),
            ..st
        }
    }
}

/// The state in which generating code for a component starts: one empty
/// scope, one empty step.
pub open spec fn start_state(next: nat) -> GenState {
    GenState {
        scopes: seq![Map::empty()],
        steps: seq![Seq::empty()],
        next,
        ok: true,
    }
}

/// Generating code for a function: its inputs, then its outputs, are bound
/// to new variables, then its body is generated.
pub open spec fn spec_gen_function(
    inputs: Seq<(Token, Type)>,
    outputs: Seq<(Token, Type)>,
    body: Seq<Stmt>,
    next: nat,
) -> GenState {
    spec_gen_stmts(body, spec_bind_params(outputs, spec_bind_params(inputs, start_state(next))))
}

/// Generates the IR of the functions of a program.
pub struct ComponentGenerator {
    pub var_gen: Gen,
    pub env: Environment<Variable>,
}

impl ComponentGenerator {
    pub open spec fn wf(&self) -> bool {
        self.env.wf()
    }

    /// A generator with no bindings that numbers its variables with
    /// `var_gen`.
    pub fn new(var_gen: Gen) -> (result: Self)
        ensures
            result.wf(),
            result.var_gen == var_gen,
            result.env.view() == seq![Map::<Seq<char>, Variable>::empty()],
    {
        ComponentGenerator { var_gen, env: Environment::new() }
    }

    /// A new variable, numbered by the next identifier.
    pub fn new_var(&mut self) -> (result: Variable)
        requires
            old(self).var_gen.upcoming() < usize::MAX,
        ensures
            result == var_of(old(self).var_gen.upcoming()),
            final(self).var_gen.upcoming() == old(self).var_gen.upcoming() + 1,
            final(self).env == old(self).env,
    {
        Variable::from(self.var_gen.next())
    }

    /// Generates IR for `e` into the last step of `builder`, returning the
    /// port that holds its value, or `None` when `e` is not supported (see
    /// [`spec_gen_expr`]).
    fn gen_expr(&mut self, e: &Expr, builder: &mut ControlBuilder) -> (result: Option<Port>)
        requires
            old(self).wf(),
            old(builder).wf(),
        ensures
            final(self).wf(),
            final(builder).wf(),
            final(self).env == old(self).env,
            ({
                let g = spec_gen_expr(*e, old(self).env.view(), old(self).var_gen.upcoming());
                &&& result is Some <==> g.ok
                &&& result matches Some(p) ==> {
                    &&& p@ == g.port
                    &&& final(builder).steps() == append_last(old(builder).steps(), g.controls)
                    &&& final(self).var_gen.upcoming() == g.next
                }
            }),
        decreases e,
    {
        let ghost steps0 = builder.steps();
        proof {
            builder.lemma_has_step();
        }
        match &e.value {
            ExprValue::ConstantInt(value) => {
                assert(steps0 =~= append_last(steps0, Seq::empty()));
                Some(Port::Constant(*value))
            },
            ExprValue::InfixBop(lhs, op, rhs) => {
                let l = self.gen_expr(lhs, builder)?;
                let r = self.gen_expr(rhs, builder)?;
                if !self.var_gen.has_next() {
                    return None;
                }
                let result = self.new_var();
                let ghost steps1 = builder.steps();
                match op.ty {
                    TokenType::Plus => {
                        builder.push_add(Port::Variable(result), l, r);
                    },
                    TokenType::Times => {
                        builder.push_mul(Port::Variable(result), l, r);
                    },
                    _ => {
                        return None;
                    },
                }
                proof {
                    let gl = spec_gen_expr(**lhs, self.env.view(), old(self).var_gen.upcoming());
                    let gr = spec_gen_expr(**rhs, self.env.view(), gl.next);
                    lemma_append_last_twice(steps0, gl.controls, gr.controls);
                    let x = builder.steps().last().last();
                    lemma_append_last_push(steps1, x);
                    lemma_append_last_twice(steps0, gl.controls + gr.controls, seq![x]);
                }
                Some(Port::Variable(result))
            },
            ExprValue::BoundName(name) => {
                match self.env.find(&name.value) {
                    Some(v) => {
                        assert(steps0 =~= append_last(steps0, Seq::empty()));
                        Some(Port::Variable(*v))
                    },
                    None => None,
                }
            },
            ExprValue::PostfixBop(array, op1, index, op2) => {
                if op1.ty != TokenType::LeftBracket || op2.ty != TokenType::RightBracket {
                    return None;
                }
                let array_port = self.gen_expr(array, builder)?;
                let index_port = self.gen_expr(index, builder)?;
                proof {
                    let ga = spec_gen_expr(**array, self.env.view(), old(self).var_gen.upcoming());
                    let gi = spec_gen_expr(**index, self.env.view(), ga.next);
                    lemma_append_last_twice(steps0, ga.controls, gi.controls);
                }
                Some(Port::PartialAccess(Box::new(array_port), Box::new(index_port)))
            },
            ExprValue::ArrayLiteral(elements, _) => {
                if !self.var_gen.has_next() {
                    return None;
                }
                let result = self.new_var();
                if !self.gen_elements(elements, result, builder) {
                    return None;
                }
                Some(Port::Variable(result))
            },
            _ => None,
        }
    }

    /// Generates IR that assigns the elements `es` of an array literal to
    /// their indices in `result`, returning whether all were supported (see
    /// [`spec_gen_elements`]).
    fn gen_elements(&mut self, es: &Vec<Expr>, result: Variable, builder: &mut ControlBuilder) -> (ok:
        bool)
        requires
            old(self).wf(),
            old(builder).wf(),
        ensures
            final(self).wf(),
            final(builder).wf(),
            final(self).env == old(self).env,
            ({
                let g = spec_gen_elements(es@, result, old(self).env.view(), old(self).var_gen.upcoming());
                &&& ok == g.ok
                &&& ok ==> final(builder).steps() == append_last(old(builder).steps(), g.controls)
                    && final(self).var_gen.upcoming() == g.next
            }),
        decreases es@,
    {
        let ghost steps0 = builder.steps();
        let ghost scopes = self.env.view();
        let ghost next0 = self.var_gen.upcoming();
        proof {
            builder.lemma_has_step();
            assert(es@.subrange(0, 0) =~= Seq::<Expr>::empty());
            assert(steps0 =~= append_last(steps0, Seq::empty()));
        }
        let n = es.len();
        let mut i: usize = 0;
        while i < n
            invariant
                0 <= i <= n,
                n == es@.len(),
                self.wf(),
                builder.wf(),
                self.env == old(self).env,
                scopes == self.env.view(),
                steps0 == old(builder).steps(),
                steps0.len() >= 1,
                next0 == old(self).var_gen.upcoming(),
                ({
                    let g = spec_gen_elements(es@.subrange(0, i as int), result, scopes, next0);
                    &&& g.ok
                    &&& builder.steps() == append_last(steps0, g.controls)
                    &&& self.var_gen.upcoming() == g.next
                }),
            decreases n - i,
        {
            let ghost pre = es@.subrange(0, i + 1);
            proof {
                assert(decreases_to!(es@ => es@[i as int]));
                assert(pre.drop_last() =~= es@.subrange(0, i as int));
                assert(pre.last() == es@[i as int]);
            }
            if i as u64 > 0x7fff_ffff_ffff_ffffu64 {
                proof {
                    assert(pre.len() == i + 1);
                    assert(!spec_gen_elements(pre, result, scopes, next0).ok);
                    lemma_elements_not_ok(es@, result, scopes, next0, i + 1);
                }
                return false;
            }
            let index = Port::Constant(i as i64);
            let ghost before = spec_gen_elements(es@.subrange(0, i as int), result, scopes, next0);
            let ghost steps_before = builder.steps();
            let element_port = match self.gen_expr(&es[i], builder) {
                Some(p) => p,
                None => {
                    proof {
                        lemma_elements_not_ok(es@, result, scopes, next0, i + 1);
                    }
                    return false;
                },
            };
            let ghost steps_mid = builder.steps();
            let target = Port::PartialAccess(Box::new(Port::Variable(result)), Box::new(index));
            proof {
                reveal_with_fuel(crate::ir::port::port_view, 2);
                assert(target@ == PortV::PartialAccess(
                    Box::new(PortV::Variable(result)),
                    Box::new(PortV::Constant(i as i64)),
                ));
            }
            builder.push_assign(target, element_port);
            proof {
                let g = spec_gen_expr(es@[i as int], scopes, before.next);
                lemma_append_last_twice(steps0, before.controls, g.controls);
                let x = builder.steps().last().last();
                lemma_append_last_push(steps_mid, x);
                lemma_append_last_twice(steps0, before.controls + g.controls, seq![x]);
                assert(i <= i64::MAX);
                assert(pre.len() - 1 == i);
                assert(element_port@ == g.port);
                assert(x == ControlV::Enable(
                    IrV::Assign(
                        PortV::PartialAccess(
                            Box::new(PortV::Variable(result)),
                            Box::new(PortV::Constant((pre.len() - 1) as i64)),
                        ),
                        g.port,
                    ),
                ));
            }
            i = i + 1;
        }
        proof {
            assert(es@.subrange(0, n as int) =~= es@);
        }
        true
    }
}

/// Appending `a` and then `b` to the last step appends `a + b`.
pub proof fn lemma_append_last_twice(s: Seq<Seq<ControlV>>, a: Seq<ControlV>, b: Seq<ControlV>)
    requires
        s.len() >= 1,
    ensures
        append_last(append_last(s, a), b) == append_last(s, a + b),
{
    assert(s.last() + a + b =~= s.last() + (a + b));
    assert(append_last(append_last(s, a), b) =~= append_last(s, a + b));
}

/// Pushing `x` onto the last step appends the one-element sequence.
pub proof fn lemma_append_last_push(s: Seq<Seq<ControlV>>, x: ControlV)
    requires
        s.len() >= 1,
    ensures
        s.update(s.len() - 1, s.last().push(x)) == append_last(s, seq![x]),
{
    assert(s.last().push(x) =~= s.last() + seq![x]);
}

/// Once a prefix of the elements is unsupported, so are all the elements.
proof fn lemma_elements_not_ok(
    es: Seq<Expr>,
    result: Variable,
    scopes: Seq<Map<Seq<char>, Variable>>,
    next: nat,
    k: int,
)
    requires
        0 <= k <= es.len(),
        !spec_gen_elements(es.subrange(0, k), result, scopes, next).ok,
    ensures
        !spec_gen_elements(es, result, scopes, next).ok,
    decreases es.len() - k,
{
    if k < es.len() {
        let pre = es.subrange(0, k + 1);
        assert(pre.drop_last() =~= es.subrange(0, k));
        lemma_elements_not_ok(es, result, scopes, next, k + 1);
    } else {
        assert(es.subrange(0, k) =~= es);
    }
}

/// Once a prefix of the statements is unsupported, so are all of them.
proof fn lemma_stmts_not_ok(stmts: Seq<Stmt>, start: GenState, k: int)
    requires
        0 <= k <= stmts.len(),
        !spec_gen_stmts(stmts.subrange(0, k), start).ok,
    ensures
        !spec_gen_stmts(stmts, start).ok,
    decreases stmts.len() - k,
{
    if k < stmts.len() {
        let pre = stmts.subrange(0, k + 1);
        assert(pre.drop_last() =~= stmts.subrange(0, k));
        lemma_stmts_not_ok(stmts, start, k + 1);
    } else {
        assert(stmts.subrange(0, k) =~= stmts);
    }
}

/// Once a prefix of the parameters is unsupported, so are all of them.
proof fn lemma_params_not_ok(params: Seq<(Token, Type)>, start: GenState, k: int)
    requires
        0 <= k <= params.len(),
        !spec_bind_params(params.subrange(0, k), start).ok,
    ensures
        !spec_bind_params(params, start).ok,
    decreases params.len() - k,
{
    if k < params.len() {
        let pre = params.subrange(0, k + 1);
        assert(pre.drop_last() =~= params.subrange(0, k));
        lemma_params_not_ok(params, start, k + 1);
    } else {
        assert(params.subrange(0, k) =~= params);
    }
}

/// An unsupported state stays unsupported.
proof fn lemma_stmts_keep_not_ok(stmts: Seq<Stmt>, start: GenState)
    requires
        !start.ok,
    ensures
        !spec_gen_stmts(stmts, start).ok,
    decreases stmts.len(),
{
    if stmts.len() > 0 {
        lemma_stmts_keep_not_ok(stmts.drop_last(), start);
    }
}

/// An unsupported state stays unsupported.
proof fn lemma_params_keep_not_ok(params: Seq<(Token, Type)>, start: GenState)
    requires
        !start.ok,
    ensures
        !spec_bind_params(params, start).ok,
    decreases params.len(),
{
    if params.len() > 0 {
        lemma_params_keep_not_ok(params.drop_last(), start);
    }
}

/// Binding parameters and generating statements only ever add steps or
/// append to the last one, so at least one step remains.
proof fn lemma_stmts_steps(stmts: Seq<Stmt>, start: GenState)
    requires
        start.steps.len() >= 1,
    ensures
        spec_gen_stmts(stmts, start).steps.len() >= 1,
    decreases stmts.len(),
{
    if stmts.len() > 0 {
        lemma_stmts_steps(stmts.drop_last(), start);
    }
}

/// Whether a value of type `ty` can be stored in a cell (see
/// [`cellable`]).
pub fn is_cellable(ty: &Type) -> (result: bool)
    ensures
        result == cellable(ty@),
    decreases *ty,
{
    match &ty.value {
        crate::frontend::ast::TypeValue::Unit => true,
        crate::frontend::ast::TypeValue::Int64 => true,
        crate::frontend::ast::TypeValue::Array(element, count) => match count.value {
            crate::frontend::ast::LiquidTypeValue::Equal(_) => is_cellable(element),
            crate::frontend::ast::LiquidTypeValue::All(_) => false,
        },
        _ => false,
    }
}

/// The state after generating code with the generator `g` and the builder
/// `b`, with everything supported so far.
pub open spec fn state_of(g: ComponentGenerator, b: ControlBuilder) -> GenState {
    GenState { scopes: g.env.view(), steps: b.steps(), next: g.var_gen.upcoming(), ok: true }
}

impl ComponentGenerator {
    /// Generates IR for the statement `s` (see [`spec_gen_stmt`]), returning
    /// whether it is supported.
    fn gen_stmt(&mut self, s: &Stmt, builder: &mut ControlBuilder) -> (ok: bool)
        requires
            old(self).wf(),
            old(builder).wf(),
        ensures
            final(self).wf(),
            final(builder).wf(),
            ok == spec_gen_stmt(*s, state_of(*old(self), *old(builder))).ok,
            ok ==> state_of(*final(self), *final(builder)) == spec_gen_stmt(
                *s,
                state_of(*old(self), *old(builder)),
            ),
    {
        let ghost steps0 = builder.steps();
        proof {
            builder.lemma_has_step();
            self.env.lemma_has_base();
        }
        match &s.value {
            StmtValue::Let { name, hint: _, value } => {
                let value_port = match self.gen_expr(value, builder) {
                    Some(p) => p,
                    None => {
                        return false;
                    },
                };
                if !self.var_gen.has_next() {
                    return false;
                }
                let name_var = self.new_var();
                let _ = self.env.bind(name.value.clone(), name_var);
                let ghost steps1 = builder.steps();
                builder.push_assign(Port::Variable(name_var), value_port);
                proof {
                    let g = spec_gen_expr(*value, old(self).env.view(), old(self).var_gen.upcoming());
                    let x = builder.steps().last().last();
                    lemma_append_last_push(steps1, x);
                    lemma_append_last_twice(steps0, g.controls, seq![x]);
                    assert(g.controls + seq![x] =~= g.controls.push(x));
                }
                true
            },
            StmtValue::Assign(lhs, _, rhs) => {
                let rhs_port = match self.gen_expr(rhs, builder) {
                    Some(p) => p,
                    None => {
                        return false;
                    },
                };
                let lhs_port = match self.gen_expr(lhs, builder) {
                    Some(p) => p,
                    None => {
                        return false;
                    },
                };
                let ghost steps2 = builder.steps();
                builder.push_assign(lhs_port, rhs_port);
                proof {
                    let r = spec_gen_expr(*rhs, old(self).env.view(), old(self).var_gen.upcoming());
                    let l = spec_gen_expr(*lhs, old(self).env.view(), r.next);
                    lemma_append_last_twice(steps0, r.controls, l.controls);
                    let x = builder.steps().last().last();
                    lemma_append_last_push(steps2, x);
                    lemma_append_last_twice(steps0, r.controls + l.controls, seq![x]);
                }
                true
            },
            StmtValue::Divider(_) => {
                builder.split();
                true
            },
        }
    }

    /// Binds the parameters `params` in order to new variables, each with
    /// the cell that stores its type, returning the variables and cells, or
    /// `None` when a type cannot be stored or identifiers run out.
    fn bind_params(&mut self, params: &Vec<(Token, Type)>, builder: &ControlBuilder) -> (result:
        Option<Vec<(Variable, Cell)>>)
        requires
            old(self).wf(),
            builder.wf(),
        ensures
            final(self).wf(),
            ({
                let st = spec_bind_params(params@, state_of(*old(self), *builder));
                &&& result is Some <==> st.ok
                &&& result is Some ==> final(self).var_gen.upcoming() == old(self).var_gen.upcoming()
                    + params@.len()
                &&& result matches Some(cells) ==> {
                    &&& state_of(*final(self), *builder) == st
                    &&& cells@.len() == params@.len()
                    &&& forall|i: int|
                        0 <= i < cells@.len() ==> (#[trigger] cells@[i]).0 == var_of(
                            (old(self).var_gen.upcoming() + i) as nat,
                        ) && cells@[i].1@ == spec_cell(params@[i].1@)
                }
            }),
    {
        let ghost start = state_of(*self, *builder);
        let mut cells: Vec<(Variable, Cell)> = Vec::new();
        let n = params.len();
        let mut i: usize = 0;
        assert(params@.subrange(0, 0) =~= Seq::<(Token, Type)>::empty());
        while i < n
            invariant
                0 <= i <= n,
                n == params@.len(),
                self.wf(),
                builder.wf(),
                start == state_of(*old(self), *builder),
                state_of(*self, *builder) == spec_bind_params(params@.subrange(0, i as int), start),
                spec_bind_params(params@.subrange(0, i as int), start).ok,
                self.var_gen.upcoming() == (old(self).var_gen.upcoming() + i) as nat,
                cells@.len() == i,
                forall|j: int|
                    0 <= j < i ==> (#[trigger] cells@[j]).0 == var_of((old(self).var_gen.upcoming() + j) as nat)
                        && cells@[j].1@ == spec_cell(params@[j].1@),
            decreases n - i,
        {
            let ghost pre = params@.subrange(0, i + 1);
            proof {
                assert(pre.drop_last() =~= params@.subrange(0, i as int));
                assert(pre.last() == params@[i as int]);
                self.env.lemma_has_base();
            }
            if !self.var_gen.has_next() || !is_cellable(&params[i].1) {
                proof {
                    lemma_params_not_ok(params@, start, i + 1);
                }
                return None;
            }
            let var = self.new_var();
            let _ = self.env.bind(params[i].0.value.clone(), var);
            let cell = Cell::from(&params[i].1);
            cells.push((var, cell));
            i = i + 1;
        }
        proof {
            assert(params@.subrange(0, n as int) =~= params@);
        }
        Some(cells)
    }

    /// Generates IR for the statements `body` in order (see
    /// [`spec_gen_stmts`]), returning whether all are supported.
    fn gen_body(&mut self, body: &Vec<Stmt>, builder: &mut ControlBuilder) -> (ok: bool)
        requires
            old(self).wf(),
            old(builder).wf(),
        ensures
            final(self).wf(),
            final(builder).wf(),
            ok == spec_gen_stmts(body@, state_of(*old(self), *old(builder))).ok,
            ok ==> state_of(*final(self), *final(builder)) == spec_gen_stmts(
                body@,
                state_of(*old(self), *old(builder)),
            ),
    {
        let ghost start = state_of(*self, *builder);
        let n = body.len();
        let mut i: usize = 0;
        assert(body@.subrange(0, 0) =~= Seq::<Stmt>::empty());
        while i < n
            invariant
                0 <= i <= n,
                n == body@.len(),
                self.wf(),
                builder.wf(),
                start == state_of(*old(self), *old(builder)),
                state_of(*self, *builder) == spec_gen_stmts(body@.subrange(0, i as int), start),
                spec_gen_stmts(body@.subrange(0, i as int), start).ok,
            decreases n - i,
        {
            let ghost pre = body@.subrange(0, i + 1);
            proof {
                assert(pre.drop_last() =~= body@.subrange(0, i as int));
                assert(pre.last() == body@[i as int]);
            }
            if !self.gen_stmt(&body[i], builder) {
                proof {
                    lemma_stmts_not_ok(body@, start, i + 1);
                }
                return false;
            }
            i = i + 1;
        }
        proof {
            assert(body@.subrange(0, n as int) =~= body@);
        }
        true
    }
}

/// Why generating IR failed: the function uses what is not supported, or a
/// pass failed.
pub enum GenError {
    Unsupported,
    Pass(PassError),
}

/// What generating the function `name` from `next` and running `passes`
/// makes of a component: its label is the function's mangled name and
/// public, its inputs and outputs are fresh variables numbered from `next`
/// with the cells of their types, and its control and cells are what the
/// passes make of the generated control.
pub open spec fn fn_component(
    comp: Component,
    name: Token,
    inputs: Seq<(Token, Type)>,
    outputs: Seq<(Token, Type)>,
    body: Seq<Stmt>,
    next: nat,
    passes: Seq<PassOp>,
) -> bool {
    let st = spec_gen_function(inputs, outputs, body, next);
    &&& st.ok
    &&& comp.label.name.unmangled@ == name.value@
    &&& comp.label.name.mangled@ == spec_native_mangle(
        name.value@,
        (utf8_len(name.value) as usize) as nat,
        param_types(inputs),
        param_types(outputs),
    )
    &&& comp.label.visibility == Visibility::Public
    &&& forall|a: Attribute| !comp.spec_attributes().contains(a)
    &&& entry_views(comp.inputs@) == param_cells(inputs, next)
    &&& entry_views(comp.outputs@) == param_cells(outputs, next + inputs.len())
    &&& spec_run_ops(
        passes,
        CompState { cfg: spec_built(st.steps), cells: cells_map(comp.inputs@ + comp.outputs@) },
        false,
        0,
        Seq::empty(),
        comp.inputs@,
        comp.outputs@,
    ) == Ok::<CompState, PassError>(comp_state(comp))
}

/// Whether generating the function from `next` succeeds but running
/// `passes` on the generated component fails with `e`.
pub open spec fn fn_pass_fails(
    inputs: Seq<(Token, Type)>,
    outputs: Seq<(Token, Type)>,
    body: Seq<Stmt>,
    next: nat,
    passes: Seq<PassOp>,
    e: PassError,
) -> bool {
    let st = spec_gen_function(inputs, outputs, body, next);
    &&& st.ok
    &&& exists|ins: Seq<(Variable, Cell)>, outs: Seq<(Variable, Cell)>|
        #![trigger entry_views(ins), entry_views(outs)]
        entry_views(ins) == param_cells(inputs, next) && entry_views(outs) == param_cells(
            outputs,
            next + inputs.len(),
        ) && spec_run_ops(
            passes,
            CompState { cfg: spec_built(st.steps), cells: cells_map(ins + outs) },
            false,
            0,
            Seq::empty(),
            ins,
            outs,
        ) == Err::<CompState, PassError>(e)
}

/// [`fn_component`] for the function `d`.
pub open spec fn decl_component(comp: Component, d: Decl, next: nat, passes: Seq<PassOp>) -> bool {
    match d.value {
        DeclValue::Function { name, inputs, outputs, body, .. } => fn_component(
            comp,
            name,
            inputs@,
            outputs@,
            body@,
            next,
            passes,
        ),
    }
}

/// [`fn_pass_fails`] for the function `d`.
pub open spec fn decl_pass_fails(d: Decl, next: nat, passes: Seq<PassOp>, e: PassError) -> bool {
    match d.value {
        DeclValue::Function { inputs, outputs, body, .. } => fn_pass_fails(
            inputs@,
            outputs@,
            body@,
            next,
            passes,
            e,
        ),
    }
}

/// The types of the parameters `ps`.
pub open spec fn param_types(ps: Seq<(Token, Type)>) -> Seq<Type> {
    ps.map_values(|p: (Token, Type)| p.1)
}

/// The cells of the parameters `ps`, bound to variables numbered from
/// `next`.
pub open spec fn param_cells(ps: Seq<(Token, Type)>, next: nat) -> Seq<(Variable, CellV)> {
    Seq::new(ps.len(), |i: int| (var_of((next + i) as nat), spec_cell(ps[i].1@)))
}

/// The variables and cell values of an association list.
pub open spec fn entry_views(entries: Seq<(Variable, Cell)>) -> Seq<(Variable, CellV)> {
    entries.map_values(|e: (Variable, Cell)| (e.0, e.1@))
}

/// Types of equal values have equal mangled names.
proof fn lemma_mangles_view(a: Seq<Type>, b: Seq<Type>)
    requires
        a.len() == b.len(),
        forall|i: int| 0 <= i < a.len() ==> (#[trigger] a[i])@ == b[i]@,
    ensures
        super::label::spec_mangles(a) == super::label::spec_mangles(b),
    decreases a.len(),
{
    if a.len() > 0 {
        lemma_mangles_view(a.drop_last(), b.drop_last());
        let x = a.last();
        let y = b.last();
        assert(x@ == y@);
        assert(super::label::name_bytes(x) == super::label::name_bytes(y)) by {
            match (x.value, y.value) {
                (crate::frontend::ast::TypeValue::Name(n1), crate::frontend::ast::TypeValue::Name(
                    n2,
                )) => {
                    assert(n1@ == n2@);
                },
                _ => {},
            }
        }
    }
}

/// Copies of the types of the parameters `ps`.
fn copy_param_types(ps: &Vec<(Token, Type)>) -> (result: Vec<Type>)
    ensures
        result@.len() == ps@.len(),
        forall|i: int| 0 <= i < ps@.len() ==> (#[trigger] result@[i])@ == ps@[i].1@,
{
    let mut result: Vec<Type> = Vec::new();
    let mut k: usize = 0;
    while k < ps.len()
        invariant
            0 <= k <= ps@.len(),
            result@.len() == k,
            forall|i: int| 0 <= i < k ==> (#[trigger] result@[i])@ == ps@[i].1@,
        decreases ps@.len() - k,
    {
        result.push(ps[k].1.duplicate());
        k = k + 1;
    }
    result
}

impl ComponentGenerator {
    /// Generates the component of the function `name` with the parameters
    /// `inputs` and `outputs` and the body `body`: each parameter is bound
    /// to a new variable with the cell of its type, the label is the
    /// function's mangled name, the control is built from the body, and
    /// `pass_runner` then runs on the component.
    pub fn gen(
        &mut self,
        name: &Token,
        inputs: &Vec<(Token, Type)>,
        outputs: &Vec<(Token, Type)>,
        body: &Vec<Stmt>,
        pass_runner: &PassRunner,
    ) -> (result: Result<Component, GenError>)
        requires
            old(self).wf(),
            old(self).env.view() == seq![Map::<Seq<char>, Variable>::empty()],
        ensures
            final(self).wf(),
            ({
                let next = old(self).var_gen.upcoming();
                let st = spec_gen_function(inputs@, outputs@, body@, next);
                &&& (result matches Err(GenError::Unsupported)) <==> !st.ok
                &&& result matches Ok(comp) ==> fn_component(
                    comp,
                    *name,
                    inputs@,
                    outputs@,
                    body@,
                    next,
                    pass_runner.passes@,
                ) && final(self).var_gen.upcoming() == st.next
                &&& result matches Err(GenError::Pass(e)) ==> fn_pass_fails(
                    inputs@,
                    outputs@,
                    body@,
                    next,
                    pass_runner.passes@,
                    e,
                ) && final(self).var_gen.upcoming() == st.next
            }),
    {
        let builder = ControlBuilder::new();
        let ghost start = state_of(*self, builder);
        let ghost next = self.var_gen.upcoming();
        let input_cells = match self.bind_params(inputs, &builder) {
            Some(cells) => cells,
            None => {
                proof {
                    lemma_params_keep_not_ok(outputs@, spec_bind_params(inputs@, start));
                    lemma_stmts_keep_not_ok(
                        body@,
                        spec_bind_params(outputs@, spec_bind_params(inputs@, start)),
                    );
                }
                return Err(GenError::Unsupported);
            },
        };
        let output_cells = match self.bind_params(outputs, &builder) {
            Some(cells) => cells,
            None => {
                proof {
                    lemma_stmts_keep_not_ok(
                        body@,
                        spec_bind_params(outputs@, spec_bind_params(inputs@, start)),
                    );
                }
                return Err(GenError::Unsupported);
            },
        };
        let input_types = copy_param_types(inputs);
        let output_types = copy_param_types(outputs);
        proof {
            assert forall|i: int| 0 <= i < input_types@.len() implies !(
            #[trigger] input_types@[i]@ is Var) by {
                lemma_params_cellable(inputs@, start, i);
            }
            assert forall|i: int| 0 <= i < output_types@.len() implies !(
            #[trigger] output_types@[i]@ is Var) by {
                lemma_params_cellable(outputs@, spec_bind_params(inputs@, start), i);
            }
            lemma_mangles_view(input_types@, param_types(inputs@));
            lemma_mangles_view(output_types@, param_types(outputs@));
        }
        let label = Label::from(
            Name::from_native(&name.value, &input_types, &output_types),
            Visibility::Public,
        );
        let mut builder = builder;
        if !self.gen_body(body, &mut builder) {
            return Err(GenError::Unsupported);
        }
        let cfg = builder.take();
        proof {
            assert(entry_views(input_cells@) =~= param_cells(inputs@, next));
            assert(entry_views(output_cells@) =~= param_cells(outputs@, next + inputs@.len()));
        }
        let mut comp = Component::new(label, input_cells, output_cells, cfg);
        let ghost initial = comp;
        proof {
            let st = spec_gen_function(inputs@, outputs@, body@, next);
            assert(st.ok);
            assert(initial.cfg@ == spec_built(st.steps));
            assert(comp_state(initial) == CompState {
                cfg: spec_built(st.steps),
                cells: cells_map(initial.inputs@ + initial.outputs@),
            });
        }
        match pass_runner.run(&mut comp) {
            Ok(()) => {
                proof {
                    let st = spec_gen_function(inputs@, outputs@, body@, next);
                    assert(start == start_state(next));
                    assert(comp.label.name.unmangled@ == name.value@);
                    assert(comp.label.name.mangled@ == spec_native_mangle(
                        name.value@,
                        (utf8_len(name.value) as usize) as nat,
                        param_types(inputs@),
                        param_types(outputs@),
                    ));
                    assert(entry_views(comp.inputs@) == param_cells(inputs@, next));
                    assert(entry_views(comp.outputs@) == param_cells(outputs@, next + inputs@.len()));
                    assert(self.var_gen.upcoming() == st.next);
                    assert(comp.attributes == initial.attributes);
                    assert forall|a: Attribute| !comp.spec_attributes().contains(a) by {
                        assert(!initial.spec_attributes().contains(a));
                    }
                }
                Ok(comp)
            },
            Err(e) => {
                proof {
                    let st = spec_gen_function(inputs@, outputs@, body@, next);
                    assert(self.var_gen.upcoming() == st.next);
                    assert(entry_views(initial.inputs@) == param_cells(inputs@, next));
                    assert(entry_views(initial.outputs@) == param_cells(
                        outputs@,
                        next + inputs@.len(),
                    ));
                }
                Err(GenError::Pass(e))
            },
        }
    }
}

/// The parameters that were bound without failure all have types that can
/// be stored.
proof fn lemma_params_cellable(params: Seq<(Token, Type)>, start: GenState, i: int)
    requires
        spec_bind_params(params, start).ok,
        0 <= i < params.len(),
    ensures
        cellable(params[i].1@),
        !(params[i].1@ is Var),
    decreases params.len(),
{
    if i < params.len() - 1 {
        assert(params.drop_last()[i] == params[i]);
        lemma_params_cellable(params.drop_last(), start, i);
    }
}

/// Generating code for the function `d`, its variables numbered from
/// `next`.
pub open spec fn spec_decl_gen(d: Decl, next: nat) -> GenState {
    match d.value {
        DeclValue::Function { inputs, outputs, body, .. } => spec_gen_function(
            inputs@,
            outputs@,
            body@,
            next,
        ),
    }
}

/// The next free identifier after generating code for the functions `ds`
/// in order, starting from `next`.
pub open spec fn spec_decls_next(ds: Seq<Decl>, next: nat) -> nat
    decreases ds.len(),
{
    if ds.len() == 0 {
        next
    } else {
        spec_decl_gen(ds.last(), spec_decls_next(ds.drop_last(), next)).next
    }
}

/// Generates the component of every function of `ast`, in order, numbering
/// variables with `var_gen` across all of them and running `pass_runner` on
/// each: every assignment statement corresponds to a single IR assignment to
/// the appropriate lvalue.
pub fn ast_to_ir(ast: &Vec<Decl>, pass_runner: &PassRunner, var_gen: &mut Gen) -> (result: Result<
    Vec<Component>,
    GenError,
>)
    ensures
        result matches Ok(comps) ==> {
            &&& comps@.len() == ast@.len()
            &&& forall|i: int|
                0 <= i < comps@.len() ==> decl_component(
                    #[trigger] comps@[i],
                    ast@[i],
                    spec_decls_next(ast@.subrange(0, i), old(var_gen).upcoming()),
                    pass_runner.passes@,
                )
            &&& final(var_gen).upcoming() == spec_decls_next(ast@, old(var_gen).upcoming())
        },
        result matches Err(GenError::Pass(e)) ==> exists|i: int|
            0 <= i < ast@.len() && #[trigger] decl_pass_fails(
                ast@[i],
                spec_decls_next(ast@.subrange(0, i), old(var_gen).upcoming()),
                pass_runner.passes@,
                e,
            ),
        result matches Err(GenError::Unsupported) ==> exists|i: int|
            0 <= i < ast@.len() && !(#[trigger] spec_decl_gen(
                ast@[i],
                spec_decls_next(ast@.subrange(0, i), old(var_gen).upcoming()),
            )).ok,
{
    let mut comps: Vec<Component> = Vec::new();
    let n = ast.len();
    let mut i: usize = 0;
    let ghost start = var_gen.upcoming();
    assert(ast@.subrange(0, 0) =~= Seq::<Decl>::empty());
    while i < n
        invariant
            0 <= i <= n,
            n == ast@.len(),
            start == old(var_gen).upcoming(),
            var_gen.upcoming() == spec_decls_next(ast@.subrange(0, i as int), start),
            comps@.len() == i,
            forall|j: int|
                0 <= j < i ==> decl_component(
                    #[trigger] comps@[j],
                    ast@[j],
                    spec_decls_next(ast@.subrange(0, j), start),
                    pass_runner.passes@,
                ),
        decreases n - i,
    {
        let ghost pre = ast@.subrange(0, i + 1);
        proof {
            assert(pre.drop_last() =~= ast@.subrange(0, i as int));
            assert(pre.last() == ast@[i as int]);
        }
        let mut current = Gen::new();
        std::mem::swap(&mut current, var_gen);
        let mut generator = ComponentGenerator::new(current);
        let outcome = match &ast[i].value {
            DeclValue::Function { func: _, name, inputs, outputs, body } => generator.gen(
                name,
                inputs,
                outputs,
                body,
                pass_runner,
            ),
        };
        *var_gen = generator.var_gen;
        match outcome {
            Ok(comp) => {
                comps.push(comp);
            },
            Err(e) => {
                proof {
                    if e is Unsupported {
                        assert(!spec_decl_gen(
                            ast@[i as int],
                            spec_decls_next(ast@.subrange(0, i as int), start),
                        ).ok);
                    } else {
                        assert(decl_pass_fails(
                            ast@[i as int],
                            spec_decls_next(ast@.subrange(0, i as int), start),
                            pass_runner.passes@,
                            e->Pass_0,
                        ));
                    }
                }
                return Err(e);
            },
        }
        i = i + 1;
    }
    proof {
        assert(ast@.subrange(0, n as int) =~= ast@);
    }
    Ok(comps)
}

/// The value a port reads when each variable `x` holds `s(x)`: a constant
/// is itself, a variable is what it holds (other ports read nothing here).
pub open spec fn port_value(p: PortV, s: spec_fn(Variable) -> int) -> int {
    match p {
        PortV::Constant(c) => c as int,
        PortV::Variable(x) => s(x),
        _ => 0,
    }
}

/// The values `s` with the variable `x` now holding `v`.
pub open spec fn assign_var(s: spec_fn(Variable) -> int, x: Variable, v: int) -> spec_fn(Variable) -> int {
    |y: Variable| if y == x {
        v
    } else {
        s(y)
    }
}

/// The values after running the operation `ir` on `s`, when it writes a
/// variable: the sum, the product or the copy of what it reads.
pub open spec fn run_ir(ir: IrV, s: spec_fn(Variable) -> int) -> spec_fn(Variable) -> int {
    match ir {
        IrV::Add(PortV::Variable(k), a, b) => assign_var(s, k, port_value(a, s) + port_value(b, s)),
        IrV::Mul(PortV::Variable(k), a, b) => assign_var(s, k, port_value(a, s) * port_value(b, s)),
        IrV::Assign(PortV::Variable(k), a) => assign_var(s, k, port_value(a, s)),
        _ => s,
    }
}

/// The values after running the operations among `cs` one after another.
pub open spec fn run_controls(cs: Seq<ControlV>, s: spec_fn(Variable) -> int) -> spec_fn(Variable) -> int
    decreases cs.len(),
{
    if cs.len() == 0 {
        s
    } else {
        let before = run_controls(cs.drop_last(), s);
        match cs.last() {
            ControlV::Enable(ir) => run_ir(ir, before),
            _ => before,
        }
    }
}

/// Whether `e` is built from constants and names by `+` and `*` alone.
pub open spec fn arith_expr(e: Expr) -> bool
    decreases e,
{
    match e.value {
        ExprValue::ConstantInt(_) => true,
        ExprValue::BoundName(_) => true,
        ExprValue::InfixBop(lhs, op, rhs) => (op.ty == TokenType::Plus || op.ty == TokenType::Times)
            && arith_expr(*lhs) && arith_expr(*rhs),
        _ => false,
    }
}

/// The value of an arithmetic expression when each name holds what its
/// bound variable holds in `s`.
pub open spec fn expr_value(e: Expr, scopes: Seq<Map<Seq<char>, Variable>>, s: spec_fn(Variable) -> int) -> int
    decreases e,
{
    match e.value {
        ExprValue::ConstantInt(v) => v as int,
        ExprValue::BoundName(name) => match lookup(scopes, name.value@) {
            Some(x) => s(x),
            None => 0,
        },
        ExprValue::InfixBop(lhs, op, rhs) => if op.ty == TokenType::Plus {
            expr_value(*lhs, scopes, s) + expr_value(*rhs, scopes, s)
        } else {
            expr_value(*lhs, scopes, s) * expr_value(*rhs, scopes, s)
        },
        _ => 0,
    }
}

/// Whether every variable that `scopes` binds is numbered below `n`.
pub open spec fn bound_below(scopes: Seq<Map<Seq<char>, Variable>>, n: nat) -> bool {
    forall|name: Seq<char>| (#[trigger] lookup(scopes, name)) matches Some(x) ==> (x.id as nat) < n
}

/// Running operations one list after another is running them joined.
proof fn lemma_run_concat(a: Seq<ControlV>, b: Seq<ControlV>, s: spec_fn(Variable) -> int)
    ensures
        run_controls(a + b, s) == run_controls(b, run_controls(a, s)),
    decreases b.len(),
{
    if b.len() == 0 {
        assert(a + b =~= a);
    } else {
        lemma_run_concat(a, b.drop_last(), s);
        assert((a + b).drop_last() =~= a + b.drop_last());
        assert((a + b).last() == b.last());
    }
}

/// An arithmetic expression's value depends only on the variables its
/// names are bound to.
proof fn lemma_value_frame(
    e: Expr,
    scopes: Seq<Map<Seq<char>, Variable>>,
    n: nat,
    s: spec_fn(Variable) -> int,
    t: spec_fn(Variable) -> int,
)
    requires
        arith_expr(e),
        bound_below(scopes, n),
        forall|x: Variable| (x.id as nat) < n ==> #[trigger] s(x) == t(x),
    ensures
        expr_value(e, scopes, s) == expr_value(e, scopes, t),
    decreases e,
{
    match e.value {
        ExprValue::BoundName(name) => {
            if let Some(x) = lookup(scopes, name.value@) {
                assert(s(x) == t(x));
            }
        },
        ExprValue::InfixBop(lhs, _, rhs) => {
            lemma_value_frame(*lhs, scopes, n, s, t);
            lemma_value_frame(*rhs, scopes, n, s, t);
        },
        _ => {},
    }
}

/// What generating code for an arithmetic expression does: identifiers
/// only grow; the code writes only variables numbered from `next` up to
/// (excluding) the next free identifier; the result is a constant or a
/// variable numbered below the next free identifier; and the result holds
/// the expression's value.
proof fn lemma_gen_arith(
    e: Expr,
    scopes: Seq<Map<Seq<char>, Variable>>,
    next: nat,
    s: spec_fn(Variable) -> int,
)
    requires
        arith_expr(e),
        bound_below(scopes, next),
        spec_gen_expr(e, scopes, next).ok,
    ensures
        ({
            let g = spec_gen_expr(e, scopes, next);
            let after = run_controls(g.controls, s);
            &&& next <= g.next
            &&& forall|x: Variable| !(next <= (x.id as nat) < g.next) ==> #[trigger] after(x) == s(x)
            &&& (g.port is Constant || (g.port matches PortV::Variable(x) && (x.id as nat) < g.next))
            &&& port_value(g.port, after) == expr_value(e, scopes, s)
        }),
    decreases e,
{
    match e.value {
        ExprValue::BoundName(name) => {
            assert(lookup(scopes, name.value@) is Some);
        },
        ExprValue::InfixBop(lhs, op, rhs) => {
            let l = spec_gen_expr(*lhs, scopes, next);
            let r = spec_gen_expr(*rhs, scopes, l.next);
            let result = var_of(r.next);
            lemma_gen_arith(*lhs, scopes, next, s);
            let s1 = run_controls(l.controls, s);
            assert(bound_below(scopes, l.next));
            lemma_gen_arith(*rhs, scopes, l.next, s1);
            let s2 = run_controls(r.controls, s1);
            let ir = if op.ty == TokenType::Plus {
                IrV::Add(PortV::Variable(result), l.port, r.port)
            } else {
                IrV::Mul(PortV::Variable(result), l.port, r.port)
            };
            let g = spec_gen_expr(e, scopes, next);
            assert(g.controls == l.controls + r.controls + seq![ControlV::Enable(ir)]);
            lemma_run_concat(l.controls, r.controls, s);
            lemma_run_concat(l.controls + r.controls, seq![ControlV::Enable(ir)], s);
            assert(run_controls(seq![ControlV::Enable(ir)], s2) == run_ir(ir, s2)) by {
                let one = seq![ControlV::Enable(ir)];
                assert(one.drop_last() =~= Seq::<ControlV>::empty());
                assert(one.last() == ControlV::Enable(ir));
                assert(run_controls(one.drop_last(), s2) == s2);
            }
            let after = run_controls(g.controls, s);
            assert(after == run_ir(ir, s2));
            assert(result.id as nat == r.next);
            lemma_value_frame(*rhs, scopes, next, s, s1);
            assert(port_value(l.port, s2) == port_value(l.port, s1)) by {
                if let PortV::Variable(x) = l.port {
                    assert(s2(x) == s1(x));
                }
            }
            assert forall|x: Variable| !(next <= (x.id as nat) < g.next) implies #[trigger] after(x) == s(x) by {
                assert(x != result);
                assert(s2(x) == s1(x));
                assert(s1(x) == s(x));
            }
        },
        _ => {},
    }
}

/// Code generated for an expression built from constants and names by `+`
/// and `*` computes it: run from any values in which each name's variable
/// holds its value, the code leaves the expression's value in the port it
/// returns, and it changes no variable numbered below `next` (among them
/// every variable that a name is bound to).
pub proof fn law_gen_expr_computes_value(
    e: Expr,
    scopes: Seq<Map<Seq<char>, Variable>>,
    next: nat,
    s: spec_fn(Variable) -> int,
)
    requires
        arith_expr(e),
        bound_below(scopes, next),
        spec_gen_expr(e, scopes, next).ok,
    ensures
        port_value(
            spec_gen_expr(e, scopes, next).port,
            run_controls(spec_gen_expr(e, scopes, next).controls, s),
        ) == expr_value(e, scopes, s),
        forall|x: Variable|
            (x.id as nat) < next ==> #[trigger] run_controls(spec_gen_expr(e, scopes, next).controls, s)(x)
                == s(x),
{
    lemma_gen_arith(e, scopes, next, s);
}

/// The code that generating the statement `stmt` after the state `st`
/// adds to the current step.
pub open spec fn stmt_code(stmt: Stmt, st: GenState) -> Seq<ControlV> {
    let after = spec_gen_stmt(stmt, st).steps.last();
    after.subrange(st.steps.last().len() as int, after.len() as int)
}

/// Running one operation after a list is running the longer list.
proof fn lemma_run_push(cs: Seq<ControlV>, c: ControlV, s: spec_fn(Variable) -> int)
    ensures
        run_controls(cs.push(c), s) == match c {
            ControlV::Enable(ir) => run_ir(ir, run_controls(cs, s)),
            _ => run_controls(cs, s),
        },
{
    assert(cs.push(c).drop_last() =~= cs);
}

/// A `let` of an expression built from constants and names by `+` and `*`
/// binds its name to a new variable, and the code it adds leaves the
/// expression's value there, changing no variable numbered below the next
/// free identifier it started from.
pub proof fn law_gen_let_binds_value(stmt: Stmt, st: GenState, s: spec_fn(Variable) -> int)
    requires
        stmt.value matches StmtValue::Let { value, .. } && arith_expr(value),
        st.steps.len() > 0,
        st.scopes.len() > 0,
        bound_below(st.scopes, st.next),
        spec_gen_stmt(stmt, st).ok,
    ensures
        ({
            let name = stmt.value->Let_name;
            let value = stmt.value->Let_value;
            let after = spec_gen_stmt(stmt, st);
            let run = run_controls(stmt_code(stmt, st), s);
            &&& lookup(after.scopes, name.value@) matches Some(v) && run(v) == expr_value(value, st.scopes, s)
            &&& forall|x: Variable| (x.id as nat) < st.next ==> #[trigger] run(x) == s(x)
        }),
{
    let value = stmt.value->Let_value;
    let name = stmt.value->Let_name;
    let g = spec_gen_expr(value, st.scopes, st.next);
    let var = var_of(g.next);
    lemma_gen_arith(value, st.scopes, st.next, s);
    let code = g.controls.push(ControlV::Enable(IrV::Assign(PortV::Variable(var), g.port)));
    let after = spec_gen_stmt(stmt, st);
    assert(after.steps.last() == st.steps.last() + code);
    assert(stmt_code(stmt, st) =~= code);
    lemma_run_push(g.controls, ControlV::Enable(IrV::Assign(PortV::Variable(var), g.port)), s);
    let sc = bind_top(st.scopes, name.value@, var);
    assert(sc.last().contains_key(name.value@));
    assert(lookup(sc, name.value@) == Some(var));
    assert(var.id as nat == g.next);
}

/// An assignment of an expression built from constants and names by `+`
/// and `*` to a name leaves, once the code it adds has run, the
/// expression's value in the name's variable, and changes no other
/// variable numbered below the next free identifier it started from.
pub proof fn law_gen_assign_stores_value(stmt: Stmt, st: GenState, s: spec_fn(Variable) -> int)
    requires
        stmt.value matches StmtValue::Assign(lhs, _, rhs) && arith_expr(rhs) && lhs.value is BoundName,
        st.steps.len() > 0,
        bound_below(st.scopes, st.next),
        spec_gen_stmt(stmt, st).ok,
    ensures
        ({
            let lhs = stmt.value->Assign_0;
            let rhs = stmt.value->Assign_2;
            let run = run_controls(stmt_code(stmt, st), s);
            &&& lookup(st.scopes, lhs.value->BoundName_0.value@) matches Some(v) && run(v) == expr_value(
                rhs,
                st.scopes,
                s,
            ) && forall|x: Variable| (x.id as nat) < st.next && x != v ==> #[trigger] run(x) == s(x)
        }),
{
    let lhs = stmt.value->Assign_0;
    let rhs = stmt.value->Assign_2;
    let r = spec_gen_expr(rhs, st.scopes, st.next);
    let l = spec_gen_expr(lhs, st.scopes, r.next);
    lemma_gen_arith(rhs, st.scopes, st.next, s);
    let last = ControlV::Enable(IrV::Assign(l.port, r.port));
    let code = r.controls + l.controls + seq![last];
    assert(l.controls == Seq::<ControlV>::empty());
    assert(r.controls + l.controls =~= r.controls);
    assert(code =~= r.controls.push(last));
    let after = spec_gen_stmt(stmt, st);
    assert(after.steps.last() == st.steps.last() + code);
    assert(stmt_code(stmt, st) =~= code);
    lemma_run_push(r.controls, last, s);
}

} // verus!
