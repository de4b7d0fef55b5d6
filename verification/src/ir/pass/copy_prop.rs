use crate::ir::component::Component;
use crate::ir::control::{
    control_view, controls_view, lemma_controls_view, Control, ControlV, For, IfElse, Par, Sequence,
};
use crate::ir::instr::{replace_kill, spec_kill, spec_replace_kill, Ir, IrV};
use crate::ir::pass::PassOptions;
use crate::ir::from_ast::{assign_var, port_value, run_controls, run_ir};
use crate::ir::pass::dead_code::{scalar_op, scalar_port};
use crate::ir::port::{Port, PortV, Variable};
use vstd::prelude::*;

verus! {

/// The operation last recorded for `p` in `assigns`, if any.
pub open spec fn spec_lookup(assigns: Seq<(PortV, IrV)>, p: PortV) -> Option<IrV>
    decreases assigns.len(),
{
    if assigns.len() == 0 {
        None
    } else if assigns.last().0 == p {
        Some(assigns.last().1)
    } else {
        spec_lookup(assigns.drop_last(), p)
    }
}

/// The source of the copy last recorded into `p`, or `p` itself.
pub open spec fn spec_replace_port(assigns: Seq<(PortV, IrV)>, p: PortV) -> PortV {
    match spec_lookup(assigns, p) {
        Some(IrV::Assign(_, src)) => src,
        _ => p,
    }
}

/// An operation with copies propagated into it: arithmetic reads the
/// sources of copies, and a copy of a computed port recomputes it instead.
pub open spec fn spec_prop_ir(assigns: Seq<(PortV, IrV)>, ir: IrV) -> IrV {
    match ir {
        IrV::Add(k, a, b) => IrV::Add(
            k,
            spec_replace_port(assigns, a),
            spec_replace_port(assigns, b),
        ),
        IrV::Mul(k, a, b) => IrV::Mul(
            k,
            spec_replace_port(assigns, a),
            spec_replace_port(assigns, b),
        ),
        IrV::Assign(k, src) => match spec_lookup(assigns, src) {
            Some(killer) => spec_replace_kill(killer, k),
            None => IrV::Assign(k, src),
        },
    }
}

/// Copy propagation through a list of children, in order: the rewritten
/// children and the operations recorded for each written port.
pub open spec fn spec_copy_prop_list(cs: Seq<ControlV>) -> (Seq<ControlV>, Seq<(PortV, IrV)>)
    decreases cs.len(),
{
    if cs.len() == 0 {
        (Seq::empty(), Seq::empty())
    } else {
        let prev = spec_copy_prop_list(cs.drop_last());
        match cs.last() {
            ControlV::Enable(ir) => {
                let ir2 = spec_prop_ir(prev.1, ir);
                (prev.0.push(ControlV::Enable(ir2)), prev.1.push((spec_kill(ir2), ir2)))
            },
            other => (prev.0.push(other), prev.1),
        }
    }
}

/// Copy propagation through every par and sequence of a control tree, the
/// innermost first.
pub open spec fn spec_copy_prop(c: ControlV) -> ControlV
    decreases c,
{
    match c {
        ControlV::Sequence(cs) => ControlV::Sequence(spec_copy_prop_list(spec_copy_prop_all(cs)).0),
        ControlV::Par(cs) => ControlV::Par(spec_copy_prop_list(spec_copy_prop_all(cs)).0),
        ControlV::For(v, l, u, body) => ControlV::For(v, l, u, Box::new(spec_copy_prop(*body))),
        ControlV::IfElse(p, t, f) => ControlV::IfElse(
            p,
            Box::new(spec_copy_prop(*t)),
            Box::new(spec_copy_prop(*f)),
        ),
        _ => c,
    }
}

/// [`spec_copy_prop`] on each of `cs`.
pub open spec fn spec_copy_prop_all(cs: Seq<ControlV>) -> Seq<ControlV>
    decreases cs,
{
    if cs.len() == 0 {
        Seq::empty()
    } else {
        spec_copy_prop_all(cs.drop_last()).push(spec_copy_prop(cs.last()))
    }
}

/// Copy propagation keeps every child where it is: operations stay
/// operations writing the same port, and other children are unchanged.
pub proof fn law_copy_prop_keeps_writes(cs: Seq<ControlV>)
    ensures
        spec_copy_prop_list(cs).0.len() == cs.len(),
        forall|i: int|
            0 <= i < cs.len() ==> match (#[trigger] cs[i], spec_copy_prop_list(cs).0[i]) {
                (ControlV::Enable(a), ControlV::Enable(b)) => spec_kill(a) == spec_kill(b),
                (ControlV::Enable(_), _) => false,
                (x, y) => x == y,
            },
    decreases cs.len(),
{
    if cs.len() > 0 {
        law_copy_prop_keeps_writes(cs.drop_last());
        let prev = spec_copy_prop_list(cs.drop_last());
        assert forall|i: int|
            0 <= i < cs.len() implies match (#[trigger] cs[i], spec_copy_prop_list(cs).0[i]) {
            (ControlV::Enable(a), ControlV::Enable(b)) => spec_kill(a) == spec_kill(b),
            (ControlV::Enable(_), _) => false,
            (x, y) => x == y,
        } by {
            if i < cs.len() - 1 {
                assert(cs.drop_last()[i] == cs[i]);
            } else {
                if let ControlV::Enable(ir) = cs.last() {
                    let ir2 = spec_prop_ir(prev.1, ir);
                    match ir {
                        IrV::Assign(k, src) => {
                            if let Some(killer) = spec_lookup(prev.1, src) {
                                assert(spec_kill(spec_replace_kill(killer, k)) == k);
                            }
                        },
                        _ => {},
                    }
                }
            }
        }
    }
}

/// The operation recorded last for `p` among `assigns`.
fn lookup<'a>(assigns: &'a Vec<(Port, Ir)>, p: &Port) -> (result: Option<&'a Ir>)
    ensures
        match result {
            Some(ir) => spec_lookup(assigns_view(assigns@), p@) == Some(ir@),
            None => spec_lookup(assigns_view(assigns@), p@) is None,
        },
{
    let mut i = assigns.len();
    proof {
        assert(assigns@.subrange(0, i as int) =~= assigns@);
    }
    while i > 0
        invariant
            i <= assigns@.len(),
            spec_lookup(assigns_view(assigns@), p@) == spec_lookup(
                assigns_view(assigns@.subrange(0, i as int)),
                p@,
            ),
        decreases i,
    {
        let ghost sub = assigns@.subrange(0, i as int);
        proof {
            assert(assigns_view(sub).drop_last() =~= assigns_view(sub.drop_last()));
            assert(sub.drop_last() =~= assigns@.subrange(0, i - 1));
        }
        if assigns[i - 1].0.equals(p) {
            return Some(&assigns[i - 1].1);
        }
        i = i - 1;
    }
    None
}

/// The recorded operations as values.
pub open spec fn assigns_view(assigns: Seq<(Port, Ir)>) -> Seq<(PortV, IrV)> {
    assigns.map_values(|e: (Port, Ir)| (e.0@, e.1@))
}

/// The port `p` with a recorded copy replaced by its source.
fn replace_port(assigns: &Vec<(Port, Ir)>, p: &Port) -> (result: Port)
    ensures
        result@ == spec_replace_port(assigns_view(assigns@), p@),
{
    match lookup(assigns, p) {
        Some(Ir::Assign(_, src)) => src.duplicate(),
        _ => p.duplicate(),
    }
}

/// Propagates the recorded copies into `ir`.
fn prop_ir(assigns: &Vec<(Port, Ir)>, ir: Ir) -> (result: Ir)
    ensures
        result@ == spec_prop_ir(assigns_view(assigns@), ir@),
{
    match ir {
        Ir::Add(k, a, b) => Ir::Add(k, replace_port(assigns, &a), replace_port(assigns, &b)),
        Ir::Mul(k, a, b) => Ir::Mul(k, replace_port(assigns, &a), replace_port(assigns, &b)),
        Ir::Assign(k, src) => match lookup(assigns, &src) {
            Some(killer) => replace_kill(killer, k),
            None => Ir::Assign(k, src),
        },
    }
}

/// Propagates copies through a list of children, in order (see
/// [`spec_copy_prop_list`]).
pub fn copy_prop_list(children: Vec<Control>) -> (result: Vec<Control>)
    ensures
        controls_view(result@) == spec_copy_prop_list(controls_view(children@)).0,
{
    let ghost orig = children@;
    let ghost cs = controls_view(orig);
    proof {
        lemma_controls_view(orig);
    }
    let mut rest = children;
    let mut out: Vec<Control> = Vec::new();
    let mut assigns: Vec<(Port, Ir)> = Vec::new();
    let n = rest.len();
    let mut i: usize = 0;
    proof {
        assert(cs.subrange(0, 0) =~= Seq::<ControlV>::empty());
        assert(rest@.subrange(0, n as int) =~= rest@);
        assert(assigns_view(assigns@) =~= Seq::<(PortV, IrV)>::empty());
    }
    while i < n
        invariant
            0 <= i <= n,
            n == orig.len(),
            cs == controls_view(orig),
            cs.len() == n,
            forall|j: int| 0 <= j < n ==> #[trigger] cs[j] == control_view(orig[j]),
            rest@ == orig.subrange(i as int, n as int),
            (controls_view(out@), assigns_view(assigns@)) == spec_copy_prop_list(
                cs.subrange(0, i as int),
            ),
        decreases n - i,
    {
        let child = rest.remove(0);
        let ghost before = out@;
        let ghost before_assigns = assigns@;
        proof {
            assert(child == orig[i as int]);
            assert(rest@ =~= orig.subrange(i + 1, n as int));
            assert(cs.subrange(0, i + 1).drop_last() =~= cs.subrange(0, i as int));
            assert(cs.subrange(0, i + 1).last() == cs[i as int]);
        }
        match child {
            Control::Enable(ir) => {
                let ghost irv = ir@;
                let ghost prev = spec_copy_prop_list(cs.subrange(0, i as int));
                proof {
                    assert(cs[i as int] == ControlV::Enable(irv));
                }
                let ir2 = prop_ir(&assigns, ir);
                let kill = ir2.kill().duplicate();
                let copy = ir2.duplicate();
                assigns.push((kill, copy));
                let ghost ir2v = ir2@;
                out.push(Control::Enable(ir2));
                proof {
                    assert(control_view(out@.last()) == ControlV::Enable(ir2v));
                    assert(controls_view(out@) == controls_view(out@.drop_last()).push(
                        control_view(out@.last()),
                    ));
                }
                proof {
                    assert(assigns_view(assigns@) =~= assigns_view(before_assigns).push(
                        (spec_kill(ir2@), ir2@),
                    ));
                    assert(out@.drop_last() =~= before);
                    assert(controls_view(out@) == prev.0.push(ControlV::Enable(ir2@)));
                    assert(spec_copy_prop_list(cs.subrange(0, i + 1)) == (
                        prev.0.push(ControlV::Enable(ir2@)),
                        prev.1.push((spec_kill(ir2@), ir2@)),
                    ));
                }
            },
            other => {
                out.push(other);
            },
        }
        proof {
            assert(out@.drop_last() =~= before);
        }
        i = i + 1;
    }
    proof {
        assert(cs.subrange(0, n as int) =~= cs);
    }
    out
}

/// Applies [`copy_prop`] to each of `children`.
#[verifier::loop_isolation(false)]
pub fn copy_prop_all(children: Vec<Control>) -> (result: Vec<Control>)
    ensures
        controls_view(result@) == spec_copy_prop_all(controls_view(children@)),
    decreases children@,
{
    let ghost orig = children@;
    let ghost cs = controls_view(orig);
    proof {
        lemma_controls_view(orig);
    }
    let mut rest = children;
    let mut out: Vec<Control> = Vec::new();
    let n = rest.len();
    let mut i: usize = 0;
    proof {
        assert(cs.subrange(0, 0) =~= Seq::<ControlV>::empty());
        assert(rest@.subrange(0, n as int) =~= rest@);
    }
    while i < n
        invariant
            0 <= i <= n,
            n == orig.len(),
            cs == controls_view(orig),
            cs.len() == n,
            forall|j: int| 0 <= j < n ==> #[trigger] cs[j] == control_view(orig[j]),
            rest@ == orig.subrange(i as int, n as int),
            controls_view(out@) == spec_copy_prop_all(cs.subrange(0, i as int)),
        decreases n - i,
    {
        let child = rest.remove(0);
        proof {
            assert(child == orig[i as int]);
            assert(decreases_to!(orig => orig[i as int]));
            assert(rest@ =~= orig.subrange(i + 1, n as int));
        }
        let ghost before = out@;
        out.push(copy_prop(child));
        proof {
            assert(out@.drop_last() =~= before);
            assert(cs.subrange(0, i + 1).drop_last() =~= cs.subrange(0, i as int));
            assert(cs.subrange(0, i + 1).last() == cs[i as int]);
        }
        i = i + 1;
    }
    proof {
        assert(cs.subrange(0, n as int) =~= cs);
    }
    out
}

/// Propagates copies through every par and sequence of a control tree (see
/// [`spec_copy_prop`]).
pub fn copy_prop(control: Control) -> (result: Control)
    ensures
        result@ == spec_copy_prop(control@),
    decreases control,
{
    match control {
        Control::Sequence(seq) => {
            let children = copy_prop_all(seq.children);
            Control::Sequence(Sequence { children: copy_prop_list(children) })
        },
        Control::Par(par) => {
            let children = copy_prop_all(par.children);
            Control::Par(Par { children: copy_prop_list(children) })
        },
        Control::For(for_) => {
            let For { variant, lower, exclusive_upper, body } = for_;
            Control::For(
                For { variant, lower, exclusive_upper, body: Box::new(copy_prop(*body)) },
            )
        },
        Control::IfElse(if_else) => {
            let IfElse { cond, true_branch, false_branch } = if_else;
            Control::IfElse(
                IfElse {
                    cond,
                    true_branch: Box::new(copy_prop(*true_branch)),
                    false_branch: Box::new(copy_prop(*false_branch)),
                },
            )
        },
        other => other,
    }
}

/// Propagates copies of ports within pars and sequences.
pub struct CopyProp;

impl CopyProp {
    /// The pass; it takes no options.
    pub fn from(_options: PassOptions) -> (result: Self) {
        CopyProp
    }

    /// The name of the pass.
    pub fn name() -> (result: &'static str)
        ensures
            result@ == "copy-prop"@,
    {
        "copy-prop"
    }

    /// Propagates copies through the control of `comp`; the pass never
    /// reports a modification.
    pub fn run(&self, comp: &mut Component) -> (result: bool)
        ensures
            final(comp).cfg@ == spec_copy_prop(old(comp).cfg@),
            !result,
            final(comp).label == old(comp).label,
            final(comp).attributes == old(comp).attributes,
            final(comp).inputs@ == old(comp).inputs@,
            final(comp).outputs@ == old(comp).outputs@,
            final(comp).cell_alloc@ == old(comp).cell_alloc@,
    {
        let mut cfg = Control::Empty;
        std::mem::swap(&mut cfg, &mut comp.cfg);
        comp.cfg = copy_prop(cfg);
        false
    }
}

/// Whether entry `j` of `assigns` is the last one recorded for the port `p`.
pub open spec fn last_entry_for(assigns: Seq<(PortV, IrV)>, p: PortV, j: int) -> bool {
    &&& 0 <= j < assigns.len()
    &&& assigns[j].0 == p
    &&& forall|l: int| j < l < assigns.len() ==> (#[trigger] assigns[l]).0 != p
}

/// Whether `q` may stand for the operand `p` once copies are propagated:
/// the source of the copy recorded last for `p`, or `p` itself when the
/// last operation recorded for `p`, if any, is no copy.
pub open spec fn propagated_operand(assigns: Seq<(PortV, IrV)>, p: PortV, q: PortV) -> bool {
    ||| exists|j: int|
        #[trigger] last_entry_for(assigns, p, j) && (assigns[j].1 matches IrV::Assign(_, src) && src == q)
    ||| (q == p && forall|j: int| #[trigger] last_entry_for(assigns, p, j) ==> !(assigns[j].1 is Assign))
}

/// Whether `r` is the operation `op` with its written port replaced by `k`.
pub open spec fn same_op_writing(op: IrV, r: IrV, k: PortV) -> bool {
    match (op, r) {
        (IrV::Add(_, a, b), IrV::Add(k2, a2, b2)) => k2 == k && a2 == a && b2 == b,
        (IrV::Mul(_, a, b), IrV::Mul(k2, a2, b2)) => k2 == k && a2 == a && b2 == b,
        (IrV::Assign(_, a), IrV::Assign(k2, a2)) => k2 == k && a2 == a,
        _ => false,
    }
}

/// The lookup finds the last entry recorded for a port, and nothing when
/// none is.
proof fn lemma_lookup_last(assigns: Seq<(PortV, IrV)>, p: PortV)
    ensures
        spec_lookup(assigns, p) matches Some(op) ==> exists|j: int|
            #[trigger] last_entry_for(assigns, p, j) && assigns[j].1 == op,
        spec_lookup(assigns, p) is None ==> forall|j: int| 0 <= j < assigns.len() ==> (#[trigger] assigns[j]).0 != p,
    decreases assigns.len(),
{
    if assigns.len() > 0 {
        let rest = assigns.drop_last();
        lemma_lookup_last(rest, p);
        if assigns.last().0 == p {
            assert(last_entry_for(assigns, p, assigns.len() - 1));
        } else {
            if let Some(op) = spec_lookup(rest, p) {
                let j = choose|j: int| #[trigger] last_entry_for(rest, p, j) && rest[j].1 == op;
                assert forall|l: int| j < l < assigns.len() implies (#[trigger] assigns[l]).0 != p by {
                    if l < assigns.len() - 1 {
                        assert(rest[l] == assigns[l]);
                    }
                }
                assert(last_entry_for(assigns, p, j));
            } else {
                assert forall|j: int| 0 <= j < assigns.len() implies (#[trigger] assigns[j]).0 != p by {
                    if j < assigns.len() - 1 {
                        assert(rest[j] == assigns[j]);
                    }
                }
            }
        }
    }
}

/// There is at most one last entry for a port.
proof fn lemma_last_entry_unique(assigns: Seq<(PortV, IrV)>, p: PortV, i: int, j: int)
    requires
        last_entry_for(assigns, p, i),
        last_entry_for(assigns, p, j),
    ensures
        i == j,
{
    if i < j {
        assert(assigns[j].0 != p);
    } else if j < i {
        assert(assigns[i].0 != p);
    }
}

/// Replacing a port reads the source of the copy recorded last for it, or
/// the port itself (see [`propagated_operand`]).
proof fn lemma_replace_port(assigns: Seq<(PortV, IrV)>, p: PortV)
    ensures
        propagated_operand(assigns, p, spec_replace_port(assigns, p)),
{
    lemma_lookup_last(assigns, p);
    match spec_lookup(assigns, p) {
        Some(op) => {
            let j = choose|j: int| #[trigger] last_entry_for(assigns, p, j) && assigns[j].1 == op;
            if !(op is Assign) {
                assert forall|i: int| #[trigger] last_entry_for(assigns, p, i) implies !(
                assigns[i].1 is Assign) by {
                    lemma_last_entry_unique(assigns, p, i, j);
                }
            }
        },
        None => {},
    }
}

/// Copy propagation keeps what each operation computes: an addition or a
/// multiplication stays one, writes the same port, and reads in place of
/// each operand the source of the copy recorded last for that same operand,
/// or the operand itself; a copy of a port that an earlier operation wrote
/// becomes that operation writing the copy's port, and a copy of a port
/// that nothing wrote stays.
pub proof fn law_prop_ir_keeps_values(assigns: Seq<(PortV, IrV)>, ir: IrV)
    ensures
        match (ir, spec_prop_ir(assigns, ir)) {
            (IrV::Add(k, a, b), IrV::Add(k2, a2, b2)) => k2 == k && propagated_operand(assigns, a, a2)
                && propagated_operand(assigns, b, b2),
            (IrV::Mul(k, a, b), IrV::Mul(k2, a2, b2)) => k2 == k && propagated_operand(assigns, a, a2)
                && propagated_operand(assigns, b, b2),
            (IrV::Assign(k, src), r) => (exists|j: int|
                #[trigger] last_entry_for(assigns, src, j) && same_op_writing(assigns[j].1, r, k)) || (
            r == ir && forall|j: int| 0 <= j < assigns.len() ==> (#[trigger] assigns[j]).0 != src),
            _ => false,
        },
{
    match ir {
        IrV::Add(k, a, b) => {
            lemma_replace_port(assigns, a);
            lemma_replace_port(assigns, b);
        },
        IrV::Mul(k, a, b) => {
            lemma_replace_port(assigns, a);
            lemma_replace_port(assigns, b);
        },
        IrV::Assign(k, src) => {
            lemma_lookup_last(assigns, src);
            if let Some(killer) = spec_lookup(assigns, src) {
                let j = choose|j: int| #[trigger] last_entry_for(assigns, src, j) && assigns[j].1 == killer;
                assert(same_op_writing(assigns[j].1, spec_prop_ir(assigns, ir), k));
            }
        },
    }
}

/// The operations among `rs`, each recorded under the port it writes, in
/// order.
pub open spec fn records(rs: Seq<ControlV>) -> Seq<(PortV, IrV)>
    decreases rs.len(),
{
    if rs.len() == 0 {
        Seq::empty()
    } else {
        records(rs.drop_last()) + match rs.last() {
            ControlV::Enable(ir) => seq![(spec_kill(ir), ir)],
            _ => Seq::empty(),
        }
    }
}

/// Copy propagation through a list rewrites each operation with what the
/// operations before it, as rewritten, wrote (see
/// [`law_prop_ir_keeps_values`]), and records exactly those operations.
pub proof fn law_copy_prop_list_reads_earlier(cs: Seq<ControlV>)
    ensures
        spec_copy_prop_list(cs).0.len() == cs.len(),
        spec_copy_prop_list(cs).1 == records(spec_copy_prop_list(cs).0),
        forall|i: int|
            0 <= i < cs.len() ==> ((#[trigger] cs[i]) matches ControlV::Enable(ir) ==> spec_copy_prop_list(
                cs,
            ).0[i] == ControlV::Enable(
                spec_prop_ir(records(spec_copy_prop_list(cs).0.subrange(0, i)), ir),
            )),
    decreases cs.len(),
{
    if cs.len() > 0 {
        let rest = cs.drop_last();
        law_copy_prop_list_reads_earlier(rest);
        let prev = spec_copy_prop_list(rest);
        let out = spec_copy_prop_list(cs).0;
        assert(out.drop_last() =~= prev.0);
        assert(out.subrange(0, cs.len() - 1) =~= prev.0);
        assert forall|i: int|
            0 <= i < cs.len() implies ((#[trigger] cs[i]) matches ControlV::Enable(ir)
                ==> out[i] == ControlV::Enable(spec_prop_ir(records(out.subrange(0, i)), ir))) by {
            if i < cs.len() - 1 {
                assert(rest[i] == cs[i]);
                assert(out[i] == prev.0[i]);
                assert(out.subrange(0, i) =~= prev.0.subrange(0, i));
            }
        }
    }
}

/// What the operation `ir` computes from the values `t`.
pub open spec fn op_value(ir: IrV, t: spec_fn(Variable) -> int) -> int {
    match ir {
        IrV::Add(_, a, b) => port_value(a, t) + port_value(b, t),
        IrV::Mul(_, a, b) => port_value(a, t) * port_value(b, t),
        IrV::Assign(_, a) => port_value(a, t),
    }
}

/// Whether the operation `ir` reads the variable `x`.
pub open spec fn reads_var(ir: IrV, x: Variable) -> bool {
    match ir {
        IrV::Add(_, a, b) => a == PortV::Variable(x) || b == PortV::Variable(x),
        IrV::Mul(_, a, b) => a == PortV::Variable(x) || b == PortV::Variable(x),
        IrV::Assign(_, a) => a == PortV::Variable(x),
    }
}

/// The operation of the child `c`.
pub open spec fn op_of(c: ControlV) -> IrV {
    c->Enable_0
}

/// The variable that the child `c`, an operation writing a variable,
/// writes.
pub open spec fn kill_var(c: ControlV) -> Variable {
    spec_kill(c->Enable_0)->Variable_0
}

/// Whether each variable is written by at most one of the operations `cs`,
/// and no operation writes a variable that it or an earlier one reads.
pub open spec fn single_assignment(cs: Seq<ControlV>) -> bool {
    &&& forall|i: int, j: int|
        0 <= i < j < cs.len() ==> kill_var(#[trigger] cs[j]) != kill_var(#[trigger] cs[i]) && !reads_var(
            op_of(cs[i]),
            kill_var(cs[j]),
        )
    &&& forall|j: int| 0 <= j < cs.len() ==> !reads_var(op_of(#[trigger] cs[j]), kill_var(cs[j]))
}

/// Running an operation that writes a variable stores what it computes
/// there.
proof fn lemma_run_scalar(c: ControlV, t: spec_fn(Variable) -> int)
    requires
        scalar_op(c),
    ensures
        run_ir(op_of(c), t) == assign_var(t, kill_var(c), op_value(op_of(c), t)),
{
}

/// Operations with the same reads compute the same value from values that
/// agree on what they read.
proof fn lemma_op_value_frame(ir: IrV, t: spec_fn(Variable) -> int, u: spec_fn(Variable) -> int)
    requires
        match ir {
            IrV::Add(_, a, b) => scalar_port(a) && scalar_port(b),
            IrV::Mul(_, a, b) => scalar_port(a) && scalar_port(b),
            IrV::Assign(_, a) => scalar_port(a),
        },
        forall|x: Variable| reads_var(ir, x) ==> #[trigger] t(x) == u(x),
    ensures
        op_value(ir, t) == op_value(ir, u),
{
    match ir {
        IrV::Add(_, a, b) => {
            if let PortV::Variable(x) = a {
                assert(reads_var(ir, x));
            }
            if let PortV::Variable(x) = b {
                assert(reads_var(ir, x));
            }
        },
        IrV::Mul(_, a, b) => {
            if let PortV::Variable(x) = a {
                assert(reads_var(ir, x));
            }
            if let PortV::Variable(x) = b {
                assert(reads_var(ir, x));
            }
        },
        IrV::Assign(_, a) => {
            if let PortV::Variable(x) = a {
                assert(reads_var(ir, x));
            }
        },
    }
}

/// The records of a list of operations are indexed like the list.
proof fn lemma_records_index(rs: Seq<ControlV>)
    requires
        forall|m: int| 0 <= m < rs.len() ==> (#[trigger] rs[m]) is Enable,
    ensures
        records(rs).len() == rs.len(),
        forall|m: int|
            0 <= m < rs.len() ==> #[trigger] records(rs)[m] == (spec_kill(op_of(rs[m])), op_of(rs[m])),
    decreases rs.len(),
{
    if rs.len() > 0 {
        let rest = rs.drop_last();
        assert forall|m: int| 0 <= m < rest.len() implies (#[trigger] rest[m]) is Enable by {
            assert(rest[m] == rs[m]);
        }
        lemma_records_index(rest);
        assert(rs[rs.len() - 1] is Enable);
        assert forall|m: int|
            0 <= m < rs.len() implies #[trigger] records(rs)[m] == (spec_kill(op_of(rs[m])), op_of(rs[m])) by {
            if m < rs.len() - 1 {
                assert(rest[m] == rs[m]);
            }
        }
    }
}

/// What copy propagation through a list of operations keeps, at each
/// length: the rewritten list has one operation per operation, each
/// writing the same variable and reading only constants and variables that
/// the operations up to it read; running it leaves every variable as
/// running the original does; and each variable that it writes holds what
/// its operation computes from the final values.
pub open spec fn prop_invariant(cs: Seq<ControlV>, s: spec_fn(Variable) -> int) -> bool {
    let r = spec_copy_prop_list(cs).0;
    let t = run_controls(r, s);
    &&& r.len() == cs.len()
    &&& forall|m: int| 0 <= m < cs.len() ==> scalar_op(#[trigger] r[m]) && kill_var(r[m]) == kill_var(cs[m])
    &&& forall|m: int, x: Variable|
        0 <= m < cs.len() && #[trigger] reads_var(op_of(r[m]), x) ==> exists|i: int|
            0 <= i <= m && #[trigger] reads_var(op_of(cs[i]), x)
    &&& forall|v: Variable| #[trigger] t(v) == run_controls(cs, s)(v)
    &&& forall|m: int| 0 <= m < cs.len() ==> t(kill_var(#[trigger] r[m])) == op_value(op_of(r[m]), t)
}

proof fn lemma_prop_invariant(cs: Seq<ControlV>, s: spec_fn(Variable) -> int)
    requires
        forall|i: int| 0 <= i < cs.len() ==> scalar_op(#[trigger] cs[i]),
        single_assignment(cs),
    ensures
        prop_invariant(cs, s),
    decreases cs.len(),
{
    if cs.len() > 0 {
        let n = cs.len() - 1;
        let rest = cs.drop_last();
        assert forall|i: int| 0 <= i < rest.len() implies scalar_op(#[trigger] rest[i]) by {
            assert(rest[i] == cs[i]);
        }
        assert(single_assignment(rest)) by {
            assert forall|i: int, j: int| 0 <= i < j < rest.len() implies kill_var(#[trigger] rest[j])
                != kill_var(#[trigger] rest[i]) && !reads_var(op_of(rest[i]), kill_var(rest[j])) by {
                assert(rest[i] == cs[i] && rest[j] == cs[j]);
            }
            assert forall|j: int| 0 <= j < rest.len() implies !reads_var(op_of(#[trigger] rest[j]), kill_var(rest[j])) by {
                assert(rest[j] == cs[j]);
            }
        }
        lemma_prop_invariant(rest, s);
        law_copy_prop_list_reads_earlier(rest);
        let prev = spec_copy_prop_list(rest);
        let rp = prev.0;
        let assigns = prev.1;
        let t1 = run_controls(rp, s);
        let t2 = run_controls(rest, s);
        let c = cs[n];
        assert(c == cs.last());
        assert(scalar_op(c));
        let ir = op_of(c);
        let ir2 = spec_prop_ir(assigns, ir);
        let r = spec_copy_prop_list(cs).0;
        assert(r == rp.push(ControlV::Enable(ir2)));
        assert(r.drop_last() =~= rp);
        let t = run_controls(r, s);
        assert forall|m: int| 0 <= m < rp.len() implies (#[trigger] rp[m]) is Enable by {
            assert(scalar_op(rp[m]));
        }
        lemma_rewritten_op(cs, s);
        lemma_run_scalar(ControlV::Enable(ir2), t1);
        lemma_run_scalar(c, t2);
        assert(t == run_ir(ir2, t1));
        assert(run_controls(cs, s) == run_ir(ir, t2)) by {
            assert(cs.drop_last() == rest);
        }
        let k = kill_var(c);
        assert(kill_var(ControlV::Enable(ir2)) == k);
        // The variables the new operation reads are not the one it writes.
        assert forall|x: Variable| #[trigger] reads_var(ir2, x) implies x != k by {
            let i = choose|i: int| 0 <= i <= n && #[trigger] reads_var(op_of(cs[i]), x);
            if i < n {
                assert(!reads_var(op_of(cs[i]), kill_var(cs[n])));
            } else {
                assert(!reads_var(op_of(cs[n]), kill_var(cs[n])));
            }
        }
        assert forall|v: Variable| #[trigger] t(v) == run_controls(cs, s)(v) by {
            assert(t1(v) == t2(v));
        }
        assert forall|m: int| 0 <= m < cs.len() implies scalar_op(#[trigger] r[m]) && kill_var(r[m]) == kill_var(cs[m]) by {
            if m < n {
                assert(r[m] == rp[m]);
                assert(rest[m] == cs[m]);
            }
        }
        assert forall|m: int, x: Variable|
            0 <= m < cs.len() && #[trigger] reads_var(op_of(r[m]), x) implies exists|i: int|
                0 <= i <= m && #[trigger] reads_var(op_of(cs[i]), x) by {
            if m < n {
                assert(r[m] == rp[m]);
                let i = choose|i: int| 0 <= i <= m && #[trigger] reads_var(op_of(rest[i]), x);
                assert(rest[i] == cs[i]);
            }
        }
        assert forall|m: int| 0 <= m < cs.len() implies t(kill_var(#[trigger] r[m])) == op_value(op_of(r[m]), t) by {
            if m < n {
                assert(r[m] == rp[m]);
                assert(rest[m] == cs[m]);
                assert(kill_var(cs[m]) != k);
                assert(t1(kill_var(rp[m])) == op_value(op_of(rp[m]), t1));
                assert forall|x: Variable| reads_var(op_of(rp[m]), x) implies #[trigger] t(x) == t1(x) by {
                    let i = choose|i: int| 0 <= i <= m && #[trigger] reads_var(op_of(rest[i]), x);
                    assert(rest[i] == cs[i]);
                    assert(!reads_var(op_of(cs[i]), kill_var(cs[n])));
                }
                lemma_op_value_frame(op_of(rp[m]), t, t1);
            } else {
                assert forall|x: Variable| reads_var(ir2, x) implies #[trigger] t(x) == t1(x) by {}
                lemma_op_value_frame(ir2, t, t1);
            }
        }
    }
}

/// The operation that copy propagation makes of the last of `cs` computes,
/// from the values the rewritten operations before it leave, what the
/// original computes from the values the original operations leave; it
/// writes the same variable and reads only variables that the operations
/// up to it read.
proof fn lemma_rewritten_op(cs: Seq<ControlV>, s: spec_fn(Variable) -> int)
    requires
        cs.len() > 0,
        forall|i: int| 0 <= i < cs.len() ==> scalar_op(#[trigger] cs[i]),
        prop_invariant(cs.drop_last(), s),
        spec_copy_prop_list(cs.drop_last()).1 == records(spec_copy_prop_list(cs.drop_last()).0),
    ensures
        ({
            let n = cs.len() - 1;
            let prev = spec_copy_prop_list(cs.drop_last());
            let ir = op_of(cs[n]);
            let ir2 = spec_prop_ir(prev.1, ir);
            let t1 = run_controls(prev.0, s);
            let t2 = run_controls(cs.drop_last(), s);
            &&& op_value(ir2, t1) == op_value(ir, t2)
            &&& spec_kill(ir2) == spec_kill(ir)
            &&& scalar_op(ControlV::Enable(ir2))
            &&& forall|x: Variable| #[trigger] reads_var(ir2, x) ==> exists|i: int|
                0 <= i <= n && #[trigger] reads_var(op_of(cs[i]), x)
        }),
{
    let n = cs.len() - 1;
    let rest = cs.drop_last();
    let prev = spec_copy_prop_list(rest);
    let rp = prev.0;
    let assigns = prev.1;
    let t1 = run_controls(rp, s);
    let t2 = run_controls(rest, s);
    let c = cs[n];
    assert(scalar_op(c));
    let ir = op_of(c);
    let ir2 = spec_prop_ir(assigns, ir);
    assert forall|m: int| 0 <= m < rp.len() implies (#[trigger] rp[m]) is Enable by {
        assert(scalar_op(rp[m]));
    }
        lemma_records_index(rp);
    law_prop_ir_keeps_values(assigns, ir);
    assert(op_value(ir2, t1) == op_value(ir, t2) && spec_kill(ir2) == spec_kill(ir)
        && scalar_op(ControlV::Enable(ir2)) && forall|x: Variable|
        #[trigger] reads_var(ir2, x) ==> exists|i: int| 0 <= i <= n && #[trigger] reads_var(op_of(cs[i]), x))
        by {
        lemma_op_value_frame(ir, t1, t2);
        assert forall|x: Variable| reads_var(ir, x) implies exists|i: int|
            0 <= i <= n && #[trigger] reads_var(op_of(cs[i]), x) by {
            assert(reads_var(op_of(cs[n]), x));
        }
        match ir {
            IrV::Add(k, a, b) => {
                let (a2, b2) = (ir2->Add_1, ir2->Add_2);
                lemma_operand_value(assigns, rp, t1, a, a2);
                lemma_operand_value(assigns, rp, t1, b, b2);
                lemma_operand_reads(cs, rp, assigns, n, a, a2);
                lemma_operand_reads(cs, rp, assigns, n, b, b2);
                assert(op_value(ir2, t1) == op_value(ir, t1));
                assert(op_value(ir, t1) == op_value(ir, t2));
                assert(spec_kill(ir2) == spec_kill(ir));
                assert(scalar_op(ControlV::Enable(ir2)));
                assert forall|x: Variable| #[trigger] reads_var(ir2, x) implies exists|i: int|
                    0 <= i <= n && #[trigger] reads_var(op_of(cs[i]), x) by {
                    if a2 == PortV::Variable(x) && a == a2 {
                        assert(reads_var(ir, x));
                    }
                    if b2 == PortV::Variable(x) && b == b2 {
                        assert(reads_var(ir, x));
                    }
                }
            },
            IrV::Mul(k, a, b) => {
                let (a2, b2) = (ir2->Mul_1, ir2->Mul_2);
                lemma_operand_value(assigns, rp, t1, a, a2);
                lemma_operand_value(assigns, rp, t1, b, b2);
                lemma_operand_reads(cs, rp, assigns, n, a, a2);
                lemma_operand_reads(cs, rp, assigns, n, b, b2);
                assert(op_value(ir2, t1) == op_value(ir, t1));
                assert(op_value(ir, t1) == op_value(ir, t2));
                assert(spec_kill(ir2) == spec_kill(ir));
                assert(scalar_op(ControlV::Enable(ir2)));
                assert forall|x: Variable| #[trigger] reads_var(ir2, x) implies exists|i: int|
                    0 <= i <= n && #[trigger] reads_var(op_of(cs[i]), x) by {
                    if a2 == PortV::Variable(x) && a == a2 {
                        assert(reads_var(ir, x));
                    }
                    if b2 == PortV::Variable(x) && b == b2 {
                        assert(reads_var(ir, x));
                    }
                }
            },
            IrV::Assign(k, src) => {
                if exists|j: int| #[trigger] last_entry_for(assigns, src, j) && same_op_writing(assigns[j].1, ir2, k) {
                    let j = choose|j: int| #[trigger] last_entry_for(assigns, src, j) && same_op_writing(assigns[j].1, ir2, k);
                    let op = op_of(rp[j]);
                    assert(assigns[j] == (spec_kill(op), op));
                    assert(scalar_op(rp[j]));
                    assert(kill_var(rp[j]) == src->Variable_0);
                    assert(t1(kill_var(rp[j])) == op_value(op, t1));
                    assert(op_value(ir2, t1) == op_value(op, t1));
                    assert(op_value(ir, t2) == port_value(src, t2));
                    assert(port_value(src, t1) == port_value(src, t2));
                    assert(op_value(ir2, t1) == op_value(ir, t2));
                    assert(spec_kill(ir2) == spec_kill(ir));
                    assert(scalar_op(ControlV::Enable(ir2)));
                    assert forall|x: Variable| #[trigger] reads_var(ir2, x) implies exists|i: int|
                        0 <= i <= n && #[trigger] reads_var(op_of(cs[i]), x) by {
                        assert(reads_var(op_of(rp[j]), x));
                        let i = choose|i: int| 0 <= i <= j && #[trigger] reads_var(op_of(rest[i]), x);
                        assert(rest[i] == cs[i]);
                    }
                } else {
                    assert(ir2 == ir);
                }
            },
        }
    }
}

/// An operand after propagation holds what the operand holds.
proof fn lemma_operand_value(
    assigns: Seq<(PortV, IrV)>,
    rp: Seq<ControlV>,
    t1: spec_fn(Variable) -> int,
    a: PortV,
    a2: PortV,
)
    requires
        propagated_operand(assigns, a, a2),
        scalar_port(a),
        assigns.len() == rp.len(),
        forall|m: int| 0 <= m < rp.len() ==> #[trigger] assigns[m] == (spec_kill(op_of(rp[m])), op_of(rp[m])),
        forall|m: int| 0 <= m < rp.len() ==> scalar_op(#[trigger] rp[m]),
        forall|m: int| 0 <= m < rp.len() ==> t1(kill_var(#[trigger] rp[m])) == op_value(op_of(rp[m]), t1),
    ensures
        port_value(a2, t1) == port_value(a, t1),
        scalar_port(a2),
{
    if exists|j: int| #[trigger] last_entry_for(assigns, a, j) && (assigns[j].1 matches IrV::Assign(_, src) && src == a2) {
        let j = choose|j: int| #[trigger] last_entry_for(assigns, a, j) && (assigns[j].1 matches IrV::Assign(_, src) && src == a2);
        assert(scalar_op(rp[j]));
        assert(t1(kill_var(rp[j])) == op_value(op_of(rp[j]), t1));
    }
}

/// The variables an operand after propagation reads were read by the
/// original operations up to the current one.
proof fn lemma_operand_reads(
    cs: Seq<ControlV>,
    rp: Seq<ControlV>,
    assigns: Seq<(PortV, IrV)>,
    n: int,
    a: PortV,
    a2: PortV,
)
    requires
        0 <= n < cs.len(),
        rp.len() == n,
        propagated_operand(assigns, a, a2),
        assigns.len() == rp.len(),
        forall|m: int| 0 <= m < rp.len() ==> #[trigger] assigns[m] == (spec_kill(op_of(rp[m])), op_of(rp[m])),
        forall|m: int, x: Variable|
            0 <= m < rp.len() && #[trigger] reads_var(op_of(rp[m]), x) ==> exists|i: int|
                0 <= i <= m && #[trigger] reads_var(op_of(cs.drop_last()[i]), x),
        cs.len() == n + 1,
    ensures
        forall|x: Variable|
            a2 == PortV::Variable(x) && a != a2 ==> exists|i: int| 0 <= i <= n && #[trigger] reads_var(op_of(cs[i]), x),
{
    assert forall|x: Variable| a2 == PortV::Variable(x) && a != a2 implies exists|i: int|
        0 <= i <= n && #[trigger] reads_var(op_of(cs[i]), x) by {
        let j = choose|j: int| #[trigger] last_entry_for(assigns, a, j) && (assigns[j].1 matches IrV::Assign(_, src) && src == a2);
        assert(reads_var(op_of(rp[j]), x));
        let i = choose|i: int| 0 <= i <= j && #[trigger] reads_var(op_of(cs.drop_last()[i]), x);
        assert(cs.drop_last()[i] == cs[i]);
    }
}

/// Copy propagation keeps what a list of operations computes: on
/// operations that read and write only constants and variables, where each
/// variable is written once and never after it is read, running the
/// rewritten list leaves every variable holding what running the original
/// leaves there, from any starting values.
pub proof fn law_copy_prop_keeps_values(cs: Seq<ControlV>, s: spec_fn(Variable) -> int)
    requires
        forall|i: int| 0 <= i < cs.len() ==> scalar_op(#[trigger] cs[i]),
        single_assignment(cs),
    ensures
        forall|v: Variable|
            #[trigger] run_controls(spec_copy_prop_list(cs).0, s)(v) == run_controls(cs, s)(v),
{
    lemma_prop_invariant(cs, s);
}

} // verus!
