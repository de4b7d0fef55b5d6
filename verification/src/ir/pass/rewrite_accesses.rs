use crate::ir::component::Component;
use crate::ir::control::{
    control_view, controls_view, lemma_controls_view, Control, ControlV, For, IfElse, Par, Sequence,
};
use crate::ir::instr::{Ir, IrV};
use crate::ir::pass::PassOptions;
use crate::ir::port::{Port, PortV};
use vstd::prelude::*;

verus! {

/// An access to an array becomes an access through the generated address.
pub open spec fn spec_lower_port(p: PortV) -> PortV {
    match p {
        PortV::Access(v, _) => PortV::LoweredAccess(v),
        _ => p,
    }
}

/// Whether lowering changes the port.
pub open spec fn lowers(p: PortV) -> bool {
    p is Access
}

/// An operation with its top-level accesses lowered, and whether it had any.
pub open spec fn spec_rewrite_ir(ir: IrV) -> (IrV, bool) {
    match ir {
        IrV::Add(k, a, b) => (
            IrV::Add(spec_lower_port(k), spec_lower_port(a), spec_lower_port(b)),
            lowers(k) || lowers(a) || lowers(b),
        ),
        IrV::Mul(k, a, b) => (
            IrV::Mul(spec_lower_port(k), spec_lower_port(a), spec_lower_port(b)),
            lowers(k) || lowers(a) || lowers(b),
        ),
        IrV::Assign(k, a) => (
            IrV::Assign(spec_lower_port(k), spec_lower_port(a)),
            lowers(k) || lowers(a),
        ),
    }
}

/// A control tree with the accesses of every operation lowered, and whether
/// any operation had one.
pub open spec fn spec_rewrite(c: ControlV) -> (ControlV, bool)
    decreases c,
{
    match c {
        ControlV::Enable(ir) => {
            let r = spec_rewrite_ir(ir);
            (ControlV::Enable(r.0), r.1)
        },
        ControlV::Sequence(cs) => {
            let r = spec_rewrite_all(cs);
            (ControlV::Sequence(r.0), r.1)
        },
        ControlV::Par(cs) => {
            let r = spec_rewrite_all(cs);
            (ControlV::Par(r.0), r.1)
        },
        ControlV::For(v, l, u, body) => {
            let r = spec_rewrite(*body);
            (ControlV::For(v, l, u, Box::new(r.0)), r.1)
        },
        ControlV::IfElse(p, t, f) => {
            let a = spec_rewrite(*t);
            let b = spec_rewrite(*f);
            (ControlV::IfElse(p, Box::new(a.0), Box::new(b.0)), a.1 || b.1)
        },
        _ => (c, false),
    }
}

/// [`spec_rewrite`] on each of `cs`.
pub open spec fn spec_rewrite_all(cs: Seq<ControlV>) -> (Seq<ControlV>, bool)
    decreases cs,
{
    if cs.len() == 0 {
        (Seq::empty(), false)
    } else {
        let rest = spec_rewrite_all(cs.drop_last());
        let last = spec_rewrite(cs.last());
        (rest.0.push(last.0), rest.1 || last.1)
    }
}

/// The lowered port, and whether it was an access.
fn lower_port(p: Port) -> (result: (Port, bool))
    ensures
        result.0@ == spec_lower_port(p@),
        result.1 == lowers(p@),
{
    match p {
        Port::Access(v, _) => (Port::LoweredAccess(v), true),
        other => (other, false),
    }
}

/// Lowers the accesses of `ir` (see [`spec_rewrite_ir`]).
pub fn rewrite_ir(ir: Ir) -> (result: (Ir, bool))
    ensures
        (result.0@, result.1) == spec_rewrite_ir(ir@),
{
    match ir {
        Ir::Add(k, a, b) => {
            let (k, m1) = lower_port(k);
            let (a, m2) = lower_port(a);
            let (b, m3) = lower_port(b);
            (Ir::Add(k, a, b), m1 || m2 || m3)
        },
        Ir::Mul(k, a, b) => {
            let (k, m1) = lower_port(k);
            let (a, m2) = lower_port(a);
            let (b, m3) = lower_port(b);
            (Ir::Mul(k, a, b), m1 || m2 || m3)
        },
        Ir::Assign(k, a) => {
            let (k, m1) = lower_port(k);
            let (a, m2) = lower_port(a);
            (Ir::Assign(k, a), m1 || m2)
        },
    }
}

/// Applies [`rewrite`] to each of `children`.
#[verifier::loop_isolation(false)]
pub fn rewrite_all(children: Vec<Control>) -> (result: (Vec<Control>, bool))
    ensures
        (controls_view(result.0@), result.1) == spec_rewrite_all(controls_view(children@)),
    decreases children@,
{
    let ghost orig = children@;
    let ghost cs = controls_view(orig);
    proof {
        lemma_controls_view(orig);
    }
    let mut rest = children;
    let mut out: Vec<Control> = Vec::new();
    let mut modified = false;
    let n = rest.len();
    let mut i: usize = 0;
    proof {
        assert(cs.subrange(0, 0) =~= Seq::<ControlV>::empty());
        assert(rest@.subrange(0, n as int) =~= rest@);
    }
    while i < n
        invariant
            0 <= i <= n,
            n == orig.len(),
            cs == controls_view(orig),
            cs.len() == n,
            forall|j: int| 0 <= j < n ==> #[trigger] cs[j] == control_view(orig[j]),
            rest@ == orig.subrange(i as int, n as int),
            (controls_view(out@), modified) == spec_rewrite_all(cs.subrange(0, i as int)),
        decreases n - i,
    {
        let child = rest.remove(0);
        proof {
            assert(child == orig[i as int]);
            assert(decreases_to!(orig => orig[i as int]));
            assert(rest@ =~= orig.subrange(i + 1, n as int));
        }
        let ghost before = out@;
        let (new_child, m) = rewrite(child);
        out.push(new_child);
        modified = modified || m;
        proof {
            assert(out@.drop_last() =~= before);
            assert(cs.subrange(0, i + 1).drop_last() =~= cs.subrange(0, i as int));
            assert(cs.subrange(0, i + 1).last() == cs[i as int]);
        }
        i = i + 1;
    }
    proof {
        assert(cs.subrange(0, n as int) =~= cs);
    }
    (out, modified)
}

/// Lowers the accesses of every operation of a control tree (see
/// [`spec_rewrite`]).
pub fn rewrite(control: Control) -> (result: (Control, bool))
    ensures
        (result.0@, result.1) == spec_rewrite(control@),
    decreases control,
{
    match control {
        Control::Enable(ir) => {
            let (ir, m) = rewrite_ir(ir);
            (Control::Enable(ir), m)
        },
        Control::Sequence(seq) => {
            let (children, m) = rewrite_all(seq.children);
            (Control::Sequence(Sequence { children }), m)
        },
        Control::Par(par) => {
            let (children, m) = rewrite_all(par.children);
            (Control::Par(Par { children }), m)
        },
        Control::For(for_) => {
            let For { variant, lower, exclusive_upper, body } = for_;
            let (body, m) = rewrite(*body);
            (Control::For(For { variant, lower, exclusive_upper, body: Box::new(body) }), m)
        },
        Control::IfElse(if_else) => {
            let IfElse { cond, true_branch, false_branch } = if_else;
            let (t, m1) = rewrite(*true_branch);
            let (f, m2) = rewrite(*false_branch);
            (
                Control::IfElse(
                    IfElse { cond, true_branch: Box::new(t), false_branch: Box::new(f) },
                ),
                m1 || m2,
            )
        },
        other => (other, false),
    }
}

/// Replaces every array access in an operation by an access through a
/// generated address.
pub struct RewriteAccesses;

impl RewriteAccesses {
    /// The pass; it takes no options.
    pub fn from(_options: PassOptions) -> (result: Self) {
        RewriteAccesses
    }

    /// The name of the pass.
    pub fn name() -> (result: &'static str)
        ensures
            result@ == "rewrite-accesses"@,
    {
        "rewrite-accesses"
    }

    /// Lowers the accesses in the control of `comp` and says whether there
    /// were any.
    pub fn run(&self, comp: &mut Component) -> (result: bool)
        ensures
            (final(comp).cfg@, result) == spec_rewrite(old(comp).cfg@),
            final(comp).label == old(comp).label,
            final(comp).attributes == old(comp).attributes,
            final(comp).inputs@ == old(comp).inputs@,
            final(comp).outputs@ == old(comp).outputs@,
            final(comp).cell_alloc@ == old(comp).cell_alloc@,
    {
        let mut cfg = Control::Empty;
        std::mem::swap(&mut cfg, &mut comp.cfg);
        let (new_cfg, modified) = rewrite(cfg);
        comp.cfg = new_cfg;
        modified
    }
}

/// Whether `q` is what lowering makes of the port `p`: an access to an
/// array becomes an access to that same array through the generated
/// address, and any other port stays as it is.
pub open spec fn lowered_port(p: PortV, q: PortV) -> bool {
    match p {
        PortV::Access(array, _) => q == PortV::LoweredAccess(array),
        _ => q == p,
    }
}

/// Lowering an operation keeps its kind and lowers each of its ports in
/// place, the written one and those read; it reports a change exactly when
/// one of them was an access.
pub proof fn law_rewrite_ir_lowers_each_port(ir: IrV)
    ensures
        match (ir, spec_rewrite_ir(ir).0) {
            (IrV::Add(k, a, b), IrV::Add(k2, a2, b2)) => lowered_port(k, k2) && lowered_port(a, a2)
                && lowered_port(b, b2) && (spec_rewrite_ir(ir).1 <==> (k is Access || a is Access
                || b is Access)),
            (IrV::Mul(k, a, b), IrV::Mul(k2, a2, b2)) => lowered_port(k, k2) && lowered_port(a, a2)
                && lowered_port(b, b2) && (spec_rewrite_ir(ir).1 <==> (k is Access || a is Access
                || b is Access)),
            (IrV::Assign(k, a), IrV::Assign(k2, a2)) => lowered_port(k, k2) && lowered_port(a, a2) && (
            spec_rewrite_ir(ir).1 <==> (k is Access || a is Access)),
            _ => false,
        },
{
}

/// Lowering keeps the shape of a control tree: only the ports of its
/// operations change (see [`law_rewrite_ir_lowers_each_port`]), and a
/// change is reported exactly when some operation had an access.
pub proof fn law_rewrite_keeps_shape(c: ControlV)
    ensures
        match (c, spec_rewrite(c).0) {
            (ControlV::Enable(a), ControlV::Enable(b)) => b == spec_rewrite_ir(a).0 && spec_rewrite(c).1
                == spec_rewrite_ir(a).1,
            (ControlV::Enable(_), _) => false,
            (ControlV::Sequence(cs), ControlV::Sequence(rs)) => rs.len() == cs.len() && forall|i: int|
                0 <= i < cs.len() ==> rs[i] == spec_rewrite(#[trigger] cs[i]).0,
            (ControlV::Sequence(_), _) => false,
            (ControlV::Par(cs), ControlV::Par(rs)) => rs.len() == cs.len() && forall|i: int|
                0 <= i < cs.len() ==> rs[i] == spec_rewrite(#[trigger] cs[i]).0,
            (ControlV::Par(_), _) => false,
            (ControlV::For(v, l, u, b), ControlV::For(v2, l2, u2, b2)) => v2 == v && l2 == l && u2 == u
                && *b2 == spec_rewrite(*b).0,
            (ControlV::For(..), _) => false,
            (ControlV::IfElse(p, t, f), ControlV::IfElse(p2, t2, f2)) => p2 == p && *t2 == spec_rewrite(
                *t,
            ).0 && *f2 == spec_rewrite(*f).0,
            (ControlV::IfElse(..), _) => false,
            (x, y) => x == y && !spec_rewrite(c).1,
        },
{
    match c {
        ControlV::Sequence(cs) => lemma_rewrite_all_len(cs),
        ControlV::Par(cs) => lemma_rewrite_all_len(cs),
        _ => {},
    }
}

proof fn lemma_rewrite_all_len(cs: Seq<ControlV>)
    ensures
        spec_rewrite_all(cs).0.len() == cs.len(),
        forall|i: int| 0 <= i < cs.len() ==> spec_rewrite_all(cs).0[i] == spec_rewrite(#[trigger] cs[i]).0,
    decreases cs.len(),
{
    if cs.len() > 0 {
        lemma_rewrite_all_len(cs.drop_last());
        assert forall|i: int| 0 <= i < cs.len() implies spec_rewrite_all(cs).0[i] == spec_rewrite(
            #[trigger] cs[i],
        ).0 by {
            if i < cs.len() - 1 {
                assert(cs.drop_last()[i] == cs[i]);
            }
        }
    }
}

} // verus!
