use crate::ir::component::Component;
use crate::ir::control::{
    control_view, controls_view, lemma_controls_view, lemma_controls_view_remove,
    lemma_controls_view_update, Control, ControlV, For, IfElse, Par, Sequence,
};
use crate::ir::instr::{Ir, IrV};
use crate::ir::pass::PassOptions;
use crate::ir::port::{lemma_ports_view, port_view, ports_view, Port, PortV, Variable};
use vstd::prelude::*;

verus! {

/// The access that a chain of partial accesses stands for, the outermost
/// index first, with `indices` already collected; an error when the chain
/// does not start at a variable.
pub open spec fn spec_fold_chain(p: PortV, indices: Seq<PortV>) -> Result<PortV, ()>
    decreases p,
{
    match p {
        PortV::PartialAccess(inner, index) => spec_fold_chain(*inner, indices.push(*index)),
        PortV::Variable(array) => Ok(PortV::Access(array, indices)),
        _ => Err(()),
    }
}

/// A chain of partial accesses folded into one access; other ports stay.
pub open spec fn spec_fold(p: PortV) -> Result<PortV, ()> {
    if p is PartialAccess {
        spec_fold_chain(p, Seq::empty())
    } else {
        Ok(p)
    }
}

/// An operation with its read ports, then its written port, folded.
pub open spec fn spec_fold_ir(ir: IrV) -> Result<IrV, ()> {
    match ir {
        IrV::Add(k, a, b) => match (spec_fold(a), spec_fold(b), spec_fold(k)) {
            (Ok(a2), Ok(b2), Ok(k2)) => Ok(IrV::Add(k2, a2, b2)),
            _ => Err(()),
        },
        IrV::Mul(k, a, b) => match (spec_fold(a), spec_fold(b), spec_fold(k)) {
            (Ok(a2), Ok(b2), Ok(k2)) => Ok(IrV::Mul(k2, a2, b2)),
            _ => Err(()),
        },
        IrV::Assign(k, a) => match (spec_fold(a), spec_fold(k)) {
            (Ok(a2), Ok(k2)) => Ok(IrV::Assign(k2, a2)),
            _ => Err(()),
        },
    }
}

/// Two consecutive copies where the second indexes the port the first wrote
/// become one copy of a full access: `Ok(Some(..))`; `Ok(None)` when they do
/// not have that shape; an error when the first indexes something other
/// than a variable.
pub open spec fn spec_pair(first: ControlV, second: ControlV) -> Result<Option<ControlV>, ()> {
    match (first, second) {
        (
            ControlV::Enable(IrV::Assign(temp, PortV::PartialAccess(array, index))),
            ControlV::Enable(IrV::Assign(result, PortV::PartialAccess(temp2, index2))),
        ) if *temp2 == temp => match *array {
            PortV::Variable(array_var) => Ok(
                Some(
                    ControlV::Enable(
                        IrV::Assign(result, PortV::Access(array_var, seq![*index, *index2])),
                    ),
                ),
            ),
            _ => Err(()),
        },
        (
            ControlV::Enable(IrV::Assign(temp, PortV::Access(array, indices))),
            ControlV::Enable(IrV::Assign(result, PortV::PartialAccess(temp2, index2))),
        ) if *temp2 == temp => Ok(
            Some(ControlV::Enable(IrV::Assign(result, PortV::Access(array, indices.push(*index2))))),
        ),
        _ => Ok(None),
    }
}

/// Merges consecutive pairs (see [`spec_pair`]) from index `i` on: a merged
/// pair is compared with its successor again.
pub open spec fn spec_merge_pairs(v: Seq<ControlV>, i: nat) -> Result<Seq<ControlV>, ()>
    decreases v.len() - i,
{
    if i + 1 >= v.len() {
        Ok(v)
    } else {
        match spec_pair(v[i as int], v[i as int + 1]) {
            Err(()) => Err(()),
            Ok(Some(r)) => spec_merge_pairs(v.update(i as int, r).remove(i as int + 1), i),
            Ok(None) => spec_merge_pairs(v, i + 1),
        }
    }
}

/// Folds the ports of every operation among `cs`.
pub open spec fn spec_fold_all(cs: Seq<ControlV>) -> Result<Seq<ControlV>, ()>
    decreases cs.len(),
{
    if cs.len() == 0 {
        Ok(Seq::empty())
    } else {
        match spec_fold_all(cs.drop_last()) {
            Err(()) => Err(()),
            Ok(rest) => match cs.last() {
                ControlV::Enable(ir) => match spec_fold_ir(ir) {
                    Ok(ir2) => Ok(rest.push(ControlV::Enable(ir2))),
                    Err(()) => Err(()),
                },
                other => Ok(rest.push(other)),
            },
        }
    }
}

/// A list of children with pairs merged, then partial accesses folded.
pub open spec fn spec_canon_list(cs: Seq<ControlV>) -> Result<Seq<ControlV>, ()> {
    match spec_merge_pairs(cs, 0) {
        Ok(merged) => spec_fold_all(merged),
        Err(()) => Err(()),
    }
}

/// A canonical control tree, and whether it has a par or a sequence (each is
/// reported as modified); an error where a partial access does not index a
/// variable.
pub open spec fn spec_canon(c: ControlV) -> Result<(ControlV, bool), ()>
    decreases c,
{
    match c {
        ControlV::Sequence(cs) => match spec_canon_all(cs) {
            Ok(inner) => match spec_canon_list(inner.0) {
                Ok(r) => Ok((ControlV::Sequence(r), true)),
                Err(()) => Err(()),
            },
            Err(()) => Err(()),
        },
        ControlV::Par(cs) => match spec_canon_all(cs) {
            Ok(inner) => match spec_canon_list(inner.0) {
                Ok(r) => Ok((ControlV::Par(r), true)),
                Err(()) => Err(()),
            },
            Err(()) => Err(()),
        },
        ControlV::For(v, l, u, body) => match spec_canon(*body) {
            Ok(b) => Ok((ControlV::For(v, l, u, Box::new(b.0)), b.1)),
            Err(()) => Err(()),
        },
        ControlV::IfElse(p, t, f) => match (spec_canon(*t), spec_canon(*f)) {
            (Ok(a), Ok(b)) => Ok((ControlV::IfElse(p, Box::new(a.0), Box::new(b.0)), a.1 || b.1)),
            _ => Err(()),
        },
        _ => Ok((c, false)),
    }
}

/// [`spec_canon`] on each of `cs`.
pub open spec fn spec_canon_all(cs: Seq<ControlV>) -> Result<(Seq<ControlV>, bool), ()>
    decreases cs,
{
    if cs.len() == 0 {
        Ok((Seq::empty(), false))
    } else {
        match (spec_canon_all(cs.drop_last()), spec_canon(cs.last())) {
            (Ok(rest), Ok(last)) => Ok((rest.0.push(last.0), rest.1 || last.1)),
            _ => Err(()),
        }
    }
}

/// Folds a chain of partial accesses (see [`spec_fold_chain`]).
fn fold_chain(p: Port, indices: Vec<Port>) -> (result: Result<Port, ()>)
    ensures
        match result {
            Ok(q) => spec_fold_chain(p@, ports_view(indices@)) == Ok::<PortV, ()>(q@),
            Err(()) => spec_fold_chain(p@, ports_view(indices@)) is Err,
        },
    decreases p,
{
    match p {
        Port::PartialAccess(inner, index) => {
            let mut indices = indices;
            let ghost before = indices@;
            indices.push(*index);
            proof {
                assert(indices@.drop_last() =~= before);
            }
            fold_chain(*inner, indices)
        },
        Port::Variable(array) => Ok(Port::Access(array, indices)),
        _ => Err(()),
    }
}

/// Folds a port (see [`spec_fold`]).
fn fold(p: Port) -> (result: Result<Port, ()>)
    ensures
        match result {
            Ok(q) => spec_fold(p@) == Ok::<PortV, ()>(q@),
            Err(()) => spec_fold(p@) is Err,
        },
{
    match p {
        Port::PartialAccess(..) => {
            let indices: Vec<Port> = Vec::new();
            proof {
                assert(ports_view(indices@) =~= Seq::<PortV>::empty());
            }
            fold_chain(p, indices)
        },
        other => Ok(other),
    }
}

/// Folds the ports of an operation (see [`spec_fold_ir`]).
fn fold_ir(ir: Ir) -> (result: Result<Ir, ()>)
    ensures
        match result {
            Ok(ir2) => spec_fold_ir(ir@) == Ok::<IrV, ()>(ir2@),
            Err(()) => spec_fold_ir(ir@) is Err,
        },
{
    match ir {
        Ir::Add(k, a, b) => match (fold(a), fold(b), fold(k)) {
            (Ok(a), Ok(b), Ok(k)) => Ok(Ir::Add(k, a, b)),
            _ => Err(()),
        },
        Ir::Mul(k, a, b) => match (fold(a), fold(b), fold(k)) {
            (Ok(a), Ok(b), Ok(k)) => Ok(Ir::Mul(k, a, b)),
            _ => Err(()),
        },
        Ir::Assign(k, a) => match (fold(a), fold(k)) {
            (Ok(a), Ok(k)) => Ok(Ir::Assign(k, a)),
            _ => Err(()),
        },
    }
}

/// The merged copy of two consecutive controls (see [`spec_pair`]).
fn pair(first: &Control, second: &Control) -> (result: Result<Option<Control>, ()>)
    ensures
        match result {
            Ok(Some(c)) => spec_pair(first@, second@) == Ok::<Option<ControlV>, ()>(Some(c@)),
            Ok(None) => spec_pair(first@, second@) == Ok::<Option<ControlV>, ()>(None),
            Err(()) => spec_pair(first@, second@) is Err,
        },
{
    match (first, second) {
        (Control::Enable(Ir::Assign(temp, src)), Control::Enable(Ir::Assign(result, src2))) => {
            match src2 {
                Port::PartialAccess(temp2, index2) => {
                    if !temp2.equals(temp) {
                        return Ok(None);
                    }
                    match src {
                        Port::PartialAccess(array, index) => match &**array {
                            Port::Variable(array_var) => {
                                let mut indices: Vec<Port> = Vec::new();
                                indices.push(index.duplicate());
                                indices.push(index2.duplicate());
                                proof {
                                    lemma_ports_view(indices@);
                                    assert(ports_view(indices@) =~= seq![index@, index2@]);
                                    assert(port_view(**array) == PortV::Variable(*array_var));
                                }
                                Ok(
                                    Some(
                                        Control::Enable(
                                            Ir::Assign(
                                                result.duplicate(),
                                                Port::Access(*array_var, indices),
                                            ),
                                        ),
                                    ),
                                )
                            },
                            _ => Err(()),
                        },
                        Port::Access(array, indices) => {
                            let mut all = crate::ir::port::duplicate_ports(indices);
                            let ghost before = all@;
                            all.push(index2.duplicate());
                            proof {
                                assert(all@.drop_last() =~= before);
                                assert(ports_view(all@) == ports_view(indices@).push(index2@));
                            }
                            Ok(
                                Some(
                                    Control::Enable(
                                        Ir::Assign(result.duplicate(), Port::Access(*array, all)),
                                    ),
                                ),
                            )
                        },
                        _ => Ok(None),
                    }
                },
                _ => Ok(None),
            }
        },
        _ => Ok(None),
    }
}

/// Merges consecutive pairs of a list in place (see [`spec_merge_pairs`]).
fn merge_pairs(children: &mut Vec<Control>) -> (result: Result<(), ()>)
    ensures
        match result {
            Ok(()) => spec_merge_pairs(controls_view(old(children)@), 0) == Ok::<
                Seq<ControlV>,
                (),
            >(controls_view(final(children)@)),
            Err(()) => spec_merge_pairs(controls_view(old(children)@), 0) is Err,
        },
{
    let ghost cs = controls_view(children@);
    let mut i: usize = 0;
    while i < children.len() && i + 1 < children.len()
        invariant
            i <= children@.len(),
            cs == controls_view(old(children)@),
            spec_merge_pairs(cs, 0) == spec_merge_pairs(controls_view(children@), i as nat),
        decreases children@.len() - i,
    {
        proof {
            lemma_controls_view(children@);
        }
        let ghost v = controls_view(children@);
        match pair(&children[i], &children[i + 1]) {
            Err(()) => {
                proof {
                    assert(spec_merge_pairs(v, i as nat) is Err);
                }
                return Err(());
            },
            Ok(Some(r)) => {
                let ghost rv = r@;
                let ghost before = children@;
                children.set(i, r);
                proof {
                    lemma_controls_view_update(before, i as int, children@[i as int]);
                    lemma_controls_view_remove(children@, i + 1);
                }
                children.remove(i + 1);
            },
            Ok(None) => {
                i = i + 1;
            },
        }
    }
    proof {
        lemma_controls_view(children@);
    }
    Ok(())
}

/// Folds the ports of every operation of a list (see [`spec_fold_all`]).
#[verifier::loop_isolation(false)]
fn fold_all(children: Vec<Control>) -> (result: Result<Vec<Control>, ()>)
    ensures
        match result {
            Ok(out) => spec_fold_all(controls_view(children@)) == Ok::<Seq<ControlV>, ()>(
                controls_view(out@),
            ),
            Err(()) => spec_fold_all(controls_view(children@)) is Err,
        },
{
    let ghost orig = children@;
    let ghost cs = controls_view(orig);
    proof {
        lemma_controls_view(orig);
    }
    let mut rest = children;
    let mut out: Vec<Control> = Vec::new();
    let n = rest.len();
    let mut i: usize = 0;
    proof {
        assert(cs.subrange(0, 0) =~= Seq::<ControlV>::empty());
        assert(rest@.subrange(0, n as int) =~= rest@);
    }
    while i < n
        invariant
            0 <= i <= n,
            n == orig.len(),
            cs == controls_view(orig),
            cs.len() == n,
            forall|j: int| 0 <= j < n ==> #[trigger] cs[j] == control_view(orig[j]),
            rest@ == orig.subrange(i as int, n as int),
            spec_fold_all(cs.subrange(0, i as int)) == Ok::<Seq<ControlV>, ()>(
                controls_view(out@),
            ),
        decreases n - i,
    {
        let child = rest.remove(0);
        let ghost before = out@;
        proof {
            assert(child == orig[i as int]);
            assert(rest@ =~= orig.subrange(i + 1, n as int));
            assert(cs.subrange(0, i + 1).drop_last() =~= cs.subrange(0, i as int));
            assert(cs.subrange(0, i + 1).last() == cs[i as int]);
        }
        match child {
            Control::Enable(ir) => {
                let ghost irv = ir@;
                proof {
                    assert(cs[i as int] == ControlV::Enable(irv));
                }
                match fold_ir(ir) {
                    Ok(ir2) => {
                        let ghost ir2v = ir2@;
                        out.push(Control::Enable(ir2));
                        proof {
                            assert(out@.drop_last() =~= before);
                            assert(control_view(out@.last()) == ControlV::Enable(ir2v));
                        }
                    },
                    Err(()) => {
                        proof {
                            lemma_fold_all_err(cs, i as int);
                        }
                        return Err(());
                    },
                }
            },
            other => {
                out.push(other);
                proof {
                    assert(out@.drop_last() =~= before);
                }
            },
        }
        i = i + 1;
    }
    proof {
        assert(cs.subrange(0, n as int) =~= cs);
    }
    Ok(out)
}

/// Once a prefix fails to fold, the whole list does.
proof fn lemma_fold_all_err(cs: Seq<ControlV>, i: int)
    requires
        0 <= i < cs.len(),
        spec_fold_all(cs.subrange(0, i + 1)) is Err,
    ensures
        spec_fold_all(cs) is Err,
    decreases cs.len(),
{
    if i + 1 < cs.len() {
        assert(cs.drop_last().subrange(0, i + 1) =~= cs.subrange(0, i + 1));
        lemma_fold_all_err(cs.drop_last(), i);
    } else {
        assert(cs.subrange(0, i + 1) =~= cs);
    }
}

/// Canonicalizes each of `children`.
#[verifier::loop_isolation(false)]
pub fn canon_all(children: Vec<Control>) -> (result: Result<(Vec<Control>, bool), ()>)
    ensures
        match result {
            Ok((out, m)) => spec_canon_all(controls_view(children@)) == Ok::<
                (Seq<ControlV>, bool),
                (),
            >((controls_view(out@), m)),
            Err(()) => spec_canon_all(controls_view(children@)) is Err,
        },
    decreases children@,
{
    let ghost orig = children@;
    let ghost cs = controls_view(orig);
    proof {
        lemma_controls_view(orig);
    }
    let mut rest = children;
    let mut out: Vec<Control> = Vec::new();
    let mut modified = false;
    let n = rest.len();
    let mut i: usize = 0;
    proof {
        assert(cs.subrange(0, 0) =~= Seq::<ControlV>::empty());
        assert(rest@.subrange(0, n as int) =~= rest@);
    }
    while i < n
        invariant
            0 <= i <= n,
            n == orig.len(),
            cs == controls_view(orig),
            cs.len() == n,
            forall|j: int| 0 <= j < n ==> #[trigger] cs[j] == control_view(orig[j]),
            rest@ == orig.subrange(i as int, n as int),
            spec_canon_all(cs.subrange(0, i as int)) == Ok::<(Seq<ControlV>, bool), ()>(
                (controls_view(out@), modified),
            ),
        decreases n - i,
    {
        let child = rest.remove(0);
        proof {
            assert(child == orig[i as int]);
            assert(decreases_to!(orig => orig[i as int]));
            assert(rest@ =~= orig.subrange(i + 1, n as int));
            assert(cs.subrange(0, i + 1).drop_last() =~= cs.subrange(0, i as int));
            assert(cs.subrange(0, i + 1).last() == cs[i as int]);
        }
        let ghost before = out@;
        match canon(child) {
            Ok((new_child, m)) => {
                out.push(new_child);
                modified = modified || m;
                proof {
                    assert(out@.drop_last() =~= before);
                }
            },
            Err(()) => {
                proof {
                    lemma_canon_all_err(cs, i as int);
                }
                return Err(());
            },
        }
        i = i + 1;
    }
    proof {
        assert(cs.subrange(0, n as int) =~= cs);
    }
    Ok((out, modified))
}

/// Once a prefix fails to canonicalize, the whole list does.
proof fn lemma_canon_all_err(cs: Seq<ControlV>, i: int)
    requires
        0 <= i < cs.len(),
        spec_canon_all(cs.subrange(0, i + 1)) is Err,
    ensures
        spec_canon_all(cs) is Err,
    decreases cs.len(),
{
    if i + 1 < cs.len() {
        assert(cs.drop_last().subrange(0, i + 1) =~= cs.subrange(0, i + 1));
        lemma_canon_all_err(cs.drop_last(), i);
    } else {
        assert(cs.subrange(0, i + 1) =~= cs);
    }
}

/// Canonicalizes a list of children (see [`spec_canon_list`]).
fn canon_list(children: Vec<Control>) -> (result: Result<Vec<Control>, ()>)
    ensures
        match result {
            Ok(out) => spec_canon_list(controls_view(children@)) == Ok::<Seq<ControlV>, ()>(
                controls_view(out@),
            ),
            Err(()) => spec_canon_list(controls_view(children@)) is Err,
        },
{
    let mut children = children;
    match merge_pairs(&mut children) {
        Ok(()) => fold_all(children),
        Err(()) => Err(()),
    }
}

/// Canonicalizes a control tree (see [`spec_canon`]).
pub fn canon(control: Control) -> (result: Result<(Control, bool), ()>)
    ensures
        match result {
            Ok((c, m)) => spec_canon(control@) == Ok::<(ControlV, bool), ()>((c@, m)),
            Err(()) => spec_canon(control@) is Err,
        },
    decreases control,
{
    match control {
        Control::Sequence(seq) => match canon_all(seq.children) {
            Ok((inner, _)) => match canon_list(inner) {
                Ok(children) => Ok((Control::Sequence(Sequence { children }), true)),
                Err(()) => Err(()),
            },
            Err(()) => Err(()),
        },
        Control::Par(par) => match canon_all(par.children) {
            Ok((inner, _)) => match canon_list(inner) {
                Ok(children) => Ok((Control::Par(Par { children }), true)),
                Err(()) => Err(()),
            },
            Err(()) => Err(()),
        },
        Control::For(for_) => {
            let For { variant, lower, exclusive_upper, body } = for_;
            match canon(*body) {
                Ok((body, m)) => Ok(
                    (Control::For(For { variant, lower, exclusive_upper, body: Box::new(body) }), m),
                ),
                Err(()) => Err(()),
            }
        },
        Control::IfElse(if_else) => {
            let IfElse { cond, true_branch, false_branch } = if_else;
            match (canon(*true_branch), canon(*false_branch)) {
                (Ok((t, m1)), Ok((f, m2))) => Ok(
                    (
                        Control::IfElse(
                            IfElse { cond, true_branch: Box::new(t), false_branch: Box::new(f) },
                        ),
                        m1 || m2,
                    ),
                ),
                _ => Err(()),
            }
        },
        other => Ok((other, false)),
    }
}

/// The control of a component whose partial accesses cannot be folded: one
/// of them does not index a variable.
pub struct MalformedAccess;

/// Folds chains of partial accesses into single accesses. Applied after the
/// well-formedness check and before every other pass.
pub struct Canonicalize;

impl Canonicalize {
    /// The pass; it takes no options.
    pub fn from(_options: PassOptions) -> (result: Self) {
        Canonicalize
    }

    /// The name of the pass.
    pub fn name() -> (result: &'static str)
        ensures
            result@ == "canonicalize"@,
    {
        "canonicalize"
    }

    /// Canonicalizes the control of `comp` and says whether it has a par or
    /// a sequence; fails, leaving `comp` as it was, where a partial access
    /// does not index a variable.
    pub fn run(&self, comp: &mut Component) -> (result: Result<bool, MalformedAccess>)
        ensures
            match result {
                Ok(m) => spec_canon(old(comp).cfg@) == Ok::<(ControlV, bool), ()>(
                    (final(comp).cfg@, m),
                ),
                Err(_) => spec_canon(old(comp).cfg@) is Err && final(comp).cfg@ == old(comp).cfg@,
            },
            final(comp).label == old(comp).label,
            final(comp).attributes == old(comp).attributes,
            final(comp).inputs@ == old(comp).inputs@,
            final(comp).outputs@ == old(comp).outputs@,
            final(comp).cell_alloc@ == old(comp).cell_alloc@,
    {
        let copy = comp.cfg.duplicate();
        match canon(copy) {
            Ok((new_cfg, m)) => {
                comp.cfg = new_cfg;
                Ok(m)
            },
            Err(()) => Err(MalformedAccess),
        }
    }
}

/// The port that indexes the variable `array` by `indices`, one partial
/// access per index, the outermost index first.
pub open spec fn chain_of(array: Variable, indices: Seq<PortV>) -> PortV
    decreases indices.len(),
{
    if indices.len() == 0 {
        PortV::Variable(array)
    } else {
        PortV::PartialAccess(Box::new(chain_of(array, indices.drop_first())), Box::new(indices[0]))
    }
}

/// Whether `q` is what canonicalization may make of the port `p`: `p`
/// itself when it is no partial access, otherwise one full access, with at
/// least one index, whose chain of partial accesses is `p`.
pub open spec fn folded_port(p: PortV, q: PortV) -> bool {
    if p is PartialAccess {
        q matches PortV::Access(array, indices) && indices.len() > 0 && chain_of(array, indices) == p
    } else {
        q == p
    }
}

/// Whether `r` is the operation `ir` with each of its ports folded (see
/// [`folded_port`]): the same kind of operation, each port the fold of the
/// same port of `ir`.
pub open spec fn folded_ir(ir: IrV, r: IrV) -> bool {
    match (ir, r) {
        (IrV::Add(k, a, b), IrV::Add(k2, a2, b2)) => folded_port(k, k2) && folded_port(a, a2)
            && folded_port(b, b2),
        (IrV::Mul(k, a, b), IrV::Mul(k2, a2, b2)) => folded_port(k, k2) && folded_port(a, a2)
            && folded_port(b, b2),
        (IrV::Assign(k, a), IrV::Assign(k2, a2)) => folded_port(k, k2) && folded_port(a, a2),
        _ => false,
    }
}

/// Folding a chain with `acc` already collected gives an access whose
/// indices are `acc` followed by those that spell the chain.
proof fn lemma_fold_chain(p: PortV, acc: Seq<PortV>)
    ensures
        spec_fold_chain(p, acc) matches Ok(q) ==> q matches PortV::Access(array, indices)
            && indices.len() >= acc.len() && indices.subrange(0, acc.len() as int) == acc
            && chain_of(array, indices.subrange(acc.len() as int, indices.len() as int)) == p,
    decreases p,
{
    match p {
        PortV::PartialAccess(inner, index) => {
            lemma_fold_chain(*inner, acc.push(*index));
            if let Ok(q) = spec_fold_chain(p, acc) {
                if let PortV::Access(array, indices) = q {
                    let n = acc.len() as int;
                    let rest = indices.subrange(n, indices.len() as int);
                    assert(indices.subrange(0, n) =~= indices.subrange(0, n + 1).subrange(0, n));
                    assert(indices.subrange(0, n + 1) =~= acc.push(*index));
                    assert(rest.drop_first() =~= indices.subrange(n + 1, indices.len() as int));
                    assert(indices.subrange(0, n + 1)[n] == indices[n]);
                    assert(acc.push(*index)[n] == *index);
                    assert(rest[0] == *index);
                    assert(chain_of(array, rest) == PortV::PartialAccess(
                        Box::new(chain_of(array, rest.drop_first())),
                        Box::new(rest[0]),
                    ));
                }
            }
        },
        PortV::Variable(array) => {
            assert(acc.subrange(0, acc.len() as int) =~= acc);
            assert(acc.subrange(acc.len() as int, acc.len() as int) =~= Seq::<PortV>::empty());
        },
        _ => {},
    }
}

/// Folding a port gives a port that stands for it (see [`folded_port`]).
proof fn lemma_fold(p: PortV)
    ensures
        spec_fold(p) matches Ok(q) ==> folded_port(p, q),
{
    if p is PartialAccess {
        lemma_fold_chain(p, Seq::empty());
        if let Ok(q) = spec_fold(p) {
            if let PortV::Access(array, indices) = q {
                assert(indices.subrange(0, indices.len() as int) =~= indices);
                assert(indices.len() > 0);
            }
        }
    }
}

/// Canonicalization only folds chains of partial accesses: a folded
/// operation is the same kind of operation, and each of its ports is the
/// fold of the same port of the original; a port that is no partial access
/// stays as it is.
pub proof fn law_fold_ir_folds_each_port(ir: IrV)
    ensures
        spec_fold_ir(ir) matches Ok(r) ==> folded_ir(ir, r),
{
    match ir {
        IrV::Add(k, a, b) => {
            lemma_fold(k);
            lemma_fold(a);
            lemma_fold(b);
        },
        IrV::Mul(k, a, b) => {
            lemma_fold(k);
            lemma_fold(a);
            lemma_fold(b);
        },
        IrV::Assign(k, a) => {
            lemma_fold(k);
            lemma_fold(a);
        },
    }
}

/// Folding a list keeps each child where it is: each operation is folded
/// (see [`folded_ir`]) and every other child stays as it is.
pub proof fn law_fold_all_keeps_children(cs: Seq<ControlV>)
    ensures
        spec_fold_all(cs) matches Ok(r) ==> r.len() == cs.len() && forall|i: int|
            0 <= i < cs.len() ==> match (#[trigger] cs[i], r[i]) {
                (ControlV::Enable(a), ControlV::Enable(b)) => folded_ir(a, b),
                (ControlV::Enable(_), _) => false,
                (x, y) => x == y,
            },
    decreases cs.len(),
{
    if cs.len() > 0 {
        let rest = cs.drop_last();
        law_fold_all_keeps_children(rest);
        if let Ok(r) = spec_fold_all(cs) {
            let prev = spec_fold_all(rest)->Ok_0;
            assert(r.drop_last() == prev);
            if let ControlV::Enable(ir) = cs.last() {
                law_fold_ir_folds_each_port(ir);
            }
            assert forall|i: int| 0 <= i < cs.len() implies match (#[trigger] cs[i], r[i]) {
                (ControlV::Enable(a), ControlV::Enable(b)) => folded_ir(a, b),
                (ControlV::Enable(_), _) => false,
                (x, y) => x == y,
            } by {
                if i < cs.len() - 1 {
                    assert(rest[i] == cs[i]);
                    assert(prev[i] == r[i]);
                }
            }
        }
    }
}

/// The array and the indices that a copy reads, when it reads one element
/// or one partial access of a variable.
pub open spec fn copy_reads_array(c: ControlV) -> Option<(Variable, Seq<PortV>)> {
    match c {
        ControlV::Enable(IrV::Assign(_, PortV::Access(array, indices))) => Some((array, indices)),
        ControlV::Enable(IrV::Assign(_, PortV::PartialAccess(inner, index))) => match *inner {
            PortV::Variable(array) => Some((array, seq![*index])),
            _ => None,
        },
        _ => None,
    }
}

/// Merging two copies, the second indexing further the port the first
/// wrote, gives one copy into the port the second wrote, reading the array
/// the first read, at the first's indices followed by the second's index.
pub proof fn law_pair_appends_index(first: ControlV, second: ControlV)
    ensures
        spec_pair(first, second) matches Ok(Some(r)) ==> {
            &&& first matches ControlV::Enable(IrV::Assign(temp, _))
            &&& second matches ControlV::Enable(IrV::Assign(result, PortV::PartialAccess(temp2, index2)))
            &&& *temp2 == temp
            &&& copy_reads_array(first) matches Some((array, indices))
            &&& r == ControlV::Enable(IrV::Assign(result, PortV::Access(array, indices.push(*index2))))
        },
{
    if let Ok(Some(r)) = spec_pair(first, second) {
        if let ControlV::Enable(IrV::Assign(_, PortV::PartialAccess(_, index))) = first {
            assert(seq![*index].push(
                *(second->Enable_0->Assign_1->PartialAccess_1),
            ) =~= seq![*index, *(second->Enable_0->Assign_1->PartialAccess_1)]);
        }
    }
}

} // verus!
