//! Synthesis of an address generator for a component: for each access that
//! the component makes to a memory, a thread that copies its control with
//! the operation that makes the access left out, and a schedule that starts
//! all threads early enough for their addresses to be ready.
use crate::ir::cell::Cell;
use crate::ir::component::{cells_map, Component};
use crate::ir::control::{controls_view, control_view, lemma_controls_view, Control, ControlV, For, Par};
use crate::ir::instr::{spec_gen, spec_kill, Ir, IrV};
use crate::ir::memory::{spec_flattened_length, spec_min_bits, Memory, MemoryLevel};
use crate::ir::label::{Label, Name, Visibility};
use crate::ir::pass::{comp_state, lower_ops, spec_run_ops, CompState, PassError, PassRunner};
use crate::ir::port::{Port, PortV, Variable};
use crate::frontend::ast::text_of;
use vstd::prelude::*;

verus! {

/// Whether an access writes to memory or reads from it.
#[derive(Clone, Copy, PartialEq, Eq, Structural)]
pub enum Direction {
    WriteTo,
    ReadFrom,
}

/// An access to memory: the access port, the number of the operation that
/// makes it (operations are numbered from zero in the order in which a
/// depth-first walk of the control meets them), and its direction.
pub struct AccessPort {
    pub port: Port,
    pub source: usize,
    pub direction: Direction,
}

/// The value of an [`AccessPort`].
pub struct AccessV {
    pub port: PortV,
    pub source: usize,
    pub direction: Direction,
}

impl View for AccessPort {
    type V = AccessV;

    open spec fn view(&self) -> AccessV {
        AccessV { port: self.port@, source: self.source, direction: self.direction }
    }
}

/// The values of a list of accesses.
pub open spec fn accesses_view(s: Seq<AccessPort>) -> Seq<AccessV> {
    s.map_values(|a: AccessPort| a@)
}

/// The number of operations in `c`.
pub open spec fn enable_count(c: ControlV) -> nat
    decreases c,
{
    match c {
        ControlV::Enable(_) => 1,
        ControlV::For(_, _, _, body) => enable_count(*body),
        ControlV::Sequence(cs) => enable_count_all(cs),
        ControlV::Par(cs) => enable_count_all(cs),
        ControlV::IfElse(_, t, f) => enable_count(*t) + enable_count(*f),
        _ => 0,
    }
}

/// The number of operations in `cs`.
pub open spec fn enable_count_all(cs: Seq<ControlV>) -> nat
    decreases cs,
{
    if cs.len() == 0 {
        0
    } else {
        enable_count_all(cs.drop_last()) + enable_count(cs.last())
    }
}

/// The access that the operation numbered `n` makes through the port `p`,
/// if `p` is an access to memory.
pub open spec fn port_access(p: PortV, n: usize, direction: Direction) -> Seq<AccessV> {
    if p is Access {
        seq![AccessV { port: p, source: n, direction }]
    } else {
        Seq::empty()
    }
}

/// The accesses of the operation `ir`, numbered `n`: the port it writes,
/// then the ports it reads, in order.
pub open spec fn enable_accesses(ir: IrV, n: usize) -> Seq<AccessV> {
    let gens = spec_gen(ir);
    port_access(spec_kill(ir), n, Direction::WriteTo) + port_access(gens[0], n, Direction::ReadFrom)
        + if gens.len() > 1 {
        port_access(gens[1], n, Direction::ReadFrom)
    } else {
        Seq::empty()
    }
}

/// The accesses of `c`, whose first operation is numbered `first`, in the
/// order of a depth-first walk (a branch's true arm before its false arm).
pub open spec fn spec_accesses(c: ControlV, first: int) -> Seq<AccessV>
    decreases c,
{
    match c {
        ControlV::Enable(ir) => enable_accesses(ir, first as usize),
        ControlV::For(_, _, _, body) => spec_accesses(*body, first),
        ControlV::Sequence(cs) => spec_accesses_all(cs, first),
        ControlV::Par(cs) => spec_accesses_all(cs, first),
        ControlV::IfElse(_, t, f) => spec_accesses(*t, first) + spec_accesses(
            *f,
            first + enable_count(*t),
        ),
        _ => Seq::empty(),
    }
}

/// The accesses of `cs` in order, whose first operation is numbered
/// `first`.
pub open spec fn spec_accesses_all(cs: Seq<ControlV>, first: int) -> Seq<AccessV>
    decreases cs,
{
    if cs.len() == 0 {
        Seq::empty()
    } else {
        spec_accesses_all(cs.drop_last(), first) + spec_accesses(
            cs.last(),
            first + enable_count_all(cs.drop_last()),
        )
    }
}

/// Counting a prefix counts no more than the whole.
proof fn lemma_enable_prefix(cs: Seq<ControlV>, i: int)
    requires
        0 <= i <= cs.len(),
    ensures
        enable_count_all(cs.subrange(0, i)) <= enable_count_all(cs),
    decreases cs.len(),
{
    if i == cs.len() {
        assert(cs.subrange(0, i) =~= cs);
    } else {
        assert(cs.subrange(0, i) =~= cs.drop_last().subrange(0, i));
        lemma_enable_prefix(cs.drop_last(), i);
    }
}

/// Taking the values of one more child.
proof fn lemma_controls_prefix(s: Seq<Control>, i: int)
    requires
        0 <= i < s.len(),
    ensures
        controls_view(s.subrange(0, i + 1)).drop_last() == controls_view(s.subrange(0, i)),
        controls_view(s.subrange(0, i + 1)).last() == control_view(s[i]),
        controls_view(s.subrange(0, i + 1)).len() == i + 1,
{
    assert(s.subrange(0, i + 1).drop_last() =~= s.subrange(0, i));
    lemma_controls_view(s.subrange(0, i + 1));
}

/// Appends to `out` the access that the operation numbered `n` makes
/// through `p`, if `p` is an access to memory.
fn push_access(out: &mut Vec<AccessPort>, p: &Port, n: usize, direction: Direction)
    ensures
        accesses_view(final(out)@) == accesses_view(old(out)@) + port_access(p@, n, direction),
{
    let ghost before = out@;
    if let Port::Access(_, _) = p {
        out.push(AccessPort { port: p.duplicate(), source: n, direction });
        proof {
            assert(accesses_view(out@) =~= accesses_view(before) + port_access(p@, n, direction));
        }
    } else {
        proof {
            assert(accesses_view(out@) =~= accesses_view(before) + port_access(p@, n, direction));
        }
    }
}

/// Appends the accesses of the operation `ir`, numbered `n`.
fn push_enable_accesses(out: &mut Vec<AccessPort>, ir: &Ir, n: usize)
    ensures
        accesses_view(final(out)@) == accesses_view(old(out)@) + enable_accesses(ir@, n),
{
    push_access(out, ir.kill(), n, Direction::WriteTo);
    match ir {
        Ir::Add(_, a, b) => {
            push_access(out, a, n, Direction::ReadFrom);
            push_access(out, b, n, Direction::ReadFrom);
        },
        Ir::Mul(_, a, b) => {
            push_access(out, a, n, Direction::ReadFrom);
            push_access(out, b, n, Direction::ReadFrom);
        },
        Ir::Assign(_, a) => {
            push_access(out, a, n, Direction::ReadFrom);
        },
    }
    proof {
        assert(accesses_view(out@) =~= accesses_view(old(out)@) + enable_accesses(ir@, n));
    }
}

/// Appends the accesses of `c`, whose first operation is numbered `first`,
/// and returns the number of operations in `c`.
fn collect_accesses(c: &Control, first: usize, out: &mut Vec<AccessPort>) -> (count: usize)
    requires
        first + enable_count(c@) <= usize::MAX,
    ensures
        count == enable_count(c@),
        accesses_view(final(out)@) == accesses_view(old(out)@) + spec_accesses(c@, first as int),
    decreases *c,
{
    match c {
        Control::Enable(ir) => {
            push_enable_accesses(out, ir, first);
            1
        },
        Control::For(f) => collect_accesses(&f.body, first, out),
        Control::Sequence(s) => collect_accesses_all(&s.children, first, out),
        Control::Par(p) => collect_accesses_all(&p.children, first, out),
        Control::IfElse(i) => {
            let t = collect_accesses(&i.true_branch, first, out);
            let f = collect_accesses(&i.false_branch, first + t, out);
            proof {
                assert(accesses_view(out@) =~= accesses_view(old(out)@) + spec_accesses(c@, first as int));
            }
            t + f
        },
        _ => {
            proof {
                assert(accesses_view(out@) =~= accesses_view(old(out)@) + spec_accesses(c@, first as int));
            }
            0
        },
    }
}

/// Appends the accesses of `cs` in order, whose first operation is numbered
/// `first`, and returns the number of operations in `cs`.
fn collect_accesses_all(cs: &Vec<Control>, first: usize, out: &mut Vec<AccessPort>) -> (count: usize)
    requires
        first + enable_count_all(controls_view(cs@)) <= usize::MAX,
    ensures
        count == enable_count_all(controls_view(cs@)),
        accesses_view(final(out)@) == accesses_view(old(out)@) + spec_accesses_all(
            controls_view(cs@),
            first as int,
        ),
    decreases cs@,
{
    let n = cs.len();
    let mut i: usize = 0;
    let mut count: usize = 0;
    proof {
        assert(cs@.subrange(0, 0) =~= Seq::<Control>::empty());
        assert(accesses_view(out@) =~= accesses_view(old(out)@) + spec_accesses_all(
            controls_view(cs@.subrange(0, 0)),
            first as int,
        ));
    }
    while i < n
        invariant
            0 <= i <= n,
            n == cs@.len(),
            first + enable_count_all(controls_view(cs@)) <= usize::MAX,
            count == enable_count_all(controls_view(cs@.subrange(0, i as int))),
            accesses_view(out@) == accesses_view(old(out)@) + spec_accesses_all(
                controls_view(cs@.subrange(0, i as int)),
                first as int,
            ),
        decreases n - i,
    {
        proof {
            assert(decreases_to!(cs@ => cs@[i as int]));
            lemma_controls_prefix(cs@, i as int);
            lemma_controls_view(cs@);
            assert(cs@.subrange(0, i + 1) == cs@.subrange(0, i + 1));
            assert(controls_view(cs@).subrange(0, i + 1) =~= controls_view(cs@.subrange(0, i + 1))) by {
                lemma_controls_view(cs@.subrange(0, i + 1));
            }
            lemma_enable_prefix(controls_view(cs@), i + 1);
        }
        let ghost before = accesses_view(out@);
        let k = collect_accesses(&cs[i], first + count, out);
        proof {
            assert(accesses_view(out@) =~= accesses_view(old(out)@) + spec_accesses_all(
                controls_view(cs@.subrange(0, i + 1)),
                first as int,
            ));
        }
        count = count + k;
        i = i + 1;
    }
    proof {
        assert(cs@.subrange(0, n as int) =~= cs@);
    }
    count
}

/// Whether `c` holds no delay and no branch: address threads copy only
/// operations, loops, sequences and pars.
pub open spec fn thread_copyable(c: ControlV) -> bool
    decreases c,
{
    match c {
        ControlV::Delay(_) => false,
        ControlV::IfElse(_, _, _) => false,
        ControlV::For(_, _, _, body) => thread_copyable(*body),
        ControlV::Sequence(cs) => thread_copyable_all(cs),
        ControlV::Par(cs) => thread_copyable_all(cs),
        _ => true,
    }
}

/// Whether each of `cs` is [`thread_copyable`].
pub open spec fn thread_copyable_all(cs: Seq<ControlV>) -> bool
    decreases cs,
{
    if cs.len() == 0 {
        true
    } else {
        thread_copyable_all(cs.drop_last()) && thread_copyable(cs.last())
    }
}

/// What copying `c` (whose first operation is numbered `first`) into the
/// thread of the operation numbered `target` adds to the time step it
/// stands in: nothing for an empty control; a loop over the copy of its
/// body as one step; a sequence of one step per child and a last empty
/// step (an empty step for an empty sequence); a par of the children's
/// copies; the operation itself, or an empty step in place of the target.
pub open spec fn thread_copy(c: ControlV, first: int, target: int) -> Seq<ControlV>
    decreases c,
{
    match c {
        ControlV::For(v, lower, upper, body) => seq![
            ControlV::For(v, lower, upper, Box::new(ControlV::Par(thread_copy(*body, first, target)))),
        ],
        ControlV::Sequence(cs) => seq![
            if cs.len() == 0 {
                ControlV::Par(Seq::empty())
            } else {
                ControlV::Sequence(thread_steps(cs, first, target).push(ControlV::Par(Seq::empty())))
            },
        ],
        ControlV::Par(cs) => seq![ControlV::Par(thread_copy_all(cs, first, target))],
        ControlV::Enable(ir) => if first == target {
            seq![ControlV::Par(Seq::empty())]
        } else {
            seq![ControlV::Enable(ir)]
        },
        _ => Seq::empty(),
    }
}

/// One step per child of `cs`: the child's copy (see [`thread_copy`]).
pub open spec fn thread_steps(cs: Seq<ControlV>, first: int, target: int) -> Seq<ControlV>
    decreases cs,
{
    if cs.len() == 0 {
        Seq::empty()
    } else {
        thread_steps(cs.drop_last(), first, target).push(
            ControlV::Par(thread_copy(cs.last(), first + enable_count_all(cs.drop_last()), target)),
        )
    }
}

/// The copies of the children of `cs` (see [`thread_copy`]), joined.
pub open spec fn thread_copy_all(cs: Seq<ControlV>, first: int, target: int) -> Seq<ControlV>
    decreases cs,
{
    if cs.len() == 0 {
        Seq::empty()
    } else {
        thread_copy_all(cs.drop_last(), first, target) + thread_copy(
            cs.last(),
            first + enable_count_all(cs.drop_last()),
            target,
        )
    }
}

/// The values of an optional control, as a list of at most one.
pub open spec fn optional_view(o: Option<Control>) -> Seq<ControlV> {
    match o {
        Some(c) => seq![c@],
        None => Seq::empty(),
    }
}

/// Copies `c`, whose first operation is numbered `first`, for the thread of
/// the operation numbered `target` (see [`thread_copy`]); returns the copy,
/// if any, and the number of operations in `c`.
fn copy_for_thread(c: &Control, first: usize, target: usize) -> (result: (Option<Control>, usize))
    requires
        first + enable_count(c@) <= usize::MAX,
        thread_copyable(c@),
    ensures
        optional_view(result.0) == thread_copy(c@, first as int, target as int),
        result.1 == enable_count(c@),
    decreases *c,
{
    match c {
        Control::Enable(ir) => {
            proof {
                assert(controls_view(Seq::<Control>::empty()) =~= Seq::<ControlV>::empty());
            }
            if first == target {
                let r = Control::Par(Par::new());
                proof {
                    assert(r@ == ControlV::Par(Seq::empty()));
                    assert(optional_view(Some(r)) =~= thread_copy(c@, first as int, target as int));
                }
                (Some(r), 1)
            } else {
                let r = Control::Enable(ir.duplicate());
                proof {
                    assert(optional_view(Some(r)) =~= thread_copy(c@, first as int, target as int));
                }
                (Some(r), 1)
            }
        },
        Control::For(f) => {
            let (body, k) = copy_for_thread(&f.body, first, target);
            let mut children: Vec<Control> = Vec::new();
            if let Some(b) = body {
                children.push(b);
            }
            proof {
                assert(controls_view(children@) =~= thread_copy(f.body@, first as int, target as int)) by {
                    lemma_controls_view(children@);
                }
            }
            let copied = For::new(
                f.variant,
                f.lower.duplicate(),
                f.exclusive_upper.duplicate(),
                Control::par(children),
            );
            let r = Control::For(copied);
            proof {
                assert(optional_view(Some(r)) =~= thread_copy(c@, first as int, target as int));
            }
            (Some(r), k)
        },
        Control::Sequence(s) => {
            let (steps, k) = copy_steps(&s.children, first, target);
            if s.children.len() == 0 {
                let r = Control::Par(Par::new());
                proof {
                    assert(controls_view(Seq::<Control>::empty()) =~= Seq::<ControlV>::empty());
                    assert(controls_view(s.children@) =~= Seq::<ControlV>::empty());
                    assert(optional_view(Some(r)) =~= thread_copy(c@, first as int, target as int));
                }
                (Some(r), k)
            } else {
                let mut steps = steps;
                let ghost before = steps@;
                let empty = Control::Par(Par::new());
                proof {
                    assert(controls_view(Seq::<Control>::empty()) =~= Seq::<ControlV>::empty());
                    assert(empty@ == ControlV::Par(Seq::empty()));
                }
                steps.push(empty);
                proof {
                    assert(steps@.last() == empty);
                    assert(steps@.drop_last() =~= before);
                    assert(controls_view(Seq::<Control>::empty()) =~= Seq::<ControlV>::empty());
                    lemma_controls_view(s.children@);
                    assert(controls_view(steps@) == controls_view(before).push(
                        ControlV::Par(Seq::empty()),
                    ));
                }
                let r = Control::seq(steps);
                proof {
                    assert(optional_view(Some(r)) =~= thread_copy(c@, first as int, target as int));
                }
                (Some(r), k)
            }
        },
        Control::Par(p) => {
            let (children, k) = copy_all(&p.children, first, target);
            let r = Control::par(children);
            proof {
                assert(optional_view(Some(r)) =~= thread_copy(c@, first as int, target as int));
            }
            (Some(r), k)
        },
        _ => {
            proof {
                assert(optional_view(None) =~= thread_copy(c@, first as int, target as int));
            }
            (None, 0)
        },
    }
}

/// The steps of copying each of `cs` (see [`thread_steps`]), and the number
/// of operations in `cs`.
fn copy_steps(cs: &Vec<Control>, first: usize, target: usize) -> (result: (Vec<Control>, usize))
    requires
        first + enable_count_all(controls_view(cs@)) <= usize::MAX,
        thread_copyable_all(controls_view(cs@)),
    ensures
        controls_view(result.0@) == thread_steps(controls_view(cs@), first as int, target as int),
        result.1 == enable_count_all(controls_view(cs@)),
    decreases cs@,
{
    let n = cs.len();
    let mut i: usize = 0;
    let mut count: usize = 0;
    let mut steps: Vec<Control> = Vec::new();
    proof {
        assert(cs@.subrange(0, 0) =~= Seq::<Control>::empty());
    }
    while i < n
        invariant
            0 <= i <= n,
            n == cs@.len(),
            first + enable_count_all(controls_view(cs@)) <= usize::MAX,
            thread_copyable_all(controls_view(cs@)),
            count == enable_count_all(controls_view(cs@.subrange(0, i as int))),
            controls_view(steps@) == thread_steps(
                controls_view(cs@.subrange(0, i as int)),
                first as int,
                target as int,
            ),
        decreases n - i,
    {
        proof {
            assert(decreases_to!(cs@ => cs@[i as int]));
            lemma_controls_prefix(cs@, i as int);
            lemma_controls_view(cs@);
            assert(controls_view(cs@).subrange(0, i + 1) =~= controls_view(cs@.subrange(0, i + 1))) by {
                lemma_controls_view(cs@.subrange(0, i + 1));
            }
            lemma_enable_prefix(controls_view(cs@), i + 1);
            lemma_copyable_at(controls_view(cs@), i as int);
        }
        let (copy, k) = copy_for_thread(&cs[i], first + count, target);
        let mut children: Vec<Control> = Vec::new();
        if let Some(x) = copy {
            children.push(x);
        }
        proof {
            assert(controls_view(children@) =~= optional_view(copy)) by {
                lemma_controls_view(children@);
            }
        }
        let ghost before = steps@;
        steps.push(Control::par(children));
        proof {
            assert(steps@.drop_last() =~= before);
        }
        count = count + k;
        i = i + 1;
    }
    proof {
        assert(cs@.subrange(0, n as int) =~= cs@);
    }
    (steps, count)
}

/// The copies of each of `cs`, joined (see [`thread_copy_all`]), and the
/// number of operations in `cs`.
fn copy_all(cs: &Vec<Control>, first: usize, target: usize) -> (result: (Vec<Control>, usize))
    requires
        first + enable_count_all(controls_view(cs@)) <= usize::MAX,
        thread_copyable_all(controls_view(cs@)),
    ensures
        controls_view(result.0@) == thread_copy_all(controls_view(cs@), first as int, target as int),
        result.1 == enable_count_all(controls_view(cs@)),
    decreases cs@,
{
    let n = cs.len();
    let mut i: usize = 0;
    let mut count: usize = 0;
    let mut items: Vec<Control> = Vec::new();
    proof {
        assert(cs@.subrange(0, 0) =~= Seq::<Control>::empty());
        assert(controls_view(items@) =~= Seq::<ControlV>::empty());
    }
    while i < n
        invariant
            0 <= i <= n,
            n == cs@.len(),
            first + enable_count_all(controls_view(cs@)) <= usize::MAX,
            thread_copyable_all(controls_view(cs@)),
            count == enable_count_all(controls_view(cs@.subrange(0, i as int))),
            controls_view(items@) == thread_copy_all(
                controls_view(cs@.subrange(0, i as int)),
                first as int,
                target as int,
            ),
        decreases n - i,
    {
        proof {
            assert(decreases_to!(cs@ => cs@[i as int]));
            lemma_controls_prefix(cs@, i as int);
            lemma_controls_view(cs@);
            assert(controls_view(cs@).subrange(0, i + 1) =~= controls_view(cs@.subrange(0, i + 1))) by {
                lemma_controls_view(cs@.subrange(0, i + 1));
            }
            lemma_enable_prefix(controls_view(cs@), i + 1);
            lemma_copyable_at(controls_view(cs@), i as int);
        }
        let (copy, k) = copy_for_thread(&cs[i], first + count, target);
        let ghost before = items@;
        if let Some(x) = copy {
            items.push(x);
            proof {
                assert(items@.drop_last() =~= before);
            }
        }
        proof {
            assert(controls_view(items@) =~= controls_view(before) + optional_view(copy));
        }
        count = count + k;
        i = i + 1;
    }
    proof {
        assert(cs@.subrange(0, n as int) =~= cs@);
    }
    (items, count)
}

/// Each child of a copyable list is copyable.
proof fn lemma_copyable_at(cs: Seq<ControlV>, i: int)
    requires
        0 <= i < cs.len(),
        thread_copyable_all(cs),
    ensures
        thread_copyable(cs[i]),
    decreases cs.len(),
{
    if i < cs.len() - 1 {
        assert(cs.drop_last()[i] == cs[i]);
        lemma_copyable_at(cs.drop_last(), i);
    }
}

/// The accesses that a component's control makes to memory.
pub struct AccessExtraction {
    pub access_ports: Vec<AccessPort>,
}

impl AccessExtraction {
    /// The accesses of `comp`'s control, in order (see [`spec_accesses`]).
    pub fn from(comp: &Component) -> (result: Self)
        requires
            enable_count(comp.cfg@) <= usize::MAX,
        ensures
            accesses_view(result.access_ports@) == spec_accesses(comp.cfg@, 0),
    {
        let mut access_ports: Vec<AccessPort> = Vec::new();
        collect_accesses(&comp.cfg, 0, &mut access_ports);
        proof {
            assert(accesses_view(Seq::<AccessPort>::empty()) + spec_accesses(comp.cfg@, 0)
                =~= spec_accesses(comp.cfg@, 0));
        }
        AccessExtraction { access_ports }
    }
}

/// The control that computes the address of one access, with the access.
pub struct AddressThread {
    pub access_port: AccessPort,
    pub control: Control,
}

/// The control of the thread for the operation numbered `target` of `cfg`:
/// a copy of `cfg` as one step (see [`thread_copy`]).
pub open spec fn thread_control(cfg: ControlV, target: int) -> ControlV {
    ControlV::Par(thread_copy(cfg, 0, target))
}

/// How many cycles early a thread must start: a read waits for the memory
/// to answer, a write does not.
pub open spec fn thread_lead(direction: Direction, memory_access_latency: usize) -> nat {
    match direction {
        Direction::ReadFrom => memory_access_latency as nat,
        Direction::WriteTo => 0,
    }
}

/// The largest lead among threads of the given directions, or zero when
/// there are none.
pub open spec fn max_lead(ds: Seq<Direction>, memory_access_latency: usize) -> nat
    decreases ds.len(),
{
    if ds.len() == 0 {
        0
    } else {
        let rest = max_lead(ds.drop_last(), memory_access_latency);
        let last = thread_lead(ds.last(), memory_access_latency);
        if rest >= last {
            rest
        } else {
            last
        }
    }
}

/// The schedule of threads of directions `ds` and controls `controls`: all
/// in one par, each after a delay of the largest lead less its own.
pub open spec fn spec_schedule(ds: Seq<Direction>, controls: Seq<ControlV>, memory_access_latency: usize) -> ControlV {
    let global = max_lead(ds, memory_access_latency);
    ControlV::Par(
        Seq::new(
            ds.len(),
            |i: int|
                ControlV::Sequence(
                    seq![
                        ControlV::Delay((global - thread_lead(ds[i], memory_access_latency)) as usize),
                        controls[i],
                    ],
                ),
        ),
    )
}

/// The directions of the threads `ts`.
pub open spec fn thread_directions(ts: Seq<AddressThread>) -> Seq<Direction> {
    ts.map_values(|t: AddressThread| t.access_port.direction)
}

/// The controls of the threads `ts`.
pub open spec fn thread_controls(ts: Seq<AddressThread>) -> Seq<ControlV> {
    ts.map_values(|t: AddressThread| t.control@)
}

/// The lead of each thread is at most the largest.
proof fn lemma_max_lead(ds: Seq<Direction>, latency: usize, i: int)
    requires
        0 <= i < ds.len(),
    ensures
        thread_lead(ds[i], latency) <= max_lead(ds, latency),
        max_lead(ds, latency) <= latency,
    decreases ds.len(),
{
    if i < ds.len() - 1 {
        assert(ds.drop_last()[i] == ds[i]);
        lemma_max_lead(ds.drop_last(), latency, i);
    } else if ds.len() > 1 {
        lemma_max_lead(ds.drop_last(), latency, 0);
    }
}

/// Builds the threads of an address generator and schedules them.
pub struct AddressGeneratorContext {
    /// Assumed to be constant.
    pub memory_access_latency: usize,
    pub threads: Vec<AddressThread>,
}

impl AddressGeneratorContext {
    /// A context with no threads yet.
    pub fn new(memory_access_latency: usize) -> (result: Self)
        ensures
            result.memory_access_latency == memory_access_latency,
            result.threads@.len() == 0,
    {
        AddressGeneratorContext { memory_access_latency, threads: Vec::new() }
    }

    /// Adds the thread of `access_port`: a copy of `comp`'s control in which
    /// the operation that makes the access is replaced by an empty step.
    pub fn build_address_thread(&mut self, comp: &Component, access_port: AccessPort)
        requires
            enable_count(comp.cfg@) <= usize::MAX,
            thread_copyable(comp.cfg@),
        ensures
            final(self).memory_access_latency == old(self).memory_access_latency,
            final(self).threads@.len() == old(self).threads@.len() + 1,
            final(self).threads@.drop_last() == old(self).threads@,
            final(self).threads@.last().access_port@ == access_port@,
            final(self).threads@.last().control@ == thread_control(comp.cfg@, access_port.source as int),
    {
        let (copy, _) = copy_for_thread(&comp.cfg, 0, access_port.source);
        let mut children: Vec<Control> = Vec::new();
        if let Some(x) = copy {
            children.push(x);
        }
        proof {
            assert(controls_view(children@) =~= optional_view(copy)) by {
                lemma_controls_view(children@);
            }
        }
        let control = Control::par(children);
        let ghost before = self.threads@;
        self.threads.push(AddressThread { access_port, control });
        proof {
            assert(self.threads@.drop_last() =~= before);
        }
    }

    /// The threads in one par, each delayed so that all addresses are ready
    /// in step, and the number of cycles by which the whole starts early
    /// (see [`spec_schedule`]).
    pub fn schedule(self) -> (result: (Control, usize))
        ensures
            result.1 == max_lead(thread_directions(self.threads@), self.memory_access_latency),
            result.0@ == spec_schedule(
                thread_directions(self.threads@),
                thread_controls(self.threads@),
                self.memory_access_latency,
            ),
    {
        let ghost ds = thread_directions(self.threads@);
        let latency = self.memory_access_latency;
        let n = self.threads.len();
        let mut global: usize = 0;
        let mut i: usize = 0;
        proof {
            assert(ds.subrange(0, 0) =~= Seq::<Direction>::empty());
        }
        while i < n
            invariant
                0 <= i <= n,
                n == self.threads@.len(),
                ds == thread_directions(self.threads@),
                latency == self.memory_access_latency,
                global == max_lead(ds.subrange(0, i as int), latency),
            decreases n - i,
        {
            proof {
                assert(ds.subrange(0, i + 1).drop_last() =~= ds.subrange(0, i as int));
                assert(ds.subrange(0, i + 1).last() == self.threads@[i as int].access_port.direction);
            }
            let lead: usize = match self.threads[i].access_port.direction {
                Direction::ReadFrom => latency,
                Direction::WriteTo => 0,
            };
            if lead > global {
                global = lead;
            }
            i = i + 1;
        }
        proof {
            assert(ds.subrange(0, n as int) =~= ds);
        }
        let mut scheduled: Vec<Control> = Vec::new();
        let mut i: usize = 0;
        while i < n
            invariant
                0 <= i <= n,
                n == self.threads@.len(),
                ds == thread_directions(self.threads@),
                ds.len() == n,
                latency == self.memory_access_latency,
                global == max_lead(ds, latency),
                scheduled@.len() == i,
                forall|j: int|
                    0 <= j < i ==> control_view(#[trigger] scheduled@[j]) == spec_schedule(
                        ds,
                        thread_controls(self.threads@),
                        latency,
                    )->Par_0[j],
            decreases n - i,
        {
            proof {
                lemma_max_lead(ds, latency, i as int);
            }
            let thread = &self.threads[i];
            let lead: usize = match thread.access_port.direction {
                Direction::ReadFrom => latency,
                Direction::WriteTo => 0,
            };
            let mut pair: Vec<Control> = Vec::new();
            pair.push(Control::Delay(global - lead));
            pair.push(thread.control.duplicate());
            proof {
                lemma_controls_view(pair@);
                assert(controls_view(pair@) =~= seq![
                    ControlV::Delay((global - thread_lead(ds[i as int], latency)) as usize),
                    thread_controls(self.threads@)[i as int],
                ]);
            }
            scheduled.push(Control::seq(pair));
            i = i + 1;
        }
        proof {
            lemma_controls_view(scheduled@);
            assert(controls_view(scheduled@) =~= spec_schedule(
                ds,
                thread_controls(self.threads@),
                latency,
            )->Par_0);
        }
        (Control::par(scheduled), global)
    }
}

/// Cycles a memory takes to answer a read, taken as constant.
pub const MEMORY_ACCESS_LATENCY: usize = 10;

/// For each memory among `entries`, in order, a register wide enough to
/// hold the address of any of its words.
pub open spec fn address_registers(entries: Seq<(Variable, Cell)>) -> Seq<(Variable, Cell)>
    decreases entries.len(),
{
    if entries.len() == 0 {
        Seq::empty()
    } else {
        let rest = address_registers(entries.drop_last());
        match entries.last().1 {
            Cell::Memory(m) => rest.push(
                (
                    entries.last().0,
                    Cell::Register(spec_min_bits(spec_flattened_length(m.spec_levels())) as usize),
                ),
            ),
            Cell::Register(_) => rest,
        }
    }
}

/// Whether the number of words of each memory among `entries`, and each
/// product of its first level lengths, fits in a machine word.
pub open spec fn memories_addressable(entries: Seq<(Variable, Cell)>) -> bool {
    forall|i: int|
        0 <= i < entries.len() ==> match #[trigger] entries[i].1 {
            Cell::Memory(m) => forall|j: int|
                0 <= j <= m.spec_levels().len() ==> spec_flattened_length(
                    #[trigger] m.spec_levels().subrange(0, j),
                ) <= usize::MAX,
            Cell::Register(_) => true,
        }
}

/// The control of the address generator of a component whose control is
/// `cfg`: one thread per access, scheduled (see [`spec_schedule`]).
pub open spec fn agen_control(cfg: ControlV) -> ControlV {
    let accesses = spec_accesses(cfg, 0);
    spec_schedule(
        accesses.map_values(|a: AccessV| a.direction),
        accesses.map_values(|a: AccessV| thread_control(cfg, a.source as int)),
        MEMORY_ACCESS_LATENCY,
    )
}

/// The name of the address generator of the component named `name`.
pub open spec fn agen_name(name: Seq<char>) -> Seq<char> {
    name + "_agen"@
}

/// The address generator of `comp` before it is lowered: its control and
/// its cells, the address registers.
pub open spec fn agen_state(comp: Component) -> CompState {
    CompState { cfg: agen_control(comp.cfg@), cells: cells_map(address_registers(comp.cell_alloc@)) }
}

/// Synthesizes an address generator for a component.
pub struct AddressGeneratorTransform;

impl AddressGeneratorTransform {
    /// The address generator of `comp`: a public component named after it
    /// with `_agen`, with no inputs, an address register output per memory
    /// of `comp` and the scheduled threads as control, lowered (see
    /// [`PassRunner::lower`]); or the error of the lowering.
    pub fn apply(&mut self, comp: &Component) -> (result: Result<Component, PassError>)
        requires
            comp.wf(),
            enable_count(comp.cfg@) <= usize::MAX,
            spec_accesses(comp.cfg@, 0).len() > 0 ==> thread_copyable(comp.cfg@) && !(comp.cfg@ is Enable),
            memories_addressable(comp.cell_alloc@),
        ensures
            spec_run_ops(
                lower_ops(),
                agen_state(*comp),
                false,
                0,
                Seq::empty(),
                Seq::empty(),
                address_registers(comp.cell_alloc@),
            ) == match result {
                Ok(a) => Ok::<CompState, PassError>(comp_state(a)),
                Err(e) => Err::<CompState, PassError>(e),
            },
            result matches Ok(a) ==> {
                &&& a.wf()
                &&& a.label.name.unmangled@ == agen_name(comp.label.name.unmangled@)
                &&& a.label.name.mangled@ == agen_name(comp.label.name.unmangled@)
                &&& !a.label.name.is_native
                &&& a.label.visibility == Visibility::Public
                &&& a.inputs@.len() == 0
                &&& a.outputs@ == address_registers(comp.cell_alloc@)
                &&& forall|attr| !a.spec_attributes().contains(attr)
            },
    {
        let n = comp.cell_alloc.len();
        let mut outputs: Vec<(Variable, Cell)> = Vec::new();
        let mut i: usize = 0;
        proof {
            assert(comp.cell_alloc@.subrange(0, 0) =~= Seq::<(Variable, Cell)>::empty());
        }
        while i < n
            invariant
                0 <= i <= n,
                n == comp.cell_alloc@.len(),
                memories_addressable(comp.cell_alloc@),
                outputs@ == address_registers(comp.cell_alloc@.subrange(0, i as int)),
            decreases n - i,
        {
            proof {
                assert(comp.cell_alloc@.subrange(0, i + 1).drop_last() =~= comp.cell_alloc@.subrange(0, i as int));
            }
            let var = comp.cell_alloc[i].0;
            match &comp.cell_alloc[i].1 {
                Cell::Memory(m) => {
                    let width = m.flattened_address_width();
                    outputs.push((var, Cell::Register(width)));
                },
                Cell::Register(_) => {},
            }
            i = i + 1;
        }
        proof {
            assert(comp.cell_alloc@.subrange(0, n as int) =~= comp.cell_alloc@);
        }
        let mut text = text_of(comp.label.name.unmangled.as_str());
        text.append("_agen");
        proof {
            reveal_strlit("_agen");
        }
        let label = Label::from(Name::from(text.as_str()), Visibility::Public);

        let extraction = AccessExtraction::from(comp);
        let ghost accesses = spec_accesses(comp.cfg@, 0);
        let mut context = AddressGeneratorContext::new(MEMORY_ACCESS_LATENCY);
        let count = extraction.access_ports.len();
        let mut k: usize = 0;
        proof {
            assert(accesses_view(extraction.access_ports@).len() == count);
        }
        while k < count
            invariant
                0 <= k <= count,
                count == extraction.access_ports@.len(),
                accesses_view(extraction.access_ports@) == accesses,
                accesses == spec_accesses(comp.cfg@, 0),
                enable_count(comp.cfg@) <= usize::MAX,
                accesses.len() > 0 ==> thread_copyable(comp.cfg@),
                context.memory_access_latency == MEMORY_ACCESS_LATENCY,
                context.threads@.len() == k,
                forall|j: int|
                    0 <= j < k ==> (#[trigger] context.threads@[j]).access_port.direction == accesses[j].direction
                        && context.threads@[j].control@ == thread_control(comp.cfg@, accesses[j].source as int),
            decreases count - k,
        {
            let a = &extraction.access_ports[k];
            proof {
                assert(accesses_view(extraction.access_ports@)[k as int] == a@);
            }
            let access = AccessPort { port: a.port.duplicate(), source: a.source, direction: a.direction };
            let ghost before = context.threads@;
            context.build_address_thread(comp, access);
            proof {
                assert(context.threads@[k as int] == context.threads@.last());
                assert(accesses[k as int] == a@);
                assert(context.threads@[k as int].access_port.direction == accesses[k as int].direction);
                assert(context.threads@[k as int].control@ == thread_control(
                    comp.cfg@,
                    accesses[k as int].source as int,
                ));
                assert forall|j: int| 0 <= j < k + 1 implies (#[trigger] context.threads@[j]).access_port.direction
                    == accesses[j].direction && context.threads@[j].control@ == thread_control(
                    comp.cfg@,
                    accesses[j].source as int,
                ) by {
                    if j < k {
                        assert(context.threads@.drop_last()[j] == context.threads@[j]);
                        assert(before[j] == context.threads@[j]);
                    }
                }
            }
            k = k + 1;
        }
        let ghost threads = context.threads@;
        proof {
            assert(thread_directions(threads) =~= accesses.map_values(|a: AccessV| a.direction));
            assert(thread_controls(threads) =~= accesses.map_values(
                |a: AccessV| thread_control(comp.cfg@, a.source as int),
            ));
        }
        let (cfg, _) = context.schedule();
        let ghost outs = outputs@;
        let mut agen = Component::new(label, Vec::new(), outputs, cfg);
        proof {
            assert(Seq::<(Variable, Cell)>::empty() + outs =~= outs);
            assert(comp_state(agen) == agen_state(*comp));
        }
        proof {
            assert(agen.label.name.unmangled@ == agen_name(comp.label.name.unmangled@));
            assert(agen.outputs@ == address_registers(comp.cell_alloc@));
        }
        let ghost pre = agen;
        let runner = PassRunner::lower();
        match runner.run(&mut agen) {
            Ok(()) => {
                proof {
                    assert(agen.inputs@.len() == 0);
                    assert(agen.outputs@ == address_registers(comp.cell_alloc@));
                    assert(agen.label.visibility == Visibility::Public);
                    assert forall|attr| !agen.spec_attributes().contains(attr) by {
                        assert(!pre.spec_attributes().contains(attr));
                    }
                }
                Ok(agen)
            },
            Err(e) => Err(e),
        }
    }
}

/// Whether `c` is [`thread_copyable`].
pub fn is_thread_copyable(c: &Control) -> (result: bool)
    ensures
        result == thread_copyable(c@),
    decreases *c,
{
    match c {
        Control::Delay(_) => false,
        Control::IfElse(_) => false,
        Control::For(f) => is_thread_copyable(&f.body),
        Control::Sequence(s) => all_thread_copyable(&s.children),
        Control::Par(p) => all_thread_copyable(&p.children),
        _ => true,
    }
}

/// Whether each of `cs` is [`thread_copyable`].
fn all_thread_copyable(cs: &Vec<Control>) -> (result: bool)
    ensures
        result == thread_copyable_all(controls_view(cs@)),
    decreases cs@,
{
    let n = cs.len();
    let mut i: usize = 0;
    proof {
        assert(cs@.subrange(0, 0) =~= Seq::<Control>::empty());
    }
    while i < n
        invariant
            0 <= i <= n,
            n == cs@.len(),
            thread_copyable_all(controls_view(cs@.subrange(0, i as int))),
        decreases n - i,
    {
        proof {
            assert(decreases_to!(cs@ => cs@[i as int]));
            lemma_controls_prefix(cs@, i as int);
        }
        if !is_thread_copyable(&cs[i]) {
            proof {
                lemma_controls_view(cs@);
                if thread_copyable_all(controls_view(cs@)) {
                    lemma_copyable_at(controls_view(cs@), i as int);
                }
            }
            return false;
        }
        i = i + 1;
    }
    proof {
        assert(cs@.subrange(0, n as int) =~= cs@);
    }
    true
}

/// The number of operations in `c`, or `None` when it does not fit in a
/// machine word.
pub fn checked_enable_count(c: &Control) -> (result: Option<usize>)
    ensures
        match result {
            Some(n) => n == enable_count(c@),
            None => enable_count(c@) > usize::MAX,
        },
    decreases *c,
{
    match c {
        Control::Enable(_) => Some(1),
        Control::For(f) => checked_enable_count(&f.body),
        Control::Sequence(s) => checked_enable_count_all(&s.children),
        Control::Par(p) => checked_enable_count_all(&p.children),
        Control::IfElse(i) => {
            let t = checked_enable_count(&i.true_branch)?;
            let f = checked_enable_count(&i.false_branch)?;
            t.checked_add(f)
        },
        _ => Some(0),
    }
}

/// The number of operations in `cs`, or `None` when it does not fit in a
/// machine word.
fn checked_enable_count_all(cs: &Vec<Control>) -> (result: Option<usize>)
    ensures
        match result {
            Some(n) => n == enable_count_all(controls_view(cs@)),
            None => enable_count_all(controls_view(cs@)) > usize::MAX,
        },
    decreases cs@,
{
    let n = cs.len();
    let mut i: usize = 0;
    let mut count: usize = 0;
    proof {
        assert(cs@.subrange(0, 0) =~= Seq::<Control>::empty());
    }
    while i < n
        invariant
            0 <= i <= n,
            n == cs@.len(),
            count == enable_count_all(controls_view(cs@.subrange(0, i as int))),
        decreases n - i,
    {
        proof {
            assert(decreases_to!(cs@ => cs@[i as int]));
            lemma_controls_prefix(cs@, i as int);
            lemma_controls_view(cs@);
            assert(controls_view(cs@).subrange(0, i + 1) =~= controls_view(cs@.subrange(0, i + 1))) by {
                lemma_controls_view(cs@.subrange(0, i + 1));
            }
            lemma_enable_prefix(controls_view(cs@), i + 1);
        }
        let k = match checked_enable_count(&cs[i]) {
            Some(k) => k,
            None => {
                return None;
            },
        };
        count = match count.checked_add(k) {
            Some(total) => total,
            None => {
                return None;
            },
        };
        i = i + 1;
    }
    proof {
        assert(cs@.subrange(0, n as int) =~= cs@);
    }
    Some(count)
}

/// Whether each product of the first level lengths of `m` fits in a
/// machine word.
fn memory_addressable(m: &Memory) -> (result: bool)
    ensures
        result == forall|j: int|
            0 <= j <= m.spec_levels().len() ==> spec_flattened_length(
                #[trigger] m.spec_levels().subrange(0, j),
            ) <= usize::MAX,
{
    let levels = m.levels();
    let n = levels.len();
    let mut product: usize = 1;
    let mut i: usize = 0;
    proof {
        assert(levels@.subrange(0, 0) =~= Seq::<MemoryLevel>::empty());
    }
    while i < n
        invariant
            0 <= i <= n,
            n == levels@.len(),
            levels@ == m.spec_levels(),
            product == spec_flattened_length(levels@.subrange(0, i as int)),
            forall|j: int|
                0 <= j <= i ==> spec_flattened_length(#[trigger] levels@.subrange(0, j)) <= usize::MAX,
        decreases n - i,
    {
        proof {
            assert(levels@.subrange(0, i + 1).drop_last() =~= levels@.subrange(0, i as int));
        }
        product = match product.checked_mul(levels[i].length) {
            Some(p) => p,
            None => {
                return false;
            },
        };
        i = i + 1;
    }
    true
}

/// Whether `comp` meets what [`AddressGeneratorTransform::apply`] asks of
/// it besides well-formedness: a count of operations within a machine
/// word; where there are accesses, control without delays and branches that
/// is not a lone operation; and memories whose sizes fit in a machine word.
pub fn agen_applicable(comp: &Component) -> (result: bool)
    ensures
        result == (enable_count(comp.cfg@) <= usize::MAX && (spec_accesses(comp.cfg@, 0).len() > 0
            ==> thread_copyable(comp.cfg@) && !(comp.cfg@ is Enable)) && memories_addressable(
            comp.cell_alloc@,
        )),
{
    if checked_enable_count(&comp.cfg).is_none() {
        return false;
    }
    let extraction = AccessExtraction::from(comp);
    if extraction.access_ports.len() > 0 {
        if !is_thread_copyable(&comp.cfg) {
            return false;
        }
        if let Control::Enable(_) = &comp.cfg {
            return false;
        }
    }
    let n = comp.cell_alloc.len();
    let mut i: usize = 0;
    while i < n
        invariant
            0 <= i <= n,
            n == comp.cell_alloc@.len(),
            forall|k: int|
                0 <= k < i ==> match #[trigger] comp.cell_alloc@[k].1 {
                    Cell::Memory(m) => forall|j: int|
                        0 <= j <= m.spec_levels().len() ==> spec_flattened_length(
                            #[trigger] m.spec_levels().subrange(0, j),
                        ) <= usize::MAX,
                    Cell::Register(_) => true,
                },
        decreases n - i,
    {
        if let Cell::Memory(m) = &comp.cell_alloc[i].1 {
            if !memory_addressable(m) {
                return false;
            }
        }
        i = i + 1;
    }
    true
}

} // verus!
