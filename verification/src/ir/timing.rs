use super::control::{control_view, controls_view, lemma_controls_view, Control, ControlV};
use super::instr::{Ir, IrV};
use super::port::{Port, PortV};
use vstd::prelude::*;

verus! {

/// The initiation interval and latency of a piece of control, in cycles.
#[derive(Clone, Copy, PartialEq, Eq, Structural)]
pub struct Timing {
    init_interval: usize,
    latency: usize,
}

/// Timing as a pair of naturals: initiation interval, then latency.
pub type TimingV = (nat, nat);

/// Running `a` then `b`: the larger interval, the summed latency.
pub open spec fn spec_compose(a: TimingV, b: TimingV) -> TimingV {
    (if a.0 >= b.0 {
        a.0
    } else {
        b.0
    }, a.1 + b.1)
}

/// Running `a` and `b` side by side: the larger interval and latency.
pub open spec fn spec_max(a: TimingV, b: TimingV) -> TimingV {
    (if a.0 >= b.0 {
        a.0
    } else {
        b.0
    }, if a.1 >= b.1 {
        a.1
    } else {
        b.1
    })
}

impl View for Timing {
    type V = TimingV;

    closed spec fn view(&self) -> TimingV {
        (self.init_interval as nat, self.latency as nat)
    }
}

impl Timing {
    pub fn pipelined(init_interval: usize, latency: usize) -> (result: Self)
        ensures
            result@ == (init_interval as nat, latency as nat),
    {
        Timing { init_interval, latency }
    }

    /// No interval and no latency.
    pub fn combinational() -> (result: Self)
        ensures
            result@ == (0nat, 0nat),
    {
        Self::pipelined(0, 0)
    }

    /// No interval, `latency` cycles of latency.
    pub fn sequential(latency: usize) -> (result: Self)
        ensures
            result@ == (0nat, latency as nat),
    {
        Self::pipelined(0, latency)
    }

    pub fn init_interval(&self) -> (result: usize)
        ensures
            result == self@.0,
    {
        self.init_interval
    }

    pub fn latency(&self) -> (result: usize)
        ensures
            result == self@.1,
    {
        self.latency
    }

    /// Running `lhs` then `rhs`.
    pub fn compose(lhs: Timing, rhs: Timing) -> (result: Timing)
        requires
            lhs@.1 + rhs@.1 <= usize::MAX,
        ensures
            result@ == spec_compose(lhs@, rhs@),
    {
        let ii = if lhs.init_interval >= rhs.init_interval {
            lhs.init_interval
        } else {
            rhs.init_interval
        };
        Timing::pipelined(ii, lhs.latency + rhs.latency)
    }

    /// This timing repeated `factor` times in sequence.
    pub fn times(self, factor: usize) -> (result: Timing)
        requires
            self@.1 * factor <= usize::MAX,
        ensures
            result@ == (self@.0, self@.1 * (factor as nat)),
    {
        Timing::pipelined(self.init_interval, self.latency * factor)
    }

    /// Running `self` then `rhs`.
    pub fn followed_by(self, rhs: Timing) -> (result: Timing)
        requires
            self@.1 + rhs@.1 <= usize::MAX,
        ensures
            result@ == spec_compose(self@, rhs@),
    {
        Timing::compose(self, rhs)
    }

    /// Running `lhs` and `rhs` side by side.
    pub fn max(lhs: Timing, rhs: Timing) -> (result: Timing)
        ensures
            result@ == spec_max(lhs@, rhs@),
    {
        Timing::pipelined(
            if lhs.init_interval >= rhs.init_interval {
                lhs.init_interval
            } else {
                rhs.init_interval
            },
            if lhs.latency >= rhs.latency {
                lhs.latency
            } else {
                rhs.latency
            },
        )
    }
}

/// Composition in sequence is associative, and the combinational timing is
/// its identity on both sides.
pub proof fn law_compose_monoid(a: TimingV, b: TimingV, c: TimingV)
    ensures
        spec_compose(spec_compose(a, b), c) == spec_compose(a, spec_compose(b, c)),
        spec_compose((0nat, 0nat), a) == a,
        spec_compose(a, (0nat, 0nat)) == a,
{
}

/// Running side by side is associative, commutative and idempotent, with the
/// combinational timing as its identity.
pub proof fn law_max_semilattice(a: TimingV, b: TimingV, c: TimingV)
    ensures
        spec_max(spec_max(a, b), c) == spec_max(a, spec_max(b, c)),
        spec_max(a, b) == spec_max(b, a),
        spec_max(a, a) == a,
        spec_max((0nat, 0nat), a) == a,
{
}

/// The timing of a multiplication: one new input per cycle, four cycles of
/// latency.
pub open spec fn multiply_timing() -> TimingV {
    (1nat, 4nat)
}

/// The timing of an operation.
pub open spec fn spec_ir_timing(ir: IrV) -> TimingV {
    match ir {
        IrV::Mul(_, _, _) => multiply_timing(),
        _ => (0nat, 0nat),
    }
}

/// The number of iterations of a loop with constant bounds `lower` and
/// `upper`.
pub open spec fn trip_count(lower: i64, upper: i64) -> nat {
    if lower <= upper {
        (upper - lower) as nat
    } else {
        0
    }
}

/// The timing of a control tree: sequences add latencies, pars and branches
/// take the larger, loops take one cycle to start and then repeat their body.
pub open spec fn spec_timing(c: ControlV) -> TimingV
    decreases c,
{
    match c {
        ControlV::Empty => (0nat, 0nat),
        ControlV::Delay(d) => (0nat, d as nat),
        ControlV::Enable(ir) => spec_ir_timing(ir),
        ControlV::For(_, lower, upper, body) => match (lower, upper) {
            (PortV::Constant(l), PortV::Constant(u)) => {
                let b = spec_timing(*body);
                spec_compose((0nat, 1nat), (b.0, b.1 * trip_count(l, u)))
            },
            _ => (0nat, 0nat),
        },
        ControlV::Sequence(cs) => spec_timing_seq(cs),
        ControlV::Par(cs) => spec_timing_par(cs),
        ControlV::IfElse(_, t, f) => spec_max(spec_timing(*t), spec_timing(*f)),
    }
}

/// The timing of children run in sequence.
pub open spec fn spec_timing_seq(cs: Seq<ControlV>) -> TimingV
    decreases cs,
{
    if cs.len() == 0 {
        (0nat, 0nat)
    } else {
        spec_compose(spec_timing_seq(cs.drop_last()), spec_timing(cs.last()))
    }
}

/// The timing of children run side by side.
pub open spec fn spec_timing_par(cs: Seq<ControlV>) -> TimingV
    decreases cs,
{
    if cs.len() == 0 {
        (0nat, 0nat)
    } else {
        spec_max(spec_timing_par(cs.drop_last()), spec_timing(cs.last()))
    }
}

/// Whether the timing of `c` can be computed: every loop has constant
/// bounds, the lower no greater than the upper, and every latency on the
/// way fits in a machine word.
pub open spec fn timing_defined(c: ControlV) -> bool
    decreases c,
{
    &&& spec_timing(c).1 <= usize::MAX
    &&& spec_timing(c).0 <= usize::MAX
    &&& match c {
        ControlV::For(_, lower, upper, body) => {
            &&& lower is Constant
            &&& upper is Constant
            &&& lower->Constant_0 <= upper->Constant_0
            &&& timing_defined(*body)
        },
        ControlV::Sequence(cs) => timing_defined_all(cs),
        ControlV::Par(cs) => timing_defined_all(cs),
        ControlV::IfElse(_, t, f) => timing_defined(*t) && timing_defined(*f),
        _ => true,
    }
}

/// Whether the timing of every entry of `cs` can be computed.
pub open spec fn timing_defined_all(cs: Seq<ControlV>) -> bool
    decreases cs,
{
    if cs.len() == 0 {
        true
    } else {
        timing_defined_all(cs.drop_last()) && timing_defined(cs.last())
    }
}

proof fn lemma_seq_prefix_bounds(cs: Seq<ControlV>, i: int)
    requires
        0 <= i <= cs.len(),
    ensures
        spec_timing_seq(cs.subrange(0, i)).1 <= spec_timing_seq(cs).1,
        spec_timing_seq(cs.subrange(0, i)).0 <= spec_timing_seq(cs).0,
    decreases cs.len(),
{
    if i < cs.len() {
        assert(cs.drop_last().subrange(0, i) == cs.subrange(0, i));
        lemma_seq_prefix_bounds(cs.drop_last(), i);
    } else {
        assert(cs.subrange(0, i) =~= cs);
    }
}

proof fn lemma_par_prefix_bounds(cs: Seq<ControlV>, i: int)
    requires
        0 <= i <= cs.len(),
    ensures
        spec_timing_par(cs.subrange(0, i)).1 <= spec_timing_par(cs).1,
        spec_timing_par(cs.subrange(0, i)).0 <= spec_timing_par(cs).0,
    decreases cs.len(),
{
    if i < cs.len() {
        assert(cs.drop_last().subrange(0, i) == cs.subrange(0, i));
        lemma_par_prefix_bounds(cs.drop_last(), i);
    } else {
        assert(cs.subrange(0, i) =~= cs);
    }
}

proof fn lemma_defined_all(cs: Seq<ControlV>, i: int)
    requires
        timing_defined_all(cs),
        0 <= i < cs.len(),
    ensures
        timing_defined(cs[i]),
    decreases cs.len(),
{
    if i < cs.len() - 1 {
        assert(cs.drop_last()[i] == cs[i]);
        lemma_defined_all(cs.drop_last(), i);
    }
}

/// The timing of an operation.
pub fn ir_timing(ir: &Ir) -> (result: Timing)
    ensures
        result@ == spec_ir_timing(ir@),
{
    match ir {
        Ir::Add(_, _, _) => Timing::combinational(),
        Ir::Mul(_, _, _) => Timing::pipelined(1, 4),
        Ir::Assign(_, _) => Timing::combinational(),
    }
}

/// Computes the timing of a control tree (see [`spec_timing`]).
pub fn timing_of(control: &Control) -> (result: Timing)
    requires
        timing_defined(control@),
    ensures
        result@ == spec_timing(control@),
{
    match checked_timing(control) {
        Some(t) => t,
        None => {
            proof {
                assert(false);
            }
            Timing::combinational()
        },
    }
}

/// The timing of a control tree when it can be computed (see
/// [`timing_defined`]), and `None` otherwise.
pub fn checked_timing(control: &Control) -> (result: Option<Timing>)
    ensures
        result is Some <==> timing_defined(control@),
        result matches Some(t) ==> t@ == spec_timing(control@),
    decreases *control,
{
    match control {
        Control::Empty => Some(Timing::combinational()),
        Control::Delay(d) => Some(Timing::sequential(*d)),
        Control::Enable(ir) => Some(ir_timing(ir)),
        Control::For(for_) => {
            let (lower, upper) = match (&for_.lower, &for_.exclusive_upper) {
                (Port::Constant(l), Port::Constant(u)) => (*l, *u),
                _ => {
                    return None;
                },
            };
            if lower > upper {
                return None;
            }
            let body = match checked_timing(&for_.body) {
                Some(t) => t,
                None => {
                    return None;
                },
            };
            let span: u128 = (upper as i128 - lower as i128) as u128;
            let lat: u128 = body.latency() as u128;
            proof {
                assert(span == trip_count(lower, upper));
                assert(span < 0x1_0000_0000_0000_0000);
                assert(lat < 0x1_0000_0000_0000_0000);
                assert(lat * span <= 0xffff_ffff_ffff_ffff * 0xffff_ffff_ffff_ffffu128) by (nonlinear_arith)
                    requires
                        lat < 0x1_0000_0000_0000_0000,
                        span < 0x1_0000_0000_0000_0000,
                ;
            }
            let prod: u128 = lat * span;
            if prod >= usize::MAX as u128 {
                return None;
            }
            Some(Timing::pipelined(body.init_interval(), prod as usize + 1))
        },
        Control::Sequence(seq) => checked_timing_seq(&seq.children),
        Control::Par(par) => checked_timing_par(&par.children),
        Control::IfElse(if_else) => {
            let t = match checked_timing(&if_else.true_branch) {
                Some(t) => t,
                None => {
                    return None;
                },
            };
            let f = match checked_timing(&if_else.false_branch) {
                Some(f) => f,
                None => {
                    return None;
                },
            };
            Some(Timing::max(t, f))
        },
    }
}

/// The timing of `children` in sequence when every child's can be computed
/// and the total latency fits in a machine word.
pub fn checked_timing_seq(children: &Vec<Control>) -> (result: Option<Timing>)
    ensures
        result is Some <==> (timing_defined_all(controls_view(children@)) && spec_timing_seq(
            controls_view(children@),
        ).1 <= usize::MAX),
        result matches Some(t) ==> t@ == spec_timing_seq(controls_view(children@)),
    decreases children@,
{
    let ghost cs = controls_view(children@);
    proof {
        lemma_controls_view(children@);
        assert(cs.subrange(0, 0) =~= Seq::<ControlV>::empty());
    }
    let mut result = Timing::combinational();
    let n = children.len();
    let mut i: usize = 0;
    while i < n
        invariant
            0 <= i <= n,
            n == children@.len(),
            cs == controls_view(children@),
            cs.len() == n,
            forall|j: int| 0 <= j < n ==> #[trigger] cs[j] == control_view(children@[j]),
            timing_defined_all(cs.subrange(0, i as int)),
            result@ == spec_timing_seq(cs.subrange(0, i as int)),
        decreases n - i,
    {
        proof {
            assert(decreases_to!(children@ => children@[i as int]));
            assert(cs.subrange(0, i + 1).drop_last() =~= cs.subrange(0, i as int));
            assert(cs.subrange(0, i + 1).last() == cs[i as int]);
        }
        let t = match checked_timing(&children[i]) {
            Some(t) => t,
            None => {
                proof {
                    if timing_defined_all(cs) {
                        lemma_defined_all(cs, i as int);
                    }
                }
                return None;
            },
        };
        if result.latency() > usize::MAX - t.latency() {
            proof {
                lemma_seq_prefix_bounds(cs, i + 1);
            }
            return None;
        }
        result = Timing::compose(result, t);
        i = i + 1;
    }
    proof {
        assert(cs.subrange(0, n as int) =~= cs);
    }
    Some(result)
}

/// The timing of `children` side by side when every child's can be
/// computed.
pub fn checked_timing_par(children: &Vec<Control>) -> (result: Option<Timing>)
    ensures
        result is Some <==> timing_defined_all(controls_view(children@)),
        result matches Some(t) ==> t@ == spec_timing_par(controls_view(children@)),
    decreases children@,
{
    let ghost cs = controls_view(children@);
    proof {
        lemma_controls_view(children@);
        assert(cs.subrange(0, 0) =~= Seq::<ControlV>::empty());
    }
    let mut result = Timing::combinational();
    let n = children.len();
    let mut i: usize = 0;
    while i < n
        invariant
            0 <= i <= n,
            n == children@.len(),
            cs == controls_view(children@),
            cs.len() == n,
            forall|j: int| 0 <= j < n ==> #[trigger] cs[j] == control_view(children@[j]),
            timing_defined_all(cs.subrange(0, i as int)),
            result@ == spec_timing_par(cs.subrange(0, i as int)),
        decreases n - i,
    {
        proof {
            assert(decreases_to!(children@ => children@[i as int]));
            assert(cs.subrange(0, i + 1).drop_last() =~= cs.subrange(0, i as int));
            assert(cs.subrange(0, i + 1).last() == cs[i as int]);
        }
        let t = match checked_timing(&children[i]) {
            Some(t) => t,
            None => {
                proof {
                    if timing_defined_all(cs) {
                        lemma_defined_all(cs, i as int);
                    }
                }
                return None;
            },
        };
        result = Timing::max(result, t);
        i = i + 1;
    }
    proof {
        assert(cs.subrange(0, n as int) =~= cs);
    }
    Some(result)
}

/// The timing of every node of a control tree, each after those of its
/// children: a loop's body, a sequence's or par's children in order, a
/// branch's true then false side, then the node itself.
pub open spec fn spec_node_timings(c: ControlV) -> Seq<TimingV>
    decreases c,
{
    match c {
        ControlV::For(_, _, _, body) => spec_node_timings(*body).push(spec_timing(c)),
        ControlV::Sequence(cs) => spec_node_timings_all(cs).push(spec_timing(c)),
        ControlV::Par(cs) => spec_node_timings_all(cs).push(spec_timing(c)),
        ControlV::IfElse(_, t, f) => (spec_node_timings(*t) + spec_node_timings(*f)).push(
            spec_timing(c),
        ),
        _ => seq![spec_timing(c)],
    }
}

/// The node timings of every tree of `cs`, in order.
pub open spec fn spec_node_timings_all(cs: Seq<ControlV>) -> Seq<TimingV>
    decreases cs,
{
    if cs.len() == 0 {
        Seq::empty()
    } else {
        spec_node_timings_all(cs.drop_last()) + spec_node_timings(cs.last())
    }
}

/// The values of a list of timings.
pub open spec fn timing_views(ts: Seq<Timing>) -> Seq<TimingV> {
    Seq::new(ts.len(), |i: int| ts[i]@)
}

/// The timing of every node of a control tree, identified by its position
/// in the order of [`spec_node_timings`].
pub struct TimingAnalysis {
    pub timings: Vec<Timing>,
}

/// Appends the timing of every node of `control` to `out`.
fn collect_timings(control: &Control, out: &mut Vec<Timing>)
    requires
        timing_defined(control@),
    ensures
        timing_views(final(out)@) == timing_views(old(out)@) + spec_node_timings(control@),
    decreases control,
{
    let ghost start = timing_views(out@);
    match control {
        Control::For(f) => {
            collect_timings(&f.body, out);
        },
        Control::Sequence(s) => {
            collect_timings_all(&s.children, out);
        },
        Control::Par(p) => {
            collect_timings_all(&p.children, out);
        },
        Control::IfElse(i) => {
            collect_timings(&i.true_branch, out);
            collect_timings(&i.false_branch, out);
        },
        _ => {},
    }
    let ghost mid = timing_views(out@);
    let t = timing_of(control);
    out.push(t);
    proof {
        assert(timing_views(out@) =~= mid.push(t@));
        match control@ {
            ControlV::IfElse(_, tb, fb) => {
                assert(mid =~= start + spec_node_timings(*tb) + spec_node_timings(*fb));
                assert(timing_views(out@) =~= start + (spec_node_timings(*tb) + spec_node_timings(
                    *fb,
                )).push(t@));
            },
            ControlV::For(_, _, _, body) => {
                assert(timing_views(out@) =~= start + spec_node_timings(*body).push(t@));
            },
            ControlV::Sequence(cs) => {
                assert(timing_views(out@) =~= start + spec_node_timings_all(cs).push(t@));
            },
            ControlV::Par(cs) => {
                assert(timing_views(out@) =~= start + spec_node_timings_all(cs).push(t@));
            },
            _ => {
                assert(mid =~= start);
                assert(timing_views(out@) =~= start + seq![t@]);
            },
        }
    }
}

/// Appends the node timings of every tree of `children`, in order.
fn collect_timings_all(children: &Vec<Control>, out: &mut Vec<Timing>)
    requires
        timing_defined_all(controls_view(children@)),
    ensures
        timing_views(final(out)@) == timing_views(old(out)@) + spec_node_timings_all(
            controls_view(children@),
        ),
    decreases children@,
{
    let ghost start = timing_views(out@);
    let n = children.len();
    let mut k: usize = 0;
    proof {
        lemma_controls_view(children@);
        assert(controls_view(children@).subrange(0, 0) =~= Seq::<ControlV>::empty());
        assert(start + Seq::<TimingV>::empty() =~= start);
    }
    while k < n
        invariant
            0 <= k <= n,
            n == children@.len(),
            controls_view(children@).len() == n,
            forall|j: int| 0 <= j < n ==> #[trigger] controls_view(children@)[j] == children@[j]@,
            timing_defined_all(controls_view(children@)),
            timing_views(out@) == start + spec_node_timings_all(
                controls_view(children@).subrange(0, k as int),
            ),
        decreases n - k,
    {
        proof {
            assert(decreases_to!(children@ => children@[k as int]));
            lemma_defined_all(controls_view(children@), k as int);
            let pre = controls_view(children@).subrange(0, k + 1);
            assert(pre.drop_last() =~= controls_view(children@).subrange(0, k as int));
            assert(pre.last() == children@[k as int]@);
        }
        let ghost before = timing_views(out@);
        collect_timings(&children[k], out);
        proof {
            let pre = controls_view(children@).subrange(0, k + 1);
            assert(timing_views(out@) =~= start + spec_node_timings_all(pre));
        }
        k = k + 1;
    }
    proof {
        assert(controls_view(children@).subrange(0, n as int) =~= controls_view(children@));
    }
}

impl TimingAnalysis {
    /// The timing of every node of `control` (see [`spec_node_timings`]).
    pub fn for_control(control: &Control) -> (result: Self)
        requires
            timing_defined(control@),
        ensures
            timing_views(result.timings@) == spec_node_timings(control@),
    {
        let mut timings: Vec<Timing> = Vec::new();
        proof {
            assert(timing_views(timings@) =~= Seq::<TimingV>::empty());
        }
        collect_timings(control, &mut timings);
        proof {
            assert(Seq::<TimingV>::empty() + spec_node_timings(control@) =~= spec_node_timings(
                control@,
            ));
        }
        TimingAnalysis { timings }
    }

    /// The timing of the node `id`.
    pub fn get(&self, id: usize) -> (result: Timing)
        requires
            id < self.timings@.len(),
        ensures
            result == self.timings@[id as int],
    {
        self.timings[id]
    }
}

} // verus!
