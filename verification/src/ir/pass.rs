pub mod collapse_control;
pub mod dead_code;
pub mod copy_prop;
pub mod rewrite_accesses;
pub mod canonicalize;
pub mod cell_alloc;
pub mod well_formed;

use crate::ir::cell::CellV;
use crate::ir::component::Component;
use crate::ir::control::{Control, ControlV};
use crate::ir::port::Variable;
use crate::ir::side_effect::output_ports;
use crate::ir::timing::{checked_timing, timing_defined};
use canonicalize::{spec_canon, Canonicalize};
use cell_alloc::{apply_allocs, has_sequence, spec_allocs, CellAlloc};
use collapse_control::{checked_delay_weight, delay_weight, spec_collapse, CollapseControl};
use copy_prop::{spec_copy_prop, CopyProp};
use dead_code::{spec_dead_code, DeadCode};
use rewrite_accesses::{spec_rewrite, RewriteAccesses};
use well_formed::{spec_well_formed, WellFormed, WellFormedError};

use vstd::prelude::*;

verus! {

/// A set of options for passes, as bits.
#[derive(Clone, Copy, PartialEq, Eq, Structural)]
pub struct PassOptions {
    pub bits: u64,
}

/// The bit of the option to keep the timing of control unchanged.
pub const PRESERVE_TIMING_BIT: u64 = 1;

impl PassOptions {
    /// No options.
    pub fn none() -> (result: Self)
        ensures
            result.bits == 0,
    {
        PassOptions { bits: 0 }
    }

    /// Keep the timing of control unchanged.
    pub fn preserve_timing() -> (result: Self)
        ensures
            result.bits == PRESERVE_TIMING_BIT,
    {
        PassOptions { bits: PRESERVE_TIMING_BIT }
    }

    /// Whether every option of `options` is set in `self`.
    pub fn contains(&self, options: PassOptions) -> (result: bool)
        ensures
            result == (self.bits & options.bits == options.bits),
    {
        (self.bits & options.bits) == options.bits
    }

    /// The options of both `self` and `rhs`.
    pub fn bitor(self, rhs: Self) -> (result: Self)
        ensures
            result.bits == self.bits | rhs.bits,
    {
        PassOptions { bits: self.bits | rhs.bits }
    }
}

/// Whether `options` asks to keep timing unchanged.
pub open spec fn preserves_timing(options: PassOptions) -> bool {
    options.bits & PRESERVE_TIMING_BIT == PRESERVE_TIMING_BIT
}

/// The passes a runner can run.
#[derive(Clone, Copy, PartialEq, Eq, Structural)]
pub enum PassKind {
    WellFormed,
    Canonicalize,
    CopyProp,
    DeadCode,
    CollapseControl,
    CellAlloc,
    RewriteAccesses,
}

/// A step of a pass runner: run a pass, or open or close a region of passes
/// that runs repeatedly until nothing changes or its limit of repetitions is
/// reached.
#[derive(Clone, Copy, PartialEq, Eq, Structural)]
pub enum PassOp {
    Call(PassKind, PassOptions),
    Converge(usize),
    EndConverge,
}

/// Why running passes failed.
#[derive(PartialEq, Eq, Structural)]
pub enum PassError {
    /// The component failed the well-formedness check.
    NotWellFormed(WellFormedError),
    /// A partial access does not index a variable.
    MalformedAccess,
    /// Timing was to be preserved but cannot be computed: a loop without
    /// constant, increasing bounds, or a latency beyond a machine word.
    TimingUndefined,
    /// The delays of the control add up beyond a machine word.
    DelayOverflow,
}

/// The parts of a component that passes change: its control and its cells.
#[verifier::ext_equal]
pub struct CompState {
    pub cfg: ControlV,
    pub cells: Map<Variable, CellV>,
}

/// Running one pass on a component with the given interface: the new state
/// and whether the pass reports a change.
pub open spec fn spec_run_pass(
    kind: PassKind,
    options: PassOptions,
    st: CompState,
    inputs: Seq<(Variable, crate::ir::cell::Cell)>,
    outputs: Seq<(Variable, crate::ir::cell::Cell)>,
) -> Result<(CompState, bool), PassError> {
    match kind {
        PassKind::WellFormed => match spec_well_formed(st.cfg, inputs, outputs) {
            Ok(()) => Ok((st, false)),
            Err(e) => Err(PassError::NotWellFormed(e)),
        },
        PassKind::Canonicalize => match spec_canon(st.cfg) {
            Ok(r) => Ok((CompState { cfg: r.0, cells: st.cells }, r.1)),
            Err(()) => Err(PassError::MalformedAccess),
        },
        PassKind::CopyProp => Ok((CompState { cfg: spec_copy_prop(st.cfg), cells: st.cells }, false)),
        PassKind::DeadCode => if preserves_timing(options) && !timing_defined(st.cfg) {
            Err(PassError::TimingUndefined)
        } else {
            let r = spec_dead_code(st.cfg, output_ports(outputs), preserves_timing(options));
            Ok((CompState { cfg: r.0, cells: st.cells }, r.1))
        },
        PassKind::CollapseControl => if delay_weight(st.cfg) > usize::MAX {
            Err(PassError::DelayOverflow)
        } else {
            let r = spec_collapse(st.cfg, preserves_timing(options));
            Ok((CompState { cfg: r.0, cells: st.cells }, r.1))
        },
        PassKind::CellAlloc => Ok(
            (
                CompState { cfg: st.cfg, cells: apply_allocs(st.cells, spec_allocs(st.cfg)) },
                has_sequence(st.cfg),
            ),
        ),
        PassKind::RewriteAccesses => {
            let r = spec_rewrite(st.cfg);
            Ok((CompState { cfg: r.0, cells: st.cells }, r.1))
        },
    }
}

/// Running a region of passes once, in order: the new state and whether any
/// pass reported a change.
pub open spec fn spec_run_region(
    region: Seq<(PassKind, PassOptions)>,
    st: CompState,
    inputs: Seq<(Variable, crate::ir::cell::Cell)>,
    outputs: Seq<(Variable, crate::ir::cell::Cell)>,
) -> Result<(CompState, bool), PassError>
    decreases region.len(),
{
    if region.len() == 0 {
        Ok((st, false))
    } else {
        match spec_run_region(region.drop_last(), st, inputs, outputs) {
            Ok(mid) => match spec_run_pass(
                region.last().0,
                region.last().1,
                mid.0,
                inputs,
                outputs,
            ) {
                Ok(last) => Ok((last.0, mid.1 || last.1)),
                Err(e) => Err(e),
            },
            Err(e) => Err(e),
        }
    }
}

/// Running a region until a run reports no change, or until `limit` runs
/// have been repeated.
pub open spec fn spec_converge(
    region: Seq<(PassKind, PassOptions)>,
    limit: nat,
    st: CompState,
    inputs: Seq<(Variable, crate::ir::cell::Cell)>,
    outputs: Seq<(Variable, crate::ir::cell::Cell)>,
) -> Result<CompState, PassError>
    decreases limit,
{
    match spec_run_region(region, st, inputs, outputs) {
        Ok(r) => if !r.1 || limit == 0 {
            Ok(r.0)
        } else {
            spec_converge(region, (limit - 1) as nat, r.0, inputs, outputs)
        },
        Err(e) => Err(e),
    }
}

/// Running steps: outside a region a pass runs at once; inside, it joins
/// the region (which is kept for later regions too), and the region runs
/// when it is closed.
pub open spec fn spec_run_ops(
    ops: Seq<PassOp>,
    st: CompState,
    in_region: bool,
    limit: nat,
    region: Seq<(PassKind, PassOptions)>,
    inputs: Seq<(Variable, crate::ir::cell::Cell)>,
    outputs: Seq<(Variable, crate::ir::cell::Cell)>,
) -> Result<CompState, PassError>
    decreases ops.len(),
{
    if ops.len() == 0 {
        Ok(st)
    } else {
        let rest = ops.drop_first();
        match ops[0] {
            PassOp::Call(kind, options) => if in_region {
                spec_run_ops(rest, st, true, limit, region.push((kind, options)), inputs, outputs)
            } else {
                match spec_run_pass(kind, options, st, inputs, outputs) {
                    Ok(r) => spec_run_ops(rest, r.0, false, limit, region, inputs, outputs),
                    Err(e) => Err(e),
                }
            },
            PassOp::Converge(l) => spec_run_ops(rest, st, true, l as nat, region, inputs, outputs),
            PassOp::EndConverge => if in_region {
                match spec_converge(region, limit, st, inputs, outputs) {
                    Ok(st2) => spec_run_ops(rest, st2, false, limit, region, inputs, outputs),
                    Err(e) => Err(e),
                }
            } else {
                spec_run_ops(rest, st, false, limit, region, inputs, outputs)
            },
        }
    }
}

/// The steps of [`PassRunner::lower`].
pub open spec fn lower_ops() -> Seq<PassOp> {
    seq![
        PassOp::Call(PassKind::WellFormed, PassOptions { bits: 0 }),
        PassOp::Call(PassKind::Canonicalize, PassOptions { bits: 0 }),
        PassOp::Call(PassKind::RewriteAccesses, PassOptions { bits: PRESERVE_TIMING_BIT }),
        PassOp::Converge(10),
        PassOp::Call(PassKind::DeadCode, PassOptions { bits: PRESERVE_TIMING_BIT }),
        PassOp::Call(PassKind::CollapseControl, PassOptions { bits: PRESERVE_TIMING_BIT }),
        PassOp::EndConverge,
    ]
}

/// The state of a component that passes change.
pub open spec fn comp_state(comp: Component) -> CompState {
    CompState { cfg: comp.cfg@, cells: comp.spec_cells() }
}

/// Runs one pass on `comp` (see [`spec_run_pass`]).
pub fn run_pass(kind: PassKind, options: PassOptions, comp: &mut Component) -> (result: Result<
    bool,
    PassError,
>)
    requires
        old(comp).wf(),
    ensures
        final(comp).wf(),
        final(comp).inputs@ == old(comp).inputs@,
        final(comp).label == old(comp).label,
        final(comp).outputs@ == old(comp).outputs@,
        final(comp).attributes == old(comp).attributes,
        match result {
            Ok(m) => spec_run_pass(
                kind,
                options,
                comp_state(*old(comp)),
                old(comp).inputs@,
                old(comp).outputs@,
            ) == Ok::<(CompState, bool), PassError>((comp_state(*final(comp)), m)),
            Err(e) => spec_run_pass(
                kind,
                options,
                comp_state(*old(comp)),
                old(comp).inputs@,
                old(comp).outputs@,
            ) == Err::<(CompState, bool), PassError>(e),
        },
{
    match kind {
        PassKind::WellFormed => match WellFormed::from(options).run(comp) {
            Ok(()) => Ok(false),
            Err(e) => Err(PassError::NotWellFormed(e)),
        },
        PassKind::Canonicalize => match Canonicalize::from(options).run(comp) {
            Ok(m) => Ok(m),
            Err(_) => Err(PassError::MalformedAccess),
        },
        PassKind::CopyProp => {
            let m = CopyProp::from(options).run(comp);
            Ok(m)
        },
        PassKind::DeadCode => {
            let pass = DeadCode::from(options);
            if pass.preserve_timing && checked_timing(&comp.cfg).is_none() {
                return Err(PassError::TimingUndefined);
            }
            Ok(pass.run(comp))
        },
        PassKind::CollapseControl => {
            if checked_delay_weight(&comp.cfg).is_none() {
                return Err(PassError::DelayOverflow);
            }
            Ok(CollapseControl::from(options).run(comp))
        },
        PassKind::CellAlloc => Ok(CellAlloc::from(options).run(comp)),
        PassKind::RewriteAccesses => Ok(RewriteAccesses::from(options).run(comp)),
    }
}

/// Runs one region of passes once, in order (see [`spec_run_region`]).
fn run_region(region: &Vec<(PassKind, PassOptions)>, comp: &mut Component) -> (result: Result<
    bool,
    PassError,
>)
    requires
        old(comp).wf(),
    ensures
        final(comp).wf(),
        final(comp).inputs@ == old(comp).inputs@,
        final(comp).label == old(comp).label,
        final(comp).attributes == old(comp).attributes,
        final(comp).outputs@ == old(comp).outputs@,
        match result {
            Ok(m) => spec_run_region(
                region@,
                comp_state(*old(comp)),
                old(comp).inputs@,
                old(comp).outputs@,
            ) == Ok::<(CompState, bool), PassError>((comp_state(*final(comp)), m)),
            Err(e) => spec_run_region(
                region@,
                comp_state(*old(comp)),
                old(comp).inputs@,
                old(comp).outputs@,
            ) == Err::<(CompState, bool), PassError>(e),
        },
{
    let ghost st0 = comp_state(*comp);
    let ghost ins = comp.inputs@;
    let ghost outs = comp.outputs@;
    let n = region.len();
    let mut i: usize = 0;
    let mut modified = false;
    proof {
        assert(region@.subrange(0, 0) =~= Seq::<(PassKind, PassOptions)>::empty());
    }
    while i < n
        invariant
            0 <= i <= n,
            n == region@.len(),
            comp.wf(),
            comp.inputs@ == ins,
            comp.outputs@ == outs,
            ins == old(comp).inputs@,
            comp.label == old(comp).label,
            comp.attributes == old(comp).attributes,
            outs == old(comp).outputs@,
            st0 == comp_state(*old(comp)),
            spec_run_region(region@.subrange(0, i as int), st0, ins, outs) == Ok::<
                (CompState, bool),
                PassError,
            >((comp_state(*comp), modified)),
        decreases n - i,
    {
        let (kind, options) = region[i];
        proof {
            assert(region@.subrange(0, i + 1).drop_last() =~= region@.subrange(0, i as int));
            assert(region@.subrange(0, i + 1).last() == (kind, options));
        }
        match run_pass(kind, options, comp) {
            Ok(m) => {
                modified = modified || m;
            },
            Err(e) => {
                proof {
                    lemma_region_err(region@, i as int, st0, ins, outs, e);
                }
                return Err(e);
            },
        }
        i = i + 1;
    }
    proof {
        assert(region@.subrange(0, n as int) =~= region@);
    }
    Ok(modified)
}

/// Once a prefix of a region fails, the whole region does.
proof fn lemma_region_err(
    region: Seq<(PassKind, PassOptions)>,
    i: int,
    st: CompState,
    inputs: Seq<(Variable, crate::ir::cell::Cell)>,
    outputs: Seq<(Variable, crate::ir::cell::Cell)>,
    e: PassError,
)
    requires
        0 <= i < region.len(),
        spec_run_region(region.subrange(0, i + 1), st, inputs, outputs) == Err::<
            (CompState, bool),
            PassError,
        >(e),
    ensures
        spec_run_region(region, st, inputs, outputs) == Err::<(CompState, bool), PassError>(e),
    decreases region.len(),
{
    if i + 1 < region.len() {
        assert(region.drop_last().subrange(0, i + 1) =~= region.subrange(0, i + 1));
        lemma_region_err(region.drop_last(), i, st, inputs, outputs, e);
    } else {
        assert(region.subrange(0, i + 1) =~= region);
    }
}

/// Runs a region until it reports no change or `limit` repetitions are done
/// (see [`spec_converge`]).
fn converge(region: &Vec<(PassKind, PassOptions)>, limit: usize, comp: &mut Component) -> (result:
    Result<(), PassError>)
    requires
        old(comp).wf(),
    ensures
        final(comp).wf(),
        final(comp).inputs@ == old(comp).inputs@,
        final(comp).label == old(comp).label,
        final(comp).attributes == old(comp).attributes,
        final(comp).outputs@ == old(comp).outputs@,
        match result {
            Ok(()) => spec_converge(
                region@,
                limit as nat,
                comp_state(*old(comp)),
                old(comp).inputs@,
                old(comp).outputs@,
            ) == Ok::<CompState, PassError>(comp_state(*final(comp))),
            Err(e) => spec_converge(
                region@,
                limit as nat,
                comp_state(*old(comp)),
                old(comp).inputs@,
                old(comp).outputs@,
            ) == Err::<CompState, PassError>(e),
        },
{
    let ghost target = spec_converge(
        region@,
        limit as nat,
        comp_state(*comp),
        comp.inputs@,
        comp.outputs@,
    );
    let ghost ins = comp.inputs@;
    let ghost outs = comp.outputs@;
    let mut left = limit;
    loop
        invariant
            comp.wf(),
            comp.inputs@ == ins,
            comp.outputs@ == outs,
            ins == old(comp).inputs@,
            comp.label == old(comp).label,
            comp.attributes == old(comp).attributes,
            outs == old(comp).outputs@,
            target == spec_converge(
                region@,
                limit as nat,
                comp_state(*old(comp)),
                old(comp).inputs@,
                old(comp).outputs@,
            ),
            target == spec_converge(region@, left as nat, comp_state(*comp), ins, outs),
        decreases left,
    {
        match run_region(region, comp) {
            Ok(m) => {
                if !m || left == 0 {
                    return Ok(());
                }
                left = left - 1;
            },
            Err(e) => {
                return Err(e);
            },
        }
    }
}

/// A sequence of passes to run on a component.
pub struct PassRunner {
    pub passes: Vec<PassOp>,
}

impl PassRunner {
    /// The minimal pass runner permitted: the well-formedness check, then
    /// canonicalization.
    pub fn core_passes() -> (result: Self)
        ensures
            result.passes@ == seq![
                PassOp::Call(PassKind::WellFormed, PassOptions { bits: 0 }),
                PassOp::Call(PassKind::Canonicalize, PassOptions { bits: 0 }),
            ],
    {
        let mut runner = PassRunner { passes: Vec::new() };
        runner.register(PassKind::WellFormed, PassOptions::none());
        runner.register(PassKind::Canonicalize, PassOptions::none());
        proof {
            assert(runner.passes@ =~= seq![
                PassOp::Call(PassKind::WellFormed, PassOptions { bits: 0 }),
                PassOp::Call(PassKind::Canonicalize, PassOptions { bits: 0 }),
            ]);
        }
        runner
    }

    /// The runner used to compile from the AST: the core, then copy
    /// propagation, dead-code elimination and control collapsing repeated
    /// until nothing changes (at most ten more times), then cell allocation.
    /// It does not preserve timing.
    pub fn compile() -> (result: Self)
        ensures
            result.passes@ == seq![
                PassOp::Call(PassKind::WellFormed, PassOptions { bits: 0 }),
                PassOp::Call(PassKind::Canonicalize, PassOptions { bits: 0 }),
                PassOp::Converge(10),
                PassOp::Call(PassKind::CopyProp, PassOptions { bits: 0 }),
                PassOp::Call(PassKind::DeadCode, PassOptions { bits: 0 }),
                PassOp::Call(PassKind::CollapseControl, PassOptions { bits: 0 }),
                PassOp::EndConverge,
                PassOp::Call(PassKind::CellAlloc, PassOptions { bits: 0 }),
            ],
    {
        let mut runner = Self::core_passes();
        let mut region: Vec<(PassKind, PassOptions)> = Vec::new();
        region.push((PassKind::CopyProp, PassOptions::none()));
        region.push((PassKind::DeadCode, PassOptions::none()));
        region.push((PassKind::CollapseControl, PassOptions::none()));
        runner.register_converge(10, region);
        runner.register(PassKind::CellAlloc, PassOptions::none());
        proof {
            assert(runner.passes@ =~= seq![
                PassOp::Call(PassKind::WellFormed, PassOptions { bits: 0 }),
                PassOp::Call(PassKind::Canonicalize, PassOptions { bits: 0 }),
                PassOp::Converge(10),
                PassOp::Call(PassKind::CopyProp, PassOptions { bits: 0 }),
                PassOp::Call(PassKind::DeadCode, PassOptions { bits: 0 }),
                PassOp::Call(PassKind::CollapseControl, PassOptions { bits: 0 }),
                PassOp::EndConverge,
                PassOp::Call(PassKind::CellAlloc, PassOptions { bits: 0 }),
            ]);
        }
        runner
    }

    /// The runner that lowers a component for an emission target, preserving
    /// timing: the core, access lowering, then dead-code elimination and
    /// control collapsing repeated until nothing changes (at most ten more
    /// times).
    pub fn lower() -> (result: Self)
        ensures
            result.passes@ == lower_ops(),
    {
        let mut runner = Self::core_passes();
        runner.register(PassKind::RewriteAccesses, PassOptions::preserve_timing());
        let mut region: Vec<(PassKind, PassOptions)> = Vec::new();
        region.push((PassKind::DeadCode, PassOptions::preserve_timing()));
        region.push((PassKind::CollapseControl, PassOptions::preserve_timing()));
        runner.register_converge(10, region);
        proof {
            assert(runner.passes@ =~= seq![
                PassOp::Call(PassKind::WellFormed, PassOptions { bits: 0 }),
                PassOp::Call(PassKind::Canonicalize, PassOptions { bits: 0 }),
                PassOp::Call(PassKind::RewriteAccesses, PassOptions { bits: PRESERVE_TIMING_BIT }),
                PassOp::Converge(10),
                PassOp::Call(PassKind::DeadCode, PassOptions { bits: PRESERVE_TIMING_BIT }),
                PassOp::Call(PassKind::CollapseControl, PassOptions { bits: PRESERVE_TIMING_BIT }),
                PassOp::EndConverge,
            ]);
        }
        runner
    }

    /// Adds a pass to run with `options`.
    pub fn register(&mut self, kind: PassKind, options: PassOptions)
        ensures
            final(self).passes@ == old(self).passes@.push(PassOp::Call(kind, options)),
    {
        self.passes.push(PassOp::Call(kind, options));
    }

    /// Adds a region of passes that runs until nothing changes, repeated at
    /// most `iter_limit` more times.
    pub fn register_converge(&mut self, iter_limit: usize, passes: Vec<(PassKind, PassOptions)>)
        ensures
            final(self).passes@ == old(self).passes@.push(PassOp::Converge(iter_limit)) + passes@.map_values(
                |p: (PassKind, PassOptions)| PassOp::Call(p.0, p.1),
            ).push(PassOp::EndConverge),
    {
        let ghost start = self.passes@;
        self.passes.push(PassOp::Converge(iter_limit));
        let n = passes.len();
        let mut i: usize = 0;
        while i < n
            invariant
                0 <= i <= n,
                n == passes@.len(),
                self.passes@ == start.push(PassOp::Converge(iter_limit)) + passes@.subrange(
                    0,
                    i as int,
                ).map_values(|p: (PassKind, PassOptions)| PassOp::Call(p.0, p.1)),
            decreases n - i,
        {
            let (kind, options) = passes[i];
            self.passes.push(PassOp::Call(kind, options));
            proof {
                assert(self.passes@ =~= start.push(PassOp::Converge(iter_limit)) + passes@.subrange(
                    0,
                    i + 1,
                ).map_values(|p: (PassKind, PassOptions)| PassOp::Call(p.0, p.1)));
            }
            i = i + 1;
        }
        self.passes.push(PassOp::EndConverge);
        proof {
            assert(passes@.subrange(0, n as int) =~= passes@);
            assert(self.passes@ =~= start.push(PassOp::Converge(iter_limit)) + passes@.map_values(
                |p: (PassKind, PassOptions)| PassOp::Call(p.0, p.1),
            ).push(PassOp::EndConverge));
        }
    }

    /// Runs the passes on `comp` (see [`spec_run_ops`]); on failure `comp`
    /// holds what the passes before the failing one made of it.
    pub fn run(&self, comp: &mut Component) -> (result: Result<(), PassError>)
        requires
            old(comp).wf(),
        ensures
            final(comp).wf(),
            final(comp).inputs@ == old(comp).inputs@,
            final(comp).label == old(comp).label,
            final(comp).outputs@ == old(comp).outputs@,
            final(comp).attributes == old(comp).attributes,
            match result {
                Ok(()) => spec_run_ops(
                    self.passes@,
                    comp_state(*old(comp)),
                    false,
                    0,
                    Seq::empty(),
                    old(comp).inputs@,
                    old(comp).outputs@,
                ) == Ok::<CompState, PassError>(comp_state(*final(comp))),
                Err(e) => spec_run_ops(
                    self.passes@,
                    comp_state(*old(comp)),
                    false,
                    0,
                    Seq::empty(),
                    old(comp).inputs@,
                    old(comp).outputs@,
                ) == Err::<CompState, PassError>(e),
            },
    {
        let ghost target = spec_run_ops(
            self.passes@,
            comp_state(*comp),
            false,
            0,
            Seq::empty(),
            comp.inputs@,
            comp.outputs@,
        );
        let ghost ins = comp.inputs@;
        let ghost outs = comp.outputs@;
        let mut in_region = false;
        let mut limit: usize = 0;
        let mut region: Vec<(PassKind, PassOptions)> = Vec::new();
        let n = self.passes.len();
        let mut i: usize = 0;
        proof {
            assert(self.passes@.subrange(0, n as int) =~= self.passes@);
        }
        while i < n
            invariant
                0 <= i <= n,
                n == self.passes@.len(),
                comp.wf(),
                comp.inputs@ == ins,
                comp.outputs@ == outs,
                ins == old(comp).inputs@,
                comp.label == old(comp).label,
                comp.attributes == old(comp).attributes,
                outs == old(comp).outputs@,
                target == spec_run_ops(
                    self.passes@,
                    comp_state(*old(comp)),
                    false,
                    0,
                    Seq::empty(),
                    old(comp).inputs@,
                    old(comp).outputs@,
                ),
                target == spec_run_ops(
                    self.passes@.subrange(i as int, n as int),
                    comp_state(*comp),
                    in_region,
                    limit as nat,
                    region@,
                    ins,
                    outs,
                ),
            decreases n - i,
        {
            let op = self.passes[i];
            proof {
                let rest = self.passes@.subrange(i as int, n as int);
                assert(rest[0] == op);
                assert(rest.drop_first() =~= self.passes@.subrange(i + 1, n as int));
            }
            match op {
                PassOp::Call(kind, options) => {
                    if in_region {
                        region.push((kind, options));
                    } else {
                        match run_pass(kind, options, comp) {
                            Ok(_) => {},
                            Err(e) => {
                                return Err(e);
                            },
                        }
                    }
                },
                PassOp::Converge(l) => {
                    in_region = true;
                    limit = l;
                },
                PassOp::EndConverge => {
                    if in_region {
                        match converge(&region, limit, comp) {
                            Ok(()) => {},
                            Err(e) => {
                                return Err(e);
                            },
                        }
                        in_region = false;
                    }
                },
            }
            i = i + 1;
        }
        Ok(())
    }
}

} // verus!
