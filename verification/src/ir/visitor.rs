//! Walking a control tree: each node is entered, its children are walked,
//! and it is left, so that a pass can act before and after the inside of
//! each node.
use super::component::Component;
use super::control::{controls_view, control_view, lemma_controls_view, Control, ControlV};
use vstd::prelude::*;

verus! {

/// One event of a walk over a control tree.
pub enum WalkEvent {
    /// The walk enters this node.
    Start(Control),
    /// The walk leaves this node, after everything inside it.
    Finish(Control),
}

/// The value of a [`WalkEvent`].
pub enum WalkEventV {
    Start(ControlV),
    Finish(ControlV),
}

impl View for WalkEvent {
    type V = WalkEventV;

    open spec fn view(&self) -> WalkEventV {
        match *self {
            WalkEvent::Start(c) => WalkEventV::Start(c@),
            WalkEvent::Finish(c) => WalkEventV::Finish(c@),
        }
    }
}

/// The values of a list of events.
pub open spec fn events_view(s: Seq<WalkEvent>) -> Seq<WalkEventV> {
    s.map_values(|e: WalkEvent| e@)
}

/// The events of walking `c`: entering it; walking a loop's body, a
/// sequence's or a par's children (first to last, or last to first when
/// `reverse`), or a branch's true arm then its false arm; and leaving it.
pub open spec fn spec_walk(c: ControlV, reverse: bool) -> Seq<WalkEventV>
    decreases c,
{
    seq![WalkEventV::Start(c)] + match c {
        ControlV::For(_, _, _, body) => spec_walk(*body, reverse),
        ControlV::Sequence(cs) => spec_walk_all(cs, reverse),
        ControlV::Par(cs) => spec_walk_all(cs, reverse),
        ControlV::IfElse(_, t, f) => spec_walk(*t, reverse) + spec_walk(*f, reverse),
        _ => Seq::empty(),
    } + seq![WalkEventV::Finish(c)]
}

/// The events of walking each of `cs`, first to last, or last to first
/// when `reverse`.
pub open spec fn spec_walk_all(cs: Seq<ControlV>, reverse: bool) -> Seq<WalkEventV>
    decreases cs,
{
    if cs.len() == 0 {
        Seq::empty()
    } else if reverse {
        spec_walk(cs.last(), reverse) + spec_walk_all(cs.drop_last(), reverse)
    } else {
        spec_walk_all(cs.drop_last(), reverse) + spec_walk(cs.last(), reverse)
    }
}

/// The number of nodes of `c`.
pub open spec fn node_count(c: ControlV) -> nat
    decreases c,
{
    1 + match c {
        ControlV::For(_, _, _, body) => node_count(*body),
        ControlV::Sequence(cs) => node_count_all(cs),
        ControlV::Par(cs) => node_count_all(cs),
        ControlV::IfElse(_, t, f) => node_count(*t) + node_count(*f),
        _ => 0,
    }
}

/// The number of nodes of each of `cs`, summed.
pub open spec fn node_count_all(cs: Seq<ControlV>) -> nat
    decreases cs,
{
    if cs.len() == 0 {
        0
    } else {
        node_count_all(cs.drop_last()) + node_count(cs.last())
    }
}

/// A walk enters `c` first and leaves it last, and has one start and one
/// finish for each node, in either direction.
pub proof fn law_walk_brackets(c: ControlV, reverse: bool)
    ensures
        spec_walk(c, reverse).len() == 2 * node_count(c),
        spec_walk(c, reverse)[0] == WalkEventV::Start(c),
        spec_walk(c, reverse).last() == WalkEventV::Finish(c),
    decreases c,
{
    match c {
        ControlV::For(_, _, _, body) => law_walk_brackets(*body, reverse),
        ControlV::Sequence(cs) => lemma_walk_all_len(cs, reverse),
        ControlV::Par(cs) => lemma_walk_all_len(cs, reverse),
        ControlV::IfElse(_, t, f) => {
            law_walk_brackets(*t, reverse);
            law_walk_brackets(*f, reverse);
        },
        _ => {},
    }
}

/// Walking a list gives two events per node.
proof fn lemma_walk_all_len(cs: Seq<ControlV>, reverse: bool)
    ensures
        spec_walk_all(cs, reverse).len() == 2 * node_count_all(cs),
    decreases cs,
{
    if cs.len() > 0 {
        lemma_walk_all_len(cs.drop_last(), reverse);
        law_walk_brackets(cs.last(), reverse);
    }
}

/// The values of one more child.
proof fn lemma_view_prefix(s: Seq<Control>, i: int)
    requires
        0 <= i < s.len(),
    ensures
        controls_view(s.subrange(0, i + 1)).len() > 0,
        controls_view(s.subrange(0, i + 1)).drop_last() == controls_view(s.subrange(0, i)),
        controls_view(s.subrange(0, i + 1)).last() == control_view(s[i]),
{
    assert(s.subrange(0, i + 1).drop_last() =~= s.subrange(0, i));
    lemma_controls_view(s.subrange(0, i + 1));
}

/// Appends the events of walking `c` to `out` (see [`spec_walk`]).
pub fn traverse_control(c: &Control, reverse: bool, out: &mut Vec<WalkEvent>)
    ensures
        events_view(final(out)@) == events_view(old(out)@) + spec_walk(c@, reverse),
    decreases *c,
{
    let ghost base = events_view(out@);
    out.push(WalkEvent::Start(c.duplicate()));
    proof {
        assert(events_view(out@) =~= base + seq![WalkEventV::Start(c@)]);
    }
    let ghost mid = events_view(out@);
    match c {
        Control::For(f) => traverse_control(&f.body, reverse, out),
        Control::Sequence(s) => traverse_all(&s.children, reverse, out),
        Control::Par(p) => traverse_all(&p.children, reverse, out),
        Control::IfElse(i) => {
            traverse_control(&i.true_branch, reverse, out);
            traverse_control(&i.false_branch, reverse, out);
        },
        _ => {},
    }
    let ghost inner = events_view(out@);
    out.push(WalkEvent::Finish(c.duplicate()));
    proof {
        assert(events_view(out@) =~= inner + seq![WalkEventV::Finish(c@)]);
        assert(events_view(out@) =~= base + spec_walk(c@, reverse));
    }
}

/// The events of walking the control of `comp` (see [`spec_walk`]).
pub fn traverse_component(comp: &Component, reverse: bool) -> (result: Vec<WalkEvent>)
    ensures
        events_view(result@) == spec_walk(comp.cfg@, reverse),
{
    let mut out: Vec<WalkEvent> = Vec::new();
    traverse_control(&comp.cfg, reverse, &mut out);
    proof {
        assert(events_view(Seq::<WalkEvent>::empty()) + spec_walk(comp.cfg@, reverse) =~= spec_walk(
            comp.cfg@,
            reverse,
        ));
    }
    out
}

/// Appends the events of walking each of `cs` (see [`spec_walk_all`]).
fn traverse_all(cs: &Vec<Control>, reverse: bool, out: &mut Vec<WalkEvent>)
    ensures
        events_view(final(out)@) == events_view(old(out)@) + spec_walk_all(controls_view(cs@), reverse),
    decreases cs@,
{
    let ghost base = events_view(out@);
    let n = cs.len();
    proof {
        lemma_controls_view(cs@);
    }
    if !reverse {
        let mut i: usize = 0;
        proof {
            assert(cs@.subrange(0, 0) =~= Seq::<Control>::empty());
            assert(events_view(out@) =~= base + spec_walk_all(controls_view(cs@.subrange(0, 0)), reverse));
        }
        while i < n
            invariant
                0 <= i <= n,
                n == cs@.len(),
                !reverse,
                events_view(out@) == base + spec_walk_all(controls_view(cs@.subrange(0, i as int)), reverse),
            decreases n - i,
        {
            proof {
                assert(decreases_to!(cs@ => cs@[i as int]));
                lemma_view_prefix(cs@, i as int);
            }
            let ghost before = events_view(out@);
            traverse_control(&cs[i], reverse, out);
            proof {
                assert(events_view(out@) =~= base + spec_walk_all(
                    controls_view(cs@.subrange(0, i + 1)),
                    reverse,
                ));
            }
            i = i + 1;
        }
        proof {
            assert(cs@.subrange(0, n as int) =~= cs@);
        }
    } else {
        let mut i: usize = n;
        proof {
            assert(cs@.subrange(0, n as int) =~= cs@);
        }
        while i > 0
            invariant
                0 <= i <= n,
                n == cs@.len(),
                reverse,
                spec_walk_all(controls_view(cs@), reverse) == spec_walk_all(
                    controls_view(cs@.subrange(0, n as int)),
                    reverse,
                ),
                events_view(out@) + spec_walk_all(controls_view(cs@.subrange(0, i as int)), reverse) == base
                    + spec_walk_all(controls_view(cs@), reverse),
            decreases i,
        {
            proof {
                assert(decreases_to!(cs@ => cs@[i - 1]));
                lemma_view_prefix(cs@, i - 1);
            }
            let ghost before = events_view(out@);
            traverse_control(&cs[i - 1], reverse, out);
            proof {
                let rest = spec_walk_all(controls_view(cs@.subrange(0, i - 1)), reverse);
                let w = spec_walk(control_view(cs@[i - 1]), reverse);
                assert(spec_walk_all(controls_view(cs@.subrange(0, i as int)), reverse) == w + rest);
                assert(events_view(out@) == before + w);
                assert(events_view(out@) + rest =~= before + (w + rest));
            }
            i = i - 1;
        }
        proof {
            assert(cs@.subrange(0, 0) =~= Seq::<Control>::empty());
            assert(events_view(out@) + Seq::<WalkEventV>::empty() =~= events_view(out@));
        }
    }
}

} // verus!
