use crate::ir::control::{
    control_view, controls_view, lemma_controls_view, lemma_controls_view_remove,
    lemma_controls_view_update, Control, ControlV, For, Par, Sequence,
};
use crate::ir::component::Component;
use crate::ir::pass::{preserves_timing, PassOptions};
use crate::ir::port::{Port, PortV};
use crate::ir::timing::trip_count;
use vstd::prelude::*;

verus! {

/// Control that does nothing and takes no time: empty control or a delay of
/// zero cycles.
pub open spec fn is_void(c: ControlV) -> bool {
    c is Empty || (c is Delay && c->Delay_0 == 0)
}

/// No entry of `cs` is void.
pub open spec fn void_free(cs: Seq<ControlV>) -> bool {
    forall|j: int| 0 <= j < cs.len() ==> !is_void(#[trigger] cs[j])
}

/// The cycles of the delays among `cs` (not those nested inside entries).
pub open spec fn delay_total(cs: Seq<ControlV>) -> nat
    decreases cs.len(),
{
    if cs.len() == 0 {
        0
    } else {
        delay_total(cs.drop_last()) + match cs.last() {
            ControlV::Delay(d) => d as nat,
            _ => 0nat,
        }
    }
}

/// The entries of `cs` that are neither empty control nor delays, in order.
pub open spec fn essentials(cs: Seq<ControlV>) -> Seq<ControlV>
    decreases cs.len(),
{
    if cs.len() == 0 {
        Seq::empty()
    } else {
        essentials(cs.drop_last()) + if cs.last() is Empty || cs.last() is Delay {
            Seq::empty()
        } else {
            seq![cs.last()]
        }
    }
}

/// The cycles of all delays in a control tree, plus one for each loop (the
/// cycle a loop takes to start).
pub open spec fn delay_weight(c: ControlV) -> nat
    decreases c,
{
    match c {
        ControlV::Delay(d) => d as nat,
        ControlV::For(_, _, _, body) => 1 + delay_weight(*body),
        ControlV::Sequence(cs) => delay_weight_all(cs),
        ControlV::Par(cs) => delay_weight_all(cs),
        ControlV::IfElse(_, t, f) => delay_weight(*t) + delay_weight(*f),
        _ => 0,
    }
}

/// The summed [`delay_weight`] of `cs`.
pub open spec fn delay_weight_all(cs: Seq<ControlV>) -> nat
    decreases cs,
{
    if cs.len() == 0 {
        0
    } else {
        delay_weight_all(cs.drop_last()) + delay_weight(cs.last())
    }
}

/// One step of collapsing a list at index `i`: a void entry is dropped, and
/// a delay right after another delay is merged into it.
pub open spec fn collapse_step(v: Seq<ControlV>, i: int) -> Seq<ControlV> {
    if is_void(v[i]) {
        v.remove(i)
    } else if i > 0 && v[i - 1] is Delay && v[i] is Delay {
        v.update(i - 1, ControlV::Delay((v[i - 1]->Delay_0 + v[i]->Delay_0) as usize)).remove(i)
    } else {
        v
    }
}

/// Collapsing steps at indices `i - 1` down to `0`.
pub open spec fn collapse_from(v: Seq<ControlV>, i: nat) -> Seq<ControlV>
    decreases i,
{
    if i == 0 {
        v
    } else {
        collapse_from(collapse_step(v, i - 1), (i - 1) as nat)
    }
}

/// A list of children collapsed from the last entry to the first.
pub open spec fn spec_collapse_list(cs: Seq<ControlV>) -> Seq<ControlV> {
    collapse_from(cs, cs.len())
}

/// The control that a collapsed list of children becomes, and whether it
/// replaced the list: nothing for no children, the child itself for one.
pub open spec fn finish_list(cs: Seq<ControlV>, is_par: bool) -> (ControlV, bool) {
    let r = spec_collapse_list(cs);
    if r.len() == 0 {
        (ControlV::Empty, true)
    } else if r.len() == 1 {
        (r[0], true)
    } else if is_par {
        (ControlV::Par(r), false)
    } else {
        (ControlV::Sequence(r), false)
    }
}

/// A loop with constant bounds that never iterates and has an empty body
/// disappears, or becomes the delay of its start when timing is preserved.
pub open spec fn finish_for(
    variant: crate::ir::port::Variable,
    lower: PortV,
    upper: PortV,
    body: ControlV,
    preserve_timing: bool,
) -> (ControlV, bool) {
    match (lower, upper) {
        (PortV::Constant(l), PortV::Constant(u)) if body is Empty && trip_count(l, u) == 0 => {
            if preserve_timing {
                (ControlV::Delay(1), true)
            } else {
                (ControlV::Empty, true)
            }
        },
        _ => (ControlV::For(variant, lower, upper, Box::new(body)), false),
    }
}

/// The control tree after collapsing, bottom-up, and whether any node was
/// removed or replaced.
pub open spec fn spec_collapse(c: ControlV, preserve_timing: bool) -> (ControlV, bool)
    decreases c,
{
    match c {
        ControlV::Sequence(cs) => {
            let inner = spec_collapse_all(cs, preserve_timing);
            let outer = finish_list(inner.0, false);
            (outer.0, inner.1 || outer.1)
        },
        ControlV::Par(cs) => {
            let inner = spec_collapse_all(cs, preserve_timing);
            let outer = finish_list(inner.0, true);
            (outer.0, inner.1 || outer.1)
        },
        ControlV::For(v, l, u, body) => {
            let inner = spec_collapse(*body, preserve_timing);
            let outer = finish_for(v, l, u, inner.0, preserve_timing);
            (outer.0, inner.1 || outer.1)
        },
        ControlV::IfElse(p, t, f) => {
            let t2 = spec_collapse(*t, preserve_timing);
            let f2 = spec_collapse(*f, preserve_timing);
            (ControlV::IfElse(p, Box::new(t2.0), Box::new(f2.0)), t2.1 || f2.1)
        },
        _ => (c, false),
    }
}

/// Each of `cs` collapsed, and whether any node was removed or replaced.
pub open spec fn spec_collapse_all(cs: Seq<ControlV>, preserve_timing: bool) -> (
    Seq<ControlV>,
    bool,
)
    decreases cs,
{
    if cs.len() == 0 {
        (Seq::empty(), false)
    } else {
        let rest = spec_collapse_all(cs.drop_last(), preserve_timing);
        let last = spec_collapse(cs.last(), preserve_timing);
        (rest.0.push(last.0), rest.1 || last.1)
    }
}

proof fn lemma_measures_split(a: Seq<ControlV>, b: Seq<ControlV>)
    ensures
        delay_total(a + b) == delay_total(a) + delay_total(b),
        essentials(a + b) == essentials(a) + essentials(b),
        delay_weight_all(a + b) == delay_weight_all(a) + delay_weight_all(b),
    decreases b.len(),
{
    if b.len() == 0 {
        assert(a + b =~= a);
        assert(essentials(a) + essentials(b) =~= essentials(a));
    } else {
        assert((a + b).drop_last() =~= a + b.drop_last());
        assert((a + b).last() == b.last());
        lemma_measures_split(a, b.drop_last());
        assert(essentials(a + b) =~= essentials(a) + essentials(b));
    }
}

proof fn lemma_measures_single(c: ControlV)
    ensures
        delay_total(seq![c]) == match c {
            ControlV::Delay(d) => d as nat,
            _ => 0nat,
        },
        essentials(seq![c]) == if c is Empty || c is Delay {
            Seq::<ControlV>::empty()
        } else {
            seq![c]
        },
        delay_weight_all(seq![c]) == delay_weight(c),
{
    let s = seq![c];
    assert(s.drop_last() =~= Seq::<ControlV>::empty());
    assert(s.last() == c);
    assert(delay_total(Seq::<ControlV>::empty()) == 0);
    assert(delay_weight_all(Seq::<ControlV>::empty()) == 0);
    assert(essentials(Seq::<ControlV>::empty()) + seq![c] =~= seq![c]);
    assert(essentials(Seq::<ControlV>::empty()) + Seq::<ControlV>::empty() =~= Seq::<
        ControlV,
    >::empty());
}

/// The top-level delays of a list are part of its weight.
proof fn lemma_delay_total_le_weight(cs: Seq<ControlV>)
    ensures
        delay_total(cs) <= delay_weight_all(cs),
    decreases cs.len(),
{
    if cs.len() > 0 {
        lemma_delay_total_le_weight(cs.drop_last());
        if let ControlV::Delay(d) = cs.last() {
            assert(delay_weight(cs.last()) == d);
        }
    }
}

/// One collapsing step keeps the total delay, the essential children and the
/// weight of a list, provided the total delay fits in a machine word.
proof fn lemma_collapse_step(v: Seq<ControlV>, i: int)
    requires
        0 <= i < v.len(),
        delay_total(v) <= usize::MAX,
    ensures
        delay_total(collapse_step(v, i)) == delay_total(v),
        essentials(collapse_step(v, i)) == essentials(v),
        delay_weight_all(collapse_step(v, i)) == delay_weight_all(v),
        collapse_step(v, i).subrange(i, collapse_step(v, i).len() as int) == if is_void(v[i]) || (
        i > 0 && v[i - 1] is Delay && v[i] is Delay) {
            v.subrange(i + 1, v.len() as int)
        } else {
            v.subrange(i, v.len() as int)
        },
        !is_void(v[i]) && i > 0 && v[i - 1] is Delay && v[i] is Delay ==> !is_void(
            collapse_step(v, i)[i - 1],
        ),
        i > 0 && v[i - 1] is Delay && v[i] is Delay ==> v[i - 1]->Delay_0 + v[i]->Delay_0
            <= delay_total(v),
{
    let n = v.len() as int;
    let pre = v.subrange(0, i);
    let post = v.subrange(i + 1, n);
    assert(v =~= pre + seq![v[i]] + post);
    lemma_measures_split(pre + seq![v[i]], post);
    lemma_measures_split(pre, seq![v[i]]);
    lemma_measures_single(v[i]);
    if is_void(v[i]) {
        assert(v.remove(i) =~= pre + post);
        lemma_measures_split(pre, post);
        assert(collapse_step(v, i).subrange(i, collapse_step(v, i).len() as int) =~= post);
    } else if i > 0 && v[i - 1] is Delay && v[i] is Delay {
        let pp = v.subrange(0, i - 1);
        assert(pre =~= pp + seq![v[i - 1]]);
        lemma_measures_split(pp, seq![v[i - 1]]);
        lemma_measures_single(v[i - 1]);
        let a = v[i - 1]->Delay_0;
        let b = v[i]->Delay_0;
        assert(delay_total(pp) + a + b + delay_total(post) == delay_total(v));
        assert(a + b <= delay_total(v));
        let merged = ControlV::Delay((a + b) as usize);
        assert(collapse_step(v, i) =~= pp + seq![merged] + post);
        lemma_measures_split(pp + seq![merged], post);
        lemma_measures_split(pp, seq![merged]);
        lemma_measures_single(merged);
        assert(collapse_step(v, i).subrange(i, collapse_step(v, i).len() as int) =~= post);
        assert(b != 0);
    } else {
        assert(collapse_step(v, i).subrange(i, n) =~= v.subrange(i, n));
        if i > 0 && v[i - 1] is Delay && v[i] is Delay {
            let pp = v.subrange(0, i - 1);
            assert(pre =~= pp + seq![v[i - 1]]);
            lemma_measures_split(pp, seq![v[i - 1]]);
            lemma_measures_single(v[i - 1]);
        }
    }
}

/// Collapsing keeps the total delay, the essential children and the weight,
/// and leaves no void entry behind, provided the entries from `i` on are
/// already void-free.
proof fn lemma_collapse_from(v: Seq<ControlV>, i: nat)
    requires
        i <= v.len(),
        delay_total(v) <= usize::MAX,
        void_free(v.subrange(i as int, v.len() as int)),
    ensures
        delay_total(collapse_from(v, i)) == delay_total(v),
        essentials(collapse_from(v, i)) == essentials(v),
        delay_weight_all(collapse_from(v, i)) == delay_weight_all(v),
        void_free(collapse_from(v, i)),
    decreases i,
{
    if i == 0 {
        assert(v.subrange(0, v.len() as int) =~= v);
    } else {
        let k: int = i - 1;
        let w = collapse_step(v, k);
        lemma_collapse_step(v, k);
        assert(k <= w.len());
        assert(void_free(w.subrange(k, w.len() as int))) by {
            let s = w.subrange(k, w.len() as int);
            if is_void(v[k]) || (k > 0 && v[k - 1] is Delay && v[k] is Delay) {
                assert forall|j: int| 0 <= j < s.len() implies !is_void(#[trigger] s[j]) by {
                    assert(s[j] == v.subrange(i as int, v.len() as int)[j]);
                }
            } else {
                assert forall|j: int| 0 <= j < s.len() implies !is_void(#[trigger] s[j]) by {
                    if j > 0 {
                        assert(s[j] == v.subrange(i as int, v.len() as int)[j - 1]);
                    }
                }
            }
        }
        lemma_collapse_from(w, k as nat);
    }
}

/// Collapsing a list of children leaves no empty control and no zero delay,
/// keeps every other non-delay child in order, and keeps the total number of
/// delay cycles, as long as that total fits in a machine word.
pub proof fn law_collapse_list(cs: Seq<ControlV>)
    requires
        delay_total(cs) <= usize::MAX,
    ensures
        void_free(spec_collapse_list(cs)),
        essentials(spec_collapse_list(cs)) == essentials(cs),
        delay_total(spec_collapse_list(cs)) == delay_total(cs),
{
    assert(cs.subrange(cs.len() as int, cs.len() as int) =~= Seq::<ControlV>::empty());
    lemma_collapse_from(cs, cs.len());
}

/// An entry weighs no more than the list it is in.
proof fn lemma_weight_entry(cs: Seq<ControlV>, i: int)
    requires
        0 <= i < cs.len(),
    ensures
        delay_weight(cs[i]) <= delay_weight_all(cs),
{
    let pre = cs.subrange(0, i);
    let post = cs.subrange(i + 1, cs.len() as int);
    assert(cs =~= pre + seq![cs[i]] + post);
    lemma_measures_split(pre + seq![cs[i]], post);
    lemma_measures_split(pre, seq![cs[i]]);
    lemma_measures_single(cs[i]);
}

/// A collapsed list weighs what the list weighed.
proof fn lemma_collapse_list_weight(cs: Seq<ControlV>)
    requires
        delay_weight_all(cs) <= usize::MAX,
    ensures
        delay_weight_all(spec_collapse_list(cs)) == delay_weight_all(cs),
{
    lemma_delay_total_le_weight(cs);
    assert(cs.subrange(cs.len() as int, cs.len() as int) =~= Seq::<ControlV>::empty());
    lemma_collapse_from(cs, cs.len());
}

/// Collapsing never adds weight.
pub proof fn lemma_collapse_weight(c: ControlV, preserve_timing: bool)
    requires
        delay_weight(c) <= usize::MAX,
    ensures
        delay_weight(spec_collapse(c, preserve_timing).0) <= delay_weight(c),
    decreases c,
{
    match c {
        ControlV::Sequence(cs) => {
            lemma_collapse_all_weight(cs, preserve_timing);
            let inner = spec_collapse_all(cs, preserve_timing).0;
            lemma_collapse_list_weight(inner);
            let r = spec_collapse_list(inner);
            if r.len() == 1 {
                lemma_measures_single(r[0]);
                assert(r =~= seq![r[0]]);
            }
        },
        ControlV::Par(cs) => {
            lemma_collapse_all_weight(cs, preserve_timing);
            let inner = spec_collapse_all(cs, preserve_timing).0;
            lemma_collapse_list_weight(inner);
            let r = spec_collapse_list(inner);
            if r.len() == 1 {
                lemma_measures_single(r[0]);
                assert(r =~= seq![r[0]]);
            }
        },
        ControlV::For(_, _, _, body) => {
            lemma_collapse_weight(*body, preserve_timing);
        },
        ControlV::IfElse(_, t, f) => {
            lemma_collapse_weight(*t, preserve_timing);
            lemma_collapse_weight(*f, preserve_timing);
        },
        _ => {},
    }
}

/// Collapsing each entry never adds weight.
pub proof fn lemma_collapse_all_weight(cs: Seq<ControlV>, preserve_timing: bool)
    requires
        delay_weight_all(cs) <= usize::MAX,
    ensures
        delay_weight_all(spec_collapse_all(cs, preserve_timing).0) <= delay_weight_all(cs),
        spec_collapse_all(cs, preserve_timing).0.len() == cs.len(),
    decreases cs,
{
    if cs.len() > 0 {
        lemma_collapse_all_weight(cs.drop_last(), preserve_timing);
        lemma_collapse_weight(cs.last(), preserve_timing);
        let rest = spec_collapse_all(cs.drop_last(), preserve_timing).0;
        let last = spec_collapse(cs.last(), preserve_timing).0;
        assert(rest.push(last).drop_last() =~= rest);
    }
}

/// Collapses a list of children from the last entry to the first: void
/// entries are dropped, and a delay right after another delay is merged into
/// it.
pub fn collapse_children(children: &mut Vec<Control>)
    requires
        delay_total(controls_view(old(children)@)) <= usize::MAX,
    ensures
        controls_view(final(children)@) == spec_collapse_list(controls_view(old(children)@)),
{
    let ghost cs = controls_view(children@);
    let mut i = children.len();
    proof {
        lemma_controls_view(children@);
    }
    while i > 0
        invariant
            i <= children@.len(),
            controls_view(children@).len() == children@.len(),
            collapse_from(controls_view(children@), i as nat) == spec_collapse_list(cs),
            delay_total(controls_view(children@)) == delay_total(cs),
            delay_total(cs) <= usize::MAX,
        decreases i,
    {
        let k = i - 1;
        let ghost v = controls_view(children@);
        proof {
            lemma_controls_view(children@);
            lemma_collapse_step(v, k as int);
        }
        let void = match &children[k] {
            Control::Empty => true,
            Control::Delay(d) => *d == 0,
            _ => false,
        };
        if void {
            proof {
                lemma_controls_view_remove(children@, k as int);
            }
            children.remove(k);
        } else if k > 0 {
            let a = match &children[k - 1] {
                Control::Delay(d) => Some(*d),
                _ => None,
            };
            let b = match &children[k] {
                Control::Delay(d) => Some(*d),
                _ => None,
            };
            if let (Some(a), Some(b)) = (a, b) {
                let ghost before = children@;
                children.set(k - 1, Control::Delay(a + b));
                proof {
                    lemma_controls_view_update(before, k - 1, Control::Delay((a + b) as usize));
                    lemma_controls_view_remove(children@, k as int);
                }
                children.remove(k);
            }
        }
        proof {
            lemma_controls_view(children@);
        }
        i = k;
    }
}

/// The control that collapsed children make: nothing for no children, the
/// child itself for one, otherwise a par or a sequence of them; and whether
/// the list was replaced.
fn finish_children(children: Vec<Control>, is_par: bool) -> (result: (Control, bool))
    ensures
        result.0@ == (if children@.len() == 0 {
            ControlV::Empty
        } else if children@.len() == 1 {
            control_view(children@[0])
        } else if is_par {
            ControlV::Par(controls_view(children@))
        } else {
            ControlV::Sequence(controls_view(children@))
        }),
        result.1 == (children@.len() <= 1),
{
    let mut children = children;
    if children.len() == 0 {
        (Control::Empty, true)
    } else if children.len() == 1 {
        let only = children.pop().unwrap();
        (only, true)
    } else if is_par {
        (Control::Par(Par { children }), false)
    } else {
        (Control::Sequence(Sequence { children }), false)
    }
}

/// Collapses every control tree of a list, in order.
#[verifier::loop_isolation(false)]
pub fn collapse_all(children: Vec<Control>, preserve_timing: bool) -> (result: (Vec<Control>, bool))
    requires
        delay_weight_all(controls_view(children@)) <= usize::MAX,
    ensures
        (controls_view(result.0@), result.1) == spec_collapse_all(
            controls_view(children@),
            preserve_timing,
        ),
    decreases children@,
{
    let ghost orig = children@;
    let ghost cs = controls_view(orig);
    proof {
        lemma_controls_view(orig);
    }
    let mut rest = children;
    let mut out: Vec<Control> = Vec::new();
    let mut modified = false;
    let n = rest.len();
    let mut i: usize = 0;
    proof {
        assert(cs.subrange(0, 0) =~= Seq::<ControlV>::empty());
        assert(rest@.subrange(0, n as int) =~= rest@);
    }
    while i < n
        invariant
            0 <= i <= n,
            n == orig.len(),
            cs == controls_view(orig),
            cs.len() == n,
            forall|j: int| 0 <= j < n ==> #[trigger] cs[j] == control_view(orig[j]),
            delay_weight_all(cs) <= usize::MAX,
            rest@ == orig.subrange(i as int, n as int),
            (controls_view(out@), modified) == spec_collapse_all(
                cs.subrange(0, i as int),
                preserve_timing,
            ),
        decreases n - i,
    {
        let child = rest.remove(0);
        proof {
            assert(child == orig[i as int]);
            assert(decreases_to!(orig => orig[i as int]));
            assert(rest@ =~= orig.subrange(i + 1, n as int));
            lemma_weight_entry(cs, i as int);
        }
        let ghost before = out@;
        let (new_child, m) = collapse(child, preserve_timing);
        out.push(new_child);
        modified = modified || m;
        proof {
            assert(out@.drop_last() =~= before);
            assert(cs.subrange(0, i + 1).drop_last() =~= cs.subrange(0, i as int));
            assert(cs.subrange(0, i + 1).last() == cs[i as int]);
        }
        i = i + 1;
    }
    proof {
        assert(cs.subrange(0, n as int) =~= cs);
    }
    (out, modified)
}

/// Collapses a control tree bottom-up (see [`spec_collapse`]), and says
/// whether any node was removed or replaced.
pub fn collapse(control: Control, preserve_timing: bool) -> (result: (Control, bool))
    requires
        delay_weight(control@) <= usize::MAX,
    ensures
        (result.0@, result.1) == spec_collapse(control@, preserve_timing),
    decreases control,
{
    let ghost c = control@;
    match control {
        Control::Sequence(seq) => {
            let (mut children, m1) = collapse_all(seq.children, preserve_timing);
            proof {
                lemma_collapse_all_weight(controls_view(seq.children@), preserve_timing);
                lemma_delay_total_le_weight(controls_view(children@));
            }
            collapse_children(&mut children);
            proof {
                lemma_controls_view(children@);
            }
            let (result, m2) = finish_children(children, false);
            (result, m1 || m2)
        },
        Control::Par(par) => {
            let (mut children, m1) = collapse_all(par.children, preserve_timing);
            proof {
                lemma_collapse_all_weight(controls_view(par.children@), preserve_timing);
                lemma_delay_total_le_weight(controls_view(children@));
            }
            collapse_children(&mut children);
            proof {
                lemma_controls_view(children@);
            }
            let (result, m2) = finish_children(children, true);
            (result, m1 || m2)
        },
        Control::For(for_) => {
            let For { variant, lower, exclusive_upper, body } = for_;
            let (new_body, m1) = collapse(*body, preserve_timing);
            let never = match (&lower, &exclusive_upper) {
                (Port::Constant(l), Port::Constant(u)) => *l >= *u,
                _ => false,
            };
            let empty_body = match &new_body {
                Control::Empty => true,
                _ => false,
            };
            if never && empty_body {
                if preserve_timing {
                    (Control::Delay(1), true)
                } else {
                    (Control::Empty, true)
                }
            } else {
                (Control::For(For { variant, lower, exclusive_upper, body: Box::new(new_body) }), m1)
            }
        },
        Control::IfElse(if_else) => {
            let (t, m1) = collapse(*if_else.true_branch, preserve_timing);
            let (f, m2) = collapse(*if_else.false_branch, preserve_timing);
            (
                Control::IfElse(
                    crate::ir::control::IfElse {
                        cond: if_else.cond,
                        true_branch: Box::new(t),
                        false_branch: Box::new(f),
                    },
                ),
                m1 || m2,
            )
        },
        other => (other, false),
    }
}

/// Collapses singleton or empty pars and sequences, and loops that never
/// run an empty body.
pub struct CollapseControl {
    pub preserve_timing: bool,
}

impl CollapseControl {
    /// The pass configured by `options`.
    pub fn from(options: PassOptions) -> (result: Self)
        ensures
            result.preserve_timing == preserves_timing(options),
    {
        CollapseControl { preserve_timing: options.contains(PassOptions::preserve_timing()) }
    }

    /// The name of the pass.
    pub fn name() -> (result: &'static str)
        ensures
            result@ == "collapse-control"@,
    {
        "collapse-control"
    }

    /// Collapses the control of `comp` (see [`spec_collapse`]) and says
    /// whether anything was removed or replaced.
    pub fn run(&self, comp: &mut Component) -> (result: bool)
        requires
            delay_weight(old(comp).cfg@) <= usize::MAX,
        ensures
            (final(comp).cfg@, result) == spec_collapse(old(comp).cfg@, self.preserve_timing),
            final(comp).label == old(comp).label,
            final(comp).attributes == old(comp).attributes,
            final(comp).inputs@ == old(comp).inputs@,
            final(comp).outputs@ == old(comp).outputs@,
            final(comp).cell_alloc@ == old(comp).cell_alloc@,
    {
        let mut cfg = Control::Empty;
        std::mem::swap(&mut cfg, &mut comp.cfg);
        let (new_cfg, modified) = collapse(cfg, self.preserve_timing);
        comp.cfg = new_cfg;
        modified
    }
}

/// The weight of a control tree (see [`delay_weight`]) when it fits in a
/// machine word.
pub fn checked_delay_weight(control: &Control) -> (result: Option<usize>)
    ensures
        result is Some <==> delay_weight(control@) <= usize::MAX,
        result matches Some(w) ==> w == delay_weight(control@),
    decreases *control,
{
    match control {
        Control::Delay(d) => Some(*d),
        Control::For(for_) => match checked_delay_weight(&for_.body) {
            Some(w) => {
                if w == usize::MAX {
                    None
                } else {
                    Some(w + 1)
                }
            },
            None => None,
        },
        Control::Sequence(seq) => checked_delay_weight_all(&seq.children),
        Control::Par(par) => checked_delay_weight_all(&par.children),
        Control::IfElse(if_else) => {
            match (
                checked_delay_weight(&if_else.true_branch),
                checked_delay_weight(&if_else.false_branch),
            ) {
                (Some(a), Some(b)) => {
                    if a > usize::MAX - b {
                        None
                    } else {
                        Some(a + b)
                    }
                },
                _ => None,
            }
        },
        _ => Some(0),
    }
}

/// The summed weight of `children` when it fits in a machine word.
pub fn checked_delay_weight_all(children: &Vec<Control>) -> (result: Option<usize>)
    ensures
        result is Some <==> delay_weight_all(controls_view(children@)) <= usize::MAX,
        result matches Some(w) ==> w == delay_weight_all(controls_view(children@)),
    decreases children@,
{
    let ghost cs = controls_view(children@);
    proof {
        lemma_controls_view(children@);
        assert(cs.subrange(0, 0) =~= Seq::<ControlV>::empty());
    }
    let mut total: usize = 0;
    let n = children.len();
    let mut i: usize = 0;
    while i < n
        invariant
            0 <= i <= n,
            n == children@.len(),
            cs == controls_view(children@),
            cs.len() == n,
            forall|j: int| 0 <= j < n ==> #[trigger] cs[j] == control_view(children@[j]),
            total == delay_weight_all(cs.subrange(0, i as int)),
        decreases n - i,
    {
        proof {
            assert(decreases_to!(children@ => children@[i as int]));
            assert(cs.subrange(0, i + 1).drop_last() =~= cs.subrange(0, i as int));
            assert(cs.subrange(0, i + 1).last() == cs[i as int]);
            let pre = cs.subrange(0, i + 1);
            let post = cs.subrange(i + 1, n as int);
            assert(cs =~= pre + post);
            lemma_measures_split(pre, post);
        }
        match checked_delay_weight(&children[i]) {
            Some(w) => {
                if total > usize::MAX - w {
                    return None;
                }
                total = total + w;
            },
            None => {
                proof {
                    lemma_weight_entry(cs, i as int);
                }
                return None;
            },
        }
        i = i + 1;
    }
    proof {
        assert(cs.subrange(0, n as int) =~= cs);
    }
    Some(total)
}

} // verus!
