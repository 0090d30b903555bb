use vstd::prelude::*;

use crate::expr::Expr;
use crate::expr::spec_eval;
use crate::model::Assignment;
use crate::model::SequentialBlock;
use crate::model::SignalState;
use crate::model::spec_apply_assignment;
use crate::model::spec_apply_assignments;
use crate::model::spec_clock;
use crate::model::spec_comb_pass;
use crate::model::spec_env;
use crate::model::spec_input;
use crate::model::spec_reset;
use crate::model::spec_reset_pass;

verus! {

broadcast use vstd::map_lib::lemma_map_new_domain, vstd::map_lib::lemma_map_new_values;

/// Whether evaluating the expression reads the named signal.
pub open spec fn mentions(e: Expr, name: Seq<char>) -> bool
    decreases e,
{
    match e {
        Expr::Const(_) => false,
        Expr::Var(n) => n@ == name,
        Expr::Add(l, r) => mentions(*l, name) || mentions(*r, name),
        Expr::Sub(l, r) => mentions(*l, name) || mentions(*r, name),
        Expr::Mul(l, r) => mentions(*l, name) || mentions(*r, name),
        Expr::Div(l, r) => mentions(*l, name) || mentions(*r, name),
        Expr::Not(a) => mentions(*a, name),
    }
}

/// Two states hold the same knowledge about one signal name in every
/// category.
pub open spec fn agree_on(a: SignalState, b: SignalState, g: Seq<char>) -> bool {
    &&& a.inputs.contains_key(g) == b.inputs.contains_key(g)
    &&& (a.inputs.contains_key(g) ==> a.inputs[g] == b.inputs[g])
    &&& a.outputs.contains_key(g) == b.outputs.contains_key(g)
    &&& (a.outputs.contains_key(g) ==> a.outputs[g] == b.outputs[g])
    &&& a.internals.contains_key(g) == b.internals.contains_key(g)
    &&& (a.internals.contains_key(g) ==> a.internals[g] == b.internals[g])
}

/// Two environments hold the same knowledge about one name.
pub open spec fn envs_agree_on(
    e1: Map<Seq<char>, usize>,
    e2: Map<Seq<char>, usize>,
    g: Seq<char>,
) -> bool {
    &&& e1.contains_key(g) == e2.contains_key(g)
    &&& (e1.contains_key(g) ==> e1[g] == e2[g])
}

/// Some assignment at index `from` or later targets the named signal.
pub open spec fn targets_from(list: Seq<Assignment>, from: int, g: Seq<char>) -> bool {
    exists|j: int| from <= j < list.len() && #[trigger] list[j].target@ == g
}

proof fn lemma_env_agree(a: SignalState, b: SignalState, g: Seq<char>)
    requires
        agree_on(a, b, g),
    ensures
        envs_agree_on(spec_env(a), spec_env(b), g),
{
}

/// Environment agreement on every name an expression mentions makes the
/// expression evaluate alike.
proof fn lemma_eval_agree(e: Expr, e1: Map<Seq<char>, usize>, e2: Map<Seq<char>, usize>)
    requires
        forall|g: Seq<char>| #[trigger] mentions(e, g) ==> envs_agree_on(e1, e2, g),
    ensures
        spec_eval(e, e1) == spec_eval(e, e2),
    decreases e,
{
    match e {
        Expr::Const(_) => {},
        Expr::Var(n) => {
            assert(mentions(e, n@));
        },
        Expr::Add(l, r) => {
            assert forall|g: Seq<char>| #[trigger] mentions(*l, g) implies envs_agree_on(
                e1,
                e2,
                g,
            ) by {
                assert(mentions(e, g));
            }
            assert forall|g: Seq<char>| #[trigger] mentions(*r, g) implies envs_agree_on(
                e1,
                e2,
                g,
            ) by {
                assert(mentions(e, g));
            }
            lemma_eval_agree(*l, e1, e2);
            lemma_eval_agree(*r, e1, e2);
        },
        Expr::Sub(l, r) => {
            assert forall|g: Seq<char>| #[trigger] mentions(*l, g) implies envs_agree_on(
                e1,
                e2,
                g,
            ) by {
                assert(mentions(e, g));
            }
            assert forall|g: Seq<char>| #[trigger] mentions(*r, g) implies envs_agree_on(
                e1,
                e2,
                g,
            ) by {
                assert(mentions(e, g));
            }
            lemma_eval_agree(*l, e1, e2);
            lemma_eval_agree(*r, e1, e2);
        },
        Expr::Mul(l, r) => {
            assert forall|g: Seq<char>| #[trigger] mentions(*l, g) implies envs_agree_on(
                e1,
                e2,
                g,
            ) by {
                assert(mentions(e, g));
            }
            assert forall|g: Seq<char>| #[trigger] mentions(*r, g) implies envs_agree_on(
                e1,
                e2,
                g,
            ) by {
                assert(mentions(e, g));
            }
            lemma_eval_agree(*l, e1, e2);
            lemma_eval_agree(*r, e1, e2);
        },
        Expr::Div(l, r) => {
            assert forall|g: Seq<char>| #[trigger] mentions(*l, g) implies envs_agree_on(
                e1,
                e2,
                g,
            ) by {
                assert(mentions(e, g));
            }
            assert forall|g: Seq<char>| #[trigger] mentions(*r, g) implies envs_agree_on(
                e1,
                e2,
                g,
            ) by {
                assert(mentions(e, g));
            }
            lemma_eval_agree(*l, e1, e2);
            lemma_eval_agree(*r, e1, e2);
        },
        Expr::Not(a) => {
            assert forall|g: Seq<char>| #[trigger] mentions(*a, g) implies envs_agree_on(
                e1,
                e2,
                g,
            ) by {
                assert(mentions(e, g));
            }
            lemma_eval_agree(*a, e1, e2);
        },
    }
}

/// Applying assignments never changes the input map nor the domains of
/// the output and internal maps.
proof fn lemma_apply_doms(s: SignalState, list: Seq<Assignment>)
    ensures
        spec_apply_assignments(s, list).inputs == s.inputs,
        spec_apply_assignments(s, list).outputs.dom() == s.outputs.dom(),
        spec_apply_assignments(s, list).internals.dom() == s.internals.dom(),
    decreases list.len(),
{
    if list.len() > 0 {
        lemma_apply_doms(s, list.drop_last());
        let u = spec_apply_assignments(s, list.drop_last());
        let k = list.last().target@;
        if u.outputs.contains_key(k) {
            assert(u.outputs.dom().insert(k) =~= u.outputs.dom());
        } else if u.internals.contains_key(k) {
            assert(u.internals.dom().insert(k) =~= u.internals.dom());
        }
    }
}

/// Applying assignments none of which targets `g` leaves `g` alone.
proof fn lemma_apply_untouched(s: SignalState, list: Seq<Assignment>, g: Seq<char>)
    requires
        !targets_from(list, 0, g),
    ensures
        agree_on(spec_apply_assignments(s, list), s, g),
    decreases list.len(),
{
    if list.len() > 0 {
        assert(list[list.len() - 1].target@ != g);
        assert(!targets_from(list.drop_last(), 0, g)) by {
            if targets_from(list.drop_last(), 0, g) {
                let j = choose|j: int|
                    0 <= j < list.drop_last().len() && #[trigger] list.drop_last()[j].target@ == g;
                assert(list[j].target@ == g);
            }
        }
        lemma_apply_untouched(s, list.drop_last(), g);
    }
}

/// One more applied assignment: the state after the prefix of length
/// `i + 1` is the state after the prefix of length `i` with assignment
/// `i` applied.
proof fn lemma_apply_take_step(s: SignalState, list: Seq<Assignment>, i: int)
    requires
        0 <= i < list.len(),
    ensures
        spec_apply_assignments(s, list.take(i + 1)) == spec_apply_assignment(
            spec_apply_assignments(s, list.take(i)),
            list[i],
        ),
{
    assert(list.take(i + 1).drop_last() =~= list.take(i));
    assert(list.take(i + 1).last() == list[i]);
}

/// If no assignment at index `k` or later targets `g`, then already the
/// prefix of length `k` gives `g` its final value.
proof fn lemma_prefix_agrees(s: SignalState, list: Seq<Assignment>, k: int, g: Seq<char>)
    requires
        0 <= k <= list.len(),
        !targets_from(list, k, g),
    ensures
        agree_on(
            spec_apply_assignments(s, list.take(k)),
            spec_apply_assignments(s, list),
            g,
        ),
    decreases list.len() - k,
{
    if k == list.len() {
        assert(list.take(k) =~= list);
    } else {
        assert(list[k].target@ != g);
        assert(!targets_from(list, k + 1, g)) by {
            if targets_from(list, k + 1, g) {
                let j = choose|j: int| k + 1 <= j < list.len() && #[trigger] list[j].target@ == g;
                assert(list[j].target@ == g);
            }
        }
        lemma_prefix_agrees(s, list, k + 1, g);
        lemma_apply_take_step(s, list, k);
    }
}

// ---------------------------------------------------------------------
// Determinism
// ---------------------------------------------------------------------

/// One externally visible operation on an evaluation engine.
pub enum EngineOp {
    /// `input(name, value)`.
    SetInput { name: Seq<char>, value: usize },
    /// `clock()`, outside of reset.
    ClockEdge,
    /// `reset()`.
    Reset,
}

/// The state after one operation.
pub open spec fn spec_step_op(
    s: SignalState,
    comb: Seq<Assignment>,
    seqs: Seq<SequentialBlock>,
    op: EngineOp,
) -> SignalState {
    match op {
        EngineOp::SetInput { name, value } => spec_input(s, comb, name, value),
        EngineOp::ClockEdge => spec_clock(s, seqs, comb),
        EngineOp::Reset => spec_reset(s, seqs, comb),
    }
}

/// The state after a sequence of operations, applied in order.
pub open spec fn spec_run_ops(
    s: SignalState,
    comb: Seq<Assignment>,
    seqs: Seq<SequentialBlock>,
    ops: Seq<EngineOp>,
) -> SignalState
    decreases ops.len(),
{
    if ops.len() == 0 {
        s
    } else {
        spec_step_op(spec_run_ops(s, comb, seqs, ops.drop_last()), comb, seqs, ops.last())
    }
}

/// Determinism: every engine operation's effect is a pure function of
/// the signal state and the compiled representation, so a fixed engine
/// driven by a fixed call sequence always reaches the same state — and
/// with it the same `get` results. Two engines that start equal and see
/// equal operation sequences therefore stay equal. The executable
/// methods' contracts tie each call to `spec_step_op`, and this lemma
/// states that the folded effect admits no other source of variation.
pub proof fn lemma_deterministic(
    s1: SignalState,
    s2: SignalState,
    comb1: Seq<Assignment>,
    comb2: Seq<Assignment>,
    seqs1: Seq<SequentialBlock>,
    seqs2: Seq<SequentialBlock>,
    ops1: Seq<EngineOp>,
    ops2: Seq<EngineOp>,
)
    requires
        s1 == s2,
        comb1 == comb2,
        seqs1 == seqs2,
        ops1 == ops2,
    ensures
        spec_run_ops(s1, comb1, seqs1, ops1) == spec_run_ops(s2, comb2, seqs2, ops2),
{
}

// ---------------------------------------------------------------------
// Combinational purity
// ---------------------------------------------------------------------

/// No continuous assignment reads a signal that the same or any later
/// continuous assignment writes: the pass has no forward, self, or
/// duplicate-target references into what it still has to compute.
pub open spec fn straight_line(comb: Seq<Assignment>) -> bool {
    forall|i: int, j: int|
        0 <= i <= j < comb.len() ==> !#[trigger] mentions(comb[i].expression, comb[j].target@)
}

/// After a full pass from `s`, re-running a prefix of the pass changes
/// nothing about signals the rest of the list leaves alone.
proof fn lemma_second_pass_prefix(s: SignalState, comb: Seq<Assignment>, i: int)
    requires
        straight_line(comb),
        s.outputs.dom().disjoint(s.internals.dom()),
        0 <= i <= comb.len(),
    ensures
        forall|g: Seq<char>|
            !#[trigger] targets_from(comb, i, g) ==> agree_on(
                spec_apply_assignments(spec_comb_pass(s, comb), comb.take(i)),
                spec_comb_pass(s, comb),
                g,
            ),
    decreases i,
{
    let t = spec_comb_pass(s, comb);
    if i == 0 {
        assert(comb.take(0) =~= Seq::<Assignment>::empty());
    } else {
        lemma_second_pass_prefix(s, comb, i - 1);
        let u = spec_apply_assignments(t, comb.take(i - 1));
        let a = comb[i - 1];
        let sk = spec_apply_assignments(s, comb.take(i - 1));
        lemma_apply_take_step(t, comb, i - 1);
        lemma_apply_take_step(s, comb, i - 1);
        lemma_apply_doms(s, comb);
        lemma_apply_doms(t, comb.take(i - 1));
        lemma_apply_doms(s, comb.take(i - 1));
        // The expression of assignment i - 1 reads only names that no
        // assignment from i - 1 on writes; on those names both the pass-1
        // state and the re-run state agree with the full pass's result.
        assert forall|g: Seq<char>| #[trigger] mentions(a.expression, g) implies envs_agree_on(
            spec_env(u),
            spec_env(sk),
            g,
        ) by {
            assert(!targets_from(comb, i - 1, g)) by {
                if targets_from(comb, i - 1, g) {
                    let j = choose|j: int|
                        i - 1 <= j < comb.len() && #[trigger] comb[j].target@ == g;
                    assert(!mentions(comb[i - 1].expression, comb[j].target@));
                }
            }
            lemma_prefix_agrees(s, comb, i - 1, g);
            lemma_env_agree(u, t, g);
            lemma_env_agree(sk, t, g);
        }
        lemma_eval_agree(a.expression, spec_env(u), spec_env(sk));
        let up = spec_apply_assignments(t, comb.take(i));
        let skp = spec_apply_assignments(s, comb.take(i));
        assert forall|g: Seq<char>| !#[trigger] targets_from(comb, i, g) implies agree_on(
            up,
            t,
            g,
        ) by {
            if g == a.target@ {
                // Assignment i - 1 is the last to write g: its pass-1
                // value is g's final value, and the re-run writes the
                // same value again.
                lemma_prefix_agrees(s, comb, i, g);
                let v = spec_eval(a.expression, spec_env(u));
                if u.outputs.contains_key(g) {
                    assert(up.outputs == u.outputs.insert(g, v));
                    assert(skp.outputs == sk.outputs.insert(g, v));
                    assert(t.outputs[g] == skp.outputs[g]);
                    assert(!u.internals.contains_key(g));
                    assert(!t.internals.contains_key(g));
                    assert(agree_on(up, t, g));
                } else if u.internals.contains_key(g) {
                    assert(up.internals == u.internals.insert(g, v));
                    assert(skp.internals == sk.internals.insert(g, v));
                    assert(t.internals[g] == skp.internals[g]);
                    assert(!t.outputs.contains_key(g));
                    assert(agree_on(up, t, g));
                } else {
                    assert(up == u);
                    assert(!t.outputs.contains_key(g));
                    assert(!t.internals.contains_key(g));
                    assert(agree_on(up, t, g));
                }
            } else {
                assert(!targets_from(comb, i - 1, g)) by {
                    if targets_from(comb, i - 1, g) {
                        let j = choose|j: int|
                            i - 1 <= j < comb.len() && #[trigger] comb[j].target@ == g;
                        if j == i - 1 {
                            assert(g == a.target@);
                        } else {
                            assert(targets_from(comb, i, g));
                        }
                    }
                }
                assert(agree_on(u, t, g));
                assert(agree_on(up, t, g));
            }
        }
    }
}

/// A straight-line combinational pass is idempotent: running it once
/// more on its own result changes no signal.
pub proof fn lemma_comb_pass_idempotent(s: SignalState, comb: Seq<Assignment>)
    requires
        straight_line(comb),
        s.outputs.dom().disjoint(s.internals.dom()),
    ensures
        spec_comb_pass(spec_comb_pass(s, comb), comb) == spec_comb_pass(s, comb),
{
    let t = spec_comb_pass(s, comb);
    let u = spec_comb_pass(t, comb);
    lemma_second_pass_prefix(s, comb, comb.len() as int);
    assert(comb.take(comb.len() as int) =~= comb);
    assert forall|g: Seq<char>| #[trigger] u.outputs.contains_key(g)
        == t.outputs.contains_key(g) && (u.outputs.contains_key(g) ==> u.outputs[g]
        == t.outputs[g]) by {
        assert(!targets_from(comb, comb.len() as int, g));
    }
    assert forall|g: Seq<char>| #[trigger] u.internals.contains_key(g)
        == t.internals.contains_key(g) && (u.internals.contains_key(g) ==> u.internals[g]
        == t.internals[g]) by {
        assert(!targets_from(comb, comb.len() as int, g));
    }
    lemma_apply_doms(t, comb);
    assert(u.outputs =~= t.outputs);
    assert(u.internals =~= t.internals);
    assert(u =~= t);
}

/// Combinational purity: when the continuous assignments are straight
/// line, setting an input to the value it already holds changes no
/// signal at all — in particular no output. The state of a freshly
/// evaluated engine is always of the form `spec_comb_pass(s, comb)`,
/// since construction and every mutating operation end with exactly such
/// a pass.
pub proof fn lemma_set_input_same_value(
    s: SignalState,
    comb: Seq<Assignment>,
    name: Seq<char>,
    value: usize,
)
    requires
        straight_line(comb),
        s.outputs.dom().disjoint(s.internals.dom()),
        spec_comb_pass(s, comb).inputs.contains_key(name),
        spec_comb_pass(s, comb).inputs[name] == value,
    ensures
        spec_input(spec_comb_pass(s, comb), comb, name, value) == spec_comb_pass(s, comb),
{
    let t = spec_comb_pass(s, comb);
    assert(t.inputs.insert(name, value) =~= t.inputs);
    assert((SignalState { inputs: t.inputs.insert(name, value), ..t }) =~= t);
    lemma_comb_pass_idempotent(s, comb);
}

// ---------------------------------------------------------------------
// Reset semantics
// ---------------------------------------------------------------------

/// Every reset-branch assignment of every block, in application order.
pub open spec fn reset_assignments_flat(seqs: Seq<SequentialBlock>) -> Seq<Assignment>
    decreases seqs.len(),
{
    if seqs.len() == 0 {
        Seq::empty()
    } else {
        reset_assignments_flat(seqs.drop_last()) + seqs.last().reset_assignments@
    }
}

/// Applying two lists in sequence is applying their concatenation.
proof fn lemma_apply_append(s: SignalState, l1: Seq<Assignment>, l2: Seq<Assignment>)
    ensures
        spec_apply_assignments(s, l1 + l2) == spec_apply_assignments(
            spec_apply_assignments(s, l1),
            l2,
        ),
    decreases l2.len(),
{
    if l2.len() == 0 {
        assert(l1 + l2 =~= l1);
    } else {
        assert((l1 + l2).drop_last() =~= l1 + l2.drop_last());
        assert((l1 + l2).last() == l2.last());
        lemma_apply_append(s, l1, l2.drop_last());
    }
}

/// The reset pass is the application of the flattened reset branches.
proof fn lemma_reset_pass_flat(s: SignalState, seqs: Seq<SequentialBlock>)
    ensures
        spec_reset_pass(s, seqs) == spec_apply_assignments(s, reset_assignments_flat(seqs)),
    decreases seqs.len(),
{
    if seqs.len() > 0 {
        lemma_reset_pass_flat(s, seqs.drop_last());
        lemma_apply_append(
            s,
            reset_assignments_flat(seqs.drop_last()),
            seqs.last().reset_assignments@,
        );
    }
}

/// The reset branches write pairwise distinct signals, no reset
/// expression reads any of those signals, and no continuous assignment
/// writes any of them.
pub open spec fn reset_targets_isolated(
    seqs: Seq<SequentialBlock>,
    comb: Seq<Assignment>,
) -> bool {
    let flat = reset_assignments_flat(seqs);
    &&& forall|i: int, j: int|
        0 <= i < flat.len() && 0 <= j < flat.len() && i != j ==> (#[trigger] flat[i].target@)
            != (#[trigger] flat[j].target@)
    &&& forall|i: int, j: int|
        0 <= i < flat.len() && 0 <= j < flat.len() ==> !#[trigger] mentions(
            flat[i].expression,
            flat[j].target@,
        )
    &&& forall|i: int, j: int|
        0 <= i < comb.len() && 0 <= j < flat.len() ==> (#[trigger] comb[i].target@)
            != (#[trigger] flat[j].target@)
}

/// Reset semantics: after `reset`, every known signal assigned in a
/// reset branch holds exactly the value its reset expression evaluates
/// to against the pre-reset environment, provided the reset targets are
/// isolated as `reset_targets_isolated` states. For constant reset
/// expressions — the usual shape of a reset branch — that environment
/// does not matter: the value is the constant itself.
pub proof fn lemma_reset_values(
    s: SignalState,
    seqs: Seq<SequentialBlock>,
    comb: Seq<Assignment>,
    k: int,
)
    requires
        reset_targets_isolated(seqs, comb),
        0 <= k < reset_assignments_flat(seqs).len(),
    ensures
        ({
            let flat = reset_assignments_flat(seqs);
            let g = flat[k].target@;
            let v = spec_eval(flat[k].expression, spec_env(s));
            let t = spec_reset(s, seqs, comb);
            &&& s.outputs.contains_key(g) ==> t.outputs[g] == v
            &&& !s.outputs.contains_key(g) && s.internals.contains_key(g) ==> t.internals[g] == v
        }),
{
    let flat = reset_assignments_flat(seqs);
    let g = flat[k].target@;
    let a = flat[k];
    lemma_reset_pass_flat(s, seqs);
    let r = spec_apply_assignments(s, flat);
    let sk = spec_apply_assignments(s, flat.take(k));
    lemma_apply_take_step(s, flat, k);
    lemma_apply_doms(s, flat.take(k));
    // The reset expression reads no reset target, so the partially run
    // reset pass has not changed anything it reads.
    assert forall|h: Seq<char>| #[trigger] mentions(a.expression, h) implies envs_agree_on(
        spec_env(sk),
        spec_env(s),
        h,
    ) by {
        assert(!targets_from(flat.take(k), 0, h)) by {
            if targets_from(flat.take(k), 0, h) {
                let j = choose|j: int|
                    0 <= j < flat.take(k).len() && #[trigger] flat.take(k)[j].target@ == h;
                assert(flat[j].target@ == h);
                assert(!mentions(flat[k].expression, flat[j].target@));
            }
        }
        lemma_apply_untouched(s, flat.take(k), h);
        lemma_env_agree(sk, s, h);
    }
    lemma_eval_agree(a.expression, spec_env(sk), spec_env(s));
    let v = spec_eval(a.expression, spec_env(s));
    // No later reset assignment writes g again.
    assert(!targets_from(flat, k + 1, g)) by {
        if targets_from(flat, k + 1, g) {
            let j = choose|j: int| k + 1 <= j < flat.len() && #[trigger] flat[j].target@ == g;
            assert(flat[j].target@ != flat[k].target@);
        }
    }
    lemma_prefix_agrees(s, flat, k + 1, g);
    // The trailing combinational pass does not write g either.
    assert(!targets_from(comb, 0, g)) by {
        if targets_from(comb, 0, g) {
            let j = choose|j: int| 0 <= j < comb.len() && #[trigger] comb[j].target@ == g;
            assert(comb[j].target@ != flat[k].target@);
        }
    }
    lemma_apply_untouched(r, comb, g);
}

} // verus!
