use vstd::prelude::*;

use crate::expr::Expr;
use crate::expr::spec_eval;
use crate::signals::SignalStore;

verus! {

/// One signal assignment of the intermediate representation: either a
/// continuous (combinational) assignment or one statement of a clocked
/// process branch.
#[derive(Debug)]
pub struct Assignment {
    /// The signal written.
    pub target: String,
    /// The expression whose value is written.
    pub expression: Expr,
}

/// One clocked process with an if-reset/else shape: the reset branch's
/// assignments and the clock branch's assignments, each in source order.
#[derive(Debug)]
pub struct SequentialBlock {
    pub reset_assignments: Vec<Assignment>,
    pub clock_assignments: Vec<Assignment>,
}

/// The three disjoint signal categories of a model, as mappings from
/// signal name to value.
#[verifier::ext_equal]
pub struct SignalState {
    pub inputs: Map<Seq<char>, usize>,
    pub outputs: Map<Seq<char>, usize>,
    pub internals: Map<Seq<char>, usize>,
}

/// The full evaluation environment of a state: inputs, then outputs,
/// then internal signals, later categories shadowing earlier ones on
/// (invalid) shared names.
pub open spec fn spec_env(s: SignalState) -> Map<Seq<char>, usize> {
    s.inputs.union_prefer_right(s.outputs).union_prefer_right(s.internals)
}

/// Applies one assignment: the expression is evaluated against the full
/// current environment and the result is written to the target if the
/// target is a known output or internal signal, and dropped otherwise.
/// Inputs are never written by assignments.
pub open spec fn spec_apply_assignment(s: SignalState, a: Assignment) -> SignalState {
    let v = spec_eval(a.expression, spec_env(s));
    if s.outputs.contains_key(a.target@) {
        SignalState { outputs: s.outputs.insert(a.target@, v), ..s }
    } else if s.internals.contains_key(a.target@) {
        SignalState { internals: s.internals.insert(a.target@, v), ..s }
    } else {
        s
    }
}

/// Applies a list of assignments in order, each evaluated against the
/// environment left by its predecessors (a single linear pass, not a
/// fixed-point iteration).
pub open spec fn spec_apply_assignments(s: SignalState, list: Seq<Assignment>) -> SignalState
    decreases list.len(),
{
    if list.len() == 0 {
        s
    } else {
        spec_apply_assignment(spec_apply_assignments(s, list.drop_last()), list.last())
    }
}

/// One combinational pass over the continuous assignments, in declared
/// order.
pub open spec fn spec_comb_pass(s: SignalState, comb: Seq<Assignment>) -> SignalState {
    spec_apply_assignments(s, comb)
}

/// The reset branches of all sequential blocks, applied in block order.
pub open spec fn spec_reset_pass(s: SignalState, seqs: Seq<SequentialBlock>) -> SignalState
    decreases seqs.len(),
{
    if seqs.len() == 0 {
        s
    } else {
        spec_apply_assignments(
            spec_reset_pass(s, seqs.drop_last()),
            seqs.last().reset_assignments@,
        )
    }
}

/// The clock branches of all sequential blocks, applied in block order.
pub open spec fn spec_clock_pass(s: SignalState, seqs: Seq<SequentialBlock>) -> SignalState
    decreases seqs.len(),
{
    if seqs.len() == 0 {
        s
    } else {
        spec_apply_assignments(
            spec_clock_pass(s, seqs.drop_last()),
            seqs.last().clock_assignments@,
        )
    }
}

/// What `input` does: if the name is a known input its value is replaced
/// and a combinational pass runs; an unknown name changes nothing.
pub open spec fn spec_input(
    s: SignalState,
    comb: Seq<Assignment>,
    name: Seq<char>,
    value: usize,
) -> SignalState {
    if s.inputs.contains_key(name) {
        spec_comb_pass(SignalState { inputs: s.inputs.insert(name, value), ..s }, comb)
    } else {
        s
    }
}

/// What `clock` does outside of reset: one full clock-branch pass, then
/// a combinational pass.
pub open spec fn spec_clock(
    s: SignalState,
    seqs: Seq<SequentialBlock>,
    comb: Seq<Assignment>,
) -> SignalState {
    spec_comb_pass(spec_clock_pass(s, seqs), comb)
}

/// What `reset` does: one full reset-branch pass, then a combinational
/// pass.
pub open spec fn spec_reset(
    s: SignalState,
    seqs: Seq<SequentialBlock>,
    comb: Seq<Assignment>,
) -> SignalState {
    spec_comb_pass(spec_reset_pass(s, seqs), comb)
}

/// The simulation model of one module: its signal storage and its
/// compiled intermediate representation.
pub struct Model {
    /// The simulated module's name.
    pub module_name: String,
    /// Names of the input ports classified as clocks.
    pub clocks: Vec<String>,
    /// Names of the input ports classified as resets.
    pub resets: Vec<String>,
    /// Input port values.
    pub inputs: SignalStore,
    /// Output port values.
    pub outputs: SignalStore,
    /// Internal signal values.
    pub internals: SignalStore,
    /// Continuous assignments, in declaration order.
    pub combinational: Vec<Assignment>,
    /// Clocked processes, in declaration order.
    pub sequential: Vec<SequentialBlock>,
    /// Transient flag, true only while `reset` runs.
    pub is_reset: bool,
}

impl Model {
    /// The three signal stores are well formed and, as the category
    /// invariant demands, a signal name belongs to at most one of the
    /// three categories. The categorization is fixed at compile time:
    /// every operation preserves all three domains.
    pub open spec fn wf(&self) -> bool {
        &&& self.inputs.wf()
        &&& self.outputs.wf()
        &&& self.internals.wf()
        &&& self.inputs@.dom().disjoint(self.outputs@.dom())
        &&& self.inputs@.dom().disjoint(self.internals@.dom())
        &&& self.outputs@.dom().disjoint(self.internals@.dom())
    }

    /// The abstract signal state of the model.
    pub open spec fn state(&self) -> SignalState {
        SignalState { inputs: self.inputs@, outputs: self.outputs@, internals: self.internals@ }
    }

    /// The compiled representation and classification data of `self` and
    /// `other` are the same: only signal values may differ.
    pub open spec fn same_ir(&self, other: &Model) -> bool {
        &&& self.module_name == other.module_name
        &&& self.clocks == other.clocks
        &&& self.resets == other.resets
        &&& self.combinational == other.combinational
        &&& self.sequential == other.sequential
    }

    /// All current signal values in one table: inputs, then outputs,
    /// then internal signals.
    fn get_all_variables(&self) -> (vars: SignalStore)
        requires
            self.wf(),
        ensures
            vars.wf(),
            vars@ == spec_env(self.state()),
    {
        let mut vars = SignalStore::new();
        self.inputs.extend_into(&mut vars);
        self.outputs.extend_into(&mut vars);
        self.internals.extend_into(&mut vars);
        proof {
            assert(Map::<Seq<char>, usize>::empty().union_prefer_right(self.inputs@)
                =~= self.inputs@);
        }
        vars
    }

    /// Runs one combinational pass: every continuous assignment is
    /// evaluated in declared order against the environment at that
    /// instant, already including writes made earlier in the same pass.
    pub(crate) fn evaluate_combinational(&mut self)
        requires
            old(self).wf(),
        ensures
            final(self).wf(),
            final(self).same_ir(old(self)),
            final(self).is_reset == old(self).is_reset,
            final(self).state() == spec_comb_pass(old(self).state(), old(self).combinational@),
    {
        let ghost cs = self.combinational@;
        let ghost s0 = self.state();
        let n = self.combinational.len();
        let mut i: usize = 0;
        proof {
            assert(cs.take(0) =~= Seq::<Assignment>::empty());
        }
        while i < n
            invariant
                self.wf(),
                self.same_ir(old(self)),
                self.is_reset == old(self).is_reset,
                n == self.combinational@.len(),
                cs == self.combinational@,
                i <= n,
                self.state() == spec_apply_assignments(s0, cs.take(i as int)),
            decreases n - i,
        {
            let env = self.get_all_variables();
            let a = &self.combinational[i];
            let value = a.expression.eval(&env);
            let ghost pre = self.state();
            if self.outputs.contains(a.target.as_str()) {
                self.outputs.set(a.target.as_str(), value);
                proof {
                    assert(self.outputs@.dom() =~= pre.outputs.dom());
                }
            } else if self.internals.contains(a.target.as_str()) {
                self.internals.set(a.target.as_str(), value);
                proof {
                    assert(self.internals@.dom() =~= pre.internals.dom());
                }
            }
            proof {
                assert(self.state() == spec_apply_assignment(pre, cs[i as int]));
                assert(cs.take(i as int + 1).drop_last() =~= cs.take(i as int));
                assert(cs.take(i as int + 1).last() == cs[i as int]);
            }
            i += 1;
        }
        proof {
            assert(cs.take(n as int) =~= cs);
        }
    }

    /// Applies every sequential block's reset branch, in block order and
    /// assignment order.
    fn evaluate_sequential_reset(&mut self)
        requires
            old(self).wf(),
        ensures
            final(self).wf(),
            final(self).same_ir(old(self)),
            final(self).is_reset == old(self).is_reset,
            final(self).state() == spec_reset_pass(old(self).state(), old(self).sequential@),
    {
        let ghost bs = self.sequential@;
        let ghost s0 = self.state();
        let nb = self.sequential.len();
        let mut b: usize = 0;
        proof {
            assert(bs.take(0) =~= Seq::<SequentialBlock>::empty());
        }
        while b < nb
            invariant
                self.wf(),
                self.same_ir(old(self)),
                self.is_reset == old(self).is_reset,
                nb == self.sequential@.len(),
                bs == self.sequential@,
                b <= nb,
                self.state() == spec_reset_pass(s0, bs.take(b as int)),
            decreases nb - b,
        {
            let ghost blk_start = self.state();
            let ghost asg = bs[b as int].reset_assignments@;
            let na = self.sequential[b].reset_assignments.len();
            let mut j: usize = 0;
            proof {
                assert(asg.take(0) =~= Seq::<Assignment>::empty());
            }
            while j < na
                invariant
                    self.wf(),
                    self.same_ir(old(self)),
                    self.is_reset == old(self).is_reset,
                    bs == self.sequential@,
                    b < bs.len(),
                    na == asg.len(),
                    asg == bs[b as int].reset_assignments@,
                    j <= na,
                    self.state() == spec_apply_assignments(blk_start, asg.take(j as int)),
                decreases na - j,
            {
                let env = self.get_all_variables();
                let a = &self.sequential[b].reset_assignments[j];
                let value = a.expression.eval(&env);
                let ghost pre = self.state();
                if self.outputs.contains(a.target.as_str()) {
                    self.outputs.set(a.target.as_str(), value);
                } else if self.internals.contains(a.target.as_str()) {
                    self.internals.set(a.target.as_str(), value);
                }
                proof {
                    assert(self.state() == spec_apply_assignment(pre, asg[j as int]));
                    assert(asg.take(j as int + 1).drop_last() =~= asg.take(j as int));
                    assert(asg.take(j as int + 1).last() == asg[j as int]);
                }
                j += 1;
            }
            proof {
                assert(asg.take(na as int) =~= asg);
                assert(bs.take(b as int + 1).drop_last() =~= bs.take(b as int));
                assert(bs.take(b as int + 1).last() == bs[b as int]);
            }
            b += 1;
        }
        proof {
            assert(bs.take(nb as int) =~= bs);
        }
    }

    /// Applies every sequential block's clock branch, in block order and
    /// assignment order.
    fn evaluate_sequential_clock(&mut self)
        requires
            old(self).wf(),
        ensures
            final(self).wf(),
            final(self).same_ir(old(self)),
            final(self).is_reset == old(self).is_reset,
            final(self).state() == spec_clock_pass(old(self).state(), old(self).sequential@),
    {
        let ghost bs = self.sequential@;
        let ghost s0 = self.state();
        let nb = self.sequential.len();
        let mut b: usize = 0;
        proof {
            assert(bs.take(0) =~= Seq::<SequentialBlock>::empty());
        }
        while b < nb
            invariant
                self.wf(),
                self.same_ir(old(self)),
                self.is_reset == old(self).is_reset,
                nb == self.sequential@.len(),
                bs == self.sequential@,
                b <= nb,
                self.state() == spec_clock_pass(s0, bs.take(b as int)),
            decreases nb - b,
        {
            let ghost blk_start = self.state();
            let ghost asg = bs[b as int].clock_assignments@;
            let na = self.sequential[b].clock_assignments.len();
            let mut j: usize = 0;
            proof {
                assert(asg.take(0) =~= Seq::<Assignment>::empty());
            }
            while j < na
                invariant
                    self.wf(),
                    self.same_ir(old(self)),
                    self.is_reset == old(self).is_reset,
                    bs == self.sequential@,
                    b < bs.len(),
                    na == asg.len(),
                    asg == bs[b as int].clock_assignments@,
                    j <= na,
                    self.state() == spec_apply_assignments(blk_start, asg.take(j as int)),
                decreases na - j,
            {
                let env = self.get_all_variables();
                let a = &self.sequential[b].clock_assignments[j];
                let value = a.expression.eval(&env);
                let ghost pre = self.state();
                if self.outputs.contains(a.target.as_str()) {
                    self.outputs.set(a.target.as_str(), value);
                } else if self.internals.contains(a.target.as_str()) {
                    self.internals.set(a.target.as_str(), value);
                }
                proof {
                    assert(self.state() == spec_apply_assignment(pre, asg[j as int]));
                    assert(asg.take(j as int + 1).drop_last() =~= asg.take(j as int));
                    assert(asg.take(j as int + 1).last() == asg[j as int]);
                }
                j += 1;
            }
            proof {
                assert(asg.take(na as int) =~= asg);
                assert(bs.take(b as int + 1).drop_last() =~= bs.take(b as int));
                assert(bs.take(b as int + 1).last() == bs[b as int]);
            }
            b += 1;
        }
        proof {
            assert(bs.take(nb as int) =~= bs);
        }
    }

    /// Sets an input port's value and re-evaluates the combinational
    /// logic. A name that is not a known input is silently ignored.
    pub fn input(&mut self, port: &str, value: usize)
        requires
            old(self).wf(),
        ensures
            final(self).wf(),
            final(self).same_ir(old(self)),
            final(self).is_reset == old(self).is_reset,
            final(self).state() == spec_input(
                old(self).state(),
                old(self).combinational@,
                port@,
                value,
            ),
    {
        if self.inputs.contains(port) {
            self.inputs.set(port, value);
            proof {
                assert(self.inputs@.dom() =~= old(self).inputs@.dom());
            }
            self.evaluate_combinational();
        }
    }

    /// Reads an output port's value; an unknown name reads as nothing.
    pub fn get(&self, port: &str) -> (r: Option<usize>)
        requires
            self.wf(),
        ensures
            self.state().outputs.contains_key(port@) ==> r == Some(self.state().outputs[port@]),
            !self.state().outputs.contains_key(port@) ==> r is None,
    {
        self.outputs.get(port)
    }

    /// One rising clock edge: outside of reset, applies every sequential
    /// block's clock branch and then re-evaluates the combinational
    /// logic; a no-op while in reset.
    pub fn clock(&mut self)
        requires
            old(self).wf(),
        ensures
            final(self).wf(),
            final(self).same_ir(old(self)),
            final(self).is_reset == old(self).is_reset,
            !old(self).is_reset ==> final(self).state() == spec_clock(
                old(self).state(),
                old(self).sequential@,
                old(self).combinational@,
            ),
            old(self).is_reset ==> final(self).state() == old(self).state(),
    {
        if !self.is_reset {
            self.evaluate_sequential_clock();
            self.evaluate_combinational();
        }
    }

    /// Applies every sequential block's reset branch and then
    /// re-evaluates the combinational logic. The transient `is_reset`
    /// flag is raised only for the duration of the call.
    pub fn reset(&mut self)
        requires
            old(self).wf(),
        ensures
            final(self).wf(),
            final(self).same_ir(old(self)),
            final(self).is_reset == false,
            final(self).state() == spec_reset(
                old(self).state(),
                old(self).sequential@,
                old(self).combinational@,
            ),
    {
        self.is_reset = true;
        self.evaluate_sequential_reset();
        self.is_reset = false;
        self.evaluate_combinational();
    }
}

} // verus!
