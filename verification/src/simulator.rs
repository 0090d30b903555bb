use vstd::prelude::*;

use crate::hooks::Hook;
use crate::model::Assignment;
use crate::model::Model;
use crate::model::SequentialBlock;
use crate::model::SignalState;
use crate::model::spec_clock;
use crate::model::spec_reset;

verus! {

/// One clock domain: its input signal name, its period in nanoseconds,
/// and the scheduler-owned transient state — the time left until its
/// next edge and its current level.
pub struct ClockDomain {
    pub name: String,
    pub period: u64,
    pub time_to_next_edge: u64,
    pub level: bool,
}

/// The abstract state of one clock domain.
#[verifier::ext_equal]
pub struct DomainView {
    pub name: Seq<char>,
    pub period: int,
    pub time_to_next_edge: int,
    pub level: bool,
}

impl View for ClockDomain {
    type V = DomainView;

    open spec fn view(&self) -> DomainView {
        DomainView {
            name: self.name@,
            period: self.period as int,
            time_to_next_edge: self.time_to_next_edge as int,
            level: self.level,
        }
    }
}

/// The scheduler's abstract state: the simulated time, the clock
/// domains, and the engine's signal state.
#[verifier::ext_equal]
pub struct SimState {
    pub time: int,
    pub domains: Seq<DomainView>,
    pub model: SignalState,
}

/// The abstract views of a domain list.
pub open spec fn views_of(ds: Seq<ClockDomain>) -> Seq<DomainView> {
    ds.map_values(|d: ClockDomain| d@)
}

/// Every domain's period is at least two (so half a period is positive)
/// and fits the clock word, and its pending time never exceeds half its
/// period.
pub open spec fn wf_domains(ds: Seq<DomainView>) -> bool {
    forall|i: int|
        0 <= i < ds.len() ==> {
            &&& 2 <= (#[trigger] ds[i]).period <= u64::MAX
            &&& 0 <= ds[i].time_to_next_edge <= ds[i].period / 2
        }
}

/// The first index among the first `upto` domains whose pending time is
/// minimal: a later domain displaces the running best only by a strictly
/// smaller pending time.
pub open spec fn spec_best(ds: Seq<DomainView>, upto: int) -> int
    decreases upto,
{
    if upto <= 1 {
        0
    } else {
        let b = spec_best(ds, upto - 1);
        if ds[upto - 1].time_to_next_edge < ds[b].time_to_next_edge {
            upto - 1
        } else {
            b
        }
    }
}

/// The domain the next step selects: the first one with minimal pending
/// time — the scheduler's deterministic tie-breaking rule.
pub open spec fn spec_min_index(ds: Seq<DomainView>) -> int {
    spec_best(ds, ds.len() as int)
}

proof fn lemma_best_bounds(ds: Seq<DomainView>, upto: int)
    requires
        1 <= upto <= ds.len(),
    ensures
        0 <= spec_best(ds, upto) < upto,
        forall|q: int|
            0 <= q < upto ==> ds[spec_best(ds, upto)].time_to_next_edge
                <= (#[trigger] ds[q]).time_to_next_edge,
    decreases upto,
{
    if upto > 1 {
        lemma_best_bounds(ds, upto - 1);
    }
}

/// One scheduler step and whether it produced a rising edge: the first
/// domain with minimal pending time is selected; simulated time
/// advances by that minimum, which every domain's pending time loses;
/// the selected domain toggles and is re-armed half a period ahead; on
/// a rising edge the engine takes a clock edge. With no domains, a step
/// changes nothing.
pub open spec fn spec_sim_step(
    s: SimState,
    comb: Seq<Assignment>,
    seqs: Seq<SequentialBlock>,
) -> (SimState, bool) {
    if s.domains.len() == 0 {
        (s, false)
    } else {
        let k = spec_min_index(s.domains);
        let m = s.domains[k].time_to_next_edge;
        let rising = !s.domains[k].level;
        let slid = s.domains.map_values(
            |d: DomainView| DomainView { time_to_next_edge: d.time_to_next_edge - m, ..d },
        );
        let rearmed = slid.update(
            k,
            DomainView {
                time_to_next_edge: s.domains[k].period / 2,
                level: rising,
                ..s.domains[k]
            },
        );
        let model2 = if rising {
            spec_clock(s.model, seqs, comb)
        } else {
            s.model
        };
        (SimState { time: s.time + m, domains: rearmed, model: model2 }, rising)
    }
}

/// How much simulated time is left until `end`; zero once `end` is
/// reached or passed.
pub open spec fn time_left(time: int, end: int) -> int {
    if end > time {
        end - time
    } else {
        0
    }
}

/// How many domains are due right now (pending time zero).
pub open spec fn count_zero(ds: Seq<DomainView>) -> nat
    decreases ds.len(),
{
    if ds.len() == 0 {
        0
    } else {
        count_zero(ds.drop_last()) + if ds.last().time_to_next_edge == 0 {
            1nat
        } else {
            0nat
        }
    }
}

proof fn lemma_count_zero_update(ds: Seq<DomainView>, k: int, d2: DomainView)
    requires
        0 <= k < ds.len(),
        ds[k].time_to_next_edge == 0,
        d2.time_to_next_edge != 0,
    ensures
        count_zero(ds.update(k, d2)) < count_zero(ds),
    decreases ds.len(),
{
    if k == ds.len() - 1 {
        assert(ds.update(k, d2).drop_last() =~= ds.drop_last());
    } else {
        assert(ds.update(k, d2).drop_last() =~= ds.drop_last().update(k, d2));
        assert(ds.update(k, d2).last() == ds.last());
        lemma_count_zero_update(ds.drop_last(), k, d2);
    }
}

/// A step keeps the domains well formed and makes progress: either
/// simulated time advances, or a due domain is re-armed and the number
/// of due domains falls.
pub proof fn lemma_step_progress(s: SimState, comb: Seq<Assignment>, seqs: Seq<SequentialBlock>)
    requires
        s.domains.len() > 0,
        wf_domains(s.domains),
    ensures
        ({
            let s2 = spec_sim_step(s, comb, seqs).0;
            &&& s2.domains.len() == s.domains.len()
            &&& wf_domains(s2.domains)
            &&& s.time <= s2.time
            &&& (s2.time == s.time ==> count_zero(s2.domains) < count_zero(s.domains))
            &&& (forall|i: int|
                0 <= i < s.domains.len() ==> (#[trigger] s2.domains[i]).period
                    == s.domains[i].period)
        }),
{
    let k = spec_min_index(s.domains);
    lemma_best_bounds(s.domains, s.domains.len() as int);
    let m = s.domains[k].time_to_next_edge;
    let s2 = spec_sim_step(s, comb, seqs).0;
    assert forall|i: int| 0 <= i < s2.domains.len() implies {
        &&& 2 <= (#[trigger] s2.domains[i]).period <= u64::MAX
        &&& 0 <= s2.domains[i].time_to_next_edge <= s2.domains[i].period / 2
    } by {
        assert(s.domains[k].time_to_next_edge <= s.domains[i].time_to_next_edge);
    }
    if m == 0 {
        let slid = s.domains.map_values(
            |d: DomainView| DomainView { time_to_next_edge: d.time_to_next_edge - m, ..d },
        );
        assert(slid =~~= s.domains);
        lemma_count_zero_update(
            s.domains,
            k,
            DomainView {
                time_to_next_edge: s.domains[k].period / 2,
                level: !s.domains[k].level,
                ..s.domains[k]
            },
        );
    }
}

/// The scheduler state after running until simulated time reaches
/// `end`: steps repeat while the time is below `end`. Each step either
/// advances time or retires one due domain, so the run terminates.
pub open spec fn spec_run(
    s: SimState,
    end: int,
    comb: Seq<Assignment>,
    seqs: Seq<SequentialBlock>,
) -> SimState
    decreases time_left(s.time, end), count_zero(s.domains),
        when s.domains.len() > 0 && wf_domains(s.domains)
        via spec_run_decreases
{
    if s.time >= end {
        s
    } else {
        spec_run(spec_sim_step(s, comb, seqs).0, end, comb, seqs)
    }
}

#[via_fn]
proof fn spec_run_decreases(s: SimState, end: int, comb: Seq<Assignment>, seqs: Seq<SequentialBlock>) {
    if s.domains.len() > 0 && wf_domains(s.domains) && s.time < end {
        lemma_step_progress(s, comb, seqs);
    }
}

/// How many rising edges — engine clock calls — a run until `end`
/// produces.
pub open spec fn spec_run_edges(
    s: SimState,
    end: int,
    comb: Seq<Assignment>,
    seqs: Seq<SequentialBlock>,
) -> nat
    decreases time_left(s.time, end), count_zero(s.domains),
        when s.domains.len() > 0 && wf_domains(s.domains)
        via spec_run_edges_decreases
{
    if s.time >= end {
        0
    } else {
        spec_run_edges(spec_sim_step(s, comb, seqs).0, end, comb, seqs) + if spec_sim_step(
            s,
            comb,
            seqs,
        ).1 {
            1nat
        } else {
            0nat
        }
    }
}

#[via_fn]
proof fn spec_run_edges_decreases(
    s: SimState,
    end: int,
    comb: Seq<Assignment>,
    seqs: Seq<SequentialBlock>,
) {
    if s.domains.len() > 0 && wf_domains(s.domains) && s.time < end {
        lemma_step_progress(s, comb, seqs);
    }
}

// ---------------------------------------------------------------------
// Edge counting and the model's clock history
// ---------------------------------------------------------------------

/// The rising edges a single freshly-armed clock produces: from time
/// `t` at the given level, an edge comes every half period, rising when
/// the level was low, as long as the step begins before `end`.
pub open spec fn spec_sd_count(t: int, end: int, p: int, level: bool) -> nat
    decreases time_left(t, end),
        when p >= 2
{
    if t >= end {
        0
    } else {
        spec_sd_count(t + p / 2, end, p, !level) + if !level {
            1nat
        } else {
            0nat
        }
    }
}

/// With a single clock domain whose pending time is exactly half its
/// period, a run's rising-edge count follows the half-period cadence
/// that `spec_sd_count` describes.
proof fn lemma_single_domain_run(
    s: SimState,
    end: int,
    comb: Seq<Assignment>,
    seqs: Seq<SequentialBlock>,
)
    requires
        s.domains.len() == 1,
        wf_domains(s.domains),
        s.domains[0].time_to_next_edge == s.domains[0].period / 2,
    ensures
        spec_run_edges(s, end, comb, seqs) == spec_sd_count(
            s.time,
            end,
            s.domains[0].period,
            s.domains[0].level,
        ),
    decreases time_left(s.time, end),
{
    let p = s.domains[0].period;
    if s.time < end {
        lemma_step_progress(s, comb, seqs);
        let s2 = spec_sim_step(s, comb, seqs).0;
        assert(spec_min_index(s.domains) == 0);
        assert(s2.domains[0].period == p && s2.domains[0].time_to_next_edge == p / 2
            && s2.domains[0].level == !s.domains[0].level);
        assert(s2.time == s.time + p / 2);
        assert(p / 2 >= 1);
        lemma_single_domain_run(s2, end, comb, seqs);
    }
}

/// The arithmetic of the cadence: starting low and freshly armed, a
/// span of `d` nanoseconds with an even period `p` holds exactly
/// `(d - p/2) / p + 1` rising edges when `d` reaches the first edge at
/// `p/2`, and none otherwise — provided the span ends on a whole period
/// or at least half a period past one.
proof fn lemma_sd_count_formula(t: int, d: int, p: int)
    requires
        p >= 2,
        p % 2 == 0,
        d >= 0,
        d % p == 0 || d % p >= p / 2,
    ensures
        spec_sd_count(t, t + d, p, false) as int == if d >= p / 2 {
            (d - p / 2) / p + 1
        } else {
            0
        },
    decreases d,
{
    let h = p / 2;
    vstd::arithmetic::div_mod::lemma_fundamental_div_mod(p, 2);
    assert(p == 2 * h);
    if d == 0 {
    } else if d < h {
        // No such span satisfies the precondition: it would end inside
        // the first low half-period.
        vstd::arithmetic::div_mod::lemma_small_mod(d as nat, p as nat);
        assert(false);
    } else if d <= p {
        // Exactly one rising edge, at t + h; a fall at t + p may follow,
        // and the next rise at t + p + h lies beyond the span.
        assert(spec_sd_count(t + h, t + d, p, true) == if t + h >= t + d {
            0nat
        } else {
            spec_sd_count(t + h + h, t + d, p, false)
        });
        assert(t + h + h == t + p);
        assert(spec_sd_count(t + p, t + d, p, false) == 0);
        vstd::arithmetic::div_mod::lemma_basic_div(d - h, p);
    } else {
        // The first full period holds one rising edge; the rest of the
        // span repeats the pattern.
        vstd::arithmetic::div_mod::lemma_mod_sub_multiples_vanish(d, p);
        assert((d - p) % p == d % p);
        lemma_sd_count_formula(t + p, d - p, p);
        assert(spec_sd_count(t + h, t + d, p, true) == spec_sd_count(t + p, t + d, p, false));
        if d % p == 0 {
            // d is a positive multiple of p beyond p itself.
            vstd::arithmetic::div_mod::lemma_fundamental_div_mod(d, p);
            vstd::arithmetic::div_mod::lemma_div_non_zero(d, p);
            assert(d >= 2 * p) by {
                let q = d / p;
                if q == 1 {
                    assert(d == p);
                }
                assert(q >= 2);
                assert(p * q >= p * 2) by (nonlinear_arith)
                    requires
                        q >= 2,
                        p >= 2,
                ;
            }
            assert(d - p >= h);
        } else {
            // d lies at least half a period past a whole number of
            // periods, and beyond the first period.
            vstd::arithmetic::div_mod::lemma_fundamental_div_mod(d, p);
            vstd::arithmetic::div_mod::lemma_div_non_zero(d, p);
            assert(d - p >= h) by {
                assert(d % p >= h);
                assert(d / p >= 1);
                assert(p * (d / p) >= p * 1) by (nonlinear_arith)
                    requires
                        d / p >= 1,
                        p >= 2,
                ;
            }
        }
        vstd::arithmetic::div_mod::lemma_div_plus_one(d - p - h, p);
        assert((d - h) / p == (d - p - h) / p + 1);
    }
}

/// Edge counting: one clock domain of even period `p`, starting low
/// with half a period pending, driven for a span of `d` nanoseconds,
/// produces exactly `(d - p/2) / p + 1` rising edges if the span
/// reaches the first edge at `p/2`, and none otherwise. The span must
/// end on a whole period, or at least half a period past one —
/// otherwise it cuts a half-period short and one extra edge slips in,
/// since a step that begins inside the span still completes. The period
/// must be even: an odd period re-arms to `p / 2` rounded down on both
/// edges, so its effective cadence is `p - 1` and the formula misses.
pub proof fn lemma_edge_count(s: SimState, d: int, comb: Seq<Assignment>, seqs: Seq<SequentialBlock>)
    requires
        s.domains.len() == 1,
        wf_domains(s.domains),
        s.domains[0].level == false,
        s.domains[0].time_to_next_edge == s.domains[0].period / 2,
        s.domains[0].period % 2 == 0,
        d >= 0,
        d % s.domains[0].period == 0 || d % s.domains[0].period >= s.domains[0].period / 2,
    ensures
        spec_run_edges(s, s.time + d, comb, seqs) as int == if d >= s.domains[0].period / 2 {
            (d - s.domains[0].period / 2) / s.domains[0].period + 1
        } else {
            0
        },
{
    lemma_single_domain_run(s, s.time + d, comb, seqs);
    lemma_sd_count_formula(s.time, d, s.domains[0].period);
}

/// The model after `n` more clock edges (each one full clock pass, then
/// a combinational pass), earliest edge applied first.
pub open spec fn spec_clock_iter(
    m: SignalState,
    n: nat,
    comb: Seq<Assignment>,
    seqs: Seq<SequentialBlock>,
) -> SignalState
    decreases n,
{
    if n == 0 {
        m
    } else {
        spec_clock_iter(spec_clock(m, seqs, comb), (n - 1) as nat, comb, seqs)
    }
}

/// What a run does to the engine: exactly one clock operation per
/// rising edge, in order, and nothing else. Together with
/// `lemma_edge_count` this pins how many clock edges a scheduled run
/// hands the engine.
pub proof fn lemma_run_clocks(
    s: SimState,
    end: int,
    comb: Seq<Assignment>,
    seqs: Seq<SequentialBlock>,
)
    requires
        s.domains.len() > 0,
        wf_domains(s.domains),
    ensures
        spec_run(s, end, comb, seqs).model == spec_clock_iter(
            s.model,
            spec_run_edges(s, end, comb, seqs),
            comb,
            seqs,
        ),
    decreases time_left(s.time, end), count_zero(s.domains),
{
    if s.time < end {
        lemma_step_progress(s, comb, seqs);
        let s2 = spec_sim_step(s, comb, seqs).0;
        let rose = spec_sim_step(s, comb, seqs).1;
        lemma_run_clocks(s2, end, comb, seqs);
        if rose {
            assert(s2.model == spec_clock(s.model, seqs, comb));
        }
    }
}

// ---------------------------------------------------------------------
// Hook dispatch
// ---------------------------------------------------------------------

/// One dispatch round of a lifecycle callback: the scheduler invokes
/// the named callback once on every registered hook, in registration
/// order, with the recorded arguments. The simulator keeps the rounds
/// it has performed, earliest first, in its ghost `dispatched` log.
pub enum HookEvent {
    /// An `on_step` round, after time advanced to `time`.
    Step { time: int },
    /// A `pre_clock` round for the named clock, before the engine's
    /// clock operation.
    PreClock { time: int, clock: Seq<char> },
    /// A `post_clock` round for the named clock, after the engine's
    /// clock operation.
    PostClock { time: int, clock: Seq<char> },
    /// An `on_reset` round.
    Reset { time: int },
    /// An `on_finish` round, ending a `run` call; nothing of that run
    /// follows it.
    Finish { time: int },
}

/// The dispatch rounds one scheduler step performs, in order: a step
/// round at the new time and, on a rising edge, a pre-clock and a
/// post-clock round around the engine's clock operation.
pub open spec fn spec_step_events(s: SimState) -> Seq<HookEvent> {
    if s.domains.len() == 0 {
        Seq::empty()
    } else {
        let k = spec_min_index(s.domains);
        let t = s.time + s.domains[k].time_to_next_edge;
        let name = s.domains[k].name;
        if !s.domains[k].level {
            seq![
                HookEvent::Step { time: t },
                HookEvent::PreClock { time: t, clock: name },
                HookEvent::PostClock { time: t, clock: name },
            ]
        } else {
            seq![HookEvent::Step { time: t }]
        }
    }
}

/// The dispatch rounds a run until `end` performs, in order, not
/// counting the finish round that closes the run.
pub open spec fn spec_run_events(
    s: SimState,
    end: int,
    comb: Seq<Assignment>,
    seqs: Seq<SequentialBlock>,
) -> Seq<HookEvent>
    decreases time_left(s.time, end), count_zero(s.domains),
        when s.domains.len() > 0 && wf_domains(s.domains)
        via spec_run_events_decreases
{
    if s.time >= end {
        Seq::empty()
    } else {
        spec_step_events(s) + spec_run_events(spec_sim_step(s, comb, seqs).0, end, comb, seqs)
    }
}

#[via_fn]
proof fn spec_run_events_decreases(
    s: SimState,
    end: int,
    comb: Seq<Assignment>,
    seqs: Seq<SequentialBlock>,
) {
    if s.domains.len() > 0 && wf_domains(s.domains) && s.time < end {
        lemma_step_progress(s, comb, seqs);
    }
}

/// How many post-clock rounds a dispatch log holds.
pub open spec fn count_post_clock(events: Seq<HookEvent>) -> nat
    decreases events.len(),
{
    if events.len() == 0 {
        0
    } else {
        count_post_clock(events.drop_last()) + if events.last() is PostClock {
            1nat
        } else {
            0nat
        }
    }
}

proof fn lemma_count_post_clock_concat(a: Seq<HookEvent>, b: Seq<HookEvent>)
    ensures
        count_post_clock(a + b) == count_post_clock(a) + count_post_clock(b),
    decreases b.len(),
{
    if b.len() == 0 {
        assert(a + b =~= a);
    } else {
        assert((a + b).drop_last() =~= a + b.drop_last());
        assert((a + b).last() == b.last());
        lemma_count_post_clock_concat(a, b.drop_last());
    }
}

/// A run performs exactly one post-clock dispatch round per rising
/// edge: with `lemma_edge_count` this pins, for a scheduled run, how
/// many times every registered hook's post-clock callback fires.
pub proof fn lemma_run_post_clock_count(
    s: SimState,
    end: int,
    comb: Seq<Assignment>,
    seqs: Seq<SequentialBlock>,
)
    requires
        s.domains.len() > 0,
        wf_domains(s.domains),
    ensures
        count_post_clock(spec_run_events(s, end, comb, seqs)) == spec_run_edges(
            s,
            end,
            comb,
            seqs,
        ),
    decreases time_left(s.time, end), count_zero(s.domains),
{
    if s.time < end {
        lemma_step_progress(s, comb, seqs);
        let stepped = spec_sim_step(s, comb, seqs).0;
        let rose = spec_sim_step(s, comb, seqs).1;
        lemma_run_post_clock_count(stepped, end, comb, seqs);
        lemma_count_post_clock_concat(
            spec_step_events(s),
            spec_run_events(stepped, end, comb, seqs),
        );
        let se = spec_step_events(s);
        let k = spec_min_index(s.domains);
        let t = s.time + s.domains[k].time_to_next_edge;
        let n = s.domains[k].name;
        let e0 = HookEvent::Step { time: t };
        let e1 = HookEvent::PreClock { time: t, clock: n };
        let e2 = HookEvent::PostClock { time: t, clock: n };
        reveal_with_fuel(count_post_clock, 4);
        if rose {
            assert(se == seq![e0, e1, e2]);
            assert(seq![e0, e1, e2].drop_last() =~= seq![e0, e1]);
            assert(seq![e0, e1].drop_last() =~= seq![e0]);
            assert(seq![e0].drop_last() =~= Seq::<HookEvent>::empty());
            assert(count_post_clock(Seq::<HookEvent>::empty()) == 0);
            assert(count_post_clock(seq![e0]) == 0);
            assert(count_post_clock(seq![e0, e1]) == 0);
            assert(count_post_clock(se) == 1);
        } else {
            assert(se == seq![e0]);
            assert(seq![e0].drop_last() =~= Seq::<HookEvent>::empty());
            assert(count_post_clock(Seq::<HookEvent>::empty()) == 0);
            assert(count_post_clock(se) == 0);
        }
    }
}

/// The simulator: it owns one evaluation model and advances it over
/// simulated time, clock edge by clock edge, notifying its registered
/// hooks. The hook list holds one hook type; to mix observers, register
/// one composite hook that forwards each callback to its parts.
pub struct Simulator<H: Hook> {
    /// The simulated model.
    pub model: Model,
    /// The clock domains, in registration order.
    pub domains: Vec<ClockDomain>,
    /// The current simulation time in nanoseconds.
    pub simulation_time_ns: u64,
    /// The registered hooks, in registration order.
    pub hooks: Vec<H>,
    /// The dispatch rounds performed so far, earliest first: each entry
    /// stands for one callback invoked once on every registered hook,
    /// in registration order.
    pub dispatched: Ghost<Seq<HookEvent>>,
}

impl<H: Hook> Simulator<H> {
    /// The simulator's abstract state. Hook state is the hooks' own.
    pub open spec fn sim_state(&self) -> SimState {
        SimState {
            time: self.simulation_time_ns as int,
            domains: views_of(self.domains@),
            model: self.model.state(),
        }
    }

    pub open spec fn wf(&self) -> bool {
        &&& self.model.wf()
        &&& self.model.is_reset == false
        &&& wf_domains(views_of(self.domains@))
    }

    /// Builds a simulator over a model from a name-to-period table of
    /// clock domains, each starting low with half a period until its
    /// first (rising) edge, at simulation time zero. A period below two
    /// nanoseconds would stall simulated time, so the table must not
    /// hold one.
    pub fn new(model: Model, clocks: Vec<(String, u64)>) -> (s: Simulator<H>)
        requires
            model.wf(),
            model.is_reset == false,
            forall|i: int| 0 <= i < clocks@.len() ==> (#[trigger] clocks@[i]).1 >= 2,
        ensures
            s.wf(),
            s.model == model,
            s.hooks@.len() == 0,
            s.simulation_time_ns == 0,
            s.dispatched@ == Seq::<HookEvent>::empty(),
            s.sim_state().domains == clocks@.map_values(
                |c: (String, u64)|
                    DomainView {
                        name: c.0@,
                        period: c.1 as int,
                        time_to_next_edge: (c.1 / 2) as int,
                        level: false,
                    },
            ),
    {
        let ghost target = clocks@.map_values(
            |c: (String, u64)|
                DomainView {
                    name: c.0@,
                    period: c.1 as int,
                    time_to_next_edge: (c.1 / 2) as int,
                    level: false,
                },
        );
        let mut domains: Vec<ClockDomain> = Vec::new();
        let n = clocks.len();
        let mut i: usize = 0;
        while i < n
            invariant
                i <= n,
                n == clocks@.len(),
                forall|q: int| 0 <= q < n ==> (#[trigger] clocks@[q]).1 >= 2,
                domains@.len() == i,
                forall|q: int| 0 <= q < i ==> views_of(domains@)[q] == target[q],
                target == clocks@.map_values(
                    |c: (String, u64)|
                        DomainView {
                            name: c.0@,
                            period: c.1 as int,
                            time_to_next_edge: (c.1 / 2) as int,
                            level: false,
                        },
                ),
            decreases n - i,
        {
            let name = clocks[i].0.clone();
            let period = clocks[i].1;
            domains.push(
                ClockDomain { name, period, time_to_next_edge: period / 2, level: false },
            );
            i += 1;
        }
        let s = Simulator {
            model,
            domains,
            simulation_time_ns: 0,
            hooks: Vec::new(),
            dispatched: Ghost(Seq::empty()),
        };
        proof {
            assert(views_of(s.domains@) =~~= target);
        }
        s
    }

    /// Registers a hook: it is appended to the hook list, so every
    /// later dispatch round calls it after all earlier-registered
    /// hooks. Registration itself invokes no callback and changes
    /// nothing else.
    pub fn add_hook(&mut self, hook: H)
        ensures
            final(self).hooks@ == old(self).hooks@.push(hook),
            final(self).model == old(self).model,
            final(self).domains == old(self).domains,
            final(self).simulation_time_ns == old(self).simulation_time_ns,
            final(self).dispatched@ == old(self).dispatched@,
    {
        self.hooks.push(hook);
    }

    /// Resets the whole simulation: time returns to zero, every domain
    /// goes low with half a period until its first edge, the model's
    /// reset runs, and then one reset round notifies every registered
    /// hook, in registration order; the hook list itself is kept.
    #[verifier::loop_isolation(false)]
    pub fn reset(&mut self)
        requires
            old(self).wf(),
        ensures
            final(self).wf(),
            final(self).model.same_ir(&old(self).model),
            final(self).hooks@.len() == old(self).hooks@.len(),
            final(self).dispatched@ == old(self).dispatched@.push(HookEvent::Reset { time: 0 }),
            final(self).sim_state() == (SimState {
                time: 0,
                domains: old(self).sim_state().domains.map_values(
                    |d: DomainView|
                        DomainView { time_to_next_edge: d.period / 2, level: false, ..d },
                ),
                model: spec_reset(
                    old(self).model.state(),
                    old(self).model.sequential@,
                    old(self).model.combinational@,
                ),
            }),
    {
        let ghost target = old(self).sim_state().domains.map_values(
            |d: DomainView| DomainView { time_to_next_edge: d.period / 2, level: false, ..d },
        );
        self.simulation_time_ns = 0;
        let n = self.domains.len();
        let mut i: usize = 0;
        while i < n
            invariant
                i <= n,
                n == self.domains@.len(),
                self.model == old(self).model,
                self.hooks@.len() == old(self).hooks@.len(),
                self.dispatched@ == old(self).dispatched@,
                self.simulation_time_ns == 0,
                forall|q: int| 0 <= q < i ==> views_of(self.domains@)[q] == target[q],
                forall|q: int| i <= q < n ==> self.domains@[q] == old(self).domains@[q],
                target == old(self).sim_state().domains.map_values(
                    |d: DomainView|
                        DomainView { time_to_next_edge: d.period / 2, level: false, ..d },
                ),
            decreases n - i,
        {
            let fresh = {
                let d = &self.domains[i];
                ClockDomain {
                    name: d.name.clone(),
                    period: d.period,
                    time_to_next_edge: d.period / 2,
                    level: false,
                }
            };
            self.domains.set(i, fresh);
            i += 1;
        }
        proof {
            assert(views_of(self.domains@) =~~= target);
        }
        self.model.reset();
        let ghost settled = *self;
        let nh = self.hooks.len();
        let mut i: usize = 0;
        while i < nh
            invariant
                i <= nh,
                nh == self.hooks@.len(),
                self.model == settled.model,
                self.domains == settled.domains,
                self.simulation_time_ns == settled.simulation_time_ns,
                self.dispatched@ == settled.dispatched@,
                self.model.wf(),
            decreases nh - i,
        {
            let mut h = self.hooks.remove(i);
            h.on_reset(self.simulation_time_ns, &self.model);
            self.hooks.insert(i, h);
            i += 1;
        }
        self.dispatched = Ghost(self.dispatched@.push(HookEvent::Reset { time: 0 }));
        proof {
            assert(self.sim_state() =~~= (SimState {
                time: 0,
                domains: target,
                model: spec_reset(
                    old(self).model.state(),
                    old(self).model.sequential@,
                    old(self).model.combinational@,
                ),
            }));
        }
    }

    /// One scheduler step, exactly as `spec_sim_step` describes: pick
    /// the first domain with the least pending time, advance simulated
    /// time by that amount, notify the step hooks, toggle the domain
    /// and re-arm it half a period ahead, and on a rising edge clock
    /// the model between the pre- and post-clock notifications.
    #[verifier::loop_isolation(false)]
    fn step(&mut self)
        requires
            old(self).wf(),
            forall|i: int|
                0 <= i < old(self).domains@.len() ==> old(self).simulation_time_ns + (
                #[trigger] old(self).domains@[i])@.time_to_next_edge <= u64::MAX,
        ensures
            final(self).wf(),
            final(self).model.same_ir(&old(self).model),
            final(self).hooks@.len() == old(self).hooks@.len(),
            final(self).dispatched@ == old(self).dispatched@ + spec_step_events(
                old(self).sim_state(),
            ),
            final(self).sim_state() == spec_sim_step(
                old(self).sim_state(),
                old(self).model.combinational@,
                old(self).model.sequential@,
            ).0,
    {
        let ghost s0 = self.sim_state();
        let ghost vds = views_of(self.domains@);
        let nd = self.domains.len();
        if nd == 0 {
            proof {
                assert(self.dispatched@ =~= old(self).dispatched@ + spec_step_events(s0));
            }
            return ;
        }
        // Find the first domain with minimal pending time.
        let mut best: usize = 0;
        let mut i: usize = 1;
        while i < nd
            invariant
                1 <= i <= nd,
                nd == self.domains@.len(),
                vds == views_of(self.domains@),
                best < i,
                best == spec_best(vds, i as int),
            decreases nd - i,
        {
            if self.domains[i].time_to_next_edge < self.domains[best].time_to_next_edge {
                best = i;
            }
            i += 1;
        }
        proof {
            lemma_best_bounds(vds, nd as int);
        }
        let m = self.domains[best].time_to_next_edge;
        // Advance simulated time.
        self.simulation_time_ns = self.simulation_time_ns + m;
        // Every domain's pending time shrinks by the elapsed time.
        let ghost slid = vds.map_values(
            |d: DomainView| DomainView { time_to_next_edge: d.time_to_next_edge - m as int, ..d },
        );
        let mut j: usize = 0;
        while j < nd
            invariant
                j <= nd,
                nd == self.domains@.len(),
                m as int == vds[spec_min_index(vds)].time_to_next_edge,
                forall|q: int|
                    0 <= q < vds.len() ==> m as int <= (#[trigger] vds[q]).time_to_next_edge,
                forall|q: int| 0 <= q < j ==> views_of(self.domains@)[q] == slid[q],
                forall|q: int| j <= q < nd ==> self.domains@[q]@ == vds[q],
                slid == vds.map_values(
                    |d: DomainView|
                        DomainView { time_to_next_edge: d.time_to_next_edge - m as int, ..d },
                ),
                self.model == old(self).model,
                self.hooks@.len() == old(self).hooks@.len(),
                self.dispatched@ == old(self).dispatched@,
                self.simulation_time_ns as int == old(self).simulation_time_ns as int + m as int,
            decreases nd - j,
        {
            proof {
                assert(self.domains@[j as int]@ == vds[j as int]);
                assert(m as int <= vds[j as int].time_to_next_edge);
            }
            let fresh = {
                let d = &self.domains[j];
                ClockDomain {
                    name: d.name.clone(),
                    period: d.period,
                    time_to_next_edge: d.time_to_next_edge - m,
                    level: d.level,
                }
            };
            self.domains.set(j, fresh);
            j += 1;
        }
        proof {
            assert(views_of(self.domains@) =~~= slid);
        }
        // Step hooks hear the new time.
        let ghost mid = *self;
        let nh = self.hooks.len();
        let mut hi: usize = 0;
        while hi < nh
            invariant
                hi <= nh,
                nh == self.hooks@.len(),
                self.model == mid.model,
                self.domains == mid.domains,
                self.simulation_time_ns == mid.simulation_time_ns,
                self.dispatched@ == mid.dispatched@,
                self.model.wf(),
            decreases nh - hi,
        {
            let mut h = self.hooks.remove(hi);
            h.on_step(self.simulation_time_ns, &self.model);
            self.hooks.insert(hi, h);
            hi += 1;
        }
        self.dispatched = Ghost(
            self.dispatched@.push(HookEvent::Step { time: self.simulation_time_ns as int }),
        );
        // Toggle the selected domain and re-arm it half a period ahead.
        let rising = !self.domains[best].level;
        let rearmed = {
            let d = &self.domains[best];
            ClockDomain {
                name: d.name.clone(),
                period: d.period,
                time_to_next_edge: d.period / 2,
                level: rising,
            }
        };
        self.domains.set(best, rearmed);
        proof {
            let cur = views_of(self.domains@);
            let target2 = slid.update(
                best as int,
                DomainView {
                    time_to_next_edge: vds[best as int].period / 2,
                    level: rising,
                    ..vds[best as int]
                },
            );
            assert forall|q: int| 0 <= q < nd implies cur[q] == target2[q] by {
                assert(slid[q] == (DomainView {
                    time_to_next_edge: vds[q].time_to_next_edge - m as int,
                    ..vds[q]
                }));
                if q != best as int {
                    assert(cur[q] == mid.domains@[q]@);
                    assert(mid.domains@[q]@ == slid[q]);
                }
            }
            assert(cur =~= target2);
        }
        if rising {
            // Rising edge: pre-clock hooks, the engine's clock
            // operation, post-clock hooks.
            let ghost before = *self;
            let nh = self.hooks.len();
            let mut hi: usize = 0;
            while hi < nh
                invariant
                    hi <= nh,
                    nh == self.hooks@.len(),
                    best < self.domains@.len(),
                    self.model == before.model,
                    self.domains == before.domains,
                    self.simulation_time_ns == before.simulation_time_ns,
                    self.dispatched@ == before.dispatched@,
                    self.model.wf(),
                decreases nh - hi,
            {
                let mut h = self.hooks.remove(hi);
                h.pre_clock(self.simulation_time_ns, self.domains[best].name.as_str(), &self.model);
                self.hooks.insert(hi, h);
                hi += 1;
            }
            self.dispatched = Ghost(
                self.dispatched@.push(
                    HookEvent::PreClock {
                        time: self.simulation_time_ns as int,
                        clock: self.domains@[best as int].name@,
                    },
                ),
            );
            self.model.clock();
            let ghost clocked = *self;
            let nh2 = self.hooks.len();
            let mut hj: usize = 0;
            while hj < nh2
                invariant
                    hj <= nh2,
                    nh2 == self.hooks@.len(),
                    best < self.domains@.len(),
                    self.model == clocked.model,
                    self.domains == clocked.domains,
                    self.simulation_time_ns == clocked.simulation_time_ns,
                    self.dispatched@ == clocked.dispatched@,
                    self.model.wf(),
                decreases nh2 - hj,
            {
                let mut h = self.hooks.remove(hj);
                h.post_clock(
                    self.simulation_time_ns,
                    self.domains[best].name.as_str(),
                    &self.model,
                );
                self.hooks.insert(hj, h);
                hj += 1;
            }
            self.dispatched = Ghost(
                self.dispatched@.push(
                    HookEvent::PostClock {
                        time: self.simulation_time_ns as int,
                        clock: self.domains@[best as int].name@,
                    },
                ),
            );
        }
        proof {
            let comb_ = old(self).model.combinational@;
            let seqs_ = old(self).model.sequential@;
            let k = spec_min_index(vds);
            assert(s0.domains == vds);
            assert(best as int == k);
            assert(m as int == vds[k].time_to_next_edge);
            assert(slid[best as int] == (DomainView {
                time_to_next_edge: vds[best as int].time_to_next_edge - m as int,
                ..vds[best as int]
            }));
            assert(mid.domains@[best as int]@ == slid[best as int]);
            assert(rising == !vds[k].level);
            let spec_next = spec_sim_step(s0, comb_, seqs_).0;
            let my_domains = slid.update(
                best as int,
                DomainView {
                    time_to_next_edge: vds[best as int].period / 2,
                    level: rising,
                    ..vds[best as int]
                },
            );
            assert forall|q: int| 0 <= q < vds.len() implies spec_next.domains[q]
                == my_domains[q] by {
                assert(slid[q] == (DomainView {
                    time_to_next_edge: vds[q].time_to_next_edge - m as int,
                    ..vds[q]
                }));
            }
            assert(spec_next.domains =~= my_domains);
            assert(self.sim_state().domains == my_domains);
            assert(self.simulation_time_ns as int == s0.time + m as int);
            assert(self.sim_state() =~~= spec_next);
            // The dispatch log grew by exactly this step's rounds.
            assert(self.domains@[best as int]@ == my_domains[best as int]);
            assert(self.domains@[best as int]@.name == vds[k].name);
            assert(self.dispatched@ =~= old(self).dispatched@ + spec_step_events(s0));
        }
    }

    /// Runs the simulation for the given span of nanoseconds: steps
    /// repeat until simulated time reaches the end mark, then one
    /// finish round — the run's last dispatch — notifies every
    /// registered hook, in registration order; the hook list itself is
    /// kept. The caller leaves room in the clock word for the run and
    /// one more period, and a simulator without clock domains cannot be
    /// run for a positive span (its time would never advance).
    #[verifier::loop_isolation(false)]
    pub fn run(&mut self, duration_ns: u64)
        requires
            old(self).wf(),
            old(self).domains@.len() > 0,
            old(self).simulation_time_ns + duration_ns <= u64::MAX,
            forall|i: int|
                0 <= i < old(self).domains@.len() ==> old(self).simulation_time_ns + duration_ns
                    + (#[trigger] old(self).domains@[i])@.period <= u64::MAX,
        ensures
            final(self).wf(),
            final(self).model.same_ir(&old(self).model),
            final(self).hooks@.len() == old(self).hooks@.len(),
            final(self).sim_state() == spec_run(
                old(self).sim_state(),
                old(self).simulation_time_ns + duration_ns,
                old(self).model.combinational@,
                old(self).model.sequential@,
            ),
            final(self).dispatched@ == old(self).dispatched@ + spec_run_events(
                old(self).sim_state(),
                old(self).simulation_time_ns + duration_ns,
                old(self).model.combinational@,
                old(self).model.sequential@,
            ) + seq![
                HookEvent::Finish {
                    time: spec_run(
                        old(self).sim_state(),
                        old(self).simulation_time_ns + duration_ns,
                        old(self).model.combinational@,
                        old(self).model.sequential@,
                    ).time,
                },
            ],
    {
        let ghost s0 = self.sim_state();
        let ghost comb = self.model.combinational@;
        let ghost seqs = self.model.sequential@;
        let end_time = self.simulation_time_ns + duration_ns;
        while self.simulation_time_ns < end_time
            invariant
                self.wf(),
                self.domains@.len() == old(self).domains@.len(),
                self.model.same_ir(&old(self).model),
                comb == self.model.combinational@,
                seqs == self.model.sequential@,
                end_time == old(self).simulation_time_ns + duration_ns,
                forall|i: int|
                    0 <= i < self.domains@.len() ==> (#[trigger] self.domains@[i])@.period
                        == old(self).domains@[i]@.period,
                forall|i: int|
                    0 <= i < old(self).domains@.len() ==> old(self).simulation_time_ns
                        + duration_ns + (#[trigger] old(self).domains@[i])@.period <= u64::MAX,
                self.hooks@.len() == old(self).hooks@.len(),
                spec_run(self.sim_state(), end_time as int, comb, seqs) == spec_run(
                    s0,
                    end_time as int,
                    comb,
                    seqs,
                ),
                self.dispatched@ + spec_run_events(self.sim_state(), end_time as int, comb, seqs)
                    == old(self).dispatched@ + spec_run_events(s0, end_time as int, comb, seqs),
            decreases
                    time_left(self.sim_state().time, end_time as int),
                    count_zero(self.sim_state().domains),
        {
            let ghost pre = self.sim_state();
            let ghost pre_disp = self.dispatched@;
            proof {
                assert forall|i: int|
                    0 <= i < self.domains@.len() implies self.simulation_time_ns + (
                #[trigger] self.domains@[i])@.time_to_next_edge <= u64::MAX by {
                    assert(pre.domains[i] == self.domains@[i]@);
                    assert(pre.domains[i].time_to_next_edge <= pre.domains[i].period / 2);
                    assert(pre.domains[i].period == old(self).domains@[i]@.period);
                }
                assert forall|i: int|
                    0 <= i < pre.domains.len() implies (#[trigger] pre.domains[i]).period
                    == old(self).domains@[i]@.period by {
                    assert(pre.domains[i] == self.domains@[i]@);
                }
                lemma_step_progress(pre, comb, seqs);
            }
            self.step();
            proof {
                assert forall|i: int|
                    0 <= i < self.domains@.len() implies (#[trigger] self.domains@[i])@.period
                    == old(self).domains@[i]@.period by {
                    assert(self.sim_state().domains[i] == self.domains@[i]@);
                    assert(self.sim_state().domains[i].period == pre.domains[i].period);
                }
                // The step consumed exactly the head of the pending
                // dispatch trace.
                assert(spec_run_events(pre, end_time as int, comb, seqs) == spec_step_events(pre)
                    + spec_run_events(self.sim_state(), end_time as int, comb, seqs));
                assert(self.dispatched@ + spec_run_events(
                    self.sim_state(),
                    end_time as int,
                    comb,
                    seqs,
                ) =~= pre_disp + spec_run_events(pre, end_time as int, comb, seqs));
            }
        }
        proof {
            assert(spec_run_events(self.sim_state(), end_time as int, comb, seqs)
                =~= Seq::<HookEvent>::empty());
            assert(self.dispatched@ =~= old(self).dispatched@ + spec_run_events(
                s0,
                end_time as int,
                comb,
                seqs,
            ));
            assert(spec_run(s0, end_time as int, comb, seqs) == self.sim_state());
        }
        let ghost done = *self;
        let nh = self.hooks.len();
        let mut i: usize = 0;
        while i < nh
            invariant
                i <= nh,
                nh == self.hooks@.len(),
                self.model == done.model,
                self.domains == done.domains,
                self.simulation_time_ns == done.simulation_time_ns,
                self.dispatched@ == done.dispatched@,
                self.model.wf(),
            decreases nh - i,
        {
            let mut h = self.hooks.remove(i);
            h.on_finish(self.simulation_time_ns, &self.model);
            self.hooks.insert(i, h);
            i += 1;
        }
        self.dispatched = Ghost(
            self.dispatched@.push(HookEvent::Finish { time: self.simulation_time_ns as int }),
        );
        proof {
            assert(self.dispatched@ =~= old(self).dispatched@ + spec_run_events(
                s0,
                end_time as int,
                comb,
                seqs,
            ) + seq![
                HookEvent::Finish { time: spec_run(s0, end_time as int, comb, seqs).time },
            ]);
        }
    }
}

} // verus!
