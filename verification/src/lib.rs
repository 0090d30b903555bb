//! A discrete-event simulation kernel for a small hardware description
//! language: a compiler from a resolved module — its port list and a
//! walkable body tree of continuous assignments and clocked processes —
//! into an expression-tree intermediate representation; an evaluation
//! model that owns the signal state and re-evaluates it on input
//! change, clock edge and reset; and a multi-clock-domain scheduler
//! that drives simulated time edge by edge, notifying pluggable
//! observer hooks.
//!
//! Every executable function carries a contract that ties its effect to
//! a specification function over maps and sequences. On top of those,
//! public proof functions state the kernel's cross-cutting guarantees:
//! determinism over operation sequences, idempotence of the
//! combinational pass, zero-safe division, the rising-edge count of a
//! scheduled run, and the values the reset branches leave behind.

mod compile;
mod expr;
mod hooks;
mod laws;
mod model;
mod signals;
mod simulator;
mod source;

pub use compile::PortSplit;
pub use compile::convert_expr;
pub use compile::lemma_split_ports_disjoint;
pub use compile::spec_based_value;
pub use compile::spec_clock_branch;
pub use compile::spec_comb_items;
pub use compile::spec_convert_expr;
pub use compile::spec_convert_factor;
pub use compile::spec_convert_term;
pub use compile::spec_convert_unary;
pub use compile::spec_digit_value;
pub use compile::spec_digits_value;
pub use compile::spec_extract_statement;
pub use compile::spec_first_assignment;
pub use compile::spec_parse_radix;
pub use compile::spec_plain_value;
pub use compile::spec_process_clocks;
pub use compile::spec_process_resets;
pub use compile::spec_reset_branch;
pub use compile::spec_seq_items;
pub use compile::spec_split_ports;
pub use expr::Expr;
pub use expr::lemma_div_by_zero_is_zero;
pub use expr::spec_eval;
pub use hooks::BreakPoint;
pub use hooks::BufLogger;
pub use hooks::Hook;
pub use hooks::spec_observed;
pub use laws::EngineOp;
pub use laws::agree_on;
pub use laws::envs_agree_on;
pub use laws::lemma_comb_pass_idempotent;
pub use laws::lemma_deterministic;
pub use laws::lemma_reset_values;
pub use laws::lemma_set_input_same_value;
pub use laws::mentions;
pub use laws::reset_assignments_flat;
pub use laws::reset_targets_isolated;
pub use laws::spec_run_ops;
pub use laws::spec_step_op;
pub use laws::straight_line;
pub use laws::targets_from;
pub use model::Assignment;
pub use model::Model;
pub use model::SequentialBlock;
pub use model::SignalState;
pub use model::spec_apply_assignment;
pub use model::spec_apply_assignments;
pub use model::spec_clock;
pub use model::spec_clock_pass;
pub use model::spec_comb_pass;
pub use model::spec_env;
pub use model::spec_input;
pub use model::spec_reset;
pub use model::spec_reset_pass;
pub use signals::SignalStore;
pub use signals::column_map;
pub use simulator::ClockDomain;
pub use simulator::DomainView;
pub use simulator::HookEvent;
pub use simulator::count_post_clock;
pub use simulator::lemma_run_post_clock_count;
pub use simulator::spec_run_events;
pub use simulator::spec_step_events;
pub use simulator::SimState;
pub use simulator::Simulator;
pub use simulator::count_zero;
pub use simulator::lemma_edge_count;
pub use simulator::lemma_run_clocks;
pub use simulator::lemma_step_progress;
pub use simulator::spec_best;
pub use simulator::spec_clock_iter;
pub use simulator::spec_min_index;
pub use simulator::spec_run;
pub use simulator::spec_run_edges;
pub use simulator::spec_sd_count;
pub use simulator::spec_sim_step;
pub use simulator::time_left;
pub use simulator::views_of;
pub use simulator::wf_domains;
pub use source::BlockStatement;
pub use source::ModuleItem;
pub use source::NameRef;
pub use source::Port;
pub use source::PortClass;
pub use source::PortDirection;
pub use source::ProcessStatement;
pub use source::SourceModule;
pub use source::SrcAddOp;
pub use source::SrcExpr;
pub use source::SrcExprOp;
pub use source::SrcFactor;
pub use source::SrcMulOp;
pub use source::SrcNumber;
pub use source::SrcTerm;
pub use source::SrcTermOp;
pub use source::SrcUnary;
pub use source::SrcUnaryOp;
pub use source::StatementBlock;
