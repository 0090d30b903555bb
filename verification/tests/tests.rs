use veryl_simulator::BlockStatement;
use veryl_simulator::BufLogger;
use veryl_simulator::Hook;
use veryl_simulator::Model;
use veryl_simulator::ModuleItem;
use veryl_simulator::NameRef;
use veryl_simulator::Port;
use veryl_simulator::PortClass;
use veryl_simulator::PortDirection;
use veryl_simulator::ProcessStatement;
use veryl_simulator::SignalStore;
use veryl_simulator::Simulator;
use veryl_simulator::SourceModule;
use veryl_simulator::SrcAddOp;
use veryl_simulator::SrcExpr;
use veryl_simulator::SrcExprOp;
use veryl_simulator::SrcFactor;
use veryl_simulator::SrcMulOp;
use veryl_simulator::SrcNumber;
use veryl_simulator::SrcTerm;
use veryl_simulator::SrcTermOp;
use veryl_simulator::SrcUnary;
use veryl_simulator::SrcUnaryOp;
use veryl_simulator::StatementBlock;

fn input_port(name: &str) -> Port {
    Port { name: name.to_string(), direction: PortDirection::Input, class: PortClass::Plain }
}

fn clock_port(name: &str) -> Port {
    Port { name: name.to_string(), direction: PortDirection::Input, class: PortClass::Clock }
}

fn reset_port(name: &str) -> Port {
    Port { name: name.to_string(), direction: PortDirection::Input, class: PortClass::Reset }
}

fn output_port(name: &str) -> Port {
    Port { name: name.to_string(), direction: PortDirection::Output, class: PortClass::Plain }
}

fn factor_unary(factor: SrcFactor) -> SrcUnary {
    SrcUnary { ops: vec![], factor }
}

fn var_factor(name: &str) -> SrcFactor {
    SrcFactor::Name(NameRef::Ident(name.to_string()))
}

fn term_of(factor: SrcFactor) -> SrcTerm {
    SrcTerm { first: factor_unary(factor), rest: vec![] }
}

fn expr_of(factor: SrcFactor) -> SrcExpr {
    SrcExpr { first: term_of(factor), rest: vec![] }
}

fn var_expr(name: &str) -> SrcExpr {
    expr_of(var_factor(name))
}

fn number_expr(token: &str) -> SrcExpr {
    expr_of(SrcFactor::Number(SrcNumber::Plain(token.as_bytes().to_vec())))
}

fn based_expr(token: &str) -> SrcExpr {
    expr_of(SrcFactor::Number(SrcNumber::Based(token.as_bytes().to_vec())))
}

/// `left op right` over two variables.
fn binary_expr(left: &str, op: SrcAddOp, right: &str) -> SrcExpr {
    SrcExpr {
        first: term_of(var_factor(left)),
        rest: vec![SrcExprOp { op, term: term_of(var_factor(right)) }],
    }
}

/// `~name`.
fn toggle_expr(name: &str) -> SrcExpr {
    SrcExpr {
        first: SrcTerm {
            first: SrcUnary { ops: vec![SrcUnaryOp::Toggle], factor: var_factor(name) },
            rest: vec![],
        },
        rest: vec![],
    }
}

fn assign_stmt(target: &str, value: SrcExpr) -> BlockStatement {
    BlockStatement::Assign { target: NameRef::Ident(target.to_string()), value }
}

fn block_of(statements: Vec<BlockStatement>) -> StatementBlock {
    StatementBlock { statements }
}

fn continuous(target: &str, value: SrcExpr) -> ModuleItem {
    ModuleItem::ContinuousAssign { target: NameRef::Ident(target.to_string()), value }
}

fn init_of(pairs: &[(&str, usize)]) -> SignalStore {
    let mut init = SignalStore::new();
    for (name, value) in pairs {
        init.set(name, *value);
    }
    init
}

/// The combinational example: `c = a + b`.
fn comb_module() -> SourceModule {
    SourceModule {
        name: "CombTest".to_string(),
        ports: vec![input_port("a"), input_port("b"), output_port("c")],
        items: vec![continuous("c", binary_expr("a", SrcAddOp::Plus, "b"))],
    }
}

/// The sequential example: a toggle flip-flop `a` and a counter `b`,
/// both reset to zero.
fn ff_module() -> SourceModule {
    SourceModule {
        name: "FFTest".to_string(),
        ports: vec![
            clock_port("clk"),
            reset_port("rst"),
            output_port("a"),
            output_port("b"),
        ],
        items: vec![ModuleItem::ClockedProcess {
            body: vec![ProcessStatement::IfReset {
                reset_blocks: vec![
                    block_of(vec![assign_stmt("a", number_expr("0"))]),
                    block_of(vec![assign_stmt("b", number_expr("0"))]),
                ],
                else_block: Some(block_of(vec![
                    assign_stmt("a", toggle_expr("a")),
                    assign_stmt(
                        "b",
                        SrcExpr {
                            first: term_of(var_factor("b")),
                            rest: vec![SrcExprOp {
                                op: SrcAddOp::Plus,
                                term: term_of(SrcFactor::Number(SrcNumber::Plain(b"1".to_vec()))),
                            }],
                        },
                    ),
                ])),
            }],
        }],
    }
}

#[test]
fn test_comb() {
    let init = init_of(&[("a", 10), ("b", 20)]);
    let mut model = Model::new(&comb_module(), &init);
    assert_eq!(model.get("c"), Some(30));

    model.input("a", 20);
    model.input("b", 30);
    assert_eq!(model.get("c"), Some(50));
}

#[test]
fn test_ff() {
    let mut model = Model::new(&ff_module(), &SignalStore::new());

    model.reset();

    assert_eq!(model.get("a"), Some(0));
    assert_eq!(model.get("b"), Some(0));

    model.clock();

    assert_eq!(model.get("a"), Some(1));
    assert_eq!(model.get("b"), Some(1));

    model.clock();

    assert_eq!(model.get("a"), Some(0));
    assert_eq!(model.get("b"), Some(2));
}

#[test]
fn test_ff_simulator() {
    let model = Model::new(&ff_module(), &SignalStore::new());

    let clocks = vec![("clk".to_string(), 1000u64)];
    let mut simulator = Simulator::new(model, clocks);
    let logger = BufLogger::new();
    simulator.add_hook(logger);

    simulator.reset();
    simulator.run(5000);

    // One reset event, then one event per rising edge at 500, 1500,
    // 2500, 3500 and 4500 ns.
    let events = &simulator.hooks[0].events;
    assert_eq!(events.len(), 6);
    assert_eq!(events[0].0, 0);
    assert_eq!(events[5].0, 4500);
    assert_eq!(events[5].1.get("a"), Some(1));
    assert_eq!(events[5].1.get("b"), Some(5));
}

/// Counts the engine's clock edges through the post-clock callback.
struct EdgeCounter {
    count: usize,
}

impl Hook for EdgeCounter {
    fn post_clock(&mut self, _time: u64, _clock_name: &str, _model: &Model) {
        self.count += 1;
    }
}

#[test]
fn test_scheduled_run_edge_count() {
    let model = Model::new(&ff_module(), &SignalStore::new());
    let mut simulator = Simulator::new(model, vec![("clk".to_string(), 1000u64)]);
    simulator.add_hook(EdgeCounter { count: 0 });

    simulator.reset();
    simulator.run(5000);

    // Period 1000 ns, run of 5000 ns: exactly (5000 - 500) / 1000 + 1
    // = 5 rising edges reach the engine.
    assert_eq!(simulator.hooks[0].count, 5);
    assert_eq!(simulator.simulation_time_ns, 5000);
}

#[test]
fn test_run_shorter_than_half_period() {
    let model = Model::new(&ff_module(), &SignalStore::new());
    let mut simulator = Simulator::new(model, vec![("clk".to_string(), 1000u64)]);
    simulator.add_hook(EdgeCounter { count: 0 });

    simulator.reset();
    simulator.run(400);

    // The step that begins inside the run overshoots the end mark and
    // still produces the first rising edge at half a period.
    assert_eq!(simulator.hooks[0].count, 1);
    assert_eq!(simulator.simulation_time_ns, 500);
}

#[test]
fn test_determinism() {
    let init = init_of(&[("a", 3), ("b", 4)]);
    let mut m1 = Model::new(&comb_module(), &init);
    let mut m2 = Model::new(&comb_module(), &init);

    let ops: Vec<(&str, usize)> = vec![("a", 7), ("b", 9), ("a", 7), ("b", 1)];
    let mut outs1 = Vec::new();
    let mut outs2 = Vec::new();
    for (name, value) in &ops {
        m1.input(name, *value);
        outs1.push(m1.get("c"));
    }
    for (name, value) in &ops {
        m2.input(name, *value);
        outs2.push(m2.get("c"));
    }
    assert_eq!(outs1, outs2);
    assert_eq!(outs1, vec![Some(11), Some(16), Some(16), Some(8)]);
}

#[test]
fn test_comb_purity_same_value() {
    let init = init_of(&[("a", 10), ("b", 20)]);
    let mut model = Model::new(&comb_module(), &init);
    let before = model.get("c");

    // Writing the value an input already holds must not change any
    // output.
    model.input("a", 10);
    assert_eq!(model.get("c"), before);
    assert_eq!(model.get("c"), Some(30));
}

#[test]
fn test_division_by_zero_is_zero() {
    // c = a / b with b = 0: the whole division reads as zero and
    // nothing faults.
    let module = SourceModule {
        name: "DivTest".to_string(),
        ports: vec![input_port("a"), input_port("b"), output_port("c")],
        items: vec![continuous(
            "c",
            SrcExpr {
                first: SrcTerm {
                    first: factor_unary(var_factor("a")),
                    rest: vec![SrcTermOp {
                        op: SrcMulOp::Divide,
                        operand: factor_unary(var_factor("b")),
                    }],
                },
                rest: vec![],
            },
        )],
    };
    let init = init_of(&[("a", 42), ("b", 0)]);
    let mut model = Model::new(&module, &init);
    assert_eq!(model.get("c"), Some(0));

    model.input("b", 6);
    assert_eq!(model.get("c"), Some(7));
}

#[test]
fn test_reset_values() {
    // A reset branch may reset to any constant, not only zero.
    let module = SourceModule {
        name: "ResetTest".to_string(),
        ports: vec![clock_port("clk"), reset_port("rst"), output_port("a")],
        items: vec![ModuleItem::ClockedProcess {
            body: vec![ProcessStatement::IfReset {
                reset_blocks: vec![block_of(vec![assign_stmt("a", number_expr("5"))])],
                else_block: None,
            }],
        }],
    };
    let mut model = Model::new(&module, &SignalStore::new());
    assert_eq!(model.get("a"), Some(0));
    model.reset();
    assert_eq!(model.get("a"), Some(5));
}

#[test]
fn test_literals() {
    // Based literals in the four radixes, and the zero fallback for a
    // malformed token.
    let module = SourceModule {
        name: "LitTest".to_string(),
        ports: vec![
            output_port("h"),
            output_port("b"),
            output_port("o"),
            output_port("d"),
            output_port("p"),
            output_port("m"),
        ],
        items: vec![
            continuous("h", based_expr("32'h10")),
            continuous("b", based_expr("8'b101")),
            continuous("o", based_expr("4'o17")),
            continuous("d", based_expr("16'd42")),
            continuous("p", number_expr("42")),
            continuous("m", based_expr("8'hzz")),
        ],
    };
    let model = Model::new(&module, &SignalStore::new());
    assert_eq!(model.get("h"), Some(16));
    assert_eq!(model.get("b"), Some(5));
    assert_eq!(model.get("o"), Some(15));
    assert_eq!(model.get("d"), Some(42));
    assert_eq!(model.get("p"), Some(42));
    assert_eq!(model.get("m"), Some(0));
}

#[test]
fn test_arithmetic() {
    // 2 * a + b / 3, and saturating subtraction.
    let module = SourceModule {
        name: "ArithTest".to_string(),
        ports: vec![input_port("a"), input_port("b"), output_port("c"), output_port("s")],
        items: vec![
            continuous(
                "c",
                SrcExpr {
                    first: SrcTerm {
                        first: factor_unary(SrcFactor::Number(SrcNumber::Plain(b"2".to_vec()))),
                        rest: vec![SrcTermOp {
                            op: SrcMulOp::Times,
                            operand: factor_unary(var_factor("a")),
                        }],
                    },
                    rest: vec![SrcExprOp {
                        op: SrcAddOp::Plus,
                        term: SrcTerm {
                            first: factor_unary(var_factor("b")),
                            rest: vec![SrcTermOp {
                                op: SrcMulOp::Divide,
                                operand: factor_unary(SrcFactor::Number(SrcNumber::Plain(
                                    b"3".to_vec(),
                                ))),
                            }],
                        },
                    }],
                },
            ),
            continuous("s", binary_expr("a", SrcAddOp::Minus, "b")),
        ],
    };
    let init = init_of(&[("a", 5), ("b", 9)]);
    let mut model = Model::new(&module, &init);
    assert_eq!(model.get("c"), Some(13));
    // 5 - 9 saturates at zero instead of underflowing.
    assert_eq!(model.get("s"), Some(0));

    model.input("a", 10);
    assert_eq!(model.get("s"), Some(1));
}

#[test]
fn test_unsupported_forms_are_skipped() {
    // A qualified target, an unsupported operator, and an unsupported
    // factor all degrade silently instead of failing compilation.
    let module = SourceModule {
        name: "SkipTest".to_string(),
        ports: vec![input_port("a"), input_port("b"), output_port("c"), output_port("d")],
        items: vec![
            ModuleItem::ContinuousAssign {
                target: NameRef::Qualified,
                value: var_expr("a"),
            },
            // c = a <unsupported-op> b keeps only the left operand.
            continuous("c", binary_expr("a", SrcAddOp::Other, "b")),
            // d = <unsupported factor> reads as zero... plus b.
            continuous(
                "d",
                SrcExpr {
                    first: term_of(SrcFactor::Other),
                    rest: vec![SrcExprOp { op: SrcAddOp::Plus, term: term_of(var_factor("b")) }],
                },
            ),
            ModuleItem::Other,
        ],
    };
    let init = init_of(&[("a", 7), ("b", 3)]);
    let model = Model::new(&module, &init);
    assert_eq!(model.get("c"), Some(7));
    assert_eq!(model.get("d"), Some(3));
}

#[test]
fn test_unknown_names_degrade() {
    let init = init_of(&[("a", 10), ("b", 20)]);
    let mut model = Model::new(&comb_module(), &init);

    // Unknown output name reads as nothing; unknown input write is
    // ignored; reading an input through `get` is not supported.
    assert_eq!(model.get("nope"), None);
    assert_eq!(model.get("a"), None);
    model.input("nope", 99);
    assert_eq!(model.get("c"), Some(30));
}

#[test]
fn test_empty_module() {
    let module = SourceModule { name: "Empty".to_string(), ports: vec![], items: vec![] };
    let mut model = Model::new(&module, &SignalStore::new());
    assert_eq!(model.get("c"), None);
    model.input("a", 1);
    model.reset();
    model.clock();
    assert_eq!(model.get("c"), None);
}

#[test]
fn test_variable_reference_defaults_to_zero() {
    // An expression referencing a name no category holds reads zero.
    let module = SourceModule {
        name: "GhostVar".to_string(),
        ports: vec![input_port("a"), output_port("c")],
        items: vec![continuous("c", binary_expr("a", SrcAddOp::Plus, "ghost_wire"))],
    };
    let init = init_of(&[("a", 4)]);
    let model = Model::new(&module, &init);
    assert_eq!(model.get("c"), Some(4));
}

#[test]
fn test_two_clock_domains() {
    // Two domains: the faster one rises first; ties are broken by
    // registration order, deterministically.
    let model = Model::new(&ff_module(), &SignalStore::new());
    let mut simulator = Simulator::new(
        model,
        vec![("clk".to_string(), 1000u64), ("fast".to_string(), 500u64)],
    );
    simulator.add_hook(EdgeCounter { count: 0 });
    simulator.reset();
    simulator.run(2000);
    // Rising edges: fast at 250, 750, 1250, 1750; clk at 500, 1500.
    assert_eq!(simulator.hooks[0].count, 6);
}
