use mac_egg::aiger_records::{
    aag_bytes_to_netlist, aag_records_to_netlist, AigerErrorKind, AigerRecord, ReadError, SymbolKind,
};
use mac_egg::aiger_text::{aiger_text_to_expr, build_expr};
use mac_egg::analyzer::UniqueQueue;
use mac_egg::equivalence::{
    extraction_candidate_with_mode, physical_eclass, sorted_unique,
    validate_extraction_portfolio_with_mode, D1Choice, D1Row, EquivalenceProofKind,
    EquivalenceSource, EquivalenceTarget, GeneratorCandidate, GeneratorChoice,
    GeneratorProofGroup, PortfolioRow, RecordCheck, UnifiedEnode, UnifiedEquivalenceCandidate,
    UnionRow,
};
use mac_egg::extract::{hash, FasterGreedyDagExtractor, Rng, TimingParetoBeamConfig};
use mac_egg::language::{AigType, StdCellLanguage, StdCellType};
use mac_egg::liberty::{
    conditional_vdd_leakage_values, extract_blocks, extract_cell_content, extract_pin_y_content,
    lut_table_block,
};
use mac_egg::logic::{evaluate_function, logic_truth_table, parse_logic_truth_table};
use mac_egg::mining::{
    mine_patterns_to_dir, pattern_to_netlist, CellLibrary, MiningConfig, MiningGraph, MiningNode,
    PatternExpr, PinDirection,
};
use mac_egg::realization::{
    expr_hash, expression_text, is_topology_preserving_scale_alternative, strip_drive_strength,
};
use mac_egg::topology::TopologyExpr;

fn chars(s: &str) -> Vec<char> {
    s.chars().collect()
}

fn strings(values: &[&str]) -> Vec<String> {
    values.iter().map(|v| v.to_string()).collect()
}

#[test]
fn nand_function_truth_table() {
    let pins = vec![chars("A"), chars("B")];
    let table = logic_truth_table(&chars("!(A * B)"), &pins);
    assert_eq!(table, vec![true, true, true, false]);
}

#[test]
fn function_precedence_and_constants() {
    let pins = vec![chars("A"), chars("B"), chars("C")];
    // A + B * C with A = 0, B = 1, C = 1.
    assert_eq!(evaluate_function(&chars("A + B * C"), &pins, 6), Some(true));
    assert_eq!(evaluate_function(&chars("(A + B) * C"), &pins, 2), Some(false));
    assert_eq!(evaluate_function(&chars(" 1 * !0 "), &pins, 0), Some(true));
}

#[test]
fn malformed_functions_give_no_value() {
    let pins = vec![chars("A")];
    assert_eq!(evaluate_function(&chars("(A"), &pins, 1), None);
    assert_eq!(evaluate_function(&chars("A B"), &pins, 1), None);
    assert_eq!(evaluate_function(&chars("Z"), &pins, 1), None);
    assert!(logic_truth_table(&chars("A * Z"), &pins).is_empty());
}

#[test]
fn pin_function_attribute_is_read() {
    let pin = "direction : output; function : \"!(A * B)\"; ";
    assert_eq!(
        parse_logic_truth_table(pin, &strings(&["A", "B"])),
        vec![true, true, true, false]
    );
    assert!(parse_logic_truth_table("direction : output;", &strings(&["A"])).is_empty());
}

#[test]
fn drive_strength_is_stripped() {
    assert_eq!(strip_drive_strength("NAND2x1_ASAP7_6t_L"), "NAND2_ASAP7_6t_L");
    assert_eq!(strip_drive_strength("INVx13_ASAP7"), "INV_ASAP7");
    assert_eq!(strip_drive_strength("BUFx"), "BUFx");
    assert_eq!(strip_drive_strength("xor"), "xor");
}

#[test]
fn expression_texts_keep_pin_order() {
    let e = TopologyExpr::cell(
        "INVx1_ASAP7",
        vec![TopologyExpr::cell(
            "AND2x2_ASAP7",
            vec![TopologyExpr::Anchor(3), TopologyExpr::Anchor(12)],
        )],
    );
    assert_eq!(expression_text(&e), "INVx1_ASAP7(AND2x2_ASAP7(@3,@12))");
    assert_eq!(expr_hash(&e), "INV_ASAP7(AND2_ASAP7(@3,@12))");
    assert_eq!(expression_text(&TopologyExpr::cell("TIE", vec![])), "TIE()");
}

#[test]
fn scale_alternatives_keep_children() {
    let a = StdCellLanguage::Gate("NAND2x1".to_string(), vec![1, 2]);
    let b = StdCellLanguage::Gate("NAND2x2".to_string(), vec![1, 2]);
    let c = StdCellLanguage::Gate("NAND2x2".to_string(), vec![2, 1]);
    assert!(is_topology_preserving_scale_alternative(&a, &b));
    assert!(!is_topology_preserving_scale_alternative(&a, &c));
    let s = StdCellLanguage::Symbol("x".to_string());
    assert!(is_topology_preserving_scale_alternative(&s, &StdCellLanguage::Symbol("x".to_string())));
    assert!(!is_topology_preserving_scale_alternative(&s, &a));
}

#[test]
fn physical_eclass_names_the_anchor() {
    assert_eq!(physical_eclass(9), "physical.9");
    assert_eq!(physical_eclass(120), "physical.120");
}

#[test]
fn sorted_unique_orders_and_deduplicates() {
    assert_eq!(sorted_unique(vec![5, 3, 5, 1, 3]), vec![1, 3, 5]);
    assert!(sorted_unique(vec![]).is_empty());
}

fn generator_choice(root_anchor: usize, boundary: usize) -> GeneratorChoice {
    GeneratorChoice {
        root_anchor,
        expression: TopologyExpr::cell(
            "NAND2x1_ASAP7_6t_L",
            vec![
                TopologyExpr::Anchor(boundary),
                TopologyExpr::Anchor(boundary + 1),
            ],
        ),
    }
}

fn generator_candidate(choices: Vec<GeneratorChoice>) -> GeneratorCandidate {
    let outputs = choices.iter().map(|choice| choice.root_anchor).collect();
    GeneratorCandidate {
        candidate_id: "GEN_0".to_owned(),
        provenance: vec!["truth-table-resynthesis".to_owned()],
        choices,
        outputs,
        proof_boundary: vec![3, 4],
        proof_outputs: Vec::new(),
        proof_groups: Vec::new(),
    }
}

#[test]
fn single_output_generator_becomes_virtual_enode_in_one_eclass() {
    let candidate = generator_candidate(vec![generator_choice(9, 3)]);
    let unified = UnifiedEquivalenceCandidate::from_generator(candidate);
    assert_eq!(
        unified.target,
        EquivalenceTarget::SingleEclass {
            eclass_id: "physical.9".to_owned()
        }
    );
    assert!(matches!(
        &unified.enodes[0],
        UnifiedEnode::VirtualGenerated { root_anchor: 9, .. }
    ));
    assert_eq!(unified.proof_kind, EquivalenceProofKind::BoundaryTruthTable);
}

#[test]
fn multi_output_generator_retains_relational_proof_group() {
    let left = generator_choice(9, 3);
    let right = generator_choice(10, 5);
    let mut candidate = generator_candidate(vec![left, right]);
    candidate.proof_groups = vec![GeneratorProofGroup {
        choices: vec![generator_choice(9, 3), generator_choice(10, 5)],
        boundary: vec![3, 4, 5, 6],
        outputs: vec![9, 10],
    }];
    let unified = UnifiedEquivalenceCandidate::from_generator(candidate);
    assert!(matches!(
        unified.target,
        EquivalenceTarget::MultiOutputGroup { .. }
    ));
    assert_eq!(unified.proof_groups.len(), 1);
    assert_eq!(
        unified.proof_kind,
        EquivalenceProofKind::CompositionalBoundaryProof
    );
    assert_eq!(unified.output_anchors, vec![9, 10]);
}

#[test]
fn d1_choices_become_ordinary_enodes_without_changing_legacy_row() {
    let row = D1Row {
        candidate_id: Some("v3_R2_S0_1_C000".to_string()),
        choices: Some(vec![
            D1Choice {
                eclass_id: Some("physical.1".to_string()),
                enode_id: Some("enode-a".to_string()),
            },
            D1Choice {
                eclass_id: Some("physical.2".to_string()),
                enode_id: Some("enode-b".to_string()),
            },
        ]),
    };
    let unified = UnifiedEquivalenceCandidate::from_d1_row(&row).unwrap();
    assert_eq!(unified.enodes.len(), 2);
    assert!(unified
        .enodes
        .iter()
        .all(|enode| matches!(enode, UnifiedEnode::Ordinary { .. })));
    assert!(matches!(
        unified.target,
        EquivalenceTarget::EclassTransaction { .. }
    ));
    assert_eq!(unified.source, EquivalenceSource::PrimitiveEgraphRewrite);
    assert_eq!(row.candidate_id.as_deref(), Some("v3_R2_S0_1_C000"));
}

#[test]
fn d1_rows_report_missing_fields() {
    let row = D1Row {
        candidate_id: Some("c".to_string()),
        choices: None,
    };
    assert_eq!(
        UnifiedEquivalenceCandidate::from_d1_row(&row).unwrap_err(),
        "D1 candidate c missing choices"
    );
    let row = D1Row {
        candidate_id: Some("c".to_string()),
        choices: Some(vec![D1Choice {
            eclass_id: Some("physical.1".to_string()),
            enode_id: None,
        }]),
    };
    assert_eq!(
        UnifiedEquivalenceCandidate::from_d1_row(&row).unwrap_err(),
        "D1 candidate c choice missing enode_id"
    );
}

#[test]
fn whole_netlist_candidates_have_no_enodes() {
    let c = UnifiedEquivalenceCandidate::whole_netlist(
        "closure".to_string(),
        EquivalenceSource::ExternalSidecar,
        "sidecar".to_string(),
    );
    assert_eq!(c.target, EquivalenceTarget::WholeNetlist);
    assert!(c.enodes.is_empty());
    assert_eq!(c.proof_kind, EquivalenceProofKind::WholeNetlistProof);
}

fn union_row(id: &str, unified: Option<Option<&str>>) -> UnionRow {
    UnionRow {
        candidate_id: Some(id.to_string()),
        output_netlist: Some(format!("runs/test/{id}.v")),
        unified_id: unified.map(|u| u.map(|s| s.to_string())),
    }
}

#[test]
fn unified_extraction_view_preserves_legacy_identity_and_implementation() {
    let row = union_row("GEN_0", Some(Some("GEN_0")));
    let rows = vec![PortfolioRow {
        row: union_row("GEN_0", Some(Some("GEN_0"))),
        record: RecordCheck::Decoded {
            schema: "egg-unified-equivalence-candidate-v1".to_string(),
            has_enodes: true,
            whole_netlist: false,
        },
    }];
    validate_extraction_portfolio_with_mode(&rows, true).unwrap();
    let view = extraction_candidate_with_mode(&row, true).unwrap();
    assert_eq!(view.candidate_id, "GEN_0");
    assert_eq!(view.implementation, "runs/test/GEN_0.v");
}

#[test]
fn unified_extraction_rejects_identity_divergence() {
    let row = union_row("GEN_0", Some(Some("GEN_WRONG")));
    let error = extraction_candidate_with_mode(&row, true).unwrap_err();
    assert!(error.contains("differs from unified id"));
    assert!(extraction_candidate_with_mode(&row, false).is_ok());
}

#[test]
fn portfolio_validation_rejects_duplicates_and_bad_records() {
    let good = |id: &str| PortfolioRow {
        row: union_row(id, Some(Some(id))),
        record: RecordCheck::Decoded {
            schema: "egg-unified-equivalence-candidate-v1".to_string(),
            has_enodes: true,
            whole_netlist: false,
        },
    };
    let rows = vec![good("a"), good("a")];
    assert_eq!(
        validate_extraction_portfolio_with_mode(&rows, true).unwrap_err(),
        "duplicate unified candidate id a"
    );
    assert!(validate_extraction_portfolio_with_mode(&rows, false).is_ok());
    let rows = vec![PortfolioRow {
        row: union_row("b", Some(Some("b"))),
        record: RecordCheck::Decoded {
            schema: "other".to_string(),
            has_enodes: true,
            whole_netlist: false,
        },
    }];
    assert_eq!(
        validate_extraction_portfolio_with_mode(&rows, true).unwrap_err(),
        "candidate b has unknown equivalence schema"
    );
}

#[test]
fn choice_hash_is_sorted_and_order_blind() {
    let a = vec![
        ("c2".to_string(), "n5".to_string()),
        ("c1".to_string(), "n3".to_string()),
    ];
    let b = vec![
        ("c1".to_string(), "n3".to_string()),
        ("c2".to_string(), "n5".to_string()),
    ];
    assert_eq!(hash(&a), "c1=n3;c2=n5");
    assert_eq!(hash(&a), hash(&b));
    assert_eq!(hash(&vec![]), "");
}

#[test]
fn rng_is_the_documented_lcg() {
    let mut rng = Rng::new(0);
    let first = rng.pick(10);
    assert_eq!(rng.0, 1442695040888963407);
    assert_eq!(first, ((1442695040888963407u64 >> 32) as usize) % 10);
    let mut other = Rng::new(7);
    assert_eq!(other.pick(0), ((other.0 >> 32) as usize) % 1);
}

#[test]
fn extractor_defaults() {
    let config = TimingParetoBeamConfig::default();
    assert_eq!(config.exact_eval_budget, 1000);
    assert_eq!(config.beam_size, 16);
    assert_eq!(config.moves_per_solution, 8);
    let _ = FasterGreedyDagExtractor::new();
}

#[test]
fn liberty_groups_are_extracted() {
    let lib = "library (x) { cell (INVx1) { area : 1.0; pin (Y) { function : \"!A\"; timing () { cell_rise (t) { index_1 (\"1\"); } } } } cell (B) { } }";
    let cell = extract_cell_content(lib, "INVx1").unwrap();
    assert!(cell.starts_with(" area : 1.0;"));
    assert!(cell.ends_with("} } "));
    assert!(extract_cell_content(lib, "NAND").is_none());
    let pin = extract_pin_y_content(&cell, "Y");
    assert!(pin.contains("function"));
    assert_eq!(extract_pin_y_content(&cell, "Z"), "");
    let blocks = extract_blocks(&pin, "timing ()");
    assert_eq!(blocks.len(), 1);
    assert_eq!(
        lut_table_block(&blocks[0], "cell_rise").unwrap(),
        " index_1 (\"1\"); "
    );
    assert!(lut_table_block(&blocks[0], "cell_fall").is_none());
}

#[test]
fn conditional_leakage_averages_vdd_and_excludes_vss() {
    let cell = r#"
            leakage_power () {
              value : 100;
              related_pg_pin : VDD;
            }
            leakage_power () {
              value : 0;
              related_pg_pin : VSS;
            }
            leakage_power () {
              value : 300;
              related_pg_pin : VDD;
            }
        "#;
    let values = conditional_vdd_leakage_values(cell).expect("conditional leakage");
    assert_eq!(values, vec!["100".to_string(), "300".to_string()]);
    let parsed: Vec<f64> = values.iter().map(|v| v.parse().unwrap()).collect();
    assert_eq!(parsed.iter().sum::<f64>() / parsed.len() as f64, 200.0);
    assert!(conditional_vdd_leakage_values("leakage_power () value : 1;").is_none());
}

#[test]
fn aiger_text_becomes_expressions() {
    let text = "aag 3 2 0 1 1\n2\n4\n6\n6 2 5\n";
    assert_eq!(aiger_text_to_expr(text).unwrap(), "(and a0 (not a1))");
    assert_eq!(aiger_text_to_expr("").unwrap_err(), "空文件");
    assert_eq!(
        aiger_text_to_expr("aig 1 0 0 0 0").unwrap_err(),
        "无效头部，应为'aag M I L O A'"
    );
    assert_eq!(aiger_text_to_expr("aag 0 0 0 0 0").unwrap_err(), "无效输出");
    assert_eq!(
        aiger_text_to_expr("aag 1 1 0 1 0\nx\n").unwrap_err(),
        "输入行不是数字: 'x'"
    );
    assert_eq!(
        aiger_text_to_expr("aag 1 0 0 1 0\n9\n").unwrap_err(),
        "未定义索引: 8"
    );
}

#[test]
fn literal_expressions() {
    let map = vec![(0, "false".to_string()), (1, "true".to_string()), (2, "a0".to_string())];
    assert_eq!(build_expr(0, &map).unwrap(), "false");
    assert_eq!(build_expr(3, &map).unwrap(), "(not a0)");
    assert_eq!(build_expr(4, &map).unwrap_err(), "未定义索引: 4");
}

#[test]
fn aiger_records_build_the_netlist() {
    // One AND of input 2 and the inverse of input 4, output 6.
    let records = vec![
        Ok(AigerRecord::Input(2)),
        Ok(AigerRecord::Input(4)),
        Ok(AigerRecord::AndGate {
            output: 6,
            inputs: [2, 5],
        }),
        Ok(AigerRecord::Output(6)),
        Ok(AigerRecord::Symbol {
            type_spec: SymbolKind::Input,
            position: 0,
            symbol: "a".to_string(),
        }),
    ];
    let netlist = aag_records_to_netlist(0, records).unwrap();
    // The unused constant was removed; the output node moved into its place.
    assert_eq!(netlist.nodes.len(), 5);
    assert_eq!(netlist.nodes[0], AigType::Symbol("3".to_string()));
    assert_eq!(netlist.nodes[1], AigType::Symbol("a".to_string()));
    assert_eq!(netlist.nodes[2], AigType::Symbol("2".to_string()));
    assert_eq!(netlist.nodes[3], AigType::Not);
    assert_eq!(netlist.nodes[4], AigType::And);
    assert_eq!(netlist.leaves, vec![1, 2]);
    assert_eq!(netlist.edges, vec![(3, 2), (4, 1), (4, 3), (0, 4)]);
}

#[test]
fn aiger_records_are_checked() {
    assert!(matches!(
        aag_records_to_netlist(1, vec![]),
        Err(ReadError::NotImplementedForLatch)
    ));
    assert!(matches!(
        aag_records_to_netlist(0, vec![Ok(AigerRecord::Input(3))]),
        Err(ReadError::InvalidInverted)
    ));
    assert!(matches!(
        aag_records_to_netlist(0, vec![Ok(AigerRecord::Output(4))]),
        Err(ReadError::InvalidLiteral)
    ));
    assert!(matches!(
        aag_records_to_netlist(
            0,
            vec![Ok(AigerRecord::Symbol {
                type_spec: SymbolKind::Output,
                position: 0,
                symbol: "y".to_string()
            })]
        ),
        Err(ReadError::SymbolPositionOutOfBound)
    ));
}

#[test]
fn unique_queue_keeps_one_copy() {
    let mut q = UniqueQueue::new();
    q.insert(3);
    q.insert(1);
    q.insert(3);
    q.extend(&vec![1, 2, 2]);
    assert_eq!(q.queue, vec![3, 1, 2]);
    assert_eq!(q.pop(), Some(3));
    q.insert(3);
    assert_eq!(q.queue, vec![1, 2, 3]);
}

#[test]
fn pattern_gate_count_and_signature() {
    let p = PatternExpr::Gate {
        op: "NAND2".to_string(),
        children: vec![
            PatternExpr::Gate {
                op: "INV".to_string(),
                children: vec![PatternExpr::Input],
            },
            PatternExpr::Input,
        ],
    };
    assert_eq!(p.gate_count(), 2);
    assert_eq!(p.signature(), "NAND2(INV(IN),IN)");
    let tie = PatternExpr::Gate {
        op: "TIEHI".to_string(),
        children: vec![],
    };
    assert_eq!(tie.signature(), "TIEHI");
    let netlist = pattern_to_netlist(&p);
    assert_eq!(netlist.nodes.len(), 5);
    assert_eq!(netlist.roots, vec![4]);
    assert_eq!(netlist.leaves, vec![2, 3]);
    assert_eq!(netlist.nodes[2].to_string(), "in_0");
    assert_eq!(netlist.nodes[4].to_string(), "out_0");
}

fn inv_chain_graph() -> MiningGraph {
    // Classes 0..3: two inputs and, over them, INV and AND nodes.
    let node = |op: &str, class: usize, children: Vec<usize>| MiningNode {
        op: op.to_string(),
        class,
        children,
    };
    MiningGraph {
        nodes: vec![
            node("a", 0, vec![]),
            node("b", 1, vec![]),
            node("INV", 2, vec![0]),
            node("INV", 3, vec![1]),
            node("AND", 4, vec![2, 3]),
            node("INV", 5, vec![4]),
        ],
        classes: vec![vec![0], vec![1], vec![2], vec![3], vec![4], vec![5]],
    }
}

fn library() -> CellLibrary {
    CellLibrary {
        cells: vec![
            (
                "INV".to_string(),
                vec![
                    ("A".to_string(), PinDirection::I),
                    ("Y".to_string(), PinDirection::O),
                ],
            ),
            (
                "AND".to_string(),
                vec![
                    ("A".to_string(), PinDirection::I),
                    ("B".to_string(), PinDirection::I),
                    ("Y".to_string(), PinDirection::O),
                ],
            ),
        ],
    }
}

#[test]
fn mining_ranks_frequent_patterns() {
    let summary = mine_patterns_to_dir(
        inv_chain_graph(),
        &library(),
        MiningConfig {
            min_support: 1,
            max_pattern_size: 2,
            top_k: 3,
        },
        "out",
    )
    .unwrap();
    assert_eq!(summary.egraph_nodes, 6);
    assert!(!summary.exported_patterns.is_empty());
    assert!(summary.exported_patterns.len() <= 3);
    let first = &summary.exported_patterns[0];
    assert_eq!(first.rank, 1);
    assert_eq!(first.signature, "AND(IN,INV(IN))");
    assert_eq!(first.support, 1);
    assert!(first.verilog_path.ends_with("pattern_01_support1_size2.v"));
    for pattern in &summary.exported_patterns {
        assert!(pattern.gate_count >= 2 && pattern.gate_count <= 2);
    }
}

#[test]
fn mining_refuses_multi_output_cells() {
    let lib = CellLibrary {
        cells: vec![("HA".to_string(), vec![
            ("S".to_string(), PinDirection::O),
            ("C".to_string(), PinDirection::O),
        ])],
    };
    let error = mine_patterns_to_dir(inv_chain_graph(), &lib, MiningConfig::default(), "out")
        .unwrap_err();
    assert_eq!(
        error,
        "only support single-output cells during mining, got 2 outputs for HA"
    );
}

#[test]
fn cell_weights_print_as_named() {
    assert_eq!(StdCellType::from_op("true"), StdCellType::Bool(true));
    assert_eq!(StdCellType::from_op("NAND2").to_string(), "NAND2");
}

#[test]
fn aiger_bytes_build_the_netlist() {
    let netlist = aag_bytes_to_netlist(b"aag 3 2 0 1 1\n2\n4\n6\n6 2 5\ni0 a\n").unwrap();
    assert_eq!(netlist.nodes.len(), 5);
    assert_eq!(netlist.nodes[1], AigType::Symbol("a".to_string()));
    assert_eq!(netlist.nodes[4], AigType::And);
    assert_eq!(netlist.edges, vec![(3, 2), (4, 1), (4, 3), (0, 4)]);
}

#[test]
fn removing_the_unused_constant_keeps_the_root_list() {
    let netlist = aag_bytes_to_netlist(b"aag 3 2 0 1 1\n2\n4\n6\n6 2 5\ni0 a\n").unwrap();
    assert_eq!(netlist.roots, vec![5]);
    assert!(netlist.roots[0] >= netlist.nodes.len());
}

#[test]
fn aiger_symbol_lines_the_reader_cannot_split_are_refused() {
    assert!(matches!(
        aag_bytes_to_netlist(b"aag 0 0 0 0 0\n\n"),
        Err(ReadError::UnreadableSymbolLine)
    ));
    assert!(matches!(
        aag_bytes_to_netlist("aag 1 1 0 0 0\n2\n\u{e9}x\n".as_bytes()),
        Err(ReadError::UnreadableSymbolLine)
    ));
    assert!(aag_bytes_to_netlist(b"aag 0 0 0 0 0\nc\n\n").is_ok());
    assert!(matches!(
        aag_bytes_to_netlist(b"aag 1 1 0 0 0\n\n"),
        Err(ReadError::AigerError(AigerErrorKind::InvalidLiteral))
    ));
}

#[test]
fn aiger_bytes_are_checked() {
    assert!(matches!(
        aag_bytes_to_netlist(b"not an aiger file\n"),
        Err(ReadError::AigerError(AigerErrorKind::InvalidHeader))
    ));
    assert!(matches!(
        aag_bytes_to_netlist(b"aag 1 0 1 0 0\n2 2\n"),
        Err(ReadError::NotImplementedForLatch)
    ));
    assert!(matches!(
        aag_bytes_to_netlist(b"aag 1 1 0 0 0\nx\n"),
        Err(ReadError::AigerError(AigerErrorKind::InvalidLiteral))
    ));
}
