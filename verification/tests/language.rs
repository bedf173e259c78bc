use mac_egg::language::{AigLanguage, AigType, StdCellLanguage, StdCellType};

#[test]
fn aig_weight_of_language_nodes() {
    assert_eq!(AigType::from_lang(AigLanguage::And([3, 4])), AigType::And);
    assert_eq!(AigType::from_lang(AigLanguage::Not(2)), AigType::Not);
    assert_eq!(AigType::from_lang(AigLanguage::Bool(true)), AigType::Bool(true));
    assert_eq!(
        AigType::from_lang(AigLanguage::Output("y".to_string(), 7)),
        AigType::Symbol("y".to_string())
    );
    assert_eq!(
        AigType::from_lang(AigLanguage::Input("a".to_string())),
        AigType::Symbol("a".to_string())
    );
}

#[test]
fn aig_language_nodes_from_weights() {
    assert!(matches!(
        AigType::Symbol("a".to_string()).to_lang_input(),
        AigLanguage::Input(ref s) if s == "a"
    ));
    assert!(matches!(
        AigType::Bool(false).to_lang_input(),
        AigLanguage::Bool(false)
    ));
    assert!(matches!(
        AigType::Symbol("y".to_string()).to_lang_output(5),
        AigLanguage::Output(ref s, 5) if s == "y"
    ));
    assert!(matches!(
        AigType::And.to_lang_gate(&vec![1, 2]),
        AigLanguage::And([1, 2])
    ));
    assert!(matches!(AigType::Not.to_lang_gate(&vec![9]), AigLanguage::Not(9)));
}

#[test]
fn cell_weight_of_language_nodes() {
    assert_eq!(
        StdCellType::from_lang(StdCellLanguage::Gate("NAND2".to_string(), vec![1, 2])),
        StdCellType::Symbol("NAND2".to_string())
    );
    assert_eq!(
        StdCellType::from_lang(StdCellLanguage::Bool(false)),
        StdCellType::Bool(false)
    );
    assert_eq!(
        StdCellType::from_lang(StdCellLanguage::Output("z".to_string(), 3)),
        StdCellType::Symbol("z".to_string())
    );
}

#[test]
fn cell_language_nodes_from_weights() {
    let gate = StdCellType::Symbol("INV".to_string()).to_lang_gate(vec![4]);
    assert!(gate.same_node(&StdCellLanguage::Gate("INV".to_string(), vec![4])));
    assert!(!gate.same_node(&StdCellLanguage::Gate("INV".to_string(), vec![5])));
    let input = StdCellType::Symbol("a".to_string()).to_lang_input();
    assert!(input.same_node(&StdCellLanguage::Input("a".to_string())));
    let constant = StdCellType::Bool(true).to_lang_input();
    assert!(constant.same_node(&StdCellLanguage::Bool(true)));
    let out = StdCellType::Symbol("y".to_string()).to_lang_output(2);
    assert!(out.same_node(&StdCellLanguage::Output("y".to_string(), 2)));
}
