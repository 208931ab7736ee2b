use logic_model::{parse_formula, Instructions};

#[test]
fn basic_build() {
    let formula = "p ⊃ q";
    let manual_instructions = Instructions {
        operators: "⊃".to_string(),
        variables: vec!['p'.to_string(), 'q'.to_string()],
    };
    assert_eq!(manual_instructions, parse_formula(formula).unwrap())
}

#[test]
fn parentheses() {
    let formula = "(p ⋀ r) ⊃ q";
    let manual_instructions = Instructions {
        operators: "⊃".to_string(),
        variables: vec!["p ⋀ r".to_string(), "q".to_string()],
    };
    assert_eq!(manual_instructions, parse_formula(formula).unwrap())
}

#[test]
fn unreadable_character_is_an_error() {
    assert!(parse_formula("p ⊃ 1").is_err());
    assert!(parse_formula("p & q").is_err());
}

#[test]
fn closing_parenthesis_without_group_is_an_error() {
    assert!(parse_formula("p ⋀ q)").is_err());
}

#[test]
fn group_left_open_is_dropped() {
    let ins = parse_formula("(p").unwrap();
    assert_eq!("", ins.operators());
    assert!(ins.variables().is_empty());
    let ins = parse_formula("q ⋁ (p ⋀ r").unwrap();
    assert_eq!("⋁", ins.operators());
    assert_eq!(&vec!["q".to_string()], ins.variables());
}

#[test]
fn nested_group_is_one_operand() {
    let ins = parse_formula("¬((p ⋀ q) ⋁ r)").unwrap();
    assert_eq!("¬", ins.operators());
    assert_eq!(&vec!["(p ⋀ q) ⋁ r".to_string()], ins.variables());
}

#[test]
fn prefix_operators_are_kept_in_order() {
    let ins = parse_formula("◻¬p ⋁ ◇q").unwrap();
    assert_eq!("◻¬⋁◇", ins.operators());
    assert_eq!(&vec!["p".to_string(), "q".to_string()], ins.variables());
}
