use dataflow_eq::lexer::Lexer;
use dataflow_eq::parser::NodeType;
use dataflow_eq::parser::ParseError;
use dataflow_eq::parser::Parser;

#[test]
fn test_parse_data_point() {
    let text = "L1".to_string();
    let mut lexer = Lexer::new(text);
    let tokens = lexer.lex_all();
    let mut parser = Parser::new(tokens);
    let root = parser.parse_data_point().unwrap();
    assert_eq!(root.node_type, NodeType::DataPoint);
}

#[test]
fn test_parse_empty_set() {
    let text = "{}".to_string();
    let mut lexer = Lexer::new(text);
    let tokens = lexer.lex_all();
    let mut parser = Parser::new(tokens);
    let root = parser.parse_set().unwrap();
    assert_eq!(root.node_type, NodeType::SetLiteral);
    assert_eq!(root.children.len(), 0);
}

#[test]
fn test_parse_definition() {
    let text = "d1".to_string();
    let mut lexer = Lexer::new(text);
    let tokens = lexer.lex_all();
    let mut parser = Parser::new(tokens);
    let root = parser.parse_definition().unwrap();
    assert_eq!(root.node_type, NodeType::Definition);
}

#[test]
fn test_parse_definition_list() {
    let text = "d1, d2, d3".to_string();
    let mut lexer = Lexer::new(text);
    let tokens = lexer.lex_all();
    let mut parser = Parser::new(tokens);
    let root = parser.parse_definition_list();
    assert_eq!(root.len(), 3);
}

#[test]
fn test_parse_set_with_definition() {
    let text = "{d1}".to_string();
    let mut lexer = Lexer::new(text);
    let tokens = lexer.lex_all();
    let mut parser = Parser::new(tokens);
    let root = parser.parse_set().unwrap();
    assert_eq!(root.node_type, NodeType::SetLiteral);
    assert_eq!(root.children.len(), 1);
}

#[test]
fn test_parse_set_with_definitions() {
    let text = "{d1, d2, d3}".to_string();
    let mut lexer = Lexer::new(text);
    let tokens = lexer.lex_all();
    let mut parser = Parser::new(tokens);
    let root = parser.parse_set().unwrap();
    assert_eq!(root.node_type, NodeType::SetLiteral);
    assert_eq!(root.children.len(), 3);
}

#[test]
fn test_parse_set_difference() {
    let text = "L1 \\ {d1, d2, d3}".to_string();
    let mut lexer = Lexer::new(text);
    let tokens = lexer.lex_all();
    let mut parser = Parser::new(tokens);
    let root = parser.parse_body().unwrap();
    let set_d = &root.children[0];
    assert_eq!(set_d.node_type, NodeType::SetDifference);
    assert_eq!(set_d.children.len(), 2);
}

#[test]
fn test_parse_set_difference_2() {
    let text = "{d2, d3} \\ {d1, d2, d3}".to_string();
    let mut lexer = Lexer::new(text);
    let tokens = lexer.lex_all();
    let mut parser = Parser::new(tokens);
    let root = parser.parse_body().unwrap();
    let set_d = &root.children[0];
    assert_eq!(set_d.node_type, NodeType::SetDifference);
    assert_eq!(set_d.children.len(), 2);
}

#[test]
fn test_parse_union() {
    let text = "L1 U {d1} U L3".to_string();
    let mut lexer = Lexer::new(text);
    let tokens = lexer.lex_all();
    let mut parser = Parser::new(tokens);
    let root = parser.parse_body().unwrap();
    let set_d = &root.children[0];
    assert_eq!(set_d.node_type, NodeType::Union);
    assert_eq!(set_d.children.len(), 2);
}

#[test]
fn test_parse_data_flow_equation() {
    let text = "L1 = L2 \\ {d1, d2, d3} U L3".to_string();
    let mut lexer = Lexer::new(text);
    let tokens = lexer.lex_all();
    let mut parser = Parser::new(tokens);
    let root = parser.parse_data_flow_equation().unwrap();
    assert_eq!(root.node_type, NodeType::DataflowEquation);
    assert_eq!(root.children.len(), 2);
}

// The set-difference operator binds its immediate left neighbour before the
// union applies: `L1 \ {d1} U L2` parses as `(L1 \ {d1}) U L2`.
#[test]
fn test_associativity_difference_before_union() {
    let text = "L1 \\ {d1} U L2".to_string();
    let mut lexer = Lexer::new(text);
    let tokens = lexer.lex_all();
    let mut parser = Parser::new(tokens);
    let root = parser.parse_body().unwrap();
    assert_eq!(root.node_type, NodeType::Body);
    assert_eq!(root.children.len(), 1);
    let union = &root.children[0];
    assert_eq!(union.node_type, NodeType::Union);
    assert_eq!(union.children.len(), 2);
    let left = &union.children[0];
    assert_eq!(left.node_type, NodeType::SetDifference);
    assert_eq!(left.children.len(), 2);
    assert_eq!(left.children[0].node_type, NodeType::DataPoint);
    assert_eq!(left.children[1].node_type, NodeType::SetLiteral);
    let right = &union.children[1];
    assert_eq!(right.node_type, NodeType::Body);
    assert_eq!(right.children[0].node_type, NodeType::DataPoint);
}

#[test]
fn test_parse_full_system_shapes() {
    let text = "L1 = {d1}\nL2 = L1 U {d2}".to_string();
    let mut lexer = Lexer::new(text);
    let tokens = lexer.lex_all();
    let mut parser = Parser::new(tokens);
    let root = parser.parse().unwrap();
    assert_eq!(root.node_type, NodeType::Root);
    assert_eq!(root.children.len(), 1);
    let list = &root.children[0];
    assert_eq!(list.node_type, NodeType::DataFlowEquationList);
    assert_eq!(list.children.len(), 2);
    for equation in &list.children {
        assert_eq!(equation.node_type, NodeType::DataflowEquation);
        assert_eq!(equation.children.len(), 2);
        assert_eq!(equation.children[0].node_type, NodeType::DataPoint);
    }
    let union = &list.children[1].children[1].children[0];
    assert_eq!(union.node_type, NodeType::Union);
    assert_eq!(union.children.len(), 2);
}

#[test]
fn test_parse_error_unterminated_set() {
    let text = "L1 = {d1".to_string();
    let mut lexer = Lexer::new(text);
    let tokens = lexer.lex_all();
    let mut parser = Parser::new(tokens);
    assert!(matches!(parser.parse(), Err(ParseError::UnterminatedSet)));
}

#[test]
fn test_parse_error_missing_operand() {
    let text = "L1 = \\ {d1}".to_string();
    let mut lexer = Lexer::new(text);
    let tokens = lexer.lex_all();
    let mut parser = Parser::new(tokens);
    assert!(matches!(parser.parse(), Err(ParseError::MissingOperand)));
}

#[test]
fn test_parse_error_unexpected_token() {
    let text = "= {d1}".to_string();
    let mut lexer = Lexer::new(text);
    let tokens = lexer.lex_all();
    let mut parser = Parser::new(tokens);
    assert!(matches!(parser.parse(), Err(ParseError::UnexpectedToken)));
}

#[test]
fn test_parse_error_operand_after_operand() {
    let text = "L1 = L2 L3".to_string();
    let mut lexer = Lexer::new(text);
    let tokens = lexer.lex_all();
    let mut parser = Parser::new(tokens);
    assert!(matches!(parser.parse(), Err(ParseError::UnexpectedToken)));
}

#[test]
fn test_parse_empty_input() {
    let mut lexer = Lexer::new(String::new());
    let tokens = lexer.lex_all();
    assert_eq!(tokens.len(), 0);
    let mut parser = Parser::new(tokens);
    let root = parser.parse().unwrap();
    assert_eq!(root.node_type, NodeType::Root);
    assert_eq!(root.children.len(), 1);
    assert_eq!(root.children[0].children.len(), 0);
}

#[test]
fn test_to_string_leaf_and_set() {
    let mut lexer = Lexer::new("L7".to_string());
    let mut parser = Parser::new(lexer.lex_all());
    let leaf = parser.parse_data_point().unwrap();
    assert_eq!(leaf.to_string(0), "DataPoint L7");

    let mut lexer2 = Lexer::new("{d1}".to_string());
    let mut parser2 = Parser::new(lexer2.lex_all());
    let set = parser2.parse_set().unwrap();
    assert_eq!(set.to_string(0), "Set\n    Definition d1");
    assert_eq!(set.to_string(1), "    Set\n        Definition d1");
}
