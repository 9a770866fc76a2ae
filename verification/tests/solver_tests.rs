use dataflow_eq::analysis::find_data_points;
use dataflow_eq::analysis::has_changed;
use dataflow_eq::analysis::reaching_definitions;
use dataflow_eq::analysis::solve_points;
use dataflow_eq::analysis::DefSet;
use dataflow_eq::analysis::PointMap;
use dataflow_eq::analysis::SolveError;
use dataflow_eq::lexer::Lexer;
use dataflow_eq::node::simplify;
use dataflow_eq::parser::Node;
use dataflow_eq::parser::Parser;

fn solve(text: &str) -> Result<(usize, PointMap), SolveError> {
    let mut lexer = Lexer::new(text.to_string());
    let tokens = lexer.lex_all();
    let mut parser = Parser::new(tokens);
    let root = parser.parse().unwrap();
    let tree = simplify(&root);
    reaching_definitions(&tree)
}

fn assert_set(map: &PointMap, key: &str, expected: &[&str]) {
    let set = map.get(&key.to_string()).unwrap();
    assert_eq!(set.len(), expected.len());
    for name in expected {
        assert!(set.contains(&name.to_string()));
    }
}

// Solver fixed point: this system converges in exactly one iteration, and a
// further pass reproduces the same mapping (the solver's contract states
// that the returned mapping is a fixed point of the pass).
#[test]
fn test_solver_two_equations_converge_in_one_iteration() {
    let (iterations, map) = solve("L1 = {d1}\nL2 = L1 U {d2}").unwrap();
    assert_eq!(iterations, 1);
    assert_set(&map, "L1", &["d1"]);
    assert_set(&map, "L2", &["d1", "d2"]);
}

// Within one pass, each equation sees the updates of the equations before
// it, so a forward chain settles in a single iteration...
#[test]
fn test_solver_forward_chain() {
    let (iterations, map) = solve("L1 = {d1}\nL2 = L1\nL3 = L2").unwrap();
    assert_eq!(iterations, 1);
    assert_set(&map, "L1", &["d1"]);
    assert_set(&map, "L2", &["d1"]);
    assert_set(&map, "L3", &["d1"]);
}

// ...while a reversed chain needs one iteration per link, growing each data
// point's set monotonically from pass to pass (union-only system).
#[test]
fn test_solver_reversed_chain_grows_monotonically() {
    let (iterations, map) = solve("L3 = L2\nL2 = L1\nL1 = {d1}").unwrap();
    assert_eq!(iterations, 3);
    assert_set(&map, "L1", &["d1"]);
    assert_set(&map, "L2", &["d1"]);
    assert_set(&map, "L3", &["d1"]);
}

#[test]
fn test_solver_set_difference() {
    let (iterations, map) = solve("L1 = {d1, d2}\nL2 = L1 \\ {d1}").unwrap();
    assert_eq!(iterations, 1);
    assert_set(&map, "L1", &["d1", "d2"]);
    assert_set(&map, "L2", &["d2"]);
}

#[test]
fn test_solver_difference_binds_before_union() {
    // (L1 \ {d1}) U L2, never L1 \ ({d1} U L2).
    let (_, map) = solve("L1 = {d1}\nL2 = {d2}\nL3 = L1 \\ {d1} U L2").unwrap();
    assert_set(&map, "L3", &["d2"]);
}

// An empty set literal evaluates to the empty set.
#[test]
fn test_solver_empty_set_literal() {
    let (iterations, map) = solve("L1 = {}").unwrap();
    assert_eq!(iterations, 1);
    assert_set(&map, "L1", &[]);
}

// A reference to a data point with no defining equation is reported at
// solve time, not at parse time.
#[test]
fn test_solver_undefined_symbol() {
    let mut lexer = Lexer::new("L1 = L2".to_string());
    let tokens = lexer.lex_all();
    let mut parser = Parser::new(tokens);
    let parsed: Result<Node, _> = parser.parse();
    assert!(parsed.is_ok());
    let tree = simplify(&parsed.unwrap());
    match reaching_definitions(&tree) {
        Err(SolveError::UndefinedSymbol(name)) => assert_eq!(name, "L2"),
        Err(e) => panic!("wrong error: {:?}", e),
        Ok(_) => panic!("expected an undefined symbol"),
    }
}

#[test]
fn test_solver_self_reference_union() {
    // L1 = L1 U {d1} is monotone and settles once d1 is in.
    let (iterations, map) = solve("L1 = L1 U {d1}").unwrap();
    assert_eq!(iterations, 1);
    assert_set(&map, "L1", &["d1"]);
}

#[test]
fn test_solver_duplicate_left_hand_side() {
    // The later equation wins each pass.
    let (_, map) = solve("L1 = {d1}\nL1 = {d2}").unwrap();
    assert_set(&map, "L1", &["d2"]);
}

#[test]
fn test_solver_semicolon_separator() {
    let (_, map) = solve("L1 = {d1} ; L2 = L1").unwrap();
    assert_set(&map, "L1", &["d1"]);
    assert_set(&map, "L2", &["d1"]);
}

#[test]
fn test_solver_empty_system() {
    let (iterations, map) = solve("").unwrap();
    assert_eq!(iterations, 1);
    assert!(map.get(&"L1".to_string()).is_none());
}

// Simplifier idempotence on a concrete tree: simplifying a second time
// changes nothing (the library proves this for every tree).
#[test]
fn test_simplify_idempotent() {
    let mut lexer = Lexer::new("L1 = {d1} U L2\nL2 = {d2}".to_string());
    let tokens = lexer.lex_all();
    let mut parser = Parser::new(tokens);
    let root = parser.parse().unwrap();
    let once = simplify(&root);
    let twice = simplify(&once);
    assert_eq!(once.to_string(0), twice.to_string(0));
}

#[test]
fn test_def_set_operations() {
    let a = DefSet::singleton(&"d1".to_string());
    let b = DefSet::singleton(&"d2".to_string());
    let u = a.union(&b);
    assert_eq!(u.len(), 2);
    assert!(u.contains(&"d1".to_string()));
    assert!(u.contains(&"d2".to_string()));
    assert!(!u.contains(&"d3".to_string()));
    let d = u.difference(&a);
    assert_eq!(d.len(), 1);
    assert!(d.contains(&"d2".to_string()));
    assert!(u.union(&u).set_eq(&u));
    assert!(!d.set_eq(&u));
    assert_eq!(DefSet::new().len(), 0);
}

#[test]
fn test_find_data_points_seeds_every_left_hand_side() {
    let mut lexer = Lexer::new("L1 = {d1}\nL2 = L1".to_string());
    let mut parser = Parser::new(lexer.lex_all());
    let tree = simplify(&parser.parse().unwrap());
    let mut map = PointMap::new();
    find_data_points(&mut map, &tree);
    assert_eq!(map.get(&"L1".to_string()).unwrap().len(), 0);
    assert_eq!(map.get(&"L2".to_string()).unwrap().len(), 0);
    assert!(map.get(&"L3".to_string()).is_none());
}

#[test]
fn test_solve_points_evaluates_an_expression() {
    let mut lexer = Lexer::new("L1 = {d1}\nL2 = L1 U {d2}".to_string());
    let mut parser = Parser::new(lexer.lex_all());
    let tree = simplify(&parser.parse().unwrap());
    let mut map = PointMap::new();
    find_data_points(&mut map, &tree);
    let rhs = &tree.children[1].children[1];
    let points = solve_points(&map, rhs).unwrap();
    // L1 is still seeded with the empty set, so only d2 comes out.
    assert_eq!(points.len(), 1);
    assert!(points.contains(&"d2".to_string()));
}

#[test]
fn test_has_changed_compares_key_by_key() {
    let mut lexer = Lexer::new("L1 = {d1}".to_string());
    let mut parser = Parser::new(lexer.lex_all());
    let tree = simplify(&parser.parse().unwrap());
    let mut a = PointMap::new();
    find_data_points(&mut a, &tree);
    let b = a.duplicate();
    assert!(!has_changed(&a, &b));
    a.update(&"L1".to_string(), DefSet::singleton(&"d1".to_string()));
    assert!(has_changed(&a, &b));
}
