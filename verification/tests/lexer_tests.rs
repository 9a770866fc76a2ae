use dataflow_eq::lexer::Lexer;
use dataflow_eq::lexer::TokenType;

#[test]
fn test_lex_classifies_each_token() {
    let mut lexer = Lexer::new("L12 = {d7, d8} U L3 \\ {} ;\n?".to_string());
    let tokens = lexer.lex_all();
    let kinds: Vec<TokenType> = tokens.iter().map(|t| t.token_type).collect();
    assert_eq!(
        kinds,
        vec![
            TokenType::DataPoint,
            TokenType::Equals,
            TokenType::SetOpen,
            TokenType::Definition,
            TokenType::Comma,
            TokenType::Definition,
            TokenType::SetClose,
            TokenType::Union,
            TokenType::DataPoint,
            TokenType::SetDifference,
            TokenType::SetOpen,
            TokenType::SetClose,
            TokenType::NewLine,
            TokenType::NewLine,
            TokenType::Unknown,
        ]
    );
    assert_eq!(tokens[0].lexeme, "L12");
    assert_eq!(tokens[3].lexeme, "d7");
    assert_eq!(tokens[12].lexeme, ";");
    assert_eq!(tokens[13].lexeme, "\n");
    assert_eq!(tokens[14].lexeme, "?");
}

// Lexing round-trip: the lexemes of all tokens, concatenated in order,
// reproduce the input with its horizontal whitespace removed.
#[test]
fn test_lex_round_trip() {
    let text = "L1 = {d1, d2} \\ {d3} U L2\nL2 = {}";
    let mut lexer = Lexer::new(text.to_string());
    let tokens = lexer.lex_all();
    let rebuilt: String = tokens.iter().map(|t| t.lexeme.as_str()).collect::<Vec<_>>().concat();
    let stripped: String = text.chars().filter(|c| *c != ' ' && *c != '\t').collect();
    assert_eq!(rebuilt, stripped);
}

#[test]
fn test_lex_bare_letters_and_long_numbers() {
    let mut lexer = Lexer::new("L d L10024".to_string());
    let tokens = lexer.lex_all();
    assert_eq!(tokens.len(), 3);
    assert_eq!(tokens[0].token_type, TokenType::DataPoint);
    assert_eq!(tokens[0].lexeme, "L");
    assert_eq!(tokens[1].token_type, TokenType::Definition);
    assert_eq!(tokens[1].lexeme, "d");
    assert_eq!(tokens[2].lexeme, "L10024");
}

#[test]
fn test_lex_whitespace_only_yields_no_tokens() {
    let mut lexer = Lexer::new("   \t  ".to_string());
    let tokens = lexer.lex_all();
    assert_eq!(tokens.len(), 0);
}
