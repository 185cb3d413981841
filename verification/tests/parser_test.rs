use simcom::lexer::{Lexer, Token};
use simcom::parser::{Ast, Parser};

fn get_parser(input: &str) -> Parser {
    Parser::new(Lexer::new(input))
}

fn get_parameter(input: &str) -> Result<Ast, Token> {
    let mut parser = get_parser(input);
    parser.parse_parameter()
}

fn get_parameters(input: &str) -> Result<Vec<Ast>, Token> {
    let mut parser = get_parser(input);
    parser.parse_parameters()
}

fn get_definition(input: &str) -> Result<Ast, Token> {
    let mut parser = get_parser(input);
    parser.parse_definition()
}

fn get_nodes(input: &str) -> Vec<Ast> {
    let mut parser = get_parser(input);
    let mut nodes = Vec::new();
    while let Some(node) = parser.next() {
        nodes.push(node);
    }
    nodes
}

#[test]
fn semicolon1() {
    let mut parser = get_parser("Hola ,,();  )");
    parser.advance_until_semicolon();
    assert_eq!(parser.read_token().unwrap(), Token::ParR);
}

#[test]
fn semicolon2() {
    let mut parser = get_parser(",,,,,,;;");
    parser.advance_until_semicolon();
    assert_eq!(parser.read_token().unwrap(), Token::Semicolon);
}

#[test]
fn semicolon3() {
    let mut parser = get_parser("Hola ,,(); ");
    parser.advance_until_semicolon();
    assert_eq!(parser.read_token(), None);
}

#[test]
fn semicolon4() {
    let mut parser = get_parser("Hey");
    parser.advance_until_semicolon();
    assert_eq!(parser.read_token(), None);
}

#[test]
fn good_definition() {
    let d = get_definition("tipo Punto(x: Punto);");

    assert_eq!(
        d.unwrap(),
        Ast::TypeDefinition(
            String::from("Punto"),
            vec![Ast::Parameter(String::from("x"), String::from("Punto"),)],
        )
    );
}

#[test]
fn good_definition_trailing_comma() {
    let d = get_definition("tipo Punto(x: Punto,);");

    assert_eq!(
        d.unwrap(),
        Ast::TypeDefinition(
            String::from("Punto"),
            vec![Ast::Parameter(String::from("x"), String::from("Punto"),)],
        )
    );
}

#[test]
fn good_definition_many() {
    let d = get_definition("tipo Punto(x: Punto, x: P, x: P);");

    assert_eq!(
        d.unwrap(),
        Ast::TypeDefinition(
            String::from("Punto"),
            vec![
                Ast::Parameter(String::from("x"), String::from("Punto"),),
                Ast::Parameter(String::from("x"), String::from("P"),),
                Ast::Parameter(String::from("x"), String::from("P"),),
            ],
        )
    );
}

#[test]
fn good_definition_many_trailing_comma() {
    let d = get_definition("tipo Punto(x: Punto, x: P, x: P,);");

    assert_eq!(
        d.unwrap(),
        Ast::TypeDefinition(
            String::from("Punto"),
            vec![
                Ast::Parameter(String::from("x"), String::from("Punto"),),
                Ast::Parameter(String::from("x"), String::from("P"),),
                Ast::Parameter(String::from("x"), String::from("P"),),
            ],
        )
    );
}

#[test]
fn missing_keyword() {
    let d = get_definition("tiipo Punto");
    assert_eq!(d.unwrap_err(), Token::Ident(String::from("tiipo")));
}

#[test]
fn missing_identifier_definition() {
    let d = get_definition("tipo (,,,");
    assert_eq!(d.unwrap_err(), Token::ParL);
}

#[test]
fn missing_parenthesis() {
    let d = get_definition("tipo x he");
    assert_eq!(d.unwrap_err(), Token::Ident(String::from("he")));

    let d = get_definition("tipo P(x: haha;");
    assert_eq!(d.unwrap_err(), Token::Semicolon);
}

#[test]
fn missing_semicolon() {
    let d = get_definition("tipo P(x: E)");
    assert_eq!(d.unwrap_err(), Token::EOF);

    let d = get_definition("tipo P(x: E) \n tipo");
    assert_eq!(d.unwrap_err(), Token::Type);
}

#[test]
fn error_propagation() {
    let d = get_definition("tipo Punto(x Punto);");
    assert_eq!(d.unwrap_err(), Token::Ident(String::from("Punto")));
}

#[test]
fn good_parameter() {
    let p = get_parameter("name: Type");

    assert_eq!(
        p.unwrap(),
        Ast::Parameter(String::from("name"), String::from("Type"),)
    );
}

#[test]
fn missing_colon() {
    let p = get_parameter("name Type");

    assert_eq!(p.unwrap_err(), Token::Ident(String::from("Type")));
}

#[test]
fn missing_identifier() {
    let p = get_parameter("name: )");

    assert_eq!(p.unwrap_err(), Token::ParR);
}

#[test]
fn good_parameters() {
    let result = get_parameters("name: Type, other: othert");
    assert_eq!(
        result.unwrap(),
        vec![
            Ast::Parameter(String::from("name"), String::from("Type"),),
            Ast::Parameter(String::from("other"), String::from("othert"),),
        ]
    );
}

#[test]
fn missing_comma() {
    let result = get_parameters("name: Type other: othert");
    // The function does not report the next identifier token because it ends
    // if it finds no comma. The unexpected "other" identifier will be
    // reported by the definition parser.
    assert_eq!(
        result.unwrap(),
        vec![Ast::Parameter(String::from("name"), String::from("Type"),),]
    );
}

#[test]
fn missing_colon_parameters() {
    let result = get_parameters("name Type, other: othert");
    // The error propagates from the parameter to the parameter list.
    assert_eq!(result.unwrap_err(), Token::Ident(String::from("Type")));
}

#[test]
fn iteration_round_trip() {
    let nodes = get_nodes("tipo Punto(x: Punto);");
    assert_eq!(
        nodes,
        vec![Ast::TypeDefinition(
            String::from("Punto"),
            vec![Ast::Parameter(String::from("x"), String::from("Punto"))],
        )]
    );
}

#[test]
fn trailing_comma_parses_identically() {
    assert_eq!(
        get_nodes("tipo Punto(x: Punto,);"),
        get_nodes("tipo Punto(x: Punto);")
    );
}

#[test]
fn recovery_after_failed_statement() {
    let nodes = get_nodes("tipo Punto(x: Punto);;");
    assert_eq!(
        nodes,
        vec![
            Ast::TypeDefinition(
                String::from("Punto"),
                vec![Ast::Parameter(String::from("x"), String::from("Punto"))],
            ),
            Ast::Unexpected(Token::Semicolon),
        ]
    );
}

#[test]
fn empty_parameter_list_is_rejected() {
    let nodes = get_nodes("tipo A();");
    assert_eq!(nodes, vec![Ast::Unexpected(Token::ParR)]);
}

#[test]
fn unexpected_illegal_token() {
    let mut parser = get_parser("? Hello World");
    assert_eq!(parser.next().unwrap(), Ast::Unexpected(Token::Illegal));
}

#[test]
fn truncated_statement_yields_marker() {
    // The input runs out after the closing parenthesis: the attempt fails
    // with the end of input mid-statement, which still yields its marker.
    let nodes = get_nodes("tipo P(x: E)");
    assert_eq!(nodes, vec![Ast::Unexpected(Token::EOF)]);
}

#[test]
fn truncated_statement_after_good_one() {
    let nodes = get_nodes("tipo A(x: B); tipo P(x: E)");
    assert_eq!(
        nodes,
        vec![
            Ast::TypeDefinition(
                String::from("A"),
                vec![Ast::Parameter(String::from("x"), String::from("B"))],
            ),
            Ast::Unexpected(Token::EOF),
        ]
    );
}

#[test]
fn exhausted_parser_keeps_returning_none() {
    let mut parser = get_parser("tipo A(x: B);");
    assert!(parser.next().is_some());
    assert_eq!(parser.next(), None);
    assert_eq!(parser.next(), None);
}
