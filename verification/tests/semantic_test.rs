use simcom::lexer::{Lexer, Token};
use simcom::parser::Parser;
use simcom::semantic::Semantic;

fn get_semantic(content: &str) -> Result<Semantic, Vec<Token>> {
    Semantic::analyze(Parser::new(Lexer::new(content)))
}

#[test]
fn order_ok() {
    let content = "tipo A(x: long);\
        tipo B(a: A);";

    let a = get_semantic(content).unwrap();

    assert_eq!(a.order[0], String::from("long"));
    assert_eq!(a.order[1], String::from("A"));
    assert_eq!(a.order[2], String::from("B"));
}

#[test]
fn cycle() {
    let content = "tipo A(x: B);\
        tipo B (x: A);";

    let s = get_semantic(content).unwrap();

    assert!(s.cycles.contains(&String::from("A")));
    assert!(s.cycles.contains(&String::from("B")));
}

#[test]
fn cycle_order_1() {
    let content = "tipo A(x: B);\
        tipo B(x: A);\
        tipo C(a: A, b: B);";

    let s = get_semantic(content).unwrap();

    // C reaches the finished cycle {A, B}, whose members stay marked as
    // visited, so the walk from C hits them and sweeps C into the cycles.
    assert!(s.order.is_empty());
    assert!(s.cycles.contains(&String::from("A")));
    assert!(s.cycles.contains(&String::from("B")));
    assert!(s.cycles.contains(&String::from("C")));
}

#[test]
fn cycle_order_2() {
    let content = "tipo A(x: B, c: C);\
        tipo B(x: A);";

    let s = get_semantic(content).unwrap();

    let t_b = String::from("B");
    let t_c = String::from("C");

    let assert = s.order[0] == t_c || (s.order[0] == t_b && s.order[1] == t_c);

    assert!(assert);
    assert!(s.cycles.contains(&String::from("A")));
    assert!(s.cycles.contains(&t_b));
}

#[test]
fn cycle_order_3() {
    let content = "tipo C(a: A);\
        tipo A(b: B);\
        tipo B(a: A);";

    let s = get_semantic(content).unwrap();

    // The back-edge from B to A records the whole walk path C, A, B as
    // cyclic, so the ancestor C is swept into the cycles as well.
    assert!(s.order.is_empty());
    assert!(s.cycles.contains(&String::from("A")));
    assert!(s.cycles.contains(&String::from("B")));
    assert!(s.cycles.contains(&String::from("C")));
}

#[test]
fn order_places_undefined_dependency_first() {
    // "long" is never defined, yet it is visited as a dependency and
    // legitimately appears in the order, before its dependent.
    let s = get_semantic("tipo A(x: long); tipo B(a: A);").unwrap();
    assert_eq!(
        s.order,
        vec![String::from("long"), String::from("A"), String::from("B")]
    );
    assert!(s.cycles.is_empty());
}

#[test]
fn cycle_is_exact() {
    let s = get_semantic("tipo A(x: B); tipo B(x: A);").unwrap();
    assert!(s.order.is_empty());
    assert_eq!(s.cycles.len(), 2);
    assert!(s.cycles.contains(&String::from("A")));
    assert!(s.cycles.contains(&String::from("B")));
}

#[test]
fn self_cycle() {
    let s = get_semantic("tipo A(x: A);").unwrap();
    assert!(s.order.is_empty());
    assert_eq!(s.cycles, vec![String::from("A")]);
}

#[test]
fn analysis_fails_on_unexpected_tokens() {
    let errors = get_semantic("tipo Punto(x: Punto);;").unwrap_err();
    assert_eq!(errors, vec![Token::Semicolon]);
}

#[test]
fn analysis_collects_every_unexpected_token() {
    let errors = get_semantic("; tipo A(x: B); ?").unwrap_err();
    assert_eq!(errors, vec![Token::Semicolon, Token::Illegal]);
}

#[test]
fn analysis_is_idempotent() {
    let content = "tipo A(x: B); tipo B(x: A); tipo D(k: A); tipo E(v: long);";
    let first = get_semantic(content).unwrap();
    let second = get_semantic(content).unwrap();
    assert_eq!(first.order, second.order);
    assert_eq!(first.cycles, second.cycles);
}

#[test]
fn later_definition_overwrites_earlier() {
    // The second definition of A replaces the first; the dependency on B is
    // gone, so both names order cleanly.
    let s = get_semantic("tipo A(x: B); tipo A(y: C); tipo B(n: A);").unwrap();
    assert!(s.cycles.is_empty());
    assert_eq!(
        s.order,
        vec![
            String::from("C"),
            String::from("A"),
            String::from("B"),
        ]
    );
}

#[test]
fn doc_example_order() {
    let content = "tipo A(x: X);";
    let ast = Parser::new(Lexer::new(content));

    if let Ok(s) = Semantic::analyze(ast) {
        assert_eq!(s.order[0], String::from("X"));
        assert_eq!(s.order[1], String::from("A"));
    } else {
        panic!("Wrong if/else branch!");
    }
}

#[test]
fn doc_example_errors() {
    // Note the two semicolons:
    let content = "tipo A(x: X);;";
    let s = Semantic::analyze(Parser::new(Lexer::new(content)));

    if let Err(ve) = s {
        assert_eq!(ve[0], Token::Semicolon);
    } else {
        panic!("Wrong if/else branch!");
    }
}

#[test]
fn analysis_fails_on_truncated_statement() {
    // A missing final semicolon is a syntactic failure, accumulated and
    // escalated like any other: analysis must not report success.
    let errors = get_semantic("tipo A(x: B)").unwrap_err();
    assert_eq!(errors, vec![Token::EOF]);
}
