use std::str::FromStr;

use bf::parser::{Ast, ParseError, Token};

#[test]
fn parse_example() {
    let sample = "junk     +,+  ->.<-  junk   [+-+],   junk";

    let expected = Ast {
        root: vec![
            Token::Incr,
            Token::Input,
            Token::Incr,
            Token::Decr,
            Token::Next,
            Token::Output,
            Token::Previous,
            Token::Decr,
            Token::Loop(vec![Token::Incr, Token::Decr, Token::Incr]),
            Token::Input,
        ],
    };
    let actual = Ast::from_str(sample).map_err(|e| println!("{e:?}")).unwrap();

    assert_eq!(actual, expected)
}

#[test]
fn reserialize_recovers_command_sequence() {
    let sample = "junk     +,+  ->.<-  junk   [+-+],   junk";
    let ast = Ast::parse(sample).unwrap();
    assert_eq!(ast.to_source(), "+,+->.<-[+-+],");
}

#[test]
fn reserialize_nested_loops() {
    let ast = Ast::parse("a+ +[x>[y-]<.]z,").unwrap();
    assert_eq!(ast.to_source(), "++[>[-]<.],");
}

#[test]
fn reserialized_source_reparses_to_the_same_tree() {
    let ast = Ast::parse("x++[>[-]<.]y,").unwrap();
    let src = ast.to_source();
    let reparsed = Ast::parse(&src).unwrap();
    assert_eq!(reparsed, ast);
}

#[test]
fn parse_empty_source() {
    let ast = Ast::parse("no commands here at all").unwrap();
    assert_eq!(ast, Ast { root: vec![] });
    assert_eq!(ast.to_source(), "");
}

#[test]
fn unterminated_loop_is_reported() {
    assert_eq!(Ast::parse("[[+]"), Err(ParseError::UnterminatedLoop(0)));
}

#[test]
fn unmatched_close_bracket_is_reported() {
    assert_eq!(Ast::parse("+]"), Err(ParseError::UnmatchedCloseBracket(1)));
}

#[test]
fn error_positions_point_at_the_bracket() {
    assert_eq!(Ast::parse("ab[]cd]e"), Err(ParseError::UnmatchedCloseBracket(6)));
    assert_eq!(Ast::parse("[] x [ [-] y"), Err(ParseError::UnterminatedLoop(5)));
}
