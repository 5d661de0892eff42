use veloct::ingest::{AstNode, Lexer, Parser, Token, VeloctCompiler};

fn tokens(source: &str) -> Vec<Token<'_>> {
    let mut lexer = Lexer::new(source);
    let mut out = Vec::new();
    for _ in 0..32 {
        let t = lexer.next_token();
        out.push(t);
        if t == Token::Eof && out.len() > 1 && out[out.len() - 2] == Token::Eof {
            break;
        }
    }
    out
}

#[test]
fn lexes_schema_header() {
    let mut lexer = Lexer::new("module Pipeline.Config; STAGE_LED_WIDTH = 3840;");
    assert_eq!(lexer.next_token(), Token::Module);
    assert_eq!(lexer.next_token(), Token::Identifier("Pipeline.Config"));
    assert_eq!(lexer.next_token(), Token::Semicolon);
    assert_eq!(lexer.next_token(), Token::Identifier("STAGE_LED_WIDTH"));
    assert_eq!(lexer.next_token(), Token::Assign);
    assert_eq!(lexer.next_token(), Token::Number("3840"));
    assert_eq!(lexer.next_token(), Token::Semicolon);
    assert_eq!(lexer.next_token(), Token::Eof);
    assert_eq!(lexer.next_token(), Token::Eof);
}

#[test]
fn eof_is_stable_at_end_of_input() {
    let mut lexer = Lexer::new("  \t\n ");
    assert_eq!(lexer.next_token(), Token::Eof);
    assert_eq!(lexer.next_token(), Token::Eof);
    let mut empty = Lexer::new("");
    assert_eq!(empty.next_token(), Token::Eof);
}

#[test]
fn identifier_slices_point_into_the_source() {
    let source = String::from("module  Alpha_9.beta ;");
    let mut lexer = Lexer::new(&source);
    assert_eq!(lexer.next_token(), Token::Module);
    match lexer.next_token() {
        Token::Identifier(text) => {
            assert_eq!(text, "Alpha_9.beta");
            let start = text.as_ptr() as usize - source.as_ptr() as usize;
            assert_eq!(start, 8);
        }
        other => panic!("unexpected token {:?}", other),
    }
}

#[test]
fn unknown_character_reads_as_eof_and_is_skipped() {
    assert_eq!(
        tokens("#x"),
        vec![Token::Eof, Token::Identifier("x"), Token::Eof, Token::Eof]
    );
}

#[test]
fn non_ascii_identifiers_and_numbers() {
    assert_eq!(
        tokens("módulo é = 12.5;"),
        vec![
            Token::Identifier("módulo"),
            Token::Identifier("é"),
            Token::Assign,
            Token::Number("12.5"),
            Token::Semicolon,
            Token::Eof,
            Token::Eof,
        ]
    );
}

#[test]
fn keyword_needs_the_whole_word() {
    assert_eq!(
        tokens("modules module_ _module"),
        vec![
            Token::Identifier("modules"),
            Token::Identifier("module_"),
            Token::Identifier("_module"),
            Token::Eof,
            Token::Eof,
        ]
    );
}

#[test]
fn numbers_take_dots_but_not_letters() {
    assert_eq!(
        tokens("1.2.3abc"),
        vec![Token::Number("1.2.3"), Token::Identifier("abc"), Token::Eof, Token::Eof]
    );
}

fn parse(source: &str) -> Option<AstNode<'_>> {
    let mut parser = Parser::new(Lexer::new(source));
    parser.parse_module()
}

#[test]
fn parses_full_header() {
    let ast = parse("module Pipeline.Config; STAGE_LED_WIDTH = 3840;").unwrap();
    assert_eq!(ast.module_name, "Pipeline.Config");
    assert_eq!(ast.key, "STAGE_LED_WIDTH");
    assert_eq!(ast.value, "3840");
}

#[test]
fn parses_partial_headers() {
    let ast = parse("module A").unwrap();
    assert_eq!((ast.module_name, ast.key, ast.value), ("A", "", ""));
    let ast = parse("module A; k").unwrap();
    assert_eq!((ast.module_name, ast.key, ast.value), ("A", "k", ""));
    let ast = parse("module A k = ;").unwrap();
    assert_eq!((ast.module_name, ast.key, ast.value), ("A", "k", ""));
    let ast = parse("module A k = 7").unwrap();
    assert_eq!((ast.module_name, ast.key, ast.value), ("A", "k", "7"));
}

#[test]
fn rejects_headers_without_module_and_name() {
    assert!(parse("key = 1;").is_none());
    assert!(parse("module ;").is_none());
    assert!(parse("module 12").is_none());
    assert!(parse("").is_none());
}

#[test]
fn compiles_header_to_opcodes() {
    let ast = parse("module Pipeline.Config; STAGE_LED_WIDTH = 3840;").unwrap();
    let compiler = VeloctCompiler::new();
    let opcodes = compiler.compile_module(&ast);
    let mut expected = vec![0xCCu8];
    expected.extend_from_slice(b"Pipeline.Config");
    expected.push(0x3A);
    expected.extend_from_slice(b"STAGE_LED_WIDTH");
    expected.push(0x3D);
    expected.extend_from_slice(b"3840");
    expected.push(0xFF);
    assert_eq!(opcodes, expected);
}

#[test]
fn compiles_empty_fields_and_utf8() {
    let ast = AstNode { module_name: "é", key: "", value: "" };
    let opcodes = VeloctCompiler::new().compile_module(&ast);
    assert_eq!(opcodes, vec![0xCC, 0xC3, 0xA9, 0x3A, 0x3D, 0xFF]);
}

#[test]
fn header_bytes_split_back_into_fields() {
    let ast = parse("module Pipeline.Config; STAGE_LED_WIDTH = 3840;").unwrap();
    let bytes = VeloctCompiler::new().compile_module(&ast);
    assert_eq!(bytes[0], 0xCC);
    assert_eq!(*bytes.last().unwrap(), 0xFF);
    let i = 1 + bytes[1..].iter().position(|&b| b == 0x3A).unwrap();
    let j = i + 1 + bytes[i + 1..].iter().position(|&b| b == 0x3D).unwrap();
    assert_eq!(&bytes[1..i], ast.module_name.as_bytes());
    assert_eq!(&bytes[i + 1..j], ast.key.as_bytes());
    assert_eq!(&bytes[j + 1..bytes.len() - 1], ast.value.as_bytes());
}
