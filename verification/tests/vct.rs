use veloct::vct::{
    ASTExpr, ASTFunction, ASTModule, ASTStmt, Lexer, Literal, Opcode, Parser, Token, Type,
    VeloctCompiler,
};

fn lex_all(source: &str) -> Vec<Token> {
    let chars: Vec<char> = source.chars().collect();
    let mut lexer = Lexer::new(&chars);
    let mut out = Vec::new();
    loop {
        let t = lexer.next_token();
        let done = t == Token::Eof;
        out.push(t);
        if done || out.len() > 64 {
            break;
        }
    }
    out
}

fn ident(s: &str) -> Token {
    Token::Ident(s.to_string())
}

#[test]
fn lexes_keywords_identifiers_and_symbols() {
    assert_eq!(
        lex_all("module struct system public kernel fn mut let return if else while GPUCompute name_1"),
        vec![
            Token::Module, Token::Struct, Token::System, Token::Public, Token::Kernel, Token::Fn,
            Token::Mut, Token::Let, Token::Return, Token::If, Token::Else, Token::While,
            Token::GPUCompute, ident("name_1"), Token::Eof,
        ]
    );
    assert_eq!(
        lex_all(":;,.=+-*/%(){}[]"),
        vec![
            Token::Colon, Token::Semicolon, Token::Comma, Token::Dot, Token::Assign, Token::Plus,
            Token::Minus, Token::Star, Token::Slash, Token::Modulo, Token::LParen, Token::RParen,
            Token::LBrace, Token::RBrace, Token::LBracket, Token::RBracket, Token::Eof,
        ]
    );
}

#[test]
fn keywords_are_case_and_length_exact() {
    assert_eq!(lex_all("Module gpucompute fnx"), vec![ident("Module"), ident("gpucompute"), ident("fnx"), Token::Eof]);
}

#[test]
fn skips_whitespace_and_line_comments() {
    assert_eq!(
        lex_all("  // a comment ; let\n\t let // trailing"),
        vec![Token::Let, Token::Eof]
    );
    assert_eq!(lex_all("a / b"), vec![ident("a"), Token::Slash, ident("b"), Token::Eof]);
}

#[test]
fn lexes_integer_and_float_literals() {
    assert_eq!(lex_all("42"), vec![Token::IntLit(42), Token::Eof]);
    assert_eq!(lex_all("9223372036854775807"), vec![Token::IntLit(i64::MAX), Token::Eof]);
    assert_eq!(lex_all("0.016"), vec![Token::FloatLit("0.016".to_string()), Token::Eof]);
    assert_eq!(lex_all("12.5x"), vec![Token::FloatLit("12.5".to_string()), ident("x"), Token::Eof]);
    assert_eq!(lex_all("1.2.3"), vec![Token::FloatLit("1.2.3".to_string()), Token::Eof]);
}

#[test]
fn integer_that_is_no_i64_reads_as_zero() {
    assert_eq!(lex_all("9223372036854775808"), vec![Token::IntLit(0), Token::Eof]);
    assert_eq!(lex_all("99999999999999999999"), vec![Token::IntLit(0), Token::Eof]);
    // '٣' (Arabic-Indic three) is numeric but not an ASCII digit.
    assert_eq!(lex_all("1٣"), vec![Token::IntLit(0), Token::Eof]);
}

#[test]
fn unknown_character_reads_as_eof() {
    let chars: Vec<char> = "#a".chars().collect();
    let mut lexer = Lexer::new(&chars);
    assert_eq!(lexer.next_token(), Token::Eof);
    assert_eq!(lexer.next_token(), ident("a"));
    assert_eq!(lexer.next_token(), Token::Eof);
    assert_eq!(lexer.next_token(), Token::Eof);
}

fn parse(source: &str) -> Option<ASTModule> {
    let chars: Vec<char> = source.chars().collect();
    let mut parser = Parser::new(Lexer::new(&chars));
    parser.try_parse_module()
}

fn let_decl(stmt: &ASTStmt) -> (String, bool, String) {
    match stmt {
        ASTStmt::LetDecl { name, is_mut, init } => {
            let init = match init {
                ASTExpr::LiteralInt(v) => format!("int {}", v),
                ASTExpr::LiteralFloat(t) => format!("float {}", t),
                _ => "other".to_string(),
            };
            (name.clone(), *is_mut, init)
        }
        _ => panic!("not a let"),
    }
}

#[test]
fn parses_function_bodies() {
    let m = parse("module M; fn f() { let x = 1; let mut y = 2.5; let z = w; return; foo bar; }").unwrap();
    assert_eq!(m.name, "M");
    assert_eq!(m.functions.len(), 1);
    let f = &m.functions[0];
    assert_eq!(f.name, "f");
    assert!(!f.is_gpu_kernel);
    assert!(!f.is_public);
    assert!(f.params.is_empty());
    assert!(f.return_type.is_none());
    assert_eq!(f.body.len(), 4);
    assert_eq!(let_decl(&f.body[0]), ("x".to_string(), false, "int 1".to_string()));
    assert_eq!(let_decl(&f.body[1]), ("y".to_string(), true, "float 2.5".to_string()));
    assert_eq!(let_decl(&f.body[2]), ("z".to_string(), false, "float 0.0".to_string()));
    assert!(matches!(f.body[3], ASTStmt::Return(None)));
}

#[test]
fn parses_attributes_visibility_and_systems() {
    // A dotted module name reads `.` where the `;` is expected.
    assert!(parse("module Core.Engine; fn a() { }").is_none());
    let m = parse("module Engine; [GPUCompute] public fn a() - { } kernel b() { } public system S { fn c() { } }").unwrap();
    assert_eq!(m.name, "Engine");
    let names: Vec<&str> = m.functions.iter().map(|f| f.name.as_str()).collect();
    assert_eq!(names, vec!["a", "b", "c"]);
    assert!(m.functions[0].is_gpu_kernel && m.functions[0].is_public);
    assert!(matches!(m.functions[0].return_type, Some(Type::F32)));
    assert!(m.functions[1].is_gpu_kernel && !m.functions[1].is_public);
    assert!(!m.functions[2].is_gpu_kernel && m.functions[2].is_public);
}

#[test]
fn rejects_what_the_parser_panics_on() {
    assert!(parse("fn f() {}").is_none());
    assert!(parse("module ;").is_none());
    assert!(parse("module M").is_none());
    assert!(parse("module M; fn () {}").is_none());
    assert!(parse("module M; fn f( {}").is_none());
    assert!(parse("module M; fn f() { let = 1; }").is_none());
    assert!(parse("module M; fn f() { return }").is_none());
    assert!(parse("module M; [GPUCompute fn f() {}").is_none());
    assert!(parse("module M; fn f() { let x = 1;").is_none());
}

#[test]
fn kernel_followed_by_fn_is_rejected() {
    // The dotted module name already stops the parser; `kernel fn name` would
    // read `fn` where the function name is expected.
    let source = "
        module Core.SpatialEngine;

        public system SpatialNodeProcessor {
            [GPUCompute]
            public kernel fn update_kinematics() {
                let mut node_mass = 12.5;
                let delta_time = 0.016;
                return;
            }
        }
    ";
    let chars: Vec<char> = source.chars().collect();
    let mut parser = Parser::new(Lexer::new(&chars));
    assert!(parser.try_parse_module().is_none());
    // Nothing was consumed: the parser still stands at `module`.
    assert!(parser.try_parse_module().is_none());
}

#[test]
fn rejected_input_leaves_parser_unchanged() {
    let chars: Vec<char> = "module M; fn f( {}".chars().collect();
    let mut parser = Parser::new(Lexer::new(&chars));
    assert!(parser.try_parse_module().is_none());
    assert!(parser.try_parse_module().is_none());
}

#[test]
fn parse_module_agrees_with_try_parse_module() {
    let chars: Vec<char> = "module M; kernel k() { let a = 3; }".chars().collect();
    let m = Parser::new(Lexer::new(&chars)).parse_module();
    assert_eq!(m.name, "M");
    assert_eq!(m.functions.len(), 1);
    assert!(m.functions[0].is_gpu_kernel);
}

fn describe(ops: &[Opcode]) -> Vec<String> {
    ops.iter()
        .map(|op| match op {
            Opcode::PushF32(Literal::Int(v)) => format!("push int {}", v),
            Opcode::PushF32(Literal::Float(t)) => format!("push float {}", t),
            Opcode::StoreLocal(i) => format!("store {}", i),
            Opcode::DispatchGPUKernel { threads_x, threads_y, threads_z } => {
                format!("dispatch {} {} {}", threads_x, threads_y, threads_z)
            }
            Opcode::Return => "return".to_string(),
            other => format!("{:?}", other),
        })
        .collect()
}

#[test]
fn compiles_kernel_bodies() {
    let m = parse("module M; [GPUCompute] fn k() { let mut node_mass = 12.5; let count = 3; return; }").unwrap();
    let mut compiler = VeloctCompiler::new();
    let ops = compiler.compile_module(&m);
    assert_eq!(
        describe(&ops),
        vec!["dispatch 64 1 1", "push float 12.5", "store 0", "push int 3", "store 1", "return"]
    );
    assert_eq!(describe(&compiler.bytecode), describe(&ops));
    let mut table = compiler.symbol_table.clone();
    table.sort();
    assert_eq!(table, vec![("count".to_string(), 1), ("node_mass".to_string(), 0)]);
}

#[test]
fn slots_restart_in_each_function_and_later_lets_win() {
    let m = parse("module M; fn a() { let x = 1; let y = 2; } fn b() { let y = 3; }").unwrap();
    let mut compiler = VeloctCompiler::new();
    let ops = compiler.compile_module(&m);
    assert_eq!(
        describe(&ops),
        vec!["push int 1", "store 0", "push int 2", "store 1", "push int 3", "store 0"]
    );
    let mut table = compiler.symbol_table.clone();
    table.sort();
    assert_eq!(table, vec![("x".to_string(), 0), ("y".to_string(), 0)]);
}

#[test]
fn compiling_twice_appends() {
    let m = parse("module M; fn a() { return; }").unwrap();
    let mut compiler = VeloctCompiler::new();
    assert_eq!(describe(&compiler.compile_module(&m)), vec!["return"]);
    assert_eq!(describe(&compiler.compile_module(&m)), vec!["return", "return"]);
}

#[test]
fn compiles_hand_built_statements() {
    let f = ASTFunction {
        name: "g".to_string(),
        is_gpu_kernel: false,
        is_public: true,
        params: vec![("p".to_string(), Type::Array(Box::new(Type::U8), 4))],
        return_type: None,
        body: vec![
            ASTStmt::LetDecl { name: "v".to_string(), is_mut: false, init: ASTExpr::Variable("p".to_string()) },
            ASTStmt::Assign { name: "v".to_string(), value: ASTExpr::LiteralInt(1) },
            ASTStmt::Expr(ASTExpr::FnCall { name: "h".to_string(), args: vec![ASTExpr::LiteralInt(2)] }),
            ASTStmt::Return(Some(ASTExpr::LiteralInt(0))),
        ],
    };
    let m = ASTModule { name: "H".to_string(), functions: vec![f.clone()] };
    let mut compiler = VeloctCompiler::new();
    let ops = compiler.compile_module(&m);
    assert_eq!(describe(&ops), vec!["store 0", "return"]);
    assert_eq!(compiler.symbol_table, vec![("v".to_string(), 0)]);
}

#[test]
fn kernel_keyword_then_fn_is_rejected() {
    assert!(parse("module M; kernel fn f() { }").is_none());
    assert!(parse("module M; kernel f() { }").is_some());
}

#[test]
fn comments_and_blanks_do_not_change_tokens() {
    assert_eq!(lex_all("// note\n   \t fn // more\n"), lex_all("fn"));
    assert_eq!(lex_all("let//x\nmut"), lex_all("let mut"));
}

#[test]
fn cloned_expression_is_the_same_tree() {
    let e = ASTExpr::FnCall {
        name: "f".to_string(),
        args: vec![
            ASTExpr::BinaryOp {
                left: Box::new(ASTExpr::LiteralInt(1)),
                op: '+',
                right: Box::new(ASTExpr::Variable("x".to_string())),
            },
            ASTExpr::LiteralFloat("2.5".to_string()),
        ],
    };
    let c = e.clone();
    assert_eq!(format!("{:?}", c), format!("{:?}", e));
}

#[test]
fn symbol_table_holds_each_name_once() {
    let m = parse("module M; fn a() { let x = 1; let y = 2; let x = 3; } fn b() { let y = 4; }").unwrap();
    let mut compiler = VeloctCompiler::new();
    compiler.compile_module(&m);
    compiler.compile_module(&m);
    let mut names: Vec<&str> = compiler.symbol_table.iter().map(|(n, _)| n.as_str()).collect();
    names.sort();
    assert_eq!(names, vec!["x", "y"]);
    let mut table = compiler.symbol_table.clone();
    table.sort();
    assert_eq!(table, vec![("x".to_string(), 2), ("y".to_string(), 0)]);
}
