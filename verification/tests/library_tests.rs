use array_decl_parser::{parse_string, Lexer, Node, ParseError, ParseErrorKind, Parser, Token};

fn lex_all(s: &[u8]) -> Vec<Token> {
    let mut lexer = Lexer::new(s);
    let mut out = Vec::new();
    loop {
        let t = lexer.next().unwrap();
        out.push(t);
        if t == Token::Eof {
            return out;
        }
    }
}

fn leaf(name: &str) -> Node {
    Node { name: name.to_string(), children: Vec::new(), is_term: true }
}

fn words(n: &Node, out: &mut Vec<String>) {
    if n.is_term {
        return;
    }
    if (n.name == "X" || n.name == "T" || n.name == "N") && !n.children.is_empty() {
        out.push(n.children[0].name.clone());
    }
    for c in &n.children {
        words(c, out);
    }
}

#[test]
fn end_of_file_repeats() {
    let mut lexer = Lexer::new(b"x  ");
    assert_eq!(lexer.next().unwrap(), Token::Id);
    assert_eq!(lexer.next().unwrap(), Token::Eof);
    let position = lexer.position;
    for _ in 0..3 {
        assert_eq!(lexer.next().unwrap(), Token::Eof);
        assert_eq!(lexer.position, position);
        assert_eq!(lexer.last_id, "x");
    }
    assert_eq!(position, 4);
}

#[test]
fn position_only_numbers_messages() {
    let mut lexer = Lexer::new(b"var x");
    lexer.position = 3;
    assert_eq!(lexer.next().unwrap(), Token::Var);
    assert_eq!(lexer.position, 7);
    assert_eq!(lexer.next().unwrap(), Token::Id);
    assert_eq!(lexer.last_id, "x");
    assert_eq!(lexer.position, 8);

    let mut lexer = Lexer::new(b" $");
    lexer.position = 100;
    let e = lexer.next().unwrap_err();
    assert_eq!(e.msg, "Unknown terminal $ at position 102 of input");
}

#[test]
fn empty_input_is_end_of_file() {
    let mut lexer = Lexer::new(b"");
    assert_eq!(lexer.next().unwrap(), Token::Eof);
    assert_eq!(lexer.position, 1);
}

#[test]
fn numbers_fit_in_u32() {
    let mut lexer = Lexer::new(b"4294967295 4294967296 007 1x");
    assert_eq!(lexer.next().unwrap(), Token::Number);
    assert_eq!(lexer.last_id, "4294967295");
    assert_eq!(lexer.next().unwrap(), Token::Id);
    assert_eq!(lexer.last_id, "4294967296");
    assert_eq!(lexer.next().unwrap(), Token::Number);
    assert_eq!(lexer.last_id, "007");
    assert_eq!(lexer.next().unwrap(), Token::Id);
    assert_eq!(lexer.last_id, "1x");
}

#[test]
fn keywords_are_lower_case_words() {
    assert_eq!(lex_all(b"var array of VAR Of ofs"),
        vec![Token::Var, Token::Array, Token::Of, Token::Id, Token::Id, Token::Id, Token::Eof]);
}

#[test]
fn keywords_keep_last_identifier() {
    let mut lexer = Lexer::new(b"abc var");
    lexer.next().unwrap();
    lexer.next().unwrap();
    assert_eq!(lexer.token, Token::Var);
    assert_eq!(lexer.last_id, "abc");
}

#[test]
fn single_dot_is_passed_over() {
    assert_eq!(lex_all(b".,"), vec![Token::Comma, Token::Eof]);
    assert_eq!(lex_all(b"1..2...,"), vec![Token::Number, Token::DoubleDot, Token::Number, Token::DoubleDot, Token::Comma, Token::Eof]);
    let mut lexer = Lexer::new(b"...3");
    assert_eq!(lexer.next().unwrap(), Token::DoubleDot);
    let e = lexer.next().unwrap_err();
    assert_eq!(e.msg, "Unknown terminal 3 at position 5 of input");
}

#[test]
fn letter_after_single_dot_is_unknown() {
    let e = Lexer::new(b".x").next().unwrap_err();
    assert_eq!(e.kind, ParseErrorKind::LexerError);
    assert_eq!(e.msg, "Unknown terminal x at position 3 of input");
}

#[test]
fn zero_byte_ends_input() {
    assert_eq!(lex_all(b"x\0y"), vec![Token::Id, Token::Eof]);
}

#[test]
fn unknown_terminal_message() {
    let e = parse_string("var x : * integer").unwrap_err();
    assert_eq!(e.kind, ParseErrorKind::LexerError);
    assert_eq!(e.msg, "Unknown terminal * at position 10 of input");
    assert_eq!(e.to_string(), "LexerError: Unknown terminal * at position 10 of input");
}

#[test]
fn non_ascii_byte_is_shown_as_its_code_point() {
    let e = Lexer::new(&[0xE9u8]).next().unwrap_err();
    assert_eq!(e.msg, "Unknown terminal \u{e9} at position 2 of input");
}

#[test]
fn missing_var_message() {
    let e = parse_string("x: array [1..10] of integer;").unwrap_err();
    assert_eq!(e.kind, ParseErrorKind::ParserError);
    assert_eq!(e.msg, "Unexpected token <id> at position 3. Expected one of: [Var]");
    assert_eq!(e.to_string(), "ParserError: Unexpected token <id> at position 3. Expected one of: [Var]");
}

#[test]
fn missing_comma_message() {
    let e = parse_string("var x y: array [1..10] of integer;").unwrap_err();
    assert_eq!(e.msg, "Unexpected token <id> at position 9. Expected one of: [Comma, Colon]");
}

#[test]
fn missing_semicolon_message() {
    let e = parse_string("var x: array [1..10] of integer").unwrap_err();
    assert_eq!(e.msg, "Unexpected token EOF at position 32. Expected one of: [Semicolon]");
}

#[test]
fn missing_range_message() {
    let e = parse_string("var x: array [;] of integer;").unwrap_err();
    assert_eq!(e.msg, "Unexpected token ; at position 17. Expected one of: [Number, Id]");
}

#[test]
fn missing_bracket_message() {
    let e = parse_string("var x: array [1..2;] of integer;").unwrap_err();
    assert_eq!(e.msg, "Unexpected token ; at position 21. Expected one of: [Comma, CloseSBracket]");
}

#[test]
fn failed_read_message() {
    let e = ParseError::failed_read("disk on fire");
    assert_eq!(e.kind, ParseErrorKind::InputError);
    assert_eq!(e.msg, "Read operation failed: disk on fire");
    assert_eq!(e.to_string(), "InputError: Read operation failed: disk on fire");
}

#[test]
fn unknown_terminal_constructor() {
    let e = ParseError::unknown_terminal('#', 1234);
    assert_eq!(e.kind, ParseErrorKind::LexerError);
    assert_eq!(e.msg, "Unknown terminal # at position 1234 of input");
}

#[test]
fn unexpected_token_constructor() {
    let mut lexer = Lexer::new(b"  ;");
    lexer.next().unwrap();
    let e = ParseError::unexpected_token(&lexer, &[Token::Id, Token::DoubleDot, Token::Epsilon]);
    assert_eq!(e.kind, ParseErrorKind::ParserError);
    assert_eq!(e.msg, "Unexpected token ; at position 4. Expected one of: [Id, DoubleDot, Epsilon]");
    let e = ParseError::unexpected_token(&lexer, &[]);
    assert_eq!(e.msg, "Unexpected token ; at position 4. Expected one of: []");
}

#[test]
fn token_texts() {
    let all = [
        (Token::Id, "<id>"), (Token::Number, "<id>"), (Token::Var, "var"), (Token::Array, "array"),
        (Token::Of, "of"), (Token::Comma, ","), (Token::Dot, "."), (Token::DoubleDot, ".."),
        (Token::Semicolon, ";"), (Token::Colon, ":"), (Token::OpenSBracket, "["),
        (Token::CloseSBracket, "]"), (Token::Epsilon, "\u{3b5}"), (Token::Eof, "EOF"),
    ];
    for (t, s) in all.iter() {
        assert_eq!(t.to_string(), *s);
    }
    assert_eq!(ParseErrorKind::InputError.to_string(), "InputError");
    assert_eq!(ParseErrorKind::LexerError.to_string(), "LexerError");
    assert_eq!(ParseErrorKind::ParserError.to_string(), "ParserError");
}

#[test]
fn tree_of_a_declaration() {
    let tree = parse_string("var a: array [1..2] of t;").unwrap();
    assert_eq!(tree.name, "S");
    assert!(!tree.is_term);
    let names: Vec<&str> = tree.children.iter().map(|c| c.name.as_str()).collect();
    assert_eq!(names, ["var", "X", ":", "array", "[", "D", "]", "of", "T", ";"]);
    let x = &tree.children[1];
    assert_eq!(x.children[0].name, "a");
    assert_eq!(x.children[1].name, "X''");
    assert_eq!(x.children[1].children[0].name, "\u{3b5}");
    let d = &tree.children[5];
    let r = &d.children[0];
    assert_eq!(r.name, "R");
    let parts: Vec<&str> = r.children.iter().map(|c| c.name.as_str()).collect();
    assert_eq!(parts, ["N", ".", ".", "N"]);
    assert_eq!(r.children[0].children[0].name, "1");
    assert_eq!(r.children[3].children[0].name, "2");
    assert!(r.children[1].is_term && r.children[2].is_term);
    assert_eq!(d.children[1].name, "D''");
    assert_eq!(d.children[1].children[0].name, "\u{3b5}");
    assert_eq!(tree.children[8].children[0].name, "t");
}

#[test]
fn identifier_range_is_a_type_node() {
    let tree = parse_string("var x: array [n] of integer;").unwrap();
    let r = &tree.children[5].children[0];
    assert_eq!(r.name, "T");
    assert_eq!(r.children[0].name, "n");
}

#[test]
fn several_names_nest() {
    let tree = parse_string("var x,y,z: array [1..10] of integer;").unwrap();
    let x = &tree.children[1];
    assert_eq!(x.children[0].name, "x");
    let xs = &x.children[1].children[0];
    assert_eq!(xs.name, "X'");
    let names: Vec<&str> = xs.children.iter().map(|c| c.name.as_str()).collect();
    assert_eq!(names, [",", "X", "Y"]);
    assert_eq!(xs.children[1].children[0].name, "y");
    assert_eq!(xs.children[2].children[0].name, "\u{3b5}");
}

#[test]
fn words_follow_the_source() {
    let tree = parse_string("var a, b: array [1..10, 0..5, m] of real;").unwrap();
    let mut out = Vec::new();
    words(&tree, &mut out);
    assert_eq!(out, ["a", "b", "1", "10", "0", "5", "m", "real"]);
}

#[test]
fn only_one_token_after_the_semicolon_is_read() {
    assert!(parse_string("var x: array [1..10] of integer; var y").is_ok());
    assert!(parse_string("var x: array [1..10] of integer; ] * *").is_ok());
    let e = parse_string("var x: array [1..10] of integer; *").unwrap_err();
    assert_eq!(e.kind, ParseErrorKind::LexerError);
}

#[test]
fn accepts_exactly_declarations() {
    for s in [
        "var x: array [1..2] of t;",
        "var x, y, z: array [n] of t;",
        "var x: array [n, 1..2, m, 3..4] of t;",
        "var\tx :array[0..0]of t ;",
    ] {
        assert!(parse_string(s).is_ok(), "{}", s);
    }
    for s in [
        "var : array [1..2] of t;",
        "var x,: array [1..2] of t;",
        "var x: array [] of t;",
        "var x: array [1..2,] of t;",
        "var x: array [1..n] of t;",
        "var x: array [1..2] of 5;",
        "x: array [1..2] of t;",
        "var x: array [1..2] of t",
    ] {
        assert_eq!(parse_string(s).unwrap_err().kind, ParseErrorKind::ParserError, "{}", s);
    }
}

#[test]
fn parse_errors_are_never_input_errors() {
    for s in ["", "var", "var x: array [1..10] of", "*", "var x: array [1..10 of t;", "var x : array [1.10] of t;"] {
        let e = parse_string(s).unwrap_err();
        assert!(e.kind == ParseErrorKind::LexerError || e.kind == ParseErrorKind::ParserError);
    }
}

#[test]
fn parser_from_a_lexer() {
    let input = b"  var q: array [3..4] of w;";
    let mut parser = Parser::new(Lexer::new(input));
    let tree = parser.parse().unwrap();
    assert_eq!(tree.children[1].children[0].name, "q");
    let tree2 = Parser::parse_file(input).unwrap();
    assert_eq!(tree2.children[8].children[0].name, "w");
}

#[test]
fn parser_stops_at_the_token_after_the_semicolon() {
    let mut parser = Parser::new(Lexer::new(b"var q: array [3..4] of w; next"));
    assert!(parser.parse().is_ok());
    assert_eq!(parser.lexer.token, Token::Id);
    assert_eq!(parser.lexer.last_id, "next");
    assert_eq!(parser.lexer.position, 31);
}

#[test]
fn rejected_first_token_leaves_the_lexer_where_it_was() {
    let mut parser = Parser::new(Lexer::new(b"x: array"));
    let e = parser.parse().unwrap_err();
    assert_eq!(e.msg, "Unexpected token <id> at position 3. Expected one of: [Var]");
    assert_eq!(parser.lexer.token, Token::Id);
    assert_eq!(parser.lexer.last_id, "x");
    assert_eq!(parser.lexer.position, 3);
    assert_eq!(parser.lexer.cur, b':');
}

#[test]
fn rejected_name_list_leaves_the_lexer_at_the_rejected_token() {
    let mut parser = Parser::new(Lexer::new(b"var x y: array [1..2] of t;"));
    let e = parser.parse().unwrap_err();
    assert_eq!(e.msg, "Unexpected token <id> at position 9. Expected one of: [Comma, Colon]");
    assert_eq!(parser.lexer.token, Token::Id);
    assert_eq!(parser.lexer.last_id, "y");
    assert_eq!(parser.lexer.position, 9);
}

#[test]
fn lexer_error_leaves_the_lexer_at_the_unknown_character() {
    let mut parser = Parser::new(Lexer::new(b"var x: array [1..2] of t$;"));
    let e = parser.parse().unwrap_err();
    assert_eq!(e.kind, ParseErrorKind::LexerError);
    assert_eq!(e.msg, "Unknown terminal $ at position 26 of input");
    assert_eq!(parser.lexer.token, Token::Id);
    assert_eq!(parser.lexer.last_id, "t");
    assert_eq!(parser.lexer.position, 26);
    assert_eq!(parser.lexer.cur, b'$');
}

#[test]
fn parse_string_agrees_with_parse_file() {
    for s in ["var x: array [1..2] of t;", "var x y: array [1..2] of t;", "var x: array [1..2] of t$;", ""] {
        let a = parse_string(s);
        let b = Parser::parse_file(s.as_bytes());
        match (a, b) {
            (Ok(x), Ok(y)) => {
                let (mut tx, mut ty) = (String::new(), String::new());
                x.print(&mut tx);
                y.print(&mut ty);
                assert_eq!(tx, ty);
            }
            (Err(x), Err(y)) => {
                assert_eq!(x.kind, y.kind);
                assert_eq!(x.msg, y.msg);
            }
            _ => panic!("parse_string and parse_file disagree on {:?}", s),
        }
    }
}

#[test]
fn node_new_is_a_nonterminal() {
    let n = Node::new("D", vec![leaf("x")]);
    assert_eq!(n.name, "D");
    assert!(!n.is_term);
    assert_eq!(n.children.len(), 1);
}

#[test]
fn print_small_tree() {
    let tree = Node::new("A", vec![leaf("b"), Node::new("C", vec![leaf("d")])]);
    let mut out = String::from(">");
    tree.print(&mut out);
    assert_eq!(out, ">digraph parsed {\n\
N0[label=\"A\",style=filled,fillcolor=azure2]\n\
N1[label=\"b\",style=filled,fillcolor=azure3]\n\
N2[label=\"C\",style=filled,fillcolor=azure2]\n\
N3[label=\"d\",style=filled,fillcolor=azure3]\n\
N0 -> { N1 }\n\
N0 -> { N2 }\n\
N2 -> { N3 }\n\
}\n");
}

#[test]
fn print_numbers_nodes_in_preorder() {
    let tree = parse_string("var x,y: array [1..10,2..20] of integer;").unwrap();
    let mut out = String::new();
    tree.print(&mut out);
    let node_lines = out.lines().filter(|l| l.contains("[label=")).count();
    let edge_lines: Vec<&str> = out.lines().filter(|l| l.contains(" -> ")).collect();
    assert!(node_lines > 10);
    assert_eq!(edge_lines.len(), node_lines - 1);
    for (k, line) in edge_lines.iter().enumerate() {
        let target = format!("{{ N{} }}", k + 1);
        assert!(line.ends_with(&target));
    }
    assert!(out.starts_with("digraph parsed {\nN0[label=\"S\",style=filled,fillcolor=azure2]\n"));
    assert!(out.ends_with("}\n"));
}
