use nebulang::engine::builder::LexResult;
use nebulang::engine::config::Config;
use nebulang::engine::parser::{ParseError, Parser, TokenizerState};
use nebulang::engine::types::{
    Cursor, DataTypes, Node, Operators, Scope, Symbol, TokenTypes,
};
use nebulang::engine::util::Conveyor;

fn parser() -> Parser {
    Parser::new(Config {
        src: String::from("in"),
        out: String::from("out"),
        origin: String::from("."),
        debbuging: false,
        low_mem: false,
        string_delimiter: '"',
    })
}

fn symbols_of(source: &str) -> Vec<Symbol> {
    parser().extract_symbols(source.as_bytes().to_vec()).unwrap()
}

fn tree_of(source: &str) -> Vec<Node> {
    parser().tokenize_symbols(symbols_of(source)).unwrap()
}

fn state_after(parser: &mut Parser, source: &str) -> TokenizerState {
    let mut state = TokenizerState::default();
    for symbol in symbols_of(source) {
        parser.tokenize_symbol(&mut state, &symbol).unwrap();
    }
    state
}

fn kinds(nodes: &[Node]) -> Vec<(u64, u64, TokenTypes)> {
    nodes.iter().map(|node| (node.id, node.parent, node.token.clone())).collect()
}

fn name(text: &str) -> String {
    String::from(text)
}

fn symbol(text: &str) -> Symbol {
    let count = std::cmp::max(1, text.chars().count()) as u64;
    Symbol::new(name(text), Cursor { pos: count, line: 1, column: count })
}

const ADD: &str = "# add ( int a , int b ) { << a + b ; }";

#[test]
fn a_marked_name_and_a_brace_open_a_function_and_its_body() {
    let mut parser = parser();
    let state = state_after(&mut parser, "# main {");
    assert_eq!(
        kinds(&state.nodes),
        vec![
            (0, 0, TokenTypes::Root),
            (1, 0, TokenTypes::Function(name("main"))),
            (2, 1, TokenTypes::Body),
        ]
    );
    assert_eq!(state.working_id, 2);
}

#[test]
fn a_function_with_parameters_and_a_return_becomes_its_tree() {
    let nodes = tree_of(ADD);
    assert_eq!(
        kinds(&nodes),
        vec![
            (0, 0, TokenTypes::Root),
            (1, 0, TokenTypes::Function(name("add"))),
            (2, 1, TokenTypes::Params),
            (3, 2, TokenTypes::Type(DataTypes::Int)),
            (4, 3, TokenTypes::Variable(name("a"))),
            (5, 2, TokenTypes::Type(DataTypes::Int)),
            (6, 5, TokenTypes::Variable(name("b"))),
            (7, 1, TokenTypes::Body),
            (8, 7, TokenTypes::Return),
            (9, 8, TokenTypes::Statement),
            (10, 9, TokenTypes::Variable(name("a"))),
            (11, 9, TokenTypes::Operator(Operators::Add)),
            (12, 9, TokenTypes::Variable(name("b"))),
        ]
    );
    assert_eq!(nodes[1].cursor, Cursor { pos: 3, line: 1, column: 3 });
    assert_eq!(nodes[1].len, 3);
    assert_eq!(nodes[8].cursor.pos, 27);
    assert_eq!(nodes[8].len, 2);
    assert_eq!(nodes[9].cursor.pos, 27);
    assert!(nodes.iter().all(|node| node.children.is_empty()));
}

#[test]
fn variables_stay_in_scope_until_the_next_function_begins() {
    let mut parser = parser();
    let mut state = TokenizerState::default();
    let symbols = symbols_of("# add ( int a , int b ) { << a + b ; }\n# sub ( ) { << a ; }");
    let mut seen_body = false;
    for symbol in symbols {
        parser.tokenize_symbol(&mut state, &symbol).unwrap();
        if symbol.symbol == "{" && !seen_body {
            seen_body = true;
            assert!(state.scope.variable_exists(&name("a")));
            assert!(state.scope.variable_exists(&name("b")));
        }
        if symbol.symbol == "}" && state.scope.functions.len() == 1 {
            assert!(state.scope.variable_exists(&name("a")));
            assert!(state.scope.function_exists(&name("add")));
        }
        if symbol.symbol == "sub" {
            assert!(state.scope.function_exists(&name("add")));
            assert!(state.scope.function_exists(&name("sub")));
            assert!(state.scope.variables.is_empty());
        }
    }
    assert!(!state.scope.variable_exists(&name("a")));
    assert!(!state.scope.variable_exists(&name("b")));
    let last = state.nodes.last().unwrap();
    assert_eq!(last.token, TokenTypes::Statement);
}

#[test]
fn a_string_with_its_own_delimiter_is_one_string_node() {
    let nodes = tree_of("# f { << qq#hello world# ; }");
    let strings: Vec<&Node> = nodes
        .iter()
        .filter(|node| matches!(node.token, TokenTypes::LiteralString(_)))
        .collect();
    assert_eq!(strings.len(), 1);
    assert_eq!(strings[0].token, TokenTypes::LiteralString(name("hello world")));
    assert_eq!(strings[0].len, 14);
    assert_eq!(nodes.len(), 6);
}

#[test]
fn a_number_with_a_point_is_a_float() {
    let parser = parser();
    let symbols = symbols_of("12.5");
    assert_eq!(symbols.len(), 1);
    let statement = Node::new(1, TokenTypes::Statement, Cursor::default(), 0, 0);
    let results = parser.lex_literals(&symbols[0], &statement, 2, &Scope::default()).unwrap();
    assert_eq!(results.len(), 1);
    match &results[0] {
        LexResult::New(node) => match &node.token {
            TokenTypes::LiteralFloat(text) => {
                assert_eq!(text.parse::<f64>(), Ok(12.5));
                assert_eq!((node.id, node.parent, node.len), (2, 1, 4));
            }
            other => panic!("{other:?}"),
        },
        other => panic!("{other:?}"),
    }
}

fn literal(text: &str, scope: &Scope) -> Option<Vec<LexResult>> {
    let statement = Node::new(4, TokenTypes::Statement, Cursor::default(), 3, 0);
    parser().lex_literals(&symbol(text), &statement, 9, scope)
}

fn token_of(text: &str) -> Option<TokenTypes> {
    literal(text, &Scope::default()).map(|results| match &results[0] {
        LexResult::New(node) => node.token.clone(),
        other => panic!("{other:?}"),
    })
}

#[test]
fn literals_are_told_apart_in_order() {
    assert_eq!(token_of("+="), Some(TokenTypes::Operator(Operators::AssAdd)));
    assert_eq!(token_of("q|a b|"), Some(TokenTypes::LiteralString(name("a b"))));
    assert_eq!(token_of("\"a b\""), Some(TokenTypes::LiteralString(name("a b"))));
    assert_eq!(token_of("1.5"), Some(TokenTypes::LiteralFloat(name("1.5"))));
    assert_eq!(token_of("15"), Some(TokenTypes::LiteralInt(15)));
    assert_eq!(token_of("name"), None);
}

#[test]
fn short_strings_hold_nothing() {
    assert_eq!(token_of("q"), Some(TokenTypes::LiteralString(name(""))));
    assert_eq!(token_of("qx"), Some(TokenTypes::LiteralString(name(""))));
    assert_eq!(token_of("q||"), Some(TokenTypes::LiteralString(name(""))));
    assert_eq!(token_of("\""), Some(TokenTypes::LiteralString(name(""))));
    assert_eq!(token_of("\"\""), Some(TokenTypes::LiteralString(name(""))));
}

#[test]
fn floats_need_a_point_and_a_digit() {
    for text in ["1.", ".5", "-1.5", "+0.25", "1.5e10", "1.5E-3", "1.e+2", "007.50"] {
        assert_eq!(token_of(text), Some(TokenTypes::LiteralFloat(name(text))), "{text}");
        assert!(text.parse::<f64>().is_ok(), "{text}");
    }
    for text in [".", "-.", "1.5e", "1.5e+", "1..5", "1.5x", "a.5", "1.5e1.0", "1e5", "."] {
        assert_eq!(token_of(text), None, "{text}");
        assert!(!(text.contains('.') && text.parse::<f64>().is_ok()), "{text}");
    }
}

#[test]
fn integers_are_signed_digits_that_fit() {
    assert_eq!(token_of("0"), Some(TokenTypes::LiteralInt(0)));
    assert_eq!(token_of("+5"), Some(TokenTypes::LiteralInt(5)));
    assert_eq!(token_of("-0"), Some(TokenTypes::LiteralInt(0)));
    assert_eq!(token_of("-42"), Some(TokenTypes::LiteralInt(-42)));
    assert_eq!(token_of("0007"), Some(TokenTypes::LiteralInt(7)));
    assert_eq!(token_of("9223372036854775807"), Some(TokenTypes::LiteralInt(i64::MAX)));
    assert_eq!(token_of("-9223372036854775808"), Some(TokenTypes::LiteralInt(i64::MIN)));
    for text in ["9223372036854775808", "-9223372036854775809", "", "1_0", "12a", "１２"] {
        assert_eq!(token_of(text), None, "{text}");
        assert!(text.parse::<i64>().is_err(), "{text}");
    }
    for text in ["0", "+5", "-0", "-42", "0007"] {
        assert!(text.parse::<i64>().is_ok(), "{text}");
    }
}

#[test]
fn names_in_scope_are_calls_and_variables() {
    let mut scope = Scope::default();
    scope.insert_function(name("f")).unwrap();
    scope.insert_variable(name("v")).unwrap();
    scope.insert_variable(name("f")).unwrap();
    let call = literal("f", &scope).unwrap();
    assert_eq!(call.len(), 2);
    assert_eq!(
        call[0],
        LexResult::New(Node::new(
            9,
            TokenTypes::Call(name("f")),
            Cursor { pos: 1, line: 1, column: 1 },
            4,
            1
        ))
    );
    assert_eq!(call[1], LexResult::ChangeTo(9));
    let variable = literal("v", &scope).unwrap();
    assert_eq!(variable.len(), 1);
    assert!(literal("w", &scope).is_none());
}

fn lex_at(
    parser: &mut Parser,
    token: TokenTypes,
    text: &str,
    carryover: &mut Conveyor<Symbol>,
) -> Option<Vec<LexResult>> {
    let working = Node::new(5, token, Cursor::default(), 2, 0);
    parser.lex(&working, &symbol(text), carryover, 8, &Scope::default())
}

fn child(id: u64, token: TokenTypes, parent: u64, text: &str) -> LexResult {
    let at = symbol(text);
    LexResult::New(Node::new(id, token, at.start, parent, at.len()))
}

#[test]
fn every_kind_of_node_has_its_say() {
    let mut parser = parser();
    let mut carry: Conveyor<Symbol> = Conveyor::new(16);
    let function = || TokenTypes::Function(name("f"));
    assert_eq!(
        lex_at(&mut parser, function(), "(", &mut carry),
        Some(vec![child(8, TokenTypes::Params, 5, "("), LexResult::ChangeTo(8)])
    );
    assert_eq!(
        lex_at(&mut parser, function(), "{", &mut carry),
        Some(vec![child(8, TokenTypes::Body, 5, "{"), LexResult::ChangeTo(8)])
    );
    assert_eq!(
        lex_at(&mut parser, function(), "<<", &mut carry),
        Some(vec![
            child(8, TokenTypes::ShortReturn, 5, "<<"),
            child(9, TokenTypes::Statement, 8, "<<"),
            LexResult::ChangeTo(9)
        ])
    );
    assert_eq!(
        lex_at(&mut parser, function(), "flt", &mut carry),
        Some(vec![child(8, TokenTypes::Type(DataTypes::Flt), 5, "flt")])
    );
    assert_eq!(lex_at(&mut parser, function(), "other", &mut carry), None);
    assert_eq!(lex_at(&mut parser, TokenTypes::Params, ")", &mut carry), Some(vec![LexResult::Up]));
    assert_eq!(lex_at(&mut parser, TokenTypes::Params, ",", &mut carry), None);
    assert_eq!(
        lex_at(&mut parser, TokenTypes::Params, "str", &mut carry),
        Some(vec![child(8, TokenTypes::Type(DataTypes::Str), 5, "str"), LexResult::ChangeTo(8)])
    );
    let a_type = || TokenTypes::Type(DataTypes::Vec);
    assert_eq!(
        lex_at(&mut parser, a_type(), "<", &mut carry),
        Some(vec![child(8, TokenTypes::Generic, 5, "<"), LexResult::ChangeTo(8)])
    );
    assert_eq!(
        lex_at(&mut parser, a_type(), "int", &mut carry),
        Some(vec![child(8, TokenTypes::Variable(name("int")), 5, "int"), LexResult::Up])
    );
    assert_eq!(lex_at(&mut parser, TokenTypes::Generic, ">", &mut carry), Some(vec![LexResult::Up]));
    assert_eq!(lex_at(&mut parser, TokenTypes::Generic, ",", &mut carry), None);
    assert_eq!(
        lex_at(&mut parser, TokenTypes::Generic, "chr", &mut carry),
        Some(vec![child(8, TokenTypes::Type(DataTypes::Chr), 5, "chr")])
    );
    assert_eq!(
        lex_at(&mut parser, TokenTypes::Body, "<<", &mut carry),
        Some(vec![
            child(8, TokenTypes::Return, 5, "<<"),
            child(9, TokenTypes::Statement, 8, "<<"),
            LexResult::ChangeTo(9)
        ])
    );
    let at = symbol("bol");
    assert_eq!(
        lex_at(&mut parser, TokenTypes::Body, "bol", &mut carry),
        Some(vec![
            LexResult::New(Node::new(8, TokenTypes::Statement, at.start, 5, 0)),
            LexResult::ChangeTo(8),
            child(9, TokenTypes::Type(DataTypes::Bol), 8, "bol"),
        ])
    );
    assert_eq!(
        lex_at(&mut parser, TokenTypes::Call(name("f")), "(", &mut carry),
        Some(vec![child(8, TokenTypes::CallParams, 5, "("), LexResult::ChangeTo(8)])
    );
    assert_eq!(lex_at(&mut parser, TokenTypes::Call(name("f")), "x", &mut carry), None);
    assert_eq!(
        lex_at(&mut parser, TokenTypes::CallParams, ")", &mut carry),
        Some(vec![LexResult::Up, LexResult::Up])
    );
    assert_eq!(
        lex_at(&mut parser, TokenTypes::CallParams, "7", &mut carry),
        Some(vec![child(8, TokenTypes::LiteralInt(7), 5, "7")])
    );
    for end in [";", "\n"] {
        assert_eq!(
            lex_at(&mut parser, TokenTypes::Statement, end, &mut carry),
            Some(vec![LexResult::Up])
        );
        assert_eq!(lex_at(&mut parser, TokenTypes::Return, end, &mut carry), Some(vec![LexResult::Up]));
        assert_eq!(
            lex_at(&mut parser, TokenTypes::ShortReturn, end, &mut carry),
            Some(vec![LexResult::Up, LexResult::Up])
        );
    }
    assert_eq!(
        lex_at(&mut parser, TokenTypes::Statement, "*", &mut carry),
        Some(vec![child(8, TokenTypes::Operator(Operators::Mul), 5, "*")])
    );
    assert_eq!(lex_at(&mut parser, TokenTypes::Root, "x", &mut carry), None);
    assert_eq!(lex_at(&mut parser, TokenTypes::Unknown, "x", &mut carry), None);
    assert_eq!(carry.len(), 0);
}

#[test]
fn a_closing_brace_is_carried_over_and_closes_the_function_one_symbol_late() {
    let mut parser = parser();
    let mut carry: Conveyor<Symbol> = Conveyor::new(16);
    assert_eq!(lex_at(&mut parser, TokenTypes::Body, "}", &mut carry), Some(vec![LexResult::Up]));
    assert_eq!(carry.len(), 1);
    assert_eq!(carry.last().unwrap().symbol, "}");
    assert_eq!(
        lex_at(&mut parser, TokenTypes::Function(name("f")), "(", &mut carry),
        Some(vec![LexResult::Up])
    );
    assert_eq!(carry.len(), 0);
}

#[test]
fn a_mark_is_carried_over_until_a_name_follows() {
    let mut parser = parser();
    let mut carry: Conveyor<Symbol> = Conveyor::new(16);
    assert_eq!(lex_at(&mut parser, TokenTypes::Root, "#", &mut carry), None);
    assert_eq!(carry.len(), 1);
    assert_eq!(
        lex_at(&mut parser, TokenTypes::Root, "go", &mut carry),
        Some(vec![child(8, TokenTypes::Function(name("go")), 5, "go"), LexResult::ChangeTo(8)])
    );
    assert_eq!(carry.len(), 0);
    assert_eq!(lex_at(&mut parser, TokenTypes::Body, "}", &mut carry), Some(vec![LexResult::Up]));
    assert_eq!(lex_at(&mut parser, TokenTypes::Root, "go", &mut carry), None);
    assert_eq!(carry.len(), 1);
}

#[test]
fn the_function_closes_on_the_symbol_after_its_body() {
    let mut parser = parser();
    let state = state_after(&mut parser, "# f { }\n");
    assert_eq!(state.working_id, 0);
    assert_eq!(state.nodes.len(), 3);
    assert_eq!(state.carryover.len(), 0);
    let open = state_after(&mut parser, "# f { }");
    assert_eq!(open.working_id, 1);
    assert_eq!(open.carryover.len(), 1);
}

#[test]
fn a_registered_name_opens_a_call_with_its_signature() {
    let mut parser = parser();
    parser
        .register_functions(vec![(name("print"), name("core::print(str)"))])
        .unwrap();
    let nodes = parser.tokenize_symbols(symbols_of("# f { print ( \"hi\" , 2 ) ; }")).unwrap();
    assert_eq!(
        kinds(&nodes),
        vec![
            (0, 0, TokenTypes::Root),
            (1, 0, TokenTypes::Function(name("f"))),
            (2, 1, TokenTypes::Body),
            (3, 2, TokenTypes::Call(name("core::print(str)"))),
            (4, 3, TokenTypes::CallParams),
            (5, 4, TokenTypes::LiteralString(name("hi"))),
            (6, 4, TokenTypes::LiteralInt(2)),
        ]
    );
    let without = tree_of("# f { print ( \"hi\" , 2 ) ; }");
    assert_eq!(without.len(), 3);
}

#[test]
fn a_name_registered_twice_is_refused() {
    let mut parser = parser();
    assert_eq!(
        parser.register_functions(vec![(name("a"), name("1")), (name("b"), name("2"))]),
        Ok(())
    );
    assert_eq!(
        parser.register_functions(vec![(name("c"), name("3")), (name("a"), name("4")), (name("d"), name("5"))]),
        Err(())
    );
    let nodes = parser.tokenize_symbols(symbols_of("# f { a c d")).unwrap();
    assert_eq!(
        kinds(&nodes)[3..],
        vec![(3, 2, TokenTypes::Call(name("1")))]
    );
    let nodes = parser.tokenize_symbols(symbols_of("# f { c")).unwrap();
    assert_eq!(kinds(&nodes)[3..], vec![(3, 2, TokenTypes::Call(name("3")))]);
    let nodes = parser.tokenize_symbols(symbols_of("# f { d")).unwrap();
    assert_eq!(nodes.len(), 3);
}

#[test]
fn a_function_defined_twice_is_a_syntax_error() {
    let symbols = symbols_of("# f { }\n# f { }");
    assert_eq!(parser().tokenize_symbols(symbols), Err(ParseError::Syntax));
    let mut parser = parser();
    let mut state = TokenizerState::default();
    let mut outcomes = Vec::new();
    for symbol in symbols_of("# f { }\n# f { }") {
        outcomes.push(parser.tokenize_symbol(&mut state, &symbol));
        if outcomes.last().unwrap().is_err() {
            break;
        }
    }
    assert_eq!(outcomes.len(), 7);
    assert_eq!(outcomes[6], Err(ParseError::Syntax));
    assert_eq!(state.nodes.len(), 3);
}

#[test]
fn parsing_twice_gives_the_same_tree() {
    let source = "# add ( int a , int b ) { << a + b ; }\n# main { int x = add ( 1 , 2.5 ) ; }";
    let registry = || vec![(name("print"), name("core::print"))];
    let mut first = parser();
    let mut second = parser();
    assert_eq!(first.parse(source.as_bytes().to_vec(), registry()), Ok(()));
    assert_eq!(second.parse(source.as_bytes().to_vec(), registry()), Ok(()));
    assert!(first.nodes.len() > 13);
    assert_eq!(first.nodes, second.nodes);
    assert_eq!(first.symbols, second.symbols);
    for (place, node) in first.nodes.iter().enumerate() {
        assert_eq!(node.id, place as u64);
        assert!(place == 0 || node.parent < node.id);
    }
}

#[test]
fn parse_reports_each_failure_with_its_error() {
    let registry = || vec![(name("print"), name("core::print"))];
    let mut parser = parser();
    assert_eq!(parser.parse(vec![0xff], registry()), Err(ParseError::Unknown));
    assert!(parser.symbols.is_empty());
    assert_eq!(
        parser.parse(b"a".to_vec(), vec![(name("p"), name("1")), (name("p"), name("2"))]),
        Err(ParseError::Arguments)
    );
    assert_eq!(parser.symbols.len(), 1);
    assert_eq!(parser.parse(b"# f { }\n# f { }".to_vec(), registry()), Err(ParseError::Syntax));
    assert!(parser.nodes.is_empty());
    assert_eq!(parser.parse(b"# g {".to_vec(), registry()), Err(ParseError::Arguments));
    assert_eq!(parser.parse(b"# g {".to_vec(), vec![]), Ok(()));
    assert_eq!(parser.nodes.len(), 3);
    assert_eq!(parser.symbols.len(), 3);
}

#[test]
fn results_have_their_letters() {
    assert_eq!(LexResult::Nothing.short_code(), "");
    assert_eq!(LexResult::New(Node::root()).short_code(), "N");
    assert_eq!(LexResult::ChangeTo(3).short_code(), "C");
    assert_eq!(LexResult::Up.short_code(), "U");
}

#[test]
fn results_are_applied_one_by_one() {
    let mut state = TokenizerState::default();
    let function = Node::new(1, TokenTypes::Function(name("f")), Cursor::default(), 0, 1);
    assert_eq!(state.apply(LexResult::New(function.clone())), Ok(()));
    assert_eq!(state.apply(LexResult::ChangeTo(1)), Ok(()));
    assert_eq!(state.working_id, 1);
    let variable = Node::new(2, TokenTypes::Variable(name("v")), Cursor::default(), 1, 1);
    assert_eq!(state.apply(LexResult::New(variable)), Ok(()));
    assert!(state.scope.variable_exists(&name("v")));
    assert_eq!(state.apply(LexResult::Nothing), Ok(()));
    assert_eq!(state.apply(LexResult::Up), Ok(()));
    assert_eq!(state.working_id, 0);
    assert_eq!(state.apply(LexResult::Up), Ok(()));
    assert_eq!(state.working_id, 0);
    let again = Node::new(3, TokenTypes::Function(name("f")), Cursor::default(), 0, 1);
    assert_eq!(state.apply(LexResult::New(again)), Err(ParseError::Syntax));
    assert_eq!(state.nodes.len(), 3);
    assert!(state.scope.variable_exists(&name("v")));
    let other = Node::new(3, TokenTypes::Function(name("g")), Cursor::default(), 0, 1);
    assert_eq!(state.apply(LexResult::New(other)), Ok(()));
    assert!(!state.scope.variable_exists(&name("v")));
    assert_eq!(state.nodes.len(), 4);
}
