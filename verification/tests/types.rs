use nebulang::engine::types::{
    Cursor, DataTypes, Node, Operators, Scope, Symbol, TokenTypes,
};

#[test]
fn a_cursor_begins_before_the_first_code_point() {
    assert_eq!(Cursor::default(), Cursor { pos: 0, line: 1, column: 1 });
}

#[test]
fn a_symbol_begins_as_far_before_its_end_as_its_text_is_long() {
    let symbol = Symbol::new(String::from("hello"), Cursor { pos: 12, line: 3, column: 7 });
    assert_eq!(symbol.symbol, "hello");
    assert_eq!(symbol.end, Cursor { pos: 12, line: 3, column: 7 });
    assert_eq!(symbol.start, Cursor { pos: 8, line: 3, column: 3 });
    assert_eq!(symbol.len(), 5);
}

#[test]
fn a_symbol_counts_code_points_and_an_empty_text_takes_one_place() {
    let symbol = Symbol::new(String::from("größe"), Cursor { pos: 5, line: 1, column: 5 });
    assert_eq!(symbol.start, Cursor { pos: 1, line: 1, column: 1 });
    assert_eq!(symbol.len(), 5);
    let empty = Symbol::new(String::new(), Cursor { pos: 4, line: 2, column: 2 });
    assert_eq!(empty.start, empty.end);
    assert_eq!(empty.len(), 1);
    let single = Symbol::new(String::from("x"), Cursor { pos: 0, line: 1, column: 0 });
    assert_eq!(single.start, single.end);
    assert_eq!(single.len(), 1);
}

#[test]
fn symbols_copy_and_default() {
    let symbol = Symbol::new(String::from("ab"), Cursor { pos: 2, line: 1, column: 2 });
    assert_eq!(symbol.clone(), symbol);
    let empty = Symbol::default();
    assert_eq!(empty.symbol, "");
    assert_eq!(empty.start, Cursor::default());
    assert_eq!(empty.end, Cursor::default());
}

#[test]
fn basic_types_are_named_by_three_letters() {
    let cases = [
        ("int", DataTypes::Int),
        ("flt", DataTypes::Flt),
        ("bol", DataTypes::Bol),
        ("chr", DataTypes::Chr),
        ("str", DataTypes::Str),
        ("vec", DataTypes::Vec),
    ];
    for (text, expected) in cases {
        assert_eq!(DataTypes::try_from(String::from(text)), Ok(expected));
    }
    for text in ["", "in", "ints", "Int", "user", "unknown", " int"] {
        assert_eq!(DataTypes::try_from(String::from(text)), Err("Not a basic type"));
    }
    assert_eq!(DataTypes::default(), DataTypes::Unknown);
    assert_eq!(DataTypes::from_chars(&vec!['v', 'e', 'c']), Some(DataTypes::Vec));
    assert_eq!(DataTypes::from_chars(&vec!['v', 'e']), None);
}

#[test]
fn operators_are_written_with_one_or_two_code_points() {
    let cases = [
        ("=", Operators::Ass),
        ("*", Operators::Mul),
        ("+", Operators::Add),
        ("-", Operators::Sub),
        ("/", Operators::Div),
        ("%", Operators::Mod),
        ("<", Operators::Lt),
        (">", Operators::Gt),
        ("|", Operators::BitOr),
        ("&", Operators::BitAnd),
        ("++", Operators::AddAdd),
        ("--", Operators::SubSub),
        ("+=", Operators::AssAdd),
        ("-=", Operators::AssSub),
        ("==", Operators::Equ),
        (">=", Operators::EquGt),
        ("<=", Operators::EquLt),
        ("<<", Operators::BitLeft),
        (">>", Operators::BitRight),
    ];
    for (text, expected) in cases {
        assert_eq!(Operators::try_from(String::from(text)), Ok(expected));
    }
    for text in ["", "=+", "=<", "**", "+++", "!", "a", "<>", "//"] {
        assert_eq!(Operators::try_from(String::from(text)), Err("Expected operator"));
    }
}

#[test]
fn nodes_are_made_with_their_fields() {
    let root = Node::root();
    assert_eq!((root.id, root.parent, root.len), (0, 0, 0));
    assert_eq!(root.token, TokenTypes::Root);
    assert_eq!(root.cursor, Cursor::default());
    assert!(root.children.is_empty());
    let cursor = Cursor { pos: 9, line: 2, column: 4 };
    let node = Node::new(7, TokenTypes::LiteralInt(-3), cursor, 5, 2);
    assert_eq!((node.id, node.parent, node.len), (7, 5, 2));
    assert_eq!(node.token, TokenTypes::LiteralInt(-3));
    assert_eq!(node.cursor, cursor);
    assert!(node.children.is_empty());
    let plain = Node::default();
    assert_eq!(plain.token, TokenTypes::Unknown);
    assert_eq!(TokenTypes::default(), TokenTypes::Unknown);
}

#[test]
fn a_scope_refuses_a_function_twice_and_takes_a_variable_twice() {
    let mut scope = Scope::default();
    assert!(!scope.function_exists(&String::from("f")));
    assert_eq!(scope.insert_function(String::from("f")), Ok(()));
    assert!(scope.function_exists(&String::from("f")));
    assert!(!scope.variable_exists(&String::from("f")));
    assert_eq!(scope.insert_function(String::from("f")), Err("Function was already defined"));
    assert_eq!(scope.functions, vec![String::from("f")]);
    assert_eq!(scope.insert_function(String::from("g")), Ok(()));
    assert_eq!(scope.insert_variable(String::from("v")), Ok(()));
    assert_eq!(scope.insert_variable(String::from("v")), Ok(()));
    assert_eq!(scope.variables, vec![String::from("v")]);
    assert!(scope.variable_exists(&String::from("v")));
    assert!(!scope.function_exists(&String::from("v")));
    scope.clear_variables();
    assert!(!scope.variable_exists(&String::from("v")));
    assert!(scope.function_exists(&String::from("g")));
}
