use nebulang::engine::config::Config;
use nebulang::engine::parser::{ParseError, Parser, SymbolState};
use nebulang::engine::types::{Cursor, Symbol};
use nebulang::engine::util::Conveyor;

fn parser_with(delimiter: char, low_mem: bool) -> Parser {
    Parser::new(Config {
        src: String::from("in"),
        out: String::from("out"),
        origin: String::from("."),
        debbuging: false,
        low_mem,
        string_delimiter: delimiter,
    })
}

fn symbols_of(source: &str) -> Vec<Symbol> {
    parser_with('"', false).extract_symbols(source.as_bytes().to_vec()).unwrap()
}

fn texts_of(source: &str) -> Vec<String> {
    symbols_of(source).into_iter().map(|symbol| symbol.symbol).collect()
}

fn spans_of(source: &str) -> Vec<(u64, u64)> {
    symbols_of(source).iter().map(|symbol| (symbol.start.pos, symbol.end.pos)).collect()
}

const ADD: &str = "# add ( int a , int b ) { << a + b ; }";

#[test]
fn a_number_with_a_point_is_one_symbol() {
    let symbols = symbols_of("12.5");
    assert_eq!(symbols.len(), 1);
    assert_eq!(symbols[0].symbol, "12.5");
    assert_eq!(symbols[0].start, Cursor { pos: 1, line: 1, column: 1 });
    assert_eq!(symbols[0].end, Cursor { pos: 4, line: 1, column: 4 });
}

#[test]
fn a_function_is_cut_into_its_symbols() {
    assert_eq!(
        texts_of(ADD),
        vec!["#", "add", "(", "int", "a", ",", "int", "b", ")", "{", "<<", "a", "+", "b", ";", "}"]
    );
}

#[test]
fn symbols_stand_where_their_text_stands() {
    assert_eq!(
        spans_of(ADD),
        vec![
            (1, 1),
            (3, 5),
            (7, 7),
            (9, 11),
            (13, 13),
            (15, 15),
            (17, 19),
            (21, 21),
            (23, 23),
            (25, 25),
            (27, 28),
            (30, 30),
            (32, 32),
            (34, 34),
            (36, 36),
            (38, 38)
        ]
    );
}

#[test]
fn symbols_never_overlap() {
    let sources = [
        ADD,
        "a+b;c==d",
        "x \\y+ z",
        "qq#one two# rest",
        "\"str ing\"+1 // note\nnext",
        "+\\x;",
        "+",
        "a<<=b",
    ];
    for source in sources {
        let symbols = symbols_of(source);
        let mut reach = 0;
        for symbol in &symbols {
            assert!(symbol.start.pos > reach, "{source}");
            assert!(symbol.start.pos <= symbol.end.pos, "{source}");
            let length = std::cmp::max(1, symbol.symbol.chars().count()) as u64;
            assert_eq!(symbol.end.pos - symbol.start.pos + 1, length, "{source}");
            reach = symbol.end.pos;
        }
        assert!(reach <= source.chars().count() as u64);
    }
}

fn rendered(source: &str) -> String {
    let mut text = String::new();
    let mut reach = 0;
    for symbol in &symbols_of(source) {
        if reach > 0 && symbol.start.pos == reach + 2 {
            text.push(' ');
        }
        text.push_str(&symbol.symbol);
        reach = symbol.end.pos;
    }
    text
}

#[test]
fn symbols_and_single_spaces_give_the_source_back() {
    assert_eq!(rendered(ADD), ADD);
    assert_eq!(rendered("x = \"a  b\" + y;\nz"), "x = \"a  b\" + y;\nz");
    assert_eq!(rendered("a<<=b"), "a<<=b");
}

#[test]
fn symbols_give_the_source_back_without_its_comments() {
    assert_eq!(rendered("a = 1;// set a\nb = 2;// set b"), "a = 1;b = 2;");
    assert_eq!(rendered("a//b"), "a");
}

#[test]
fn symbols_hold_the_text_at_their_places_and_gaps_hold_what_is_passed_over() {
    let source = "x \\y + z; // c\nw = \"s t\"";
    let chars: Vec<char> = source.chars().collect();
    let mut reach = 0;
    let mut gaps = String::new();
    for symbol in &symbols_of(source) {
        let (start, end) = (symbol.start.pos as usize, symbol.end.pos as usize);
        let slice: String = chars[start - 1..end].iter().collect();
        assert_eq!(symbol.symbol, slice);
        gaps.extend(&chars[reach..start - 1]);
        reach = end;
    }
    assert_eq!(reach, chars.len());
    assert_eq!(gaps, " \\   // c\n  ");
}

#[test]
fn what_the_symbolizer_drops_does_not_come_back() {
    assert_eq!(rendered("a  b"), "ab");
    assert_eq!(rendered("a\\b c"), "ab c");
    assert_eq!(rendered("qux y"), "ux y");
    assert_eq!(rendered("qq|a b| c"), "q|a b| c");
    assert_eq!(rendered(" a"), "a");
}

#[test]
fn an_operator_directly_between_names_keeps_its_place() {
    assert_eq!(texts_of("a+b;"), vec!["a", "+", "b", ";"]);
    assert_eq!(spans_of("a+b;"), vec![(1, 1), (2, 2), (3, 3), (4, 4)]);
}

#[test]
fn operators_of_two_code_points_are_one_symbol() {
    for operator in ["++", "--", "-=", "+=", "==", ">=", "<=", "<<", ">>"] {
        let source = format!("a{operator}b;");
        assert_eq!(texts_of(&source), vec!["a", operator, "b", ";"]);
        assert_eq!(spans_of(&source), vec![(1, 1), (2, 3), (4, 4), (5, 5)]);
    }
}

#[test]
fn an_operator_that_finds_no_partner_stands_alone() {
    assert_eq!(texts_of("a=+b;"), vec!["a", "=", "+", "b", ";"]);
    assert_eq!(texts_of("<a>"), vec!["<", "a", ">"]);
    assert_eq!(texts_of("a/b "), vec!["a", "/", "b"]);
}

#[test]
fn a_comment_runs_to_the_next_statement_delimiter() {
    assert_eq!(texts_of("a;// a comment\nb;"), vec!["a", ";", "b", ";"]);
    assert_eq!(texts_of("a;// a comment;b;"), vec!["a", ";", "b", ";"]);
    assert_eq!(texts_of("// nothing else"), Vec::<String>::new());
}

#[test]
fn a_string_keeps_its_delimiters_and_all_between_them() {
    let symbols = symbols_of("\"a + b; // #\" x");
    assert_eq!(symbols[0].symbol, "\"a + b; // #\"");
    assert_eq!((symbols[0].start.pos, symbols[0].end.pos), (1, 13));
    assert_eq!(symbols[1].symbol, "x");
    assert_eq!(symbols.len(), 2);
}

#[test]
fn a_string_with_a_delimiter_of_its_own_is_one_symbol() {
    let symbols = symbols_of("qq#hello world#");
    assert_eq!(symbols.len(), 1);
    assert_eq!(symbols[0].symbol, "q#hello world#");
    assert_eq!((symbols[0].start.pos, symbols[0].end.pos), (2, 15));
}

#[test]
fn a_closed_string_brings_the_configured_delimiter_back() {
    let mut parser = parser_with('\'', false);
    let symbols = parser.extract_symbols(b"\"a\" 'b c' \"d".to_vec()).unwrap();
    let texts: Vec<&str> = symbols.iter().map(|symbol| symbol.symbol.as_str()).collect();
    assert_eq!(texts, vec!["\"a\"", "'b c'", "\"d"]);
}

#[test]
fn a_backslash_is_dropped_and_keeps_the_next_code_point_as_it_is() {
    assert_eq!(texts_of("a\\;b;"), vec!["a;b", ";"]);
    assert_eq!(texts_of("\"a\\\"b\""), vec!["\"a\"b\""]);
    assert_eq!(texts_of("a\\\\b "), vec!["ab"]);
}

#[test]
fn a_line_break_is_a_symbol_and_starts_a_new_line() {
    let symbols = symbols_of("a\nbc;");
    let texts: Vec<&str> = symbols.iter().map(|symbol| symbol.symbol.as_str()).collect();
    assert_eq!(texts, vec!["a", "\n", "bc", ";"]);
    assert_eq!(symbols[1].start, Cursor { pos: 2, line: 1, column: 2 });
    assert_eq!(symbols[2].start, Cursor { pos: 3, line: 2, column: 1 });
    assert_eq!(symbols[2].end, Cursor { pos: 4, line: 2, column: 2 });
    assert_eq!(symbols[3].end, Cursor { pos: 5, line: 2, column: 3 });
}

#[test]
fn text_left_at_the_end_is_a_last_symbol() {
    assert_eq!(texts_of("a b"), vec!["a", "b"]);
    assert_eq!(spans_of("a b"), vec![(1, 1), (3, 3)]);
    assert_eq!(texts_of("a +"), vec!["a", "+"]);
    assert_eq!(spans_of("a +"), vec![(1, 1), (3, 3)]);
    assert_eq!(texts_of(""), Vec::<String>::new());
}

#[test]
fn a_token_longer_than_the_accumulator_keeps_what_the_accumulator_holds() {
    let long: String = std::iter::repeat('a').take(70).collect::<String>() + "z;";
    let symbols = symbols_of(&long);
    assert_eq!(symbols.len(), 2);
    let expected: String = std::iter::repeat('a').take(63).collect::<String>();
    assert_eq!(symbols[0].symbol, expected);
    assert_eq!((symbols[0].start.pos, symbols[0].end.pos), (9, 71));
    assert_eq!(symbols[1].symbol, ";");
}

#[test]
fn a_token_that_goes_on_after_a_line_break_is_a_syntax_error() {
    let mut parser = parser_with('"', false);
    assert_eq!(parser.extract_symbols(b"\"ab\ncd\"".to_vec()), Err(ParseError::Syntax));
    assert_eq!(parser.extract_symbols(b"a\\\nb".to_vec()), Err(ParseError::Syntax));
}

#[test]
fn bytes_that_are_no_text_leave_the_source_unknown() {
    let mut buffered = parser_with('"', false);
    assert_eq!(buffered.extract_symbols(vec![b'a', 0xff]), Err(ParseError::Unknown));
    let mut lazy = parser_with('"', true);
    assert_eq!(lazy.extract_symbols(vec![b'a', 0xff]), Err(ParseError::Unknown));
    assert_eq!(lazy.extract_symbols(vec![0xed, 0xa0, 0x80]), Err(ParseError::Unknown));
    assert_eq!(lazy.extract_symbols(vec![0xc3]), Err(ParseError::Unknown));
}

#[test]
fn a_syntax_error_comes_before_a_later_byte_that_is_no_text() {
    let mut lazy = parser_with('"', true);
    let mut source = b"\"a\nb".to_vec();
    source.push(0xff);
    assert_eq!(lazy.extract_symbols(source.clone()), Err(ParseError::Syntax));
    let mut buffered = parser_with('"', false);
    assert_eq!(buffered.extract_symbols(source), Err(ParseError::Unknown));
}

#[test]
fn both_ways_of_reading_give_the_same_symbols() {
    let sources = [ADD, "näme = \"grüße, 世界\" + 𝄞;", "a\nb // é\nc", "qq|x y| z"];
    for source in sources {
        let buffered = parser_with('"', false).extract_symbols(source.as_bytes().to_vec());
        let lazy = parser_with('"', true).extract_symbols(source.as_bytes().to_vec());
        assert!(buffered.is_ok(), "{source}");
        assert_eq!(buffered, lazy, "{source}");
    }
}

#[test]
fn code_points_of_several_bytes_take_one_place_each() {
    let symbols = symbols_of("näme ü;");
    assert_eq!(symbols[0].symbol, "näme");
    assert_eq!((symbols[0].start.pos, symbols[0].end.pos), (1, 4));
    assert_eq!(symbols[1].symbol, "ü");
    assert_eq!((symbols[1].start.pos, symbols[1].end.pos), (6, 6));
    assert_eq!(symbols[0].len(), 4);
}

#[test]
fn read_symbol_flushes_the_text_before_a_bracket() {
    let mut parser = parser_with('"', false);
    let mut char_buf: Conveyor<char> = Conveyor::new(64);
    let mut state = SymbolState::default();
    char_buf.push('a');
    let cursor = Cursor { pos: 1, line: 1, column: 1 };
    assert_eq!(parser.read_symbol('a', &mut char_buf, &cursor, &mut state), None);
    char_buf.push('(');
    let cursor = Cursor { pos: 2, line: 1, column: 2 };
    let symbols = parser.read_symbol('(', &mut char_buf, &cursor, &mut state).unwrap();
    assert_eq!(symbols.len(), 2);
    assert_eq!(symbols[0].symbol, "a");
    assert_eq!(symbols[0].end, Cursor { pos: 1, line: 1, column: 1 });
    assert_eq!(symbols[1].symbol, "(");
    assert_eq!(symbols[1].start, cursor);
    assert_eq!(char_buf.len(), 0);
    assert_eq!(state, SymbolState::default());
}

#[test]
fn read_symbol_gives_an_empty_list_for_a_lone_space() {
    let mut parser = parser_with('"', false);
    let mut char_buf: Conveyor<char> = Conveyor::new(64);
    let mut state = SymbolState::default();
    char_buf.push(' ');
    let cursor = Cursor { pos: 1, line: 1, column: 1 };
    assert_eq!(parser.read_symbol(' ', &mut char_buf, &cursor, &mut state), Some(vec![]));
}

#[test]
fn read_char_moves_the_cursor_and_read_end_flushes() {
    let mut parser = parser_with('"', false);
    let mut char_buf: Conveyor<char> = Conveyor::new(64);
    let mut state = SymbolState::default();
    let mut cursor = Cursor::default();
    let mut symbols = Vec::new();
    for c in "ab\nc".chars() {
        parser.read_char(c, &mut char_buf, &mut cursor, &mut state, &mut symbols).unwrap();
    }
    assert_eq!(cursor, Cursor { pos: 4, line: 2, column: 2 });
    assert_eq!(symbols.len(), 2);
    parser.read_end(&mut char_buf, &cursor, &mut state, &mut symbols).unwrap();
    assert_eq!(symbols.len(), 3);
    assert_eq!(symbols[2].symbol, "c");
    assert_eq!(symbols[2].end, Cursor { pos: 4, line: 2, column: 1 });
}
