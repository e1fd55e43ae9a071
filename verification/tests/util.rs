use nebulang::engine::util::{
    chars_of, count_occurences_not_in_string, decode_char, find_char_length, get_char_length,
    get_index, get_index_of_line, same_text, text_of, CharReader, Conveyor, ReadError,
};

fn strings(items: &[&str]) -> Vec<String> {
    items.iter().map(|item| String::from(*item)).collect()
}

#[test]
fn get_index_finds_the_first_place() {
    let arguments = strings(&["run", "--src", "a", "--src", "b"]);
    assert_eq!(get_index(&arguments, "run"), 0);
    assert_eq!(get_index(&arguments, "--src"), 1);
    assert_eq!(get_index(&arguments, "b"), 4);
    assert_eq!(get_index(&arguments, "--out"), -1);
    assert_eq!(get_index(&Vec::new(), "x"), -1);
}

#[test]
fn get_index_of_line_gives_the_end_of_the_line() {
    let text = "ab\ncde\n\nf";
    assert_eq!(get_index_of_line(text, 1), 2);
    assert_eq!(get_index_of_line(text, 2), 6);
    assert_eq!(get_index_of_line(text, 3), 7);
    assert_eq!(get_index_of_line(text, 4), 9);
    assert_eq!(get_index_of_line("", 1), 0);
    assert_eq!(get_index_of_line("é\nx", 1), 2);
    assert_eq!(get_index_of_line("é\nx", 2), 4);
}

#[test]
fn occurrences_inside_quotes_are_not_counted() {
    assert_eq!(count_occurences_not_in_string("a,b,c", ','), 2);
    assert_eq!(count_occurences_not_in_string("a,\"b,c\",d", ','), 2);
    assert_eq!(count_occurences_not_in_string("a,'b,c',d", ','), 2);
    assert_eq!(count_occurences_not_in_string("a\\,b,c", ','), 1);
    assert_eq!(count_occurences_not_in_string("\\\"a,b", ','), 1);
    assert_eq!(count_occurences_not_in_string("\"a\\\",b\",c", ','), 1);
    assert_eq!(count_occurences_not_in_string("\"a\"\"b\"", '"'), 2);
    assert_eq!(count_occurences_not_in_string("a\\\\b", '\\'), 0);
    assert_eq!(count_occurences_not_in_string("", 'x'), 0);
    assert_eq!(count_occurences_not_in_string("ééé", 'é'), 3);
}

#[test]
fn text_and_code_points_convert_both_ways() {
    assert_eq!(chars_of("aé𝄞"), vec!['a', 'é', '𝄞']);
    assert_eq!(text_of(&vec!['a', 'é', '𝄞']), "aé𝄞");
    assert_eq!(text_of(&Vec::new()), "");
    assert!(same_text("abc", "abc"));
    assert!(!same_text("abc", "abd"));
    assert!(!same_text("abc", "ab"));
    assert!(same_text("", ""));
}

#[test]
fn a_conveyor_holds_items_in_order() {
    let mut conveyor: Conveyor<u32> = Conveyor::new(3);
    assert_eq!(conveyor.size(), 3);
    assert_eq!(conveyor.len(), 0);
    assert_eq!(conveyor.next(), None);
    assert_eq!(conveyor.last(), None);
    assert_eq!(conveyor.pop(), None);
    assert_eq!(conveyor.push(1), None);
    assert_eq!(conveyor.push(2), None);
    assert_eq!(conveyor.next(), Some(&1));
    assert_eq!(conveyor.last(), Some(&2));
    assert_eq!(conveyor.len(), 2);
    assert_eq!(conveyor.pop(), Some(2));
    assert_eq!(conveyor.last(), Some(&1));
    conveyor.clear();
    assert_eq!(conveyor.len(), 0);
    assert_eq!(conveyor.next(), None);
}

#[test]
fn a_full_conveyor_gives_up_its_newest_item() {
    let mut conveyor: Conveyor<u32> = Conveyor::new(3);
    assert_eq!(conveyor.push(1), None);
    assert_eq!(conveyor.push(2), None);
    assert_eq!(conveyor.push(3), None);
    assert_eq!(conveyor.push(4), Some(3));
    assert_eq!(conveyor.push(5), Some(4));
    assert_eq!(conveyor.len(), 3);
    assert_eq!(conveyor.next(), Some(&1));
    assert_eq!(conveyor.pop(), Some(5));
    assert_eq!(conveyor.pop(), Some(2));
    assert_eq!(conveyor.pop(), Some(1));
    assert_eq!(conveyor.pop(), None);
    let mut one: Conveyor<char> = Conveyor::new(1);
    assert_eq!(one.push('a'), None);
    assert_eq!(one.push('b'), Some('a'));
    assert_eq!(one.to_string(), "b");
}

#[test]
fn a_conveyor_of_code_points_renders_as_text() {
    let mut conveyor: Conveyor<char> = Conveyor::new(64);
    assert_eq!(conveyor.to_string(), "");
    for c in "héllo".chars() {
        conveyor.push(c);
    }
    assert_eq!(conveyor.to_string(), "héllo");
    conveyor.pop();
    assert_eq!(conveyor.to_string(), "héll");
}

#[test]
fn the_leading_byte_tells_the_length() {
    assert_eq!(get_char_length([0x00, 0, 0, 0]), 1);
    assert_eq!(get_char_length([0x7f, 0xff, 0xff, 0xff]), 1);
    assert_eq!(get_char_length([0xc3, 0xa9, 0, 0]), 2);
    assert_eq!(get_char_length([0xdf, 0xbf, 0, 0]), 2);
    assert_eq!(get_char_length([0xe4, 0xb8, 0x96, 0]), 3);
    assert_eq!(get_char_length([0xf0, 0x9d, 0x84, 0x9e]), 4);
    assert_eq!(get_char_length([0xf7, 0x80, 0x80, 0x80]), 4);
}

#[test]
fn bytes_of_no_form_have_no_length() {
    assert_eq!(find_char_length([0x41, 0, 0, 0]), Some(1));
    assert_eq!(find_char_length([0x80, 0x80, 0x80, 0x80]), None);
    assert_eq!(find_char_length([0xbf, 0, 0, 0]), None);
    assert_eq!(find_char_length([0xc3, 0x41, 0, 0]), None);
    assert_eq!(find_char_length([0xc3, 0xc3, 0, 0]), None);
    assert_eq!(find_char_length([0xe4, 0xb8, 0x16, 0]), None);
    assert_eq!(find_char_length([0xf0, 0x9d, 0x84, 0x1e]), None);
    assert_eq!(find_char_length([0xf8, 0x80, 0x80, 0x80]), None);
    assert_eq!(find_char_length([0xff, 0xbf, 0xbf, 0xbf]), None);
}

#[test]
fn four_bytes_decode_to_the_code_point_they_begin_with() {
    assert_eq!(decode_char([0x41, 0x42, 0, 0]), Ok(('A', 1)));
    assert_eq!(decode_char([0xc3, 0xa9, 0x41, 0]), Ok(('é', 2)));
    assert_eq!(decode_char([0xe4, 0xb8, 0x96, 0x41]), Ok(('世', 3)));
    assert_eq!(decode_char([0xf0, 0x9d, 0x84, 0x9e]), Ok(('𝄞', 4)));
    assert_eq!(decode_char([0xc0, 0x80, 0, 0]), Ok(('\0', 2)));
    assert_eq!(decode_char([0xff, 0, 0, 0]), Err(ReadError::Form));
    assert_eq!(decode_char([0xc3, 0, 0, 0]), Err(ReadError::Form));
    assert_eq!(decode_char([0xed, 0xa0, 0x80, 0]), Err(ReadError::Value));
    assert_eq!(decode_char([0xf4, 0x90, 0x80, 0x80]), Err(ReadError::Value));
    assert_eq!(decode_char([0xf7, 0xbf, 0xbf, 0xbf]), Err(ReadError::Value));
}

fn drain(reader: &mut CharReader) -> Result<String, ReadError> {
    let mut text = String::new();
    loop {
        match reader.next() {
            Ok(Some(c)) => text.push(c),
            Ok(None) => return Ok(text),
            Err(error) => return Err(error),
        }
    }
}

#[test]
fn a_reader_gives_the_code_points_of_its_bytes() {
    let source = "a é 世界 𝄞\n";
    for mode in [None, Some(false), Some(true)] {
        let mut reader = CharReader::new(source.as_bytes().to_vec(), mode).unwrap();
        assert_eq!(drain(&mut reader), Ok(String::from(source)));
        assert_eq!(reader.next(), Ok(None));
        assert_eq!(reader.next(), Ok(None));
    }
    let mut empty = CharReader::new(Vec::new(), Some(true)).unwrap();
    assert_eq!(empty.next(), Ok(None));
}

#[test]
fn a_reader_refuses_bytes_that_are_no_text() {
    assert_eq!(CharReader::new(vec![0x61, 0xff], None).err(), Some(ReadError::Encoding));
    assert_eq!(CharReader::new(vec![0xc0, 0x80], Some(false)).err(), Some(ReadError::Encoding));
    let mut lazy = CharReader::new(vec![0x61, 0xff], Some(true)).unwrap();
    assert_eq!(lazy.next(), Ok(Some('a')));
    assert_eq!(lazy.next(), Err(ReadError::Form));
    assert_eq!(lazy.next(), Err(ReadError::Form));
    let mut cut = CharReader::new(vec![0xe4, 0xb8], Some(true)).unwrap();
    assert_eq!(cut.next(), Err(ReadError::Form));
    let mut surrogate = CharReader::new(vec![0xed, 0xa0, 0x80], Some(true)).unwrap();
    assert_eq!(surrogate.next(), Err(ReadError::Value));
    let mut overlong = CharReader::new(vec![0xc0, 0x80], Some(true)).unwrap();
    assert_eq!(overlong.next(), Ok(Some('\0')));
    assert_eq!(overlong.next(), Ok(None));
}
