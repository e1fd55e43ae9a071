//! The character classes of the language, each as a predicate over code points
//! together with an executable test that decides it.

use vstd::prelude::*;

verus! {

/// The first code point of a custom-delimited string.
pub const DELIMITER_DECLARATOR: char = 'q';

/// The code point that opens a comment when it comes twice in a row.
pub const COMMENT_MARK: char = '/';

/// A statement delimiter: a semicolon or a line break.
pub open spec fn delimiter(c: char) -> bool {
    c == ';' || c == '\n'
}

/// An opening bracket.
pub open spec fn open_symbol(c: char) -> bool {
    c == '<' || c == '{' || c == '(' || c == '['
}

/// A closing bracket.
pub open spec fn close_symbol(c: char) -> bool {
    c == '>' || c == '}' || c == ')' || c == ']'
}

/// A separator: a comma or a space.
pub open spec fn separator(c: char) -> bool {
    c == ',' || c == ' '
}

/// A keyword of one code point.
pub open spec fn single_keyword(c: char) -> bool {
    c == '#' || c == '^' || c == '?' || c == '!' || c == '@' || c == '~' || c == ':'
}

/// An operator of one code point.
pub open spec fn single_operator(c: char) -> bool {
    c == '=' || c == '*' || c == '+' || c == '-' || c == '/' || c == '%' || c == '<' || c == '>'
        || c == '|' || c == '&'
}

/// An operator of two code points, given as its first and its second.
pub open spec fn double_operator(first: char, second: char) -> bool {
    ||| (first == '+' && second == '+')
    ||| (first == '-' && second == '-')
    ||| (first == '-' && second == '=')
    ||| (first == '+' && second == '=')
    ||| (first == '=' && second == '=')
    ||| (first == '>' && second == '=')
    ||| (first == '<' && second == '=')
    ||| (first == '<' && second == '<')
    ||| (first == '>' && second == '>')
}

/// The two code points that open a comment.
pub open spec fn comment_opener(first: char, second: char) -> bool {
    first == COMMENT_MARK && second == COMMENT_MARK
}

/// The two code points that announce a custom string delimiter.
pub open spec fn delimiter_declarator(first: char, second: char) -> bool {
    first == DELIMITER_DECLARATOR && second == DELIMITER_DECLARATOR
}

/// A code point with which a token of two code points may begin: an operator,
/// a comment or the announcement of a custom string delimiter.
pub open spec fn double_start(c: char) -> bool {
    c == '+' || c == '-' || c == '=' || c == '>' || c == '<' || c == COMMENT_MARK || c
        == DELIMITER_DECLARATOR
}

/// A code point that ends the text accumulated before it and, unless it is a
/// space, stands as a symbol of its own.
pub open spec fn breaking(c: char) -> bool {
    delimiter(c) || open_symbol(c) || close_symbol(c) || separator(c) || single_operator(c)
        || single_keyword(c)
}

/// Whether `c` is a statement delimiter.
pub fn is_delimiter(c: char) -> (b: bool)
    ensures
        b == delimiter(c),
{
    c == ';' || c == '\n'
}

/// Whether `c` is an opening bracket.
pub fn is_open_symbol(c: char) -> (b: bool)
    ensures
        b == open_symbol(c),
{
    c == '<' || c == '{' || c == '(' || c == '['
}

/// Whether `c` is a closing bracket.
pub fn is_close_symbol(c: char) -> (b: bool)
    ensures
        b == close_symbol(c),
{
    c == '>' || c == '}' || c == ')' || c == ']'
}

/// Whether `c` is a separator.
pub fn is_separator(c: char) -> (b: bool)
    ensures
        b == separator(c),
{
    c == ',' || c == ' '
}

/// Whether `c` is a keyword of one code point.
pub fn is_single_keyword(c: char) -> (b: bool)
    ensures
        b == single_keyword(c),
{
    c == '#' || c == '^' || c == '?' || c == '!' || c == '@' || c == '~' || c == ':'
}

/// Whether `c` is an operator of one code point.
pub fn is_single_operator(c: char) -> (b: bool)
    ensures
        b == single_operator(c),
{
    c == '=' || c == '*' || c == '+' || c == '-' || c == '/' || c == '%' || c == '<' || c == '>'
        || c == '|' || c == '&'
}

/// Whether the two code points are an operator.
pub fn is_double_operator(first: char, second: char) -> (b: bool)
    ensures
        b == double_operator(first, second),
{
    (first == '+' && second == '+') || (first == '-' && second == '-') || (first == '-' && second
        == '=') || (first == '+' && second == '=') || (first == '=' && second == '=') || (first
        == '>' && second == '=') || (first == '<' && second == '=') || (first == '<' && second
        == '<') || (first == '>' && second == '>')
}

/// Whether the two code points open a comment.
pub fn is_comment_opener(first: char, second: char) -> (b: bool)
    ensures
        b == comment_opener(first, second),
{
    first == COMMENT_MARK && second == COMMENT_MARK
}

/// Whether the two code points announce a custom string delimiter.
pub fn is_delimiter_declarator(first: char, second: char) -> (b: bool)
    ensures
        b == delimiter_declarator(first, second),
{
    first == DELIMITER_DECLARATOR && second == DELIMITER_DECLARATOR
}

/// Whether a token of two code points may begin with `c`.
pub fn is_double_start(c: char) -> (b: bool)
    ensures
        b == double_start(c),
{
    c == '+' || c == '-' || c == '=' || c == '>' || c == '<' || c == COMMENT_MARK || c
        == DELIMITER_DECLARATOR
}

/// Whether `c` ends the text accumulated before it.
pub fn is_breaking(c: char) -> (b: bool)
    ensures
        b == breaking(c),
{
    is_delimiter(c) || is_open_symbol(c) || is_close_symbol(c) || is_separator(c)
        || is_single_operator(c) || is_single_keyword(c)
}

} // verus!
