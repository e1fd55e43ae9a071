//! The data the parser works on: cursors, symbols, the kinds of tree node,
//! the nodes themselves and the scope of visible names.

use crate::engine::util::{chars_of, same_text, texts};
use vstd::prelude::*;

verus! {

/// A place in the source: the offset in code points, and the line and the
/// column within it, both counted from 1.
#[derive(Debug, Clone, Copy, PartialEq, Eq, Structural)]
pub struct Cursor {
    pub pos: u64,
    pub line: u64,
    pub column: u64,
}

impl Default for Cursor {
    /// The place before the first code point.
    fn default() -> (cursor: Self)
        ensures
            cursor == (Cursor { pos: 0, line: 1, column: 1 }),
    {
        Self { pos: 0, line: 1, column: 1 }
    }
}

/// The number of places a text takes in the source: its length in code
/// points, and 1 for an empty text.
pub open spec fn span(text: Seq<char>) -> nat {
    if text.len() == 0 {
        1
    } else {
        text.len()
    }
}

/// A lexical token as a value: its text and the places of its first and
/// last code point.
pub struct SymbolView {
    pub text: Seq<char>,
    pub start: Cursor,
    pub end: Cursor,
}

impl SymbolView {
    /// The symbol takes as many places, from its start to its end, as its
    /// text has code points, and one place where the text is empty.
    pub open spec fn spans(self) -> bool {
        &&& self.start.pos <= self.end.pos
        &&& self.end.pos - self.start.pos + 1 == span(self.text)
    }

    /// The symbol spans its text, and the span fits a machine word.
    pub open spec fn wf(self) -> bool {
        &&& self.spans()
        &&& span(self.text) <= usize::MAX
    }

    /// The number of places the symbol takes.
    pub open spec fn len(self) -> int {
        self.end.pos - self.start.pos + 1
    }
}

/// The symbol with the given text that ends at `cursor`, on one line.
pub open spec fn placed(text: Seq<char>, cursor: Cursor) -> SymbolView {
    SymbolView {
        text,
        start: Cursor {
            pos: (cursor.pos - (span(text) - 1)) as u64,
            line: cursor.line,
            column: (cursor.column - (span(text) - 1)) as u64,
        },
        end: cursor,
    }
}

/// The values of a list of symbols.
pub open spec fn views(symbols: Seq<Symbol>) -> Seq<SymbolView> {
    Seq::new(symbols.len(), |i: int| symbols[i]@)
}

/// A lexical token with its place in the source.
#[derive(Debug, PartialEq, Eq)]
pub struct Symbol {
    pub symbol: String,
    pub start: Cursor,
    pub end: Cursor,
}

impl View for Symbol {
    type V = SymbolView;

    open spec fn view(&self) -> SymbolView {
        SymbolView { text: self.symbol@, start: self.start, end: self.end }
    }
}

impl Default for Symbol {
    fn default() -> (symbol: Self)
        ensures
            symbol@ == (SymbolView {
                text: Seq::<char>::empty(),
                start: Cursor { pos: 0, line: 1, column: 1 },
                end: Cursor { pos: 0, line: 1, column: 1 },
            }),
    {
        Self { symbol: String::new(), start: Cursor::default(), end: Cursor::default() }
    }
}

impl Clone for Symbol {
    fn clone(&self) -> (symbol: Self)
        ensures
            symbol == *self,
    {
        Self { symbol: self.symbol.clone(), start: self.start, end: self.end }
    }
}

impl Symbol {
    /// The symbol with text `string` whose last code point stands at `cursor`.
    /// Its start lies as many places before the end as the text has code
    /// points after the first, on the same line.
    pub fn new(string: String, cursor: Cursor) -> (symbol: Self)
        requires
            span(string@) <= cursor.pos + 1,
            span(string@) <= cursor.column + 1,
        ensures
            symbol@ == placed(string@, cursor),
            symbol@.wf(),
    {
        let count = string.as_str().unicode_len();
        let len: u64 = if count == 0 {
            1
        } else {
            count as u64
        };
        let start = Cursor {
            column: cursor.column - (len - 1),
            pos: cursor.pos - (len - 1),
            line: cursor.line,
        };
        Self { symbol: string, start, end: cursor }
    }

    /// The number of places from the start of the symbol to its end.
    pub fn len(&self) -> (len: usize)
        requires
            self@.wf(),
        ensures
            len == self@.len(),
            len == span(self@.text),
    {
        (self.end.pos - self.start.pos + 1) as usize
    }
}

/// The basic types of the language, and a place for a type of the user's own.
#[derive(Debug, PartialEq, Clone)]
pub enum DataTypes {
    Unknown,
    Int,
    Flt,
    Bol,
    Chr,
    Str,
    Vec,
    User(String),
}

/// Whether `text` is made of the three given code points.
pub open spec fn three(text: Seq<char>, a: char, b: char, c: char) -> bool {
    text.len() == 3 && text[0] == a && text[1] == b && text[2] == c
}

/// Whether `text` is made of the two given code points.
pub open spec fn two(text: Seq<char>, a: char, b: char) -> bool {
    text.len() == 2 && text[0] == a && text[1] == b
}

/// Whether `text` is the one given code point.
pub open spec fn one(text: Seq<char>, a: char) -> bool {
    text.len() == 1 && text[0] == a
}

/// The basic type that `text` names, if it names one.
pub open spec fn data_type_of(text: Seq<char>) -> Option<DataTypes> {
    if three(text, 'i', 'n', 't') {
        Some(DataTypes::Int)
    } else if three(text, 'f', 'l', 't') {
        Some(DataTypes::Flt)
    } else if three(text, 'b', 'o', 'l') {
        Some(DataTypes::Bol)
    } else if three(text, 'c', 'h', 'r') {
        Some(DataTypes::Chr)
    } else if three(text, 's', 't', 'r') {
        Some(DataTypes::Str)
    } else if three(text, 'v', 'e', 'c') {
        Some(DataTypes::Vec)
    } else {
        None
    }
}

impl DataTypes {
    /// The basic type named by `chars`, if they name one.
    pub fn from_chars(chars: &Vec<char>) -> (data_type: Option<DataTypes>)
        ensures
            data_type == data_type_of(chars@),
    {
        if chars.len() != 3 {
            return None;
        }
        let a = chars[0];
        let b = chars[1];
        let c = chars[2];
        if a == 'i' && b == 'n' && c == 't' {
            Some(DataTypes::Int)
        } else if a == 'f' && b == 'l' && c == 't' {
            Some(DataTypes::Flt)
        } else if a == 'b' && b == 'o' && c == 'l' {
            Some(DataTypes::Bol)
        } else if a == 'c' && b == 'h' && c == 'r' {
            Some(DataTypes::Chr)
        } else if a == 's' && b == 't' && c == 'r' {
            Some(DataTypes::Str)
        } else if a == 'v' && b == 'e' && c == 'c' {
            Some(DataTypes::Vec)
        } else {
            None
        }
    }
}

impl TryFrom<String> for DataTypes {
    type Error = &'static str;

    /// The basic type that `symbol` names; an error for any other text.
    fn try_from(symbol: String) -> (result: Result<Self, Self::Error>) {
        let chars = chars_of(symbol.as_str());
        match DataTypes::from_chars(&chars) {
            Some(data_type) => Ok(data_type),
            None => Err("Not a basic type"),
        }
    }
}

impl vstd::std_specs::convert::TryFromSpecImpl<String> for DataTypes {
    open spec fn obeys_try_from_spec() -> bool {
        true
    }

    open spec fn try_from_spec(symbol: String) -> Result<Self, Self::Error> {
        match data_type_of(symbol@) {
            Some(data_type) => Ok(data_type),
            None => Err("Not a basic type"),
        }
    }
}

impl Default for DataTypes {
    fn default() -> (data_type: Self)
        ensures
            data_type == DataTypes::Unknown,
    {
        Self::Unknown
    }
}

/// The operators of the language.
#[derive(Debug, PartialEq, Eq, Clone, Copy, Structural)]
pub enum Operators {
    /// `=`
    Ass,
    /// `*`
    Mul,
    /// `+`
    Add,
    /// `-`
    Sub,
    /// `/`
    Div,
    /// `%`
    Mod,
    /// `<`
    Lt,
    /// `>`
    Gt,
    /// `|`
    BitOr,
    /// `&`
    BitAnd,
    /// `++`
    AddAdd,
    /// `--`
    SubSub,
    /// `+=`
    AssAdd,
    /// `-=`
    AssSub,
    /// `==`
    Equ,
    /// `>=`
    EquGt,
    /// `<=`
    EquLt,
    /// `<<`
    BitLeft,
    /// `>>`
    BitRight,
}

/// The operator that `text` writes, if it writes one.
pub open spec fn operator_of(text: Seq<char>) -> Option<Operators> {
    if one(text, '=') {
        Some(Operators::Ass)
    } else if one(text, '*') {
        Some(Operators::Mul)
    } else if one(text, '+') {
        Some(Operators::Add)
    } else if one(text, '-') {
        Some(Operators::Sub)
    } else if one(text, '/') {
        Some(Operators::Div)
    } else if one(text, '%') {
        Some(Operators::Mod)
    } else if one(text, '<') {
        Some(Operators::Lt)
    } else if one(text, '>') {
        Some(Operators::Gt)
    } else if one(text, '|') {
        Some(Operators::BitOr)
    } else if one(text, '&') {
        Some(Operators::BitAnd)
    } else if two(text, '+', '+') {
        Some(Operators::AddAdd)
    } else if two(text, '-', '-') {
        Some(Operators::SubSub)
    } else if two(text, '+', '=') {
        Some(Operators::AssAdd)
    } else if two(text, '-', '=') {
        Some(Operators::AssSub)
    } else if two(text, '=', '=') {
        Some(Operators::Equ)
    } else if two(text, '>', '=') {
        Some(Operators::EquGt)
    } else if two(text, '<', '=') {
        Some(Operators::EquLt)
    } else if two(text, '<', '<') {
        Some(Operators::BitLeft)
    } else if two(text, '>', '>') {
        Some(Operators::BitRight)
    } else {
        None
    }
}

impl Operators {
    /// The operator written by `chars`, if they write one.
    pub fn from_chars(chars: &Vec<char>) -> (operator: Option<Operators>)
        ensures
            operator == operator_of(chars@),
    {
        if chars.len() == 1 {
            let a = chars[0];
            if a == '=' {
                Some(Operators::Ass)
            } else if a == '*' {
                Some(Operators::Mul)
            } else if a == '+' {
                Some(Operators::Add)
            } else if a == '-' {
                Some(Operators::Sub)
            } else if a == '/' {
                Some(Operators::Div)
            } else if a == '%' {
                Some(Operators::Mod)
            } else if a == '<' {
                Some(Operators::Lt)
            } else if a == '>' {
                Some(Operators::Gt)
            } else if a == '|' {
                Some(Operators::BitOr)
            } else if a == '&' {
                Some(Operators::BitAnd)
            } else {
                None
            }
        } else if chars.len() == 2 {
            let a = chars[0];
            let b = chars[1];
            if a == '+' && b == '+' {
                Some(Operators::AddAdd)
            } else if a == '-' && b == '-' {
                Some(Operators::SubSub)
            } else if a == '+' && b == '=' {
                Some(Operators::AssAdd)
            } else if a == '-' && b == '=' {
                Some(Operators::AssSub)
            } else if a == '=' && b == '=' {
                Some(Operators::Equ)
            } else if a == '>' && b == '=' {
                Some(Operators::EquGt)
            } else if a == '<' && b == '=' {
                Some(Operators::EquLt)
            } else if a == '<' && b == '<' {
                Some(Operators::BitLeft)
            } else if a == '>' && b == '>' {
                Some(Operators::BitRight)
            } else {
                None
            }
        } else {
            None
        }
    }
}

impl TryFrom<String> for Operators {
    type Error = &'static str;

    /// The operator that `symbol` writes; an error for any other text.
    fn try_from(symbol: String) -> (result: Result<Self, Self::Error>) {
        let chars = chars_of(symbol.as_str());
        match Operators::from_chars(&chars) {
            Some(operator) => Ok(operator),
            None => Err("Expected operator"),
        }
    }
}

impl vstd::std_specs::convert::TryFromSpecImpl<String> for Operators {
    open spec fn obeys_try_from_spec() -> bool {
        true
    }

    open spec fn try_from_spec(symbol: String) -> Result<Self, Self::Error> {
        match operator_of(symbol@) {
            Some(operator) => Ok(operator),
            None => Err("Expected operator"),
        }
    }
}

/// What a tree node stands for. A float literal keeps the text it was
/// written with.
#[derive(Debug, PartialEq, Clone)]
pub enum TokenTypes {
    Unknown,
    Delimiter,
    Comment,
    Keyword,
    Separator,
    Operator(Operators),
    Type(DataTypes),
    Generic,
    LiteralFloat(String),
    LiteralInt(i64),
    LiteralString(String),
    Function(String),
    Variable(String),
    Struct(String),
    Call(String),
    CallParams,
    Statement,
    Implement,
    Body,
    Params,
    Root,
    Return,
    ShortReturn,
}

/// A node's kind as a value, with each text as its code points.
pub enum TokenView {
    Unknown,
    Delimiter,
    Comment,
    Keyword,
    Separator,
    Operator(Operators),
    Type(DataTypes),
    Generic,
    LiteralFloat(Seq<char>),
    LiteralInt(i64),
    LiteralString(Seq<char>),
    Function(Seq<char>),
    Variable(Seq<char>),
    Struct(Seq<char>),
    Call(Seq<char>),
    CallParams,
    Statement,
    Implement,
    Body,
    Params,
    Root,
    Return,
    ShortReturn,
}

impl View for TokenTypes {
    type V = TokenView;

    open spec fn view(&self) -> TokenView {
        match *self {
            TokenTypes::Unknown => TokenView::Unknown,
            TokenTypes::Delimiter => TokenView::Delimiter,
            TokenTypes::Comment => TokenView::Comment,
            TokenTypes::Keyword => TokenView::Keyword,
            TokenTypes::Separator => TokenView::Separator,
            TokenTypes::Operator(operator) => TokenView::Operator(operator),
            TokenTypes::Type(data_type) => TokenView::Type(data_type),
            TokenTypes::Generic => TokenView::Generic,
            TokenTypes::LiteralFloat(text) => TokenView::LiteralFloat(text@),
            TokenTypes::LiteralInt(value) => TokenView::LiteralInt(value),
            TokenTypes::LiteralString(text) => TokenView::LiteralString(text@),
            TokenTypes::Function(name) => TokenView::Function(name@),
            TokenTypes::Variable(name) => TokenView::Variable(name@),
            TokenTypes::Struct(name) => TokenView::Struct(name@),
            TokenTypes::Call(name) => TokenView::Call(name@),
            TokenTypes::CallParams => TokenView::CallParams,
            TokenTypes::Statement => TokenView::Statement,
            TokenTypes::Implement => TokenView::Implement,
            TokenTypes::Body => TokenView::Body,
            TokenTypes::Params => TokenView::Params,
            TokenTypes::Root => TokenView::Root,
            TokenTypes::Return => TokenView::Return,
            TokenTypes::ShortReturn => TokenView::ShortReturn,
        }
    }
}

impl Default for TokenTypes {
    fn default() -> (token: Self)
        ensures
            token@ == TokenView::Unknown,
    {
        Self::Unknown
    }
}

/// A tree node as a value.
pub struct NodeView {
    pub id: u64,
    pub parent: u64,
    pub token: TokenView,
    pub children: Seq<u64>,
    pub cursor: Cursor,
    pub len: usize,
}

/// The node that a builder makes: with the given fields and no children.
pub open spec fn node(id: u64, token: TokenView, cursor: Cursor, parent: u64, len: usize)
    -> NodeView {
    NodeView { id, parent, token, children: Seq::empty(), cursor, len }
}

/// The root of every tree: node 0, its own parent, at the start of the
/// source.
pub open spec fn root() -> NodeView {
    node(0, TokenView::Root, Cursor { pos: 0, line: 1, column: 1 }, 0, 0)
}

/// One element of the syntax tree. Nodes live in an arena and name each other
/// by their place in it.
#[derive(Debug, Clone, PartialEq)]
pub struct Node {
    pub id: u64,
    pub parent: u64,
    pub token: TokenTypes,
    pub children: Vec<u64>,
    pub cursor: Cursor,
    pub len: usize,
}

impl View for Node {
    type V = NodeView;

    open spec fn view(&self) -> NodeView {
        NodeView {
            id: self.id,
            parent: self.parent,
            token: self.token@,
            children: self.children@,
            cursor: self.cursor,
            len: self.len,
        }
    }
}

impl Default for Node {
    fn default() -> (made: Self)
        ensures
            made@ == node(0, TokenView::Unknown, Cursor { pos: 0, line: 1, column: 1 }, 0, 0),
    {
        Self {
            id: 0,
            parent: 0,
            token: TokenTypes::Unknown,
            children: Vec::new(),
            cursor: Cursor::default(),
            len: 0,
        }
    }
}

impl Node {
    /// The root node.
    pub fn root() -> (made: Self)
        ensures
            made@ == root(),
    {
        Self {
            id: 0,
            parent: 0,
            token: TokenTypes::Root,
            children: Vec::new(),
            cursor: Cursor::default(),
            len: 0,
        }
    }

    /// A node with the given fields and no children.
    pub fn new(id: u64, token: TokenTypes, cursor: Cursor, parent: u64, len: usize) -> (made: Self)
        ensures
            made@ == node(id, token@, cursor, parent, len),
    {
        Self { id, token, cursor, parent, len, children: Vec::new() }
    }
}

/// The names visible at one point of the source, as two sets.
pub struct ScopeView {
    pub functions: Set<Seq<char>>,
    pub variables: Set<Seq<char>>,
}

/// The names that a parse has met so far: those of functions, and those of
/// the variables of the function at hand.
#[derive(Debug)]
pub struct Scope {
    pub functions: Vec<String>,
    pub variables: Vec<String>,
}

/// The set of the texts in a list of names.
pub open spec fn names(list: Seq<String>) -> Set<Seq<char>> {
    Set::new(|name: Seq<char>| texts(list).contains(name))
}

/// A list with one more name holds the names it held and the new one.
pub proof fn lemma_names_push(list: Seq<String>, name: String)
    ensures
        names(list.push(name)) == names(list).insert(name@),
{
    let longer = list.push(name);
    assert forall|other: Seq<char>| names(longer).contains(other) <==> names(list).insert(
        name@,
    ).contains(other) by {
        if texts(longer).contains(other) {
            let i = choose|i: int| 0 <= i < texts(longer).len() && texts(longer)[i] == other;
            if i < list.len() {
                assert(texts(list)[i] == other);
            }
        }
        if texts(list).contains(other) {
            let i = choose|i: int| 0 <= i < texts(list).len() && texts(list)[i] == other;
            assert(texts(longer)[i] == other);
        }
        if other == name@ {
            assert(texts(longer)[list.len() as int] == other);
        }
    }
    assert(names(longer) =~= names(list).insert(name@));
}

/// No list of names is needed to hold no name.
pub proof fn lemma_names_empty()
    ensures
        names(Seq::<String>::empty()) == Set::<Seq<char>>::empty(),
{
    assert(names(Seq::<String>::empty()) =~= Set::<Seq<char>>::empty());
}

/// Whether one of `list` has the text of `name`.
fn holds(list: &Vec<String>, name: &String) -> (found: bool)
    ensures
        found == names(list@).contains(name@),
{
    let mut i: usize = 0;
    while i < list.len()
        invariant
            i <= list.len(),
            forall|j: int| 0 <= j < i ==> texts(list@)[j] != name@,
        decreases list.len() - i,
    {
        if same_text(list[i].as_str(), name.as_str()) {
            assert(texts(list@)[i as int] == name@);
            return true;
        }
        i = i + 1;
    }
    false
}

impl View for Scope {
    type V = ScopeView;

    open spec fn view(&self) -> ScopeView {
        ScopeView { functions: names(self.functions@), variables: names(self.variables@) }
    }
}

impl Default for Scope {
    /// The scope in which no name is visible.
    fn default() -> (scope: Self)
        ensures
            scope@.functions == Set::<Seq<char>>::empty(),
            scope@.variables == Set::<Seq<char>>::empty(),
    {
        proof {
            lemma_names_empty();
        }
        Self { functions: Vec::new(), variables: Vec::new() }
    }
}

/// What a scope says when it refuses a name.
pub type ScopeError = &'static str;

impl Scope {
    /// Whether a function of this name is visible.
    pub fn function_exists(&self, function: &String) -> (exists: bool)
        ensures
            exists == self@.functions.contains(function@),
    {
        holds(&self.functions, function)
    }

    /// Makes a function name visible. A name that is visible already is
    /// refused, and the scope stays as it was.
    pub fn insert_function(&mut self, function: String) -> (result: Result<(), ScopeError>)
        ensures
            result is Err <==> old(self)@.functions.contains(function@),
            result is Err ==> *final(self) == *old(self),
            result is Ok ==> final(self)@.functions == old(self)@.functions.insert(function@),
            final(self)@.variables == old(self)@.variables,
    {
        if holds(&self.functions, &function) {
            return Err("Function was already defined");
        }
        proof {
            lemma_names_push(self.functions@, function);
        }
        self.functions.push(function);
        Ok(())
    }

    /// Whether a variable of this name is visible.
    pub fn variable_exists(&self, variable: &String) -> (exists: bool)
        ensures
            exists == self@.variables.contains(variable@),
    {
        holds(&self.variables, variable)
    }

    /// Makes a variable name visible. A name that is visible already stays
    /// so, and nothing is refused.
    pub fn insert_variable(&mut self, variable: String) -> (result: Result<(), ScopeError>)
        ensures
            result is Ok,
            final(self)@.variables == old(self)@.variables.insert(variable@),
            final(self)@.functions == old(self)@.functions,
    {
        if self.variable_exists(&variable) {
            assert(self@.variables.insert(variable@) =~= self@.variables);
            return Ok(());
        }
        proof {
            lemma_names_push(self.variables@, variable);
        }
        self.variables.push(variable);
        Ok(())
    }

    /// Forgets every variable; the functions stay visible.
    pub fn clear_variables(&mut self)
        ensures
            final(self)@.variables == Set::<Seq<char>>::empty(),
            final(self)@.functions == old(self)@.functions,
    {
        proof {
            lemma_names_empty();
        }
        self.variables = Vec::new();
    }
}

} // verus!
