//! The tree builder: what each symbol does to the tree, given the node at
//! which the builder stands, and the state that is carried from one symbol
//! to the next.

use crate::engine::literals::{float_literal, int_literal, is_float, parse_int};
use crate::engine::parser::{all_wf, ParseError, Parser};
use crate::engine::registry::entries;
use crate::engine::types::{
    data_type_of, node, one, operator_of, root, two, views, DataTypes, Node, NodeView, Operators,
    Scope, ScopeView, Symbol, SymbolView, TokenTypes, TokenView,
};
use crate::engine::util::{chars_of, pushed, Conveyor};
use vstd::prelude::*;
use vstd::string::StringExecFns;

verus! {

/// One thing that a symbol does to the tree.
#[derive(Debug, PartialEq)]
pub enum LexResult {
    /// Nothing.
    Nothing,
    /// A node joins the arena.
    New(Node),
    /// The builder moves to the node of this id.
    ChangeTo(u64),
    /// The builder moves to the parent of the node at which it stands.
    Up,
}

/// A `LexResult` as a value.
pub enum LexResultView {
    Nothing,
    New(NodeView),
    ChangeTo(u64),
    Up,
}

impl View for LexResult {
    type V = LexResultView;

    open spec fn view(&self) -> LexResultView {
        match *self {
            LexResult::Nothing => LexResultView::Nothing,
            LexResult::New(node) => LexResultView::New(node@),
            LexResult::ChangeTo(id) => LexResultView::ChangeTo(id),
            LexResult::Up => LexResultView::Up,
        }
    }
}

impl LexResult {
    /// One letter for the kind of the result: `N`, `C` or `U`, and nothing
    /// for `Nothing`.
    pub fn short_code(&self) -> (code: String)
        ensures
            code@ == match self@ {
                LexResultView::Nothing => ""@,
                LexResultView::New(_) => "N"@,
                LexResultView::ChangeTo(_) => "C"@,
                LexResultView::Up => "U"@,
            },
    {
        match self {
            LexResult::Nothing => String::from_str(""),
            LexResult::New(_) => String::from_str("N"),
            LexResult::ChangeTo(_) => String::from_str("C"),
            LexResult::Up => String::from_str("U"),
        }
    }
}

/// The values of a list of results.
pub open spec fn result_views(results: Seq<LexResult>) -> Seq<LexResultView> {
    Seq::new(results.len(), |i: int| results[i]@)
}

/// The values of an optional list of results.
pub open spec fn optional_results(results: Option<Vec<LexResult>>) -> Option<Seq<LexResultView>> {
    match results {
        Some(list) => Some(result_views(list@)),
        None => None,
    }
}

/// The values of a list of nodes.
pub open spec fn node_views(nodes: Seq<Node>) -> Seq<NodeView> {
    Seq::new(nodes.len(), |i: int| nodes[i]@)
}

/// The node that `symbol` gives: it begins where the symbol begins and is as
/// long as the symbol.
pub open spec fn child(id: u64, token: TokenView, symbol: SymbolView, parent: u64) -> NodeView {
    node(id, token, symbol.start, parent, symbol.len() as usize)
}

/// A list of one result.
pub open spec fn only(result: LexResultView) -> Seq<LexResultView> {
    Seq::<LexResultView>::empty().push(result)
}

/// A new node under `parent`, at which the builder stays where it is.
pub open spec fn added(token: TokenView, parent: u64, symbol: SymbolView, next_id: u64) -> Seq<
    LexResultView,
> {
    only(LexResultView::New(child(next_id, token, symbol, parent)))
}

/// A new node under `parent`, to which the builder moves.
pub open spec fn opened(token: TokenView, parent: u64, symbol: SymbolView, next_id: u64) -> Seq<
    LexResultView,
> {
    added(token, parent, symbol, next_id).push(LexResultView::ChangeTo(next_id))
}

/// A new node under `parent` and a statement under that node, to which the
/// builder moves.
pub open spec fn opened_statement(
    token: TokenView,
    parent: u64,
    symbol: SymbolView,
    next_id: u64,
) -> Seq<LexResultView> {
    added(token, parent, symbol, next_id).push(
        LexResultView::New(child((next_id + 1) as u64, TokenView::Statement, symbol, next_id)),
    ).push(LexResultView::ChangeTo((next_id + 1) as u64))
}

/// A new statement of length 0 under `parent`, to which the builder moves,
/// and a type under that statement.
pub open spec fn opened_declaration(
    data_type: DataTypes,
    parent: u64,
    symbol: SymbolView,
    next_id: u64,
) -> Seq<LexResultView> {
    only(LexResultView::New(node(next_id, TokenView::Statement, symbol.start, parent, 0))).push(
        LexResultView::ChangeTo(next_id),
    ).push(
        LexResultView::New(
            child((next_id + 1) as u64, TokenView::Type(data_type), symbol, next_id),
        ),
    )
}

/// The builder moves up once.
pub open spec fn up() -> Seq<LexResultView> {
    only(LexResultView::Up)
}

/// The builder moves up twice.
pub open spec fn up_twice() -> Seq<LexResultView> {
    only(LexResultView::Up).push(LexResultView::Up)
}

/// Whether `text` is a statement delimiter: a semicolon or a line break.
pub open spec fn ends_statement(text: Seq<char>) -> bool {
    one(text, ';') || one(text, '\n')
}

/// What a string written with a delimiter of its own holds: the text without
/// its first two code points and its last.
pub open spec fn custom_content(text: Seq<char>) -> Seq<char> {
    if text.len() >= 3 {
        text.subrange(2, text.len() - 1)
    } else {
        Seq::empty()
    }
}

/// What a string in double quotes holds: the text without its first and its
/// last code point.
pub open spec fn quoted_content(text: Seq<char>) -> Seq<char> {
    if text.len() >= 2 {
        text.subrange(1, text.len() - 1)
    } else {
        Seq::empty()
    }
}

/// What a symbol is where a literal or a reference may stand, by the first
/// of these that holds: an operator; a string with a delimiter of its own,
/// where the text begins with `q`; a string, where it begins with a double
/// quote; a float; an integer; a call of a function in scope, to which the
/// builder moves; a variable in scope. `None` where it is none of these.
pub open spec fn resolved(parent: u64, symbol: SymbolView, next_id: u64, scope: ScopeView)
    -> Option<Seq<LexResultView>> {
    let text = symbol.text;
    if operator_of(text) is Some {
        Some(added(TokenView::Operator(operator_of(text)->0), parent, symbol, next_id))
    } else if text.len() > 0 && text[0] == 'q' {
        Some(added(TokenView::LiteralString(custom_content(text)), parent, symbol, next_id))
    } else if text.len() > 0 && text[0] == '"' {
        Some(added(TokenView::LiteralString(quoted_content(text)), parent, symbol, next_id))
    } else if float_literal(text) {
        Some(added(TokenView::LiteralFloat(text), parent, symbol, next_id))
    } else if int_literal(text) is Some {
        Some(added(TokenView::LiteralInt(int_literal(text)->0), parent, symbol, next_id))
    } else if scope.functions.contains(text) {
        Some(opened(TokenView::Call(text), parent, symbol, next_id))
    } else if scope.variables.contains(text) {
        Some(added(TokenView::Variable(text), parent, symbol, next_id))
    } else {
        None
    }
}

/// What a symbol comes to: the results, if it has any, and the symbols that
/// are carried over to the next one.
pub struct Lexing {
    pub results: Option<Seq<LexResultView>>,
    pub carryover: Seq<SymbolView>,
}

/// The given results, with nothing new carried over.
pub open spec fn said(results: Seq<LexResultView>, carryover: Seq<SymbolView>) -> Option<Lexing> {
    Some(Lexing { results: Some(results), carryover })
}

/// Whether the symbol carried over last has the text `c`.
pub open spec fn carries(carryover: Seq<SymbolView>, c: char) -> bool {
    carryover.len() > 0 && one(carryover.last().text, c)
}

/// What a symbol does by the kind of node at which the builder stands, or
/// `None` where that kind has nothing to say of the symbol.
///
/// At a function: a `}` carried over closes the function; `(` opens its
/// parameters, `{` its body, `<<` a short return and its statement; a basic
/// type is noted as the return type. In parameters: `)` closes them, a comma
/// is passed over, a basic type opens a parameter. At a type: `<` opens its
/// generic arguments; any other symbol names the variable and closes the
/// type. In generic arguments: `>` closes them, a comma is passed over, a
/// basic type is noted. In a body: `}` is carried over and closes the body;
/// `<<` opens a return and its statement; a basic type opens a statement
/// that begins with it; a registered name opens a call. At a call: `(` opens
/// its arguments. In arguments, `)` closes them and the call. In a statement
/// or a return, a statement delimiter closes it, and in a short return it
/// closes the return with it. What is left in arguments, statements and
/// returns is a literal or a reference.
pub open spec fn lexed_here(
    registry: Map<Seq<char>, Seq<char>>,
    working: NodeView,
    symbol: SymbolView,
    carryover: Seq<SymbolView>,
    capacity: nat,
    next_id: u64,
    scope: ScopeView,
) -> Option<Lexing> {
    let text = symbol.text;
    let at = working.id;
    match working.token {
        TokenView::Function(_) => if carries(carryover, '}') {
            Some(Lexing { results: Some(up()), carryover: carryover.drop_last() })
        } else if one(text, '(') {
            said(opened(TokenView::Params, at, symbol, next_id), carryover)
        } else if one(text, '{') {
            said(opened(TokenView::Body, at, symbol, next_id), carryover)
        } else if two(text, '<', '<') {
            said(opened_statement(TokenView::ShortReturn, at, symbol, next_id), carryover)
        } else if data_type_of(text) is Some {
            said(added(TokenView::Type(data_type_of(text)->0), at, symbol, next_id), carryover)
        } else {
            None
        },
        TokenView::Params => if one(text, ')') {
            said(up(), carryover)
        } else if one(text, ',') {
            Some(Lexing { results: None, carryover })
        } else if data_type_of(text) is Some {
            said(opened(TokenView::Type(data_type_of(text)->0), at, symbol, next_id), carryover)
        } else {
            None
        },
        TokenView::Type(_) => if one(text, '<') {
            said(opened(TokenView::Generic, at, symbol, next_id), carryover)
        } else {
            said(added(TokenView::Variable(text), at, symbol, next_id).push(LexResultView::Up), carryover)
        },
        TokenView::Generic => if one(text, '>') {
            said(up(), carryover)
        } else if one(text, ',') {
            Some(Lexing { results: None, carryover })
        } else if data_type_of(text) is Some {
            said(added(TokenView::Type(data_type_of(text)->0), at, symbol, next_id), carryover)
        } else {
            None
        },
        TokenView::Body => if one(text, '}') {
            Some(Lexing { results: Some(up()), carryover: pushed(carryover, capacity, symbol) })
        } else if two(text, '<', '<') {
            said(opened_statement(TokenView::Return, at, symbol, next_id), carryover)
        } else if data_type_of(text) is Some {
            said(opened_declaration(data_type_of(text)->0, at, symbol, next_id), carryover)
        } else if registry.contains_key(text) {
            said(opened(TokenView::Call(registry[text]), at, symbol, next_id), carryover)
        } else {
            None
        },
        TokenView::Call(_) => if one(text, '(') {
            said(opened(TokenView::CallParams, at, symbol, next_id), carryover)
        } else {
            None
        },
        TokenView::CallParams => if one(text, ')') {
            said(up_twice(), carryover)
        } else {
            match resolved(at, symbol, next_id, scope) {
                Some(results) => said(results, carryover),
                None => None,
            }
        },
        TokenView::Statement | TokenView::Return => if ends_statement(text) {
            said(up(), carryover)
        } else {
            match resolved(at, symbol, next_id, scope) {
                Some(results) => said(results, carryover),
                None => None,
            }
        },
        TokenView::ShortReturn => if ends_statement(text) {
            said(up_twice(), carryover)
        } else {
            match resolved(at, symbol, next_id, scope) {
                Some(results) => said(results, carryover),
                None => None,
            }
        },
        _ => None,
    }
}

/// What a symbol does where the node at which the builder stands has nothing
/// to say of it: a `#` is carried over; after a `#` that was carried over,
/// the symbol names a function, which is opened, and the `#` is carried no
/// longer; any other symbol is dropped.
pub open spec fn lexed_anywhere(
    working: NodeView,
    symbol: SymbolView,
    carryover: Seq<SymbolView>,
    capacity: nat,
    next_id: u64,
) -> Lexing {
    if one(symbol.text, '#') {
        Lexing { results: None, carryover: pushed(carryover, capacity, symbol) }
    } else if carries(carryover, '#') {
        Lexing {
            results: Some(opened(TokenView::Function(symbol.text), working.id, symbol, next_id)),
            carryover: carryover.drop_last(),
        }
    } else {
        Lexing { results: None, carryover }
    }
}

/// What `symbol` does to the tree while the builder stands at `working`:
/// the results in the order in which they apply, and what is carried over.
/// `next_id` is the id that the next new node gets.
pub open spec fn lexed(
    registry: Map<Seq<char>, Seq<char>>,
    working: NodeView,
    symbol: SymbolView,
    carryover: Seq<SymbolView>,
    capacity: nat,
    next_id: u64,
    scope: ScopeView,
) -> Lexing {
    match lexed_here(registry, working, symbol, carryover, capacity, next_id, scope) {
        Some(lexing) => lexing,
        None => lexed_anywhere(working, symbol, carryover, capacity, next_id),
    }
}

/// How many symbols the tree builder can carry over.
pub const CARRYOVER_SIZE: usize = 16;

/// The tree builder between two symbols, as a value: the arena, the id of
/// the node at which the builder stands, the names in scope and the symbols
/// carried over.
pub struct Tree {
    pub nodes: Seq<NodeView>,
    pub working_id: u64,
    pub scope: ScopeView,
    pub carryover: Seq<SymbolView>,
}

/// Whether an arena is in order: it has a root; each node has its place in
/// the arena as its id; the root is its own parent, and every other node has
/// an earlier node as its parent, so that no node is its own ancestor.
pub open spec fn in_order(nodes: Seq<NodeView>) -> bool {
    &&& 0 < nodes.len() <= u64::MAX
    &&& forall|i: int|
        0 <= i < nodes.len() ==> {
            &&& (#[trigger] nodes[i]).id == i
            &&& (i == 0 ==> nodes[i].parent == 0)
            &&& (i > 0 ==> nodes[i].parent < i)
        }
}

impl Tree {
    /// The arena is in order, and the builder stands at a node of it.
    pub open spec fn wf(self) -> bool {
        &&& in_order(self.nodes)
        &&& self.working_id < self.nodes.len()
    }
}

/// The tree before the first symbol: the root alone, at which the builder
/// stands, with no name in scope and nothing carried over.
pub open spec fn seed() -> Tree {
    Tree {
        nodes: Seq::<NodeView>::empty().push(root()),
        working_id: 0,
        scope: ScopeView { functions: Set::empty(), variables: Set::empty() },
        carryover: Seq::empty(),
    }
}

/// Whether the tree can take the result: a new node comes with the next id
/// and an earlier node as its parent, and a move goes to a node of the arena.
pub open spec fn admissible(tree: Tree, result: LexResultView) -> bool {
    match result {
        LexResultView::New(node) => node.id == tree.nodes.len() && node.parent < node.id,
        LexResultView::ChangeTo(id) => id < tree.nodes.len(),
        _ => true,
    }
}

/// The tree after one result, or `None` where the result defines a function
/// whose name is in scope already. A new node joins the arena; a variable
/// makes its name visible; a function makes its name visible and hides every
/// variable. A move sets the node at which the builder stands, `Up` to the
/// parent of the present one.
pub open spec fn applied(tree: Tree, result: LexResultView) -> Option<Tree> {
    match result {
        LexResultView::Nothing => Some(tree),
        LexResultView::New(node) => match node.token {
            TokenView::Function(name) => if tree.scope.functions.contains(name) {
                None
            } else {
                Some(
                    Tree {
                        nodes: tree.nodes.push(node),
                        scope: ScopeView {
                            functions: tree.scope.functions.insert(name),
                            variables: Set::empty(),
                        },
                        ..tree
                    },
                )
            },
            TokenView::Variable(name) => Some(
                Tree {
                    nodes: tree.nodes.push(node),
                    scope: ScopeView {
                        functions: tree.scope.functions,
                        variables: tree.scope.variables.insert(name),
                    },
                    ..tree
                },
            ),
            _ => Some(Tree { nodes: tree.nodes.push(node), ..tree }),
        },
        LexResultView::ChangeTo(id) => Some(Tree { working_id: id, ..tree }),
        LexResultView::Up => Some(
            Tree { working_id: tree.nodes[tree.working_id as int].parent, ..tree },
        ),
    }
}

/// How far results could be applied: the tree they left, and whether all of
/// them were applied.
pub struct Growth {
    pub tree: Tree,
    pub complete: bool,
}

/// The tree after the results from place `from` on, in order. The first
/// result that cannot be applied ends the growth.
pub open spec fn applied_from(tree: Tree, results: Seq<LexResultView>, from: int) -> Growth
    decreases results.len() - from,
{
    if from < 0 || from >= results.len() {
        Growth { tree, complete: true }
    } else {
        match applied(tree, results[from]) {
            Some(next) => applied_from(next, results, from + 1),
            None => Growth { tree, complete: false },
        }
    }
}

/// Whether the tree can take each of the results from place `from` on, at
/// the time when it comes.
pub open spec fn admissible_from(tree: Tree, results: Seq<LexResultView>, from: int) -> bool
    decreases results.len() - from,
{
    if from < 0 || from >= results.len() {
        true
    } else {
        &&& admissible(tree, results[from])
        &&& match applied(tree, results[from]) {
            Some(next) => admissible_from(next, results, from + 1),
            None => true,
        }
    }
}

/// The results of a symbol, and none where it has none.
pub open spec fn results_of(lexing: Lexing) -> Seq<LexResultView> {
    match lexing.results {
        Some(results) => results,
        None => Seq::empty(),
    }
}

/// What `symbol` comes to at `tree`.
pub open spec fn lexed_at(
    registry: Map<Seq<char>, Seq<char>>,
    tree: Tree,
    symbol: SymbolView,
    capacity: nat,
) -> Lexing {
    lexed(
        registry,
        tree.nodes[tree.working_id as int],
        symbol,
        tree.carryover,
        capacity,
        tree.nodes.len() as u64,
        tree.scope,
    )
}

/// The tree after one more symbol: what the symbol leaves is carried over,
/// and its results are applied in order.
pub open spec fn grown(
    registry: Map<Seq<char>, Seq<char>>,
    tree: Tree,
    symbol: SymbolView,
    capacity: nat,
) -> Growth {
    let lexing = lexed_at(registry, tree, symbol, capacity);
    applied_from(Tree { carryover: lexing.carryover, ..tree }, results_of(lexing), 0)
}

/// The tree after all of `symbols`, from the seed. The first symbol that
/// defines a function anew ends the growth.
pub open spec fn built(registry: Map<Seq<char>, Seq<char>>, symbols: Seq<SymbolView>, capacity: nat)
    -> Growth
    decreases symbols.len(),
{
    if symbols.len() == 0 {
        Growth { tree: seed(), complete: true }
    } else {
        let before = built(registry, symbols.drop_last(), capacity);
        if before.complete {
            grown(registry, before.tree, symbols.last(), capacity)
        } else {
            before
        }
    }
}

/// A tree in order stays in order under a result that it can take, and
/// grows by one node at most.
pub proof fn lemma_applied_wf(tree: Tree, result: LexResultView)
    requires
        tree.wf(),
        admissible(tree, result),
        tree.nodes.len() < u64::MAX,
    ensures
        applied(tree, result) matches Some(next) ==> {
            &&& next.wf()
            &&& tree.nodes.len() <= next.nodes.len() <= tree.nodes.len() + 1
            &&& next.carryover == tree.carryover
        },
{
    if let Some(next) = applied(tree, result) {
        match result {
            LexResultView::New(node) => {
                assert(next.nodes =~= tree.nodes.push(node));
                assert forall|i: int| 0 <= i < next.nodes.len() implies {
                    &&& (#[trigger] next.nodes[i]).id == i
                    &&& (i == 0 ==> next.nodes[i].parent == 0)
                    &&& (i > 0 ==> next.nodes[i].parent < i)
                } by {
                    if i < tree.nodes.len() {
                        assert(next.nodes[i] == tree.nodes[i]);
                    }
                }
            },
            LexResultView::Up => {
                let at = tree.working_id as int;
                assert(tree.nodes[at].id == at);
            },
            _ => {},
        }
    }
}

/// The tree can take the results of any symbol, each at its time.
pub proof fn lemma_lexed_admissible(
    registry: Map<Seq<char>, Seq<char>>,
    tree: Tree,
    symbol: SymbolView,
    capacity: nat,
)
    requires
        tree.wf(),
        tree.nodes.len() + 1 < u64::MAX,
    ensures
        ({
            let lexing = lexed_at(registry, tree, symbol, capacity);
            admissible_from(Tree { carryover: lexing.carryover, ..tree }, results_of(lexing), 0)
        }),
{
    reveal_with_fuel(admissible_from, 5);
    let at = tree.working_id as int;
    assert(tree.nodes[at].id == at);
}

/// How many of the results are new nodes.
pub open spec fn news(results: Seq<LexResultView>) -> nat
    decreases results.len(),
{
    if results.len() == 0 {
        0
    } else if results.last() is New {
        news(results.drop_last()) + 1
    } else {
        news(results.drop_last())
    }
}

/// The first results hold no more new nodes than all of them.
pub proof fn lemma_news_grow(results: Seq<LexResultView>, upto: int)
    requires
        0 <= upto <= results.len(),
    ensures
        news(results.take(upto)) <= news(results),
    decreases results.len() - upto,
{
    if upto == results.len() {
        assert(results.take(upto) =~= results);
    } else {
        assert(results.take(upto + 1).drop_last() =~= results.take(upto));
        lemma_news_grow(results, upto + 1);
    }
}

/// No symbol has more than three results, nor more than two new nodes.
pub proof fn lemma_results_short(
    registry: Map<Seq<char>, Seq<char>>,
    tree: Tree,
    symbol: SymbolView,
    capacity: nat,
)
    ensures
        results_of(lexed_at(registry, tree, symbol, capacity)).len() <= 3,
        news(results_of(lexed_at(registry, tree, symbol, capacity))) <= 2,
{
    reveal_with_fuel(news, 5);
    let results = results_of(lexed_at(registry, tree, symbol, capacity));
    if results.len() == 3 {
        assert(results.drop_last().drop_last().drop_last() =~= Seq::<LexResultView>::empty());
    }
}

/// A growth that has stopped stays where it stopped.
pub proof fn lemma_built_stops(
    registry: Map<Seq<char>, Seq<char>>,
    symbols: Seq<SymbolView>,
    upto: int,
    capacity: nat,
)
    requires
        0 <= upto <= symbols.len(),
        !built(registry, symbols.take(upto), capacity).complete,
    ensures
        built(registry, symbols, capacity) == built(registry, symbols.take(upto), capacity),
    decreases symbols.len() - upto,
{
    if upto == symbols.len() {
        assert(symbols.take(upto) =~= symbols);
    } else {
        assert(symbols.take(upto + 1).drop_last() =~= symbols.take(upto));
        lemma_built_stops(registry, symbols, upto + 1, capacity);
    }
}

/// The values of a buffer after a push are the values before it after a
/// push of the value.
pub proof fn lemma_views_pushed(items: Seq<Symbol>, capacity: nat, item: Symbol)
    ensures
        views(pushed(items, capacity, item)) == pushed(views(items), capacity, item@),
{
    if items.len() >= capacity && items.len() > 0 {
        assert(views(items.drop_last().push(item)) =~= views(items).drop_last().push(item@));
    } else {
        assert(views(items.push(item)) =~= views(items).push(item@));
    }
}

/// Whether `text` is the one code point `c`.
fn is_one(text: &str, c: char) -> (b: bool)
    ensures
        b == one(text@, c),
{
    text.unicode_len() == 1 && text.get_char(0) == c
}

/// The text of `chars` from `from` up to `to`.
fn slice_text(chars: &Vec<char>, from: usize, to: usize) -> (text: String)
    requires
        from <= to <= chars.len(),
    ensures
        text@ == chars@.subrange(from as int, to as int),
{
    let mut text = String::new();
    let mut at = from;
    while at < to
        invariant
            from <= at <= to <= chars.len(),
            text@ == chars@.subrange(from as int, at as int),
        decreases to - at,
    {
        text.push(chars[at]);
        assert(chars@.subrange(from as int, at as int).push(chars@[at as int])
            =~= chars@.subrange(from as int, at + 1));
        at = at + 1;
    }
    text
}

/// The node that `symbol` gives.
fn new_child(id: u64, token: TokenTypes, symbol: &Symbol, parent: u64) -> (made: Node)
    requires
        symbol@.wf(),
    ensures
        made@ == child(id, token@, symbol@, parent),
{
    Node::new(id, token, symbol.start, parent, symbol.len())
}

/// The results that add one node under `parent`.
fn emit_added(token: TokenTypes, parent: u64, symbol: &Symbol, next_id: u64) -> (results: Vec<
    LexResult,
>)
    requires
        symbol@.wf(),
    ensures
        result_views(results@) == added(token@, parent, symbol@, next_id),
{
    let mut results: Vec<LexResult> = Vec::new();
    results.push(LexResult::New(new_child(next_id, token, symbol, parent)));
    assert(result_views(results@) =~= added(token@, parent, symbol@, next_id));
    results
}

/// The results that add one node under `parent` and move to it.
fn emit_opened(token: TokenTypes, parent: u64, symbol: &Symbol, next_id: u64) -> (results: Vec<
    LexResult,
>)
    requires
        symbol@.wf(),
    ensures
        result_views(results@) == opened(token@, parent, symbol@, next_id),
{
    let mut results: Vec<LexResult> = Vec::new();
    results.push(LexResult::New(new_child(next_id, token, symbol, parent)));
    results.push(LexResult::ChangeTo(next_id));
    assert(result_views(results@) =~= opened(token@, parent, symbol@, next_id));
    results
}

/// The results that add a node and a statement under it, and move to the
/// statement.
fn emit_opened_statement(token: TokenTypes, parent: u64, symbol: &Symbol, next_id: u64) -> (results:
    Vec<LexResult>)
    requires
        symbol@.wf(),
        next_id < u64::MAX,
    ensures
        result_views(results@) == opened_statement(token@, parent, symbol@, next_id),
{
    let mut results: Vec<LexResult> = Vec::new();
    results.push(LexResult::New(new_child(next_id, token, symbol, parent)));
    results.push(
        LexResult::New(new_child(next_id + 1, TokenTypes::Statement, symbol, next_id)),
    );
    results.push(LexResult::ChangeTo(next_id + 1));
    assert(result_views(results@) =~= opened_statement(token@, parent, symbol@, next_id));
    results
}

/// The results that add a statement, move to it and add a type under it.
fn emit_opened_declaration(data_type: DataTypes, parent: u64, symbol: &Symbol, next_id: u64)
    -> (results: Vec<LexResult>)
    requires
        symbol@.wf(),
        next_id < u64::MAX,
    ensures
        result_views(results@) == opened_declaration(data_type, parent, symbol@, next_id),
{
    let mut results: Vec<LexResult> = Vec::new();
    results.push(
        LexResult::New(Node::new(next_id, TokenTypes::Statement, symbol.start, parent, 0)),
    );
    results.push(LexResult::ChangeTo(next_id));
    results.push(
        LexResult::New(new_child(next_id + 1, TokenTypes::Type(data_type), symbol, next_id)),
    );
    assert(result_views(results@) =~= opened_declaration(data_type, parent, symbol@, next_id));
    results
}

/// The results that move up once.
fn emit_up() -> (results: Vec<LexResult>)
    ensures
        result_views(results@) == up(),
{
    let mut results: Vec<LexResult> = Vec::new();
    results.push(LexResult::Up);
    assert(result_views(results@) =~= up());
    results
}

/// The results that move up twice.
fn emit_up_twice() -> (results: Vec<LexResult>)
    ensures
        result_views(results@) == up_twice(),
{
    let mut results: Vec<LexResult> = Vec::new();
    results.push(LexResult::Up);
    results.push(LexResult::Up);
    assert(result_views(results@) =~= up_twice());
    results
}

/// Whether `chars` are a statement delimiter.
fn is_end_of_statement(chars: &Vec<char>) -> (b: bool)
    ensures
        b == ends_statement(chars@),
{
    chars.len() == 1 && (chars[0] == ';' || chars[0] == '\n')
}

impl Parser {
    /// What `symbol` is where a literal or a reference may stand, as a node
    /// under `working_node`; `None` where it is neither.
    pub fn lex_literals(
        &self,
        symbol: &Symbol,
        working_node: &Node,
        next_id: u64,
        scope: &Scope,
    ) -> (results: Option<Vec<LexResult>>)
        requires
            symbol@.wf(),
        ensures
            optional_results(results) == resolved(working_node.id, symbol@, next_id, scope@),
    {
        let chars = chars_of(symbol.symbol.as_str());
        let n = chars.len();
        let parent = working_node.id;
        if let Some(operator) = Operators::from_chars(&chars) {
            return Some(emit_added(TokenTypes::Operator(operator), parent, symbol, next_id));
        }
        if n > 0 && chars[0] == 'q' {
            let content = if n >= 3 {
                slice_text(&chars, 2, n - 1)
            } else {
                String::new()
            };
            return Some(emit_added(TokenTypes::LiteralString(content), parent, symbol, next_id));
        }
        if n > 0 && chars[0] == '"' {
            let content = if n >= 2 {
                slice_text(&chars, 1, n - 1)
            } else {
                String::new()
            };
            return Some(emit_added(TokenTypes::LiteralString(content), parent, symbol, next_id));
        }
        if is_float(&chars) {
            return Some(
                emit_added(
                    TokenTypes::LiteralFloat(symbol.symbol.clone()),
                    parent,
                    symbol,
                    next_id,
                ),
            );
        }
        if let Some(value) = parse_int(&chars) {
            return Some(emit_added(TokenTypes::LiteralInt(value), parent, symbol, next_id));
        }
        if scope.function_exists(&symbol.symbol) {
            return Some(
                emit_opened(TokenTypes::Call(symbol.symbol.clone()), parent, symbol, next_id),
            );
        }
        if scope.variable_exists(&symbol.symbol) {
            return Some(
                emit_added(TokenTypes::Variable(symbol.symbol.clone()), parent, symbol, next_id),
            );
        }
        None
    }

    /// What `symbol` does where the node at which the builder stands has
    /// nothing to say of it.
    fn lex_anywhere(
        working_node: &Node,
        symbol: &Symbol,
        carryover: &mut Conveyor<Symbol>,
        next_id: u64,
    ) -> (results: Option<Vec<LexResult>>)
        requires
            symbol@.wf(),
        ensures
            ({
                let lexing = lexed_anywhere(
                    working_node@,
                    symbol@,
                    views(old(carryover)@),
                    old(carryover).capacity(),
                    next_id,
                );
                &&& optional_results(results) == lexing.results
                &&& views(final(carryover)@) == lexing.carryover
            }),
            final(carryover).capacity() == old(carryover).capacity(),
    {
        if is_one(symbol.symbol.as_str(), '#') {
            carryover.push(symbol.clone());
            proof {
                lemma_views_pushed(old(carryover)@, old(carryover).capacity(), *symbol);
            }
            return None;
        }
        let marked = match carryover.last() {
            Some(carry) => is_one(carry.symbol.as_str(), '#'),
            None => false,
        };
        assert(carryover@.len() > 0 ==> views(carryover@).last() == carryover@.last()@);
        if marked {
            carryover.pop();
            assert(views(carryover@) =~= views(old(carryover)@).drop_last());
            return Some(
                emit_opened(
                    TokenTypes::Function(symbol.symbol.clone()),
                    working_node.id,
                    symbol,
                    next_id,
                ),
            );
        }
        None
    }

    /// What `symbol` does to the tree while the builder stands at
    /// `working_node`: the results in the order in which they apply, or
    /// `None` where it does nothing. `next_id` is the id that the next new
    /// node gets. `carryover` holds the symbols carried over from earlier
    /// ones, and takes those that this one leaves.
    pub fn lex(
        &mut self,
        working_node: &Node,
        symbol: &Symbol,
        carryover: &mut Conveyor<Symbol>,
        next_id: u64,
        scope: &Scope,
    ) -> (results: Option<Vec<LexResult>>)
        requires
            symbol@.wf(),
            next_id < u64::MAX,
        ensures
            ({
                let lexing = lexed(
                    entries(old(self).functions),
                    working_node@,
                    symbol@,
                    views(old(carryover)@),
                    old(carryover).capacity(),
                    next_id,
                    scope@,
                );
                &&& optional_results(results) == lexing.results
                &&& views(final(carryover)@) == lexing.carryover
            }),
            final(carryover).capacity() == old(carryover).capacity(),
            *final(self) == *old(self),
    {
        let chars = chars_of(symbol.symbol.as_str());
        let n = chars.len();
        let at = working_node.id;
        let one_char = n == 1;
        let is_shift = n == 2 && chars[0] == '<' && chars[1] == '<';
        assert(carryover@.len() > 0 ==> views(carryover@).last() == carryover@.last()@);
        match &working_node.token {
            TokenTypes::Function(_) => {
                let closed = match carryover.last() {
                    Some(carry) => is_one(carry.symbol.as_str(), '}'),
                    None => false,
                };
                if closed {
                    carryover.pop();
                    assert(views(carryover@) =~= views(old(carryover)@).drop_last());
                    return Some(emit_up());
                }
                if one_char && chars[0] == '(' {
                    return Some(emit_opened(TokenTypes::Params, at, symbol, next_id));
                }
                if one_char && chars[0] == '{' {
                    return Some(emit_opened(TokenTypes::Body, at, symbol, next_id));
                }
                if is_shift {
                    return Some(
                        emit_opened_statement(TokenTypes::ShortReturn, at, symbol, next_id),
                    );
                }
                if let Some(data_type) = DataTypes::from_chars(&chars) {
                    return Some(emit_added(TokenTypes::Type(data_type), at, symbol, next_id));
                }
            },
            TokenTypes::Params => {
                if one_char && chars[0] == ')' {
                    return Some(emit_up());
                }
                if one_char && chars[0] == ',' {
                    return None;
                }
                if let Some(data_type) = DataTypes::from_chars(&chars) {
                    return Some(emit_opened(TokenTypes::Type(data_type), at, symbol, next_id));
                }
            },
            TokenTypes::Type(_) => {
                if one_char && chars[0] == '<' {
                    return Some(emit_opened(TokenTypes::Generic, at, symbol, next_id));
                }
                let mut results = emit_added(
                    TokenTypes::Variable(symbol.symbol.clone()),
                    at,
                    symbol,
                    next_id,
                );
                results.push(LexResult::Up);
                assert(result_views(results@) =~= added(
                    TokenView::Variable(symbol@.text),
                    at,
                    symbol@,
                    next_id,
                ).push(LexResultView::Up));
                return Some(results);
            },
            TokenTypes::Generic => {
                if one_char && chars[0] == '>' {
                    return Some(emit_up());
                }
                if one_char && chars[0] == ',' {
                    return None;
                }
                if let Some(data_type) = DataTypes::from_chars(&chars) {
                    return Some(emit_added(TokenTypes::Type(data_type), at, symbol, next_id));
                }
            },
            TokenTypes::Body => {
                if one_char && chars[0] == '}' {
                    carryover.push(symbol.clone());
                    proof {
                        lemma_views_pushed(old(carryover)@, old(carryover).capacity(), *symbol);
                    }
                    return Some(emit_up());
                }
                if is_shift {
                    return Some(emit_opened_statement(TokenTypes::Return, at, symbol, next_id));
                }
                if let Some(data_type) = DataTypes::from_chars(&chars) {
                    return Some(emit_opened_declaration(data_type, at, symbol, next_id));
                }
                if let Some(function) = self.functions.get(&symbol.symbol) {
                    return Some(emit_opened(TokenTypes::Call(function), at, symbol, next_id));
                }
            },
            TokenTypes::Call(_) => {
                if one_char && chars[0] == '(' {
                    return Some(emit_opened(TokenTypes::CallParams, at, symbol, next_id));
                }
            },
            TokenTypes::CallParams => {
                if one_char && chars[0] == ')' {
                    return Some(emit_up_twice());
                }
                if let Some(lex_results) = self.lex_literals(symbol, working_node, next_id, scope) {
                    return Some(lex_results);
                }
            },
            TokenTypes::Statement => {
                if is_end_of_statement(&chars) {
                    return Some(emit_up());
                }
                if let Some(lex_results) = self.lex_literals(symbol, working_node, next_id, scope) {
                    return Some(lex_results);
                }
            },
            TokenTypes::Return => {
                if is_end_of_statement(&chars) {
                    return Some(emit_up());
                }
                if let Some(lex_results) = self.lex_literals(symbol, working_node, next_id, scope) {
                    return Some(lex_results);
                }
            },
            TokenTypes::ShortReturn => {
                if is_end_of_statement(&chars) {
                    return Some(emit_up_twice());
                }
                if let Some(lex_results) = self.lex_literals(symbol, working_node, next_id, scope) {
                    return Some(lex_results);
                }
            },
            _ => {},
        }
        Self::lex_anywhere(working_node, symbol, carryover, next_id)
    }
}

/// The tree builder between two symbols: the arena of nodes, the id of the
/// node at which the builder stands, the names in scope, and the symbols
/// carried over from one symbol to the next.
pub struct TokenizerState {
    pub nodes: Vec<Node>,
    pub working_id: u64,
    pub scope: Scope,
    pub carryover: Conveyor<Symbol>,
}

impl View for TokenizerState {
    type V = Tree;

    open spec fn view(&self) -> Tree {
        Tree {
            nodes: node_views(self.nodes@),
            working_id: self.working_id,
            scope: self.scope@,
            carryover: views(self.carryover@),
        }
    }
}

impl Default for TokenizerState {
    /// The builder before the first symbol.
    fn default() -> (state: Self)
        ensures
            state@ == seed(),
            state@.wf(),
            state.carryover.capacity() == CARRYOVER_SIZE,
    {
        let mut nodes: Vec<Node> = Vec::new();
        nodes.push(Node::root());
        let state = Self {
            nodes,
            working_id: 0,
            scope: Scope::default(),
            carryover: Conveyor::new(CARRYOVER_SIZE),
        };
        assert(state@.nodes =~= seed().nodes);
        assert(state@.carryover =~= seed().carryover);
        state
    }
}

impl TokenizerState {
    /// Applies one result to the tree. A function whose name is in scope
    /// already is refused as a syntax error, and the tree stays as it was.
    pub fn apply(&mut self, result: LexResult) -> (outcome: Result<(), ParseError>)
        requires
            old(self)@.wf(),
            admissible(old(self)@, result@),
            old(self)@.nodes.len() < u64::MAX,
        ensures
            match applied(old(self)@, result@) {
                Some(next) => outcome is Ok && final(self)@ == next,
                None => outcome == Err::<(), ParseError>(ParseError::Syntax) && final(self)@ == old(
                    self,
                )@,
            },
            final(self)@.wf(),
            final(self).carryover == old(self).carryover,
    {
        proof {
            lemma_applied_wf(self@, result@);
        }
        match result {
            LexResult::New(node) => {
                match &node.token {
                    TokenTypes::Variable(var) => {
                        let _ = self.scope.insert_variable(var.clone());
                    },
                    TokenTypes::Function(fun) => {
                        if self.scope.insert_function(fun.clone()).is_err() {
                            return Err(ParseError::Syntax);
                        }
                        self.scope.clear_variables();
                    },
                    _ => {},
                }
                self.nodes.push(node);
                assert(node_views(self.nodes@) =~= node_views(old(self).nodes@).push(node@));
                assert(self@ == applied(old(self)@, result@)->0);
            },
            LexResult::ChangeTo(node_id) => {
                self.working_id = node_id;
                assert(self@ == applied(old(self)@, result@)->0);
            },
            LexResult::Up => {
                assert(node_views(self.nodes@).len() == self.nodes@.len());
                assert(node_views(self.nodes@)[self.working_id as int]
                    == self.nodes@[self.working_id as int]@);
                let held = self.nodes.len();
                assert(self.working_id < held);
                let parent = self.nodes[self.working_id as usize].parent;
                assert(parent == old(self)@.nodes[old(self)@.working_id as int].parent);
                self.working_id = parent;
                assert(result@ is Up);
                assert(self@.working_id == applied(old(self)@, result@)->0.working_id);
                assert(self@.nodes == applied(old(self)@, result@)->0.nodes);
                assert(self@.scope == applied(old(self)@, result@)->0.scope);
                assert(self@.carryover == applied(old(self)@, result@)->0.carryover);
                assert(self@ == applied(old(self)@, result@)->0);
            },
            LexResult::Nothing => {
                assert(self@ == applied(old(self)@, result@)->0);
            },
        }
        Ok(())
    }
}

impl Parser {
    /// Takes one more symbol into the tree: finds what the symbol does at the
    /// node at which the builder stands, and applies it. A symbol that defines
    /// a function anew is a syntax error, at which the growth stops.
    pub fn tokenize_symbol(&mut self, state: &mut TokenizerState, symbol: &Symbol) -> (outcome:
        Result<(), ParseError>)
        requires
            old(state)@.wf(),
            old(state)@.nodes.len() + 2 < u64::MAX,
            symbol@.wf(),
        ensures
            ({
                let growth = grown(
                    entries(old(self).functions),
                    old(state)@,
                    symbol@,
                    old(state).carryover.capacity(),
                );
                &&& final(state)@ == growth.tree
                &&& outcome is Ok <==> growth.complete
                &&& outcome is Err ==> outcome == Err::<(), ParseError>(ParseError::Syntax)
            }),
            final(state)@.wf(),
            final(state)@.nodes.len() <= old(state)@.nodes.len() + 2,
            final(state).carryover.capacity() == old(state).carryover.capacity(),
            *final(self) == *old(self),
    {
        let ghost registry = entries(self.functions);
        let ghost before = state@;
        let ghost capacity = state.carryover.capacity();
        let ghost lexing = lexed_at(registry, before, symbol@, capacity);
        let ghost all = results_of(lexing);
        proof {
            lemma_lexed_admissible(registry, before, symbol@, capacity);
            lemma_results_short(registry, before, symbol@, capacity);
            assert(node_views(state.nodes@)[state.working_id as int]
                == state.nodes@[state.working_id as int]@);
        }
        let next_id = state.nodes.len() as u64;
        let lex_result = self.lex(
            &state.nodes[state.working_id as usize],
            symbol,
            &mut state.carryover,
            next_id,
            &state.scope,
        );
        let mut results = match lex_result {
            Some(results) => results,
            None => Vec::new(),
        };
        assert(result_views(results@) =~= all);
        assert(all.take(0) =~= Seq::<LexResultView>::empty());
        let ghost mut done: int = 0;
        while results.len() > 0
            invariant
                before == old(state)@,
                capacity == old(state).carryover.capacity(),
                registry == entries(old(self).functions),
                lexing == lexed_at(registry, before, symbol@, capacity),
                all == results_of(lexing),
                0 <= done <= all.len(),
                all.len() <= 3,
                result_views(results@) == all.skip(done),
                state@.wf(),
                state@.nodes.len() == before.nodes.len() + news(all.take(done)),
                news(all) <= 2,
                before.nodes.len() + 2 < u64::MAX,
                admissible_from(state@, all, done),
                applied_from(Tree { carryover: lexing.carryover, ..before }, all, 0)
                    == applied_from(state@, all, done),
                state.carryover.capacity() == capacity,
                *self == *old(self),
            decreases results.len(),
        {
            let ghost rest = results@;
            let result = results.remove(0);
            proof {
                assert(result_views(rest).len() == rest.len());
                assert(all.skip(done).len() == all.len() - done);
                assert(results@.len() == rest.len() - 1);
                assert(result_views(rest)[0] == rest[0]@);
                assert(result@ == all.skip(done)[0]);
                assert forall|j: int| 0 <= j < results@.len() implies result_views(results@)[j]
                    == all.skip(done + 1)[j] by {
                    assert(results@[j] == rest[j + 1]);
                    assert(result_views(rest)[j + 1] == rest[j + 1]@);
                    assert(all.skip(done)[j + 1] == all.skip(done + 1)[j]);
                }
                assert(result_views(results@) =~= all.skip(done + 1));
                lemma_news_grow(all, done);
                assert(all.take(done + 1).drop_last() =~= all.take(done));
                assert(all.take(done + 1).last() == result@);
                lemma_news_grow(all, done + 1);
                lemma_applied_wf(state@, result@);
            }
            let ghost at = state@;
            match state.apply(result) {
                Err(error) => {
                    assert(all[done] == result@);
                    assert(!applied_from(state@, all, done).complete);
                    return Err(error);
                },
                Ok(()) => {},
            }
            proof {
                done = done + 1;
            }
        }
        proof {
            assert(all.take(done) =~= all);
        }
        Ok(())
    }

    /// Grows the tree of a whole list of symbols. A symbol that defines a
    /// function anew is a syntax error.
    pub fn tokenize_symbols(&mut self, symbols: Vec<Symbol>) -> (result: Result<
        Vec<Node>,
        ParseError,
    >)
        requires
            all_wf(views(symbols@)),
            2 * symbols@.len() + 3 < u64::MAX,
        ensures
            ({
                let growth = built(
                    entries(old(self).functions),
                    views(symbols@),
                    CARRYOVER_SIZE as nat,
                );
                if growth.complete {
                    result matches Ok(nodes) && node_views(nodes@) == growth.tree.nodes
                } else {
                    result matches Err(error) && error == ParseError::Syntax
                }
            }),
            result matches Ok(nodes) ==> in_order(node_views(nodes@)),
            *final(self) == *old(self),
    {
        let ghost registry = entries(self.functions);
        let ghost list = views(symbols@);
        let mut state = TokenizerState::default();
        let mut i: usize = 0;
        assert(list.take(0) =~= Seq::<SymbolView>::empty());
        while i < symbols.len()
            invariant
                i <= symbols.len(),
                list == views(symbols@),
                all_wf(list),
                2 * symbols@.len() + 3 < u64::MAX,
                registry == entries(self.functions),
                *self == *old(self),
                state@.wf(),
                state@.nodes.len() <= 1 + 2 * i,
                state.carryover.capacity() == CARRYOVER_SIZE,
                built(registry, list.take(i as int), CARRYOVER_SIZE as nat) == (Growth {
                    tree: state@,
                    complete: true,
                }),
            decreases symbols.len() - i,
        {
            proof {
                assert(list.take(i + 1).drop_last() =~= list.take(i as int));
                assert(list.take(i + 1).last() == symbols@[i as int]@);
                assert(list[i as int].wf());
            }
            match self.tokenize_symbol(&mut state, &symbols[i]) {
                Err(error) => {
                    proof {
                        lemma_built_stops(registry, list, i + 1, CARRYOVER_SIZE as nat);
                    }
                    return Err(error);
                },
                Ok(()) => {},
            }
            i = i + 1;
        }
        assert(list.take(i as int) =~= list);
        Ok(state.nodes)
    }
}

} // verus!
