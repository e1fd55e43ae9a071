//! The parser: a symbolizer that cuts code points into positioned symbols,
//! and a tree builder that grows the syntax tree from them.

pub use crate::engine::builder::{LexResult, TokenizerState};
use crate::engine::builder::{built, in_order, node_views, CARRYOVER_SIZE};
use crate::engine::config::Config;
use crate::engine::symbols::{
    breaking, comment_opener, delimiter, delimiter_declarator, double_operator, double_start,
    is_breaking, is_comment_opener, is_delimiter, is_delimiter_declarator, is_double_operator,
    is_double_start, is_single_keyword, is_single_operator, single_keyword, single_operator,
};
use crate::engine::registry::{entries, Registry};
use crate::engine::types::{placed, views, Cursor, Node, NodeView, Symbol, SymbolView};
use crate::engine::util::{pushed, source_of, CharReader, Conveyor};
use vstd::prelude::*;

verus! {

/// Why a parse came to nothing.
#[derive(Debug, Clone, Copy, PartialEq, Eq, Structural)]
pub enum ParseError {
    /// The source does not follow the rules of the language.
    Syntax,
    /// What the parser was set up with cannot be used.
    Arguments,
    /// The source could not be read.
    Unknown,
    /// Something else was expected.
    Expected,
}

/// What the symbolizer remembers from one code point to the next.
#[derive(Debug, Clone, Copy, PartialEq, Eq)]
pub struct SymbolState {
    /// Inside a string, up to its closing delimiter.
    pub is_in_string: bool,
    /// The next code point is taken as it stands.
    pub is_escaping: bool,
    /// Inside a comment, up to the next statement delimiter.
    pub is_in_comment: bool,
    /// The next code point becomes the string delimiter.
    pub is_setting_string_delimiter: bool,
    /// A code point that may yet become the first of a token of two.
    pub could_be_double: Option<char>,
    /// Where the code point held in `could_be_double` stood.
    pub double_cursor: Cursor,
    /// The code point that opens and closes a string.
    pub current_string_delimiter: char,
}

impl Default for SymbolState {
    fn default() -> (state: Self)
        ensures
            state == initial_state(),
    {
        Self {
            is_in_string: false,
            is_escaping: false,
            is_in_comment: false,
            is_setting_string_delimiter: false,
            could_be_double: None,
            double_cursor: Cursor::default(),
            current_string_delimiter: '"',
        }
    }
}

/// The state before the first code point.
pub open spec fn initial_state() -> SymbolState {
    SymbolState {
        is_in_string: false,
        is_escaping: false,
        is_in_comment: false,
        is_setting_string_delimiter: false,
        could_be_double: None,
        double_cursor: Cursor { pos: 0, line: 1, column: 1 },
        current_string_delimiter: '"',
    }
}

/// What reading one code point leaves behind: the new state, the text
/// accumulated, and the symbols that the code point completed, if it
/// completed any.
pub struct Reading {
    pub state: SymbolState,
    pub buffer: Seq<char>,
    pub symbols: Option<Seq<SymbolView>>,
}

/// `items` without its last one.
pub open spec fn without_last<T>(items: Seq<T>) -> Seq<T> {
    if items.len() > 0 {
        items.drop_last()
    } else {
        items
    }
}

/// The place one code point before `cursor`, on the same line.
pub open spec fn back(cursor: Cursor) -> Cursor {
    Cursor { pos: (cursor.pos - 1) as u64, line: cursor.line, column: (cursor.column - 1) as u64 }
}

/// The text of one code point.
pub open spec fn text1(c: char) -> Seq<char> {
    Seq::<char>::empty().push(c)
}

/// The text of two code points.
pub open spec fn text2(first: char, second: char) -> Seq<char> {
    Seq::<char>::empty().push(first).push(second)
}

/// The symbols that the end of accumulated text gives: the text, where there
/// is any, as a symbol that ends one place before `cursor`.
pub open spec fn flushed(text: Seq<char>, cursor: Cursor) -> Seq<SymbolView> {
    if text.len() > 0 {
        Seq::<SymbolView>::empty().push(placed(text, back(cursor)))
    } else {
        Seq::<SymbolView>::empty()
    }
}

/// Reading `c` where it is neither escaped nor part of a comment, and no
/// earlier code point waits to be paired with it. `buffer` holds the text
/// accumulated so far, `c` included as its last code point.
///
/// In order: the string delimiter opens a string, or closes it and gives the
/// whole of it as a symbol, after which `reset` is the delimiter again;
/// inside a string everything is kept; a code point that may begin a token
/// of two ends the text before it and waits for its successor; a delimiter,
/// bracket, separator, operator or keyword ends the text before it and,
/// unless it is a space, stands as a symbol of its own; anything else stays
/// in the buffer.
#[verifier::opaque]
pub open spec fn read_plain(
    state: SymbolState,
    buffer: Seq<char>,
    c: char,
    cursor: Cursor,
    reset: char,
) -> Reading {
    if c == state.current_string_delimiter && !state.is_in_string {
        Reading { state: SymbolState { is_in_string: true, ..state }, buffer, symbols: None }
    } else if c == state.current_string_delimiter && buffer.len() > 0 {
        Reading {
            state: SymbolState { is_in_string: false, current_string_delimiter: reset, ..state },
            buffer: Seq::empty(),
            symbols: Some(Seq::<SymbolView>::empty().push(placed(buffer, cursor))),
        }
    } else {
        let state = if c == state.current_string_delimiter {
            SymbolState { is_in_string: false, current_string_delimiter: reset, ..state }
        } else {
            state
        };
        if state.is_in_string {
            Reading { state, buffer, symbols: None }
        } else if double_start(c) {
            let text = without_last(buffer);
            Reading {
                state: SymbolState { could_be_double: Some(c), double_cursor: cursor, ..state },
                buffer: Seq::empty(),
                symbols: if text.len() > 0 {
                    Some(flushed(text, cursor))
                } else {
                    None
                },
            }
        } else if breaking(c) {
            let text = without_last(buffer);
            Reading {
                state,
                buffer: Seq::empty(),
                symbols: Some(
                    if c != ' ' {
                        flushed(text, cursor).push(placed(text1(c), cursor))
                    } else {
                        flushed(text, cursor)
                    },
                ),
            }
        } else {
            Reading { state, buffer, symbols: None }
        }
    }
}

/// Reading `c` while `first` waits to be paired. Two slashes open a comment;
/// two `q` announce a string delimiter; an operator of two code points is one
/// symbol that ends at `cursor`. Failing these, a waiting operator or keyword
/// is a symbol of its own, at the place where it stood, and `c` is then read
/// as if nothing had waited. Any other waiting code point goes on waiting.
#[verifier::opaque]
pub open spec fn read_paired(
    state: SymbolState,
    first: char,
    buffer: Seq<char>,
    c: char,
    cursor: Cursor,
    reset: char,
) -> Reading {
    if comment_opener(first, c) {
        Reading {
            state: SymbolState { is_in_comment: true, could_be_double: None, ..state },
            buffer: Seq::empty(),
            symbols: None,
        }
    } else if delimiter_declarator(first, c) {
        Reading {
            state: SymbolState {
                is_setting_string_delimiter: true,
                could_be_double: None,
                ..state
            },
            buffer,
            symbols: None,
        }
    } else if double_operator(first, c) {
        Reading {
            state: SymbolState { could_be_double: None, ..state },
            buffer: Seq::empty(),
            symbols: Some(Seq::<SymbolView>::empty().push(placed(text2(first, c), cursor))),
        }
    } else if single_operator(first) || single_keyword(first) {
        let rest = read_plain(
            SymbolState { could_be_double: None, ..state },
            buffer,
            c,
            cursor,
            reset,
        );
        let single = Seq::<SymbolView>::empty().push(placed(text1(first), state.double_cursor));
        Reading {
            state: rest.state,
            buffer: rest.buffer,
            symbols: Some(
                match rest.symbols {
                    Some(more) => single + more,
                    None => single,
                },
            ),
        }
    } else {
        read_plain(state, buffer, c, cursor, reset)
    }
}

/// Reading the code point `c`, which stands at `cursor`. `buffer` holds the
/// text accumulated so far, `c` included as its last code point; `reset` is
/// the string delimiter that a closed string leaves in force.
///
/// A backslash is dropped and marks the next code point as escaped. An
/// escaped code point stays in the buffer and does nothing else. Inside a
/// comment everything is passed over, and a statement delimiter ends the
/// comment and empties the buffer. After two `q`, the code point becomes the
/// string delimiter and a string begins.
#[verifier::opaque]
pub open spec fn read(state: SymbolState, buffer: Seq<char>, c: char, cursor: Cursor, reset: char)
    -> Reading {
    if c == '\\' {
        Reading {
            state: SymbolState { is_escaping: true, ..state },
            buffer: without_last(buffer),
            symbols: None,
        }
    } else if state.is_escaping {
        Reading { state: SymbolState { is_escaping: false, ..state }, buffer, symbols: None }
    } else if state.is_in_comment {
        if delimiter(c) {
            Reading {
                state: SymbolState { is_in_comment: false, ..state },
                buffer: Seq::empty(),
                symbols: None,
            }
        } else {
            Reading { state, buffer, symbols: None }
        }
    } else if state.is_setting_string_delimiter {
        Reading {
            state: SymbolState {
                current_string_delimiter: c,
                is_setting_string_delimiter: false,
                is_in_string: true,
                ..state
            },
            buffer,
            symbols: None,
        }
    } else {
        match state.could_be_double {
            Some(first) => read_paired(state, first, buffer, c, cursor, reset),
            None => read_plain(state, buffer, c, cursor, reset),
        }
    }
}

/// The symbols of an optional list, as values.
pub open spec fn optional_views(symbols: Option<Vec<Symbol>>) -> Option<Seq<SymbolView>> {
    match symbols {
        Some(list) => Some(views(list@)),
        None => None,
    }
}

/// Whether every symbol of the list is well formed.
pub open spec fn all_wf(symbols: Seq<SymbolView>) -> bool {
    forall|i: int| 0 <= i < symbols.len() ==> (#[trigger] symbols[i]).wf()
}

/// Whether the accumulated text, the code point at `cursor` included, lies
/// on the line of `cursor` and ends at it.
pub open spec fn fits(buffer: Seq<char>, cursor: Cursor) -> bool {
    0 < buffer.len() <= cursor.pos && buffer.len() <= cursor.column
}

/// How far the symbolizer has come: its state, the text accumulated, the
/// place of the code point read last, and the symbols given so far.
pub struct Run {
    pub state: SymbolState,
    pub buffer: Seq<char>,
    pub cursor: Cursor,
    pub symbols: Seq<SymbolView>,
}

/// The run before the first code point.
pub open spec fn start() -> Run {
    Run {
        state: initial_state(),
        buffer: Seq::empty(),
        cursor: Cursor { pos: 0, line: 1, column: 1 },
        symbols: Seq::empty(),
    }
}

/// The place of the code point that follows the one at `cursor`, as far as
/// line and column go: the next column, or the first column of the next line
/// after a line break.
pub open spec fn advanced(cursor: Cursor, c: char) -> Cursor {
    if c == '\n' {
        Cursor { pos: cursor.pos, line: (cursor.line + 1) as u64, column: 1 }
    } else {
        Cursor { pos: cursor.pos, line: cursor.line, column: (cursor.column + 1) as u64 }
    }
}

/// The run after one more code point, which is added to a buffer of
/// `capacity` code points and then read. `None` where the accumulated text
/// would go on after a line break: a token has to end on the line on which
/// it began.
pub open spec fn step(run: Run, c: char, capacity: nat, reset: char) -> Option<Run> {
    let buffer = pushed(run.buffer, capacity, c);
    let cursor = Cursor { pos: (run.cursor.pos + 1) as u64, ..run.cursor };
    if fits(buffer, cursor) {
        let reading = read(run.state, buffer, c, cursor, reset);
        Some(
            Run {
                state: reading.state,
                buffer: reading.buffer,
                cursor: advanced(cursor, c),
                symbols: run.symbols + (match reading.symbols {
                    Some(more) => more,
                    None => Seq::empty(),
                }),
            },
        )
    } else {
        None
    }
}

/// The run after all of `chars`, or `None` where a step on the way gave
/// `None`.
pub open spec fn run_of(chars: Seq<char>, capacity: nat, reset: char) -> Option<Run>
    decreases chars.len(),
{
    if chars.len() == 0 {
        Some(start())
    } else {
        match run_of(chars.drop_last(), capacity, reset) {
            Some(run) => step(run, chars.last(), capacity, reset),
            None => None,
        }
    }
}

/// The symbol that a waiting code point gives at the end of the source: an
/// operator or keyword of one code point stands as a symbol at its place.
pub open spec fn waiting(state: SymbolState) -> Seq<SymbolView> {
    match state.could_be_double {
        Some(first) => if single_operator(first) || single_keyword(first) {
            Seq::<SymbolView>::empty().push(placed(text1(first), state.double_cursor))
        } else {
            Seq::<SymbolView>::empty()
        },
        None => Seq::<SymbolView>::empty(),
    }
}

/// The place of the code point read last, from the cursor that a run holds
/// after it.
pub open spec fn last_place(cursor: Cursor) -> Cursor {
    Cursor { pos: cursor.pos, line: cursor.line, column: (cursor.column - 1) as u64 }
}

/// Whether text is left over at the end of the source: outside a comment,
/// the buffer is not empty.
pub open spec fn leftover(run: Run) -> bool {
    !run.state.is_in_comment && run.buffer.len() > 0
}

/// All symbols of a run whose source has ended: those given on the way, then
/// a waiting operator or keyword, then the text left in the buffer as a last
/// symbol. `None` where that text does not end on the line on which it
/// began.
pub open spec fn finished(run: Run) -> Option<Seq<SymbolView>> {
    if !leftover(run) {
        Some(run.symbols + waiting(run.state))
    } else if run.buffer.len() <= run.cursor.pos && run.buffer.len() < run.cursor.column {
        Some(
            (run.symbols + waiting(run.state)).push(
                placed(run.buffer, last_place(run.cursor)),
            ),
        )
    } else {
        None
    }
}

/// The symbols of a whole source, read through a buffer of `capacity` code
/// points. `None` where a token does not end on the line on which it began.
pub open spec fn symbols_of(chars: Seq<char>, capacity: nat, reset: char) -> Option<
    Seq<SymbolView>,
> {
    match run_of(chars, capacity, reset) {
        Some(run) => finished(run),
        None => None,
    }
}

/// How many code points the symbolizer accumulates for one token.
pub const ACCUMULATOR_SIZE: usize = 64;

/// The symbols of a source given as bytes, or the error that reading it ends
/// with. The source is read in the given mode, and the symbolizer takes the
/// code points as they come: a token that does not end on its line is a
/// syntax error; bytes that cannot be read, once all code points before them
/// are taken, leave the source unknown.
pub open spec fn extracted(bytes: Seq<u8>, low_mem: bool, reset: char) -> Result<
    Seq<SymbolView>,
    ParseError,
> {
    let source = source_of(bytes, low_mem);
    match run_of(source.chars, ACCUMULATOR_SIZE as nat, reset) {
        None => Err(ParseError::Syntax),
        Some(run) => if source.error is Some {
            Err(ParseError::Unknown)
        } else {
            match finished(run) {
                Some(symbols) => Ok(symbols),
                None => Err(ParseError::Syntax),
            }
        },
    }
}

/// A run that was refused stays refused, whatever follows.
pub proof fn lemma_refused_for_good(chars: Seq<char>, more: Seq<char>, capacity: nat, reset: char)
    requires
        run_of(chars, capacity, reset) is None,
    ensures
        run_of(chars + more, capacity, reset) is None,
    decreases more.len(),
{
    if more.len() == 0 {
        assert(chars + more =~= chars);
    } else {
        assert((chars + more).drop_last() =~= chars + more.drop_last());
        lemma_refused_for_good(chars, more.drop_last(), capacity, reset);
    }
}

/// The names and signatures of a list of pairs, as values.
pub open spec fn pair_texts(pairs: Seq<(String, String)>) -> Seq<(Seq<char>, Seq<char>)> {
    Seq::new(pairs.len(), |i: int| (pairs[i].0@, pairs[i].1@))
}

/// What a registration comes to: the entries after it, and whether every
/// pair went in.
pub struct Registration {
    pub entries: Map<Seq<char>, Seq<char>>,
    pub complete: bool,
}

/// Registering `pairs` in order on top of `entries`. Registration stops at
/// the first name that is registered already; the pairs before it stay
/// registered.
pub open spec fn registered(entries: Map<Seq<char>, Seq<char>>, pairs: Seq<(Seq<char>, Seq<char>)>)
    -> Registration
    decreases pairs.len(),
{
    if pairs.len() == 0 {
        Registration { entries, complete: true }
    } else if entries.contains_key(pairs[0].0) {
        Registration { entries, complete: false }
    } else {
        registered(entries.insert(pairs[0].0, pairs[0].1), pairs.drop_first())
    }
}

/// What a parse produces: the symbols of the source, the nodes of its tree,
/// and the callable names known while the tree was built.
pub struct Parsed {
    pub symbols: Seq<SymbolView>,
    pub nodes: Seq<NodeView>,
    pub entries: Map<Seq<char>, Seq<char>>,
}

/// The parse of a source given as bytes: the source is cut into symbols, the
/// pairs are registered on top of `entries`, and the tree is built from the
/// symbols. A source that cannot be cut into symbols fails as
/// `extracted` says; a name registered twice is an error of the arguments; a
/// function defined twice is a syntax error.
pub open spec fn parsed(
    bytes: Seq<u8>,
    low_mem: bool,
    reset: char,
    entries: Map<Seq<char>, Seq<char>>,
    pairs: Seq<(Seq<char>, Seq<char>)>,
) -> Result<Parsed, ParseError> {
    match extracted(bytes, low_mem, reset) {
        Err(error) => Err(error),
        Ok(symbols) => {
            let registration = registered(entries, pairs);
            let growth = built(registration.entries, symbols, CARRYOVER_SIZE as nat);
            if !registration.complete {
                Err(ParseError::Arguments)
            } else if !growth.complete {
                Err(ParseError::Syntax)
            } else {
                Ok(Parsed { symbols, nodes: growth.tree.nodes, entries: registration.entries })
            }
        },
    }
}

/// Whether a parse of `bytes` with `pairs` to register, begun with the
/// parser `before`, may leave the parser `after` and return `result`: a
/// parse that succeeds leaves its symbols, its nodes and the names it knows;
/// one that fails returns its error and leaves the nodes as they were, and
/// the whole parser where the source could not be cut into symbols.
pub open spec fn parse_leaves(
    before: Parser,
    bytes: Seq<u8>,
    pairs: Seq<(Seq<char>, Seq<char>)>,
    after: Parser,
    result: Result<(), ParseError>,
) -> bool {
    &&& match parsed(
        bytes,
        before.low_mem(),
        before.string_delimiter(),
        entries(before.functions),
        pairs,
    ) {
        Ok(outcome) => {
            &&& result is Ok
            &&& views(after.symbols@) == outcome.symbols
            &&& node_views(after.nodes@) == outcome.nodes
            &&& entries(after.functions) == outcome.entries
        },
        Err(error) => result == Err::<(), ParseError>(error) && after.nodes == before.nodes,
    }
    &&& extracted(bytes, before.low_mem(), before.string_delimiter()) is Err ==> after == before
}

/// The parser of one source: the tree and the symbols it has produced, the
/// callable names it knows, and what it was set up with.
pub struct Parser {
    pub nodes: Vec<Node>,
    pub symbols: Vec<Symbol>,
    pub functions: Registry,
    pub config: Config,
}

impl Parser {
    /// The string delimiter that the configuration names.
    pub open spec fn string_delimiter(&self) -> char {
        self.config.string_delimiter
    }

    /// Whether the configuration asks for the low-memory reader.
    pub open spec fn low_mem(&self) -> bool {
        self.config.low_mem
    }

    /// A parser set up with `config`, which has produced nothing and knows no
    /// callable name.
    pub fn new(config: Config) -> (parser: Self)
        ensures
            parser.nodes@ == Seq::<Node>::empty(),
            parser.symbols@ == Seq::<Symbol>::empty(),
            entries(parser.functions) == Map::<Seq<char>, Seq<char>>::empty(),
            parser.config == config,
    {
        Self { nodes: Vec::new(), symbols: Vec::new(), functions: Registry::new(), config }
    }

    /// A copy of a list of symbols.
    fn copy_symbols(symbols: &Vec<Symbol>) -> (copy: Vec<Symbol>)
        ensures
            copy@ == symbols@,
    {
        let mut copy: Vec<Symbol> = Vec::new();
        let mut i: usize = 0;
        while i < symbols.len()
            invariant
                i <= symbols.len(),
                copy@ == symbols@.take(i as int),
            decreases symbols.len() - i,
        {
            copy.push(symbols[i].clone());
            assert(copy@ =~= symbols@.take(i + 1));
            i = i + 1;
        }
        assert(symbols@.take(i as int) =~= symbols@);
        copy
    }

    /// Parses the source whose bytes are `file`: cuts it into symbols, which
    /// the parser keeps; registers `functions` as callable names; and builds
    /// the tree, which the parser keeps too. After an error the parser keeps
    /// what was done before it.
    pub fn parse(&mut self, file: Vec<u8>, functions: Vec<(String, String)>) -> (result: Result<
        (),
        ParseError,
    >)
        requires
            file@.len() < usize::MAX,
            file@.len() < u64::MAX / 8,
        ensures
            parse_leaves(*old(self), file@, pair_texts(functions@), *final(self), result),
            result is Ok ==> all_wf(views(final(self).symbols@)) && in_order(
                node_views(final(self).nodes@),
            ),
            final(self).config == old(self).config,
    {
        let symbols = match self.extract_symbols(file) {
            Ok(symbols) => symbols,
            Err(error) => {
                return Err(error);
            },
        };
        self.symbols = Self::copy_symbols(&symbols);
        if self.register_functions(functions).is_err() {
            return Err(ParseError::Arguments);
        }
        let nodes = match self.tokenize_symbols(symbols) {
            Ok(nodes) => nodes,
            Err(error) => {
                return Err(error);
            },
        };
        self.nodes = nodes;
        Ok(())
    }

    /// Cuts the bytes of a source into symbols. The bytes are read in the
    /// mode that the configuration names, through an accumulator of
    /// `ACCUMULATOR_SIZE` code points.
    pub fn extract_symbols(&mut self, file: Vec<u8>) -> (result: Result<Vec<Symbol>, ParseError>)
        requires
            file@.len() < usize::MAX,
        ensures
            match extracted(file@, old(self).low_mem(), old(self).string_delimiter()) {
                Ok(list) => result matches Ok(symbols) && views(symbols@) == list,
                Err(error) => result matches Err(e) && e == error,
            },
            result matches Ok(symbols) ==> all_wf(views(symbols@)) && symbols@.len() <= 3
                * file@.len() + 2,
            *final(self) == *old(self),
    {
        let ghost bytes = file@;
        let ghost source = source_of(bytes, self.low_mem());
        let ghost reset = self.string_delimiter();
        let mut reader = match CharReader::new(file, Some(self.config.low_mem)) {
            Ok(reader) => reader,
            Err(_) => {
                return Err(ParseError::Unknown);
            },
        };
        let mut char_buf: Conveyor<char> = Conveyor::new(ACCUMULATOR_SIZE);
        let mut cursor = Cursor::default();
        let mut symbol_state = SymbolState::default();
        let mut symbols: Vec<Symbol> = Vec::new();
        let ghost mut done: Seq<char> = Seq::empty();
        assert(views(symbols@) =~= Seq::<SymbolView>::empty());
        assert(done + reader.rest().chars =~= reader.rest().chars);
        loop
            invariant
                *self == *old(self),
                reset == self.string_delimiter(),
                bytes == file@,
                bytes.len() < usize::MAX,
                source == source_of(bytes, self.low_mem()),
                reader.low_memory() == self.low_mem(),
                source.chars == done + reader.rest().chars,
                source.error == reader.rest().error,
                char_buf.capacity() == ACCUMULATOR_SIZE,
                run_of(done, ACCUMULATOR_SIZE as nat, reset) == Some(
                    Run {
                        state: symbol_state,
                        buffer: char_buf@,
                        cursor,
                        symbols: views(symbols@),
                    },
                ),
                cursor.pos == done.len(),
                cursor.line <= done.len() + 1,
                cursor.column <= done.len() + 1,
                done.len() + reader.left() <= bytes.len(),
                all_wf(views(symbols@)),
                symbols@.len() <= 3 * done.len(),
            ensures
                *self == *old(self),
                reset == self.string_delimiter(),
                source.chars == done,
                source.error is None,
                run_of(done, ACCUMULATOR_SIZE as nat, reset) == Some(
                    Run {
                        state: symbol_state,
                        buffer: char_buf@,
                        cursor,
                        symbols: views(symbols@),
                    },
                ),
                char_buf.capacity() == ACCUMULATOR_SIZE,
                all_wf(views(symbols@)),
                symbols@.len() <= 3 * bytes.len(),
            decreases reader.left(),
        {
            let ghost before = reader.rest();
            let ghost held = reader.left();
            proof {
                if reader.low_memory() && reader.bytes_left().len() > 0 {
                    crate::engine::util::lemma_decoded_within(reader.bytes_left());
                }
            }
            match reader.next() {
                Err(_) => {
                    assert(done + before.chars =~= done);
                    return Err(ParseError::Unknown);
                },
                Ok(None) => {
                    assert(done + before.chars =~= done);
                    break ;
                },
                Ok(Some(character)) => {
                    assert(before.chars =~= Seq::<char>::empty().push(character)
                        + reader.rest().chars);
                    assert(done + before.chars =~= done.push(character) + reader.rest().chars);
                    assert(done.push(character).drop_last() =~= done);
                    assert(reader.left() < held);
                    match self.read_char(
                        character,
                        &mut char_buf,
                        &mut cursor,
                        &mut symbol_state,
                        &mut symbols,
                    ) {
                        Err(error) => {
                            proof {
                                assert(run_of(done.push(character), ACCUMULATOR_SIZE as nat, reset)
                                    is None);
                                lemma_refused_for_good(
                                    done.push(character),
                                    reader.rest().chars,
                                    ACCUMULATOR_SIZE as nat,
                                    reset,
                                );
                            }
                            return Err(error);
                        },
                        Ok(()) => {},
                    }
                    proof {
                        assert(run_of(done.push(character), ACCUMULATOR_SIZE as nat, reset)
                            == Some(
                            Run {
                                state: symbol_state,
                                buffer: char_buf@,
                                cursor,
                                symbols: views(symbols@),
                            },
                        ));
                        done = done.push(character);
                    }
                },
            }
        }
        match self.read_end(&mut char_buf, &cursor, &mut symbol_state, &mut symbols) {
            Err(error) => Err(error),
            Ok(()) => Ok(symbols),
        }
    }

    /// Registers callable names with their signatures, in order. A name that
    /// is registered already stops the registration and is an error; the
    /// pairs before it stay registered.
    pub fn register_functions(&mut self, functions: Vec<(String, String)>) -> (result: Result<
        (),
        (),
    >)
        ensures
            ({
                let outcome = registered(
                    entries(old(self).functions),
                    pair_texts(functions@),
                );
                &&& entries(final(self).functions) == outcome.entries
                &&& result is Ok <==> outcome.complete
            }),
            final(self).nodes == old(self).nodes,
            final(self).symbols == old(self).symbols,
            final(self).config == old(self).config,
    {
        let ghost pairs = pair_texts(functions@);
        let mut i: usize = 0;
        assert(pairs.skip(0) =~= pairs);
        while i < functions.len()
            invariant
                i <= functions.len(),
                pairs == pair_texts(functions@),
                registered(entries(old(self).functions), pairs) == registered(
                    entries(self.functions),
                    pairs.skip(i as int),
                ),
                self.nodes == old(self).nodes,
                self.symbols == old(self).symbols,
                self.config == old(self).config,
            decreases functions.len() - i,
        {
            let call = functions[i].0.clone();
            let function = functions[i].1.clone();
            assert(pairs.skip(i as int)[0] == pairs[i as int]);
            assert(pairs.skip(i as int).drop_first() =~= pairs.skip(i + 1));
            if let Some(_) = self.functions.get(&call) {
                return Err(());
            }
            self.functions.insert(call, function);
            i = i + 1;
        }
        Ok(())
    }

    /// Adds `identifier`, where it is not empty, to `symbols` as a symbol that
    /// ends one place before `cursor`.
    fn flush(identifier: String, cursor: &Cursor, symbols: &mut Vec<Symbol>)
        requires
            identifier@.len() < cursor.pos,
            identifier@.len() < cursor.column,
        ensures
            views(final(symbols)@) == views(old(symbols)@) + flushed(identifier@, *cursor),
            all_wf(views(old(symbols)@)) ==> all_wf(views(final(symbols)@)),
            final(symbols)@.len() <= old(symbols)@.len() + 1,
    {
        if identifier.as_str().unicode_len() > 0 {
            let result_cursor = Cursor {
                pos: cursor.pos - 1,
                column: cursor.column - 1,
                line: cursor.line,
            };
            let result = Symbol::new(identifier, result_cursor);
            symbols.push(result);
        }
        assert(views(symbols@) =~= views(old(symbols)@) + flushed(identifier@, *cursor));
    }

    /// Adds the one code point `c` to `symbols` as a symbol at `cursor`.
    fn single(c: char, cursor: &Cursor, symbols: &mut Vec<Symbol>)
        ensures
            views(final(symbols)@) == views(old(symbols)@).push(placed(text1(c), *cursor)),
            all_wf(views(old(symbols)@)) ==> all_wf(views(final(symbols)@)),
            final(symbols)@.len() == old(symbols)@.len() + 1,
    {
        let mut text = String::new();
        text.push(c);
        let result = Symbol::new(text, *cursor);
        symbols.push(result);
        assert(views(symbols@) =~= views(old(symbols)@).push(placed(text1(c), *cursor)));
    }

    /// Reads `character` by the rules of `read_plain`, and adds the symbols it
    /// completes to `symbols`. Returns whether it completed a list of symbols,
    /// be it an empty one.
    fn read_unpaired(
        &self,
        character: char,
        char_buf: &mut Conveyor<char>,
        cursor: &Cursor,
        symbol_state: &mut SymbolState,
        symbols: &mut Vec<Symbol>,
    ) -> (some: bool)
        requires
            fits(old(char_buf)@, *cursor),
        ensures
            ({
                let reading = read_plain(
                    *old(symbol_state),
                    old(char_buf)@,
                    character,
                    *cursor,
                    self.string_delimiter(),
                );
                &&& *final(symbol_state) == reading.state
                &&& final(char_buf)@ == reading.buffer
                &&& some == reading.symbols is Some
                &&& views(final(symbols)@) == views(old(symbols)@) + (match reading.symbols {
                    Some(more) => more,
                    None => Seq::empty(),
                })
            }),
            final(char_buf).capacity() == old(char_buf).capacity(),
            all_wf(views(old(symbols)@)) ==> all_wf(views(final(symbols)@)),
            final(symbols)@.len() <= old(symbols)@.len() + 2,
    {
        reveal(read_plain);
        if character == symbol_state.current_string_delimiter {
            if !symbol_state.is_in_string {
                symbol_state.is_in_string = true;
                assert(views(symbols@) =~= views(old(symbols)@) + Seq::<SymbolView>::empty());
                return false;
            } else {
                symbol_state.is_in_string = false;
                symbol_state.current_string_delimiter = self.config.string_delimiter;
                let identifier = char_buf.to_string();
                char_buf.clear();
                let result = Symbol::new(identifier, *cursor);
                symbols.push(result);
                assert(views(symbols@) =~= views(old(symbols)@) + Seq::<SymbolView>::empty().push(
                    placed(old(char_buf)@, *cursor),
                ));
                return true;
            }
        }
        if symbol_state.is_in_string {
            assert(views(symbols@) =~= views(old(symbols)@) + Seq::<SymbolView>::empty());
            return false;
        }
        if is_double_start(character) {
            symbol_state.could_be_double = Some(character);
            symbol_state.double_cursor = *cursor;
            char_buf.pop();
            let identifier = char_buf.to_string();
            char_buf.clear();
            let some = identifier.as_str().unicode_len() > 0;
            Self::flush(identifier, cursor, symbols);
            return some;
        }
        if is_breaking(character) {
            char_buf.pop();
            let identifier = char_buf.to_string();
            char_buf.clear();
            Self::flush(identifier, cursor, symbols);
            if character != ' ' {
                Self::single(character, cursor, symbols);
            }
            assert(views(symbols@) =~= views(old(symbols)@) + (if character != ' ' {
                flushed(without_last(old(char_buf)@), *cursor).push(
                    placed(text1(character), *cursor),
                )
            } else {
                flushed(without_last(old(char_buf)@), *cursor)
            }));
            return true;
        }
        assert(views(symbols@) =~= views(old(symbols)@) + Seq::<SymbolView>::empty());
        false
    }

    /// Reads one code point: `character`, which stands at `cursor` and is
    /// already the last code point of `char_buf`. Returns the symbols that it
    /// completes, by the rules of `read`.
    pub fn read_symbol(
        &mut self,
        character: char,
        char_buf: &mut Conveyor<char>,
        cursor: &Cursor,
        symbol_state: &mut SymbolState,
    ) -> (result: Option<Vec<Symbol>>)
        requires
            fits(old(char_buf)@, *cursor),
        ensures
            ({
                let reading = read(
                    *old(symbol_state),
                    old(char_buf)@,
                    character,
                    *cursor,
                    old(self).string_delimiter(),
                );
                &&& *final(symbol_state) == reading.state
                &&& final(char_buf)@ == reading.buffer
                &&& optional_views(result) == reading.symbols
            }),
            result matches Some(list) ==> all_wf(views(list@)) && list@.len() <= 3,
            final(char_buf).capacity() == old(char_buf).capacity(),
            *final(self) == *old(self),
    {
        reveal(read);
        reveal(read_paired);
        if character == '\\' {
            symbol_state.is_escaping = true;
            char_buf.pop();
            return None;
        }
        if symbol_state.is_escaping {
            symbol_state.is_escaping = false;
            return None;
        }
        if symbol_state.is_in_comment {
            if is_delimiter(character) {
                char_buf.clear();
                symbol_state.is_in_comment = false;
            }
            return None;
        }
        if symbol_state.is_setting_string_delimiter {
            symbol_state.current_string_delimiter = character;
            symbol_state.is_setting_string_delimiter = false;
            symbol_state.is_in_string = true;
            return None;
        }
        let mut symbols: Vec<Symbol> = Vec::new();
        assert(views(symbols@) =~= Seq::<SymbolView>::empty());
        match symbol_state.could_be_double {
            Some(first) => {
                if is_comment_opener(first, character) {
                    symbol_state.is_in_comment = true;
                    char_buf.clear();
                    symbol_state.could_be_double = None;
                    return None;
                }
                if is_delimiter_declarator(first, character) {
                    symbol_state.is_setting_string_delimiter = true;
                    symbol_state.could_be_double = None;
                    return None;
                }
                if is_double_operator(first, character) {
                    let mut identifier = String::new();
                    identifier.push(first);
                    identifier.push(character);
                    let s = Symbol::new(identifier, *cursor);
                    char_buf.clear();
                    symbol_state.could_be_double = None;
                    symbols.push(s);
                    assert(views(symbols@) =~= Seq::<SymbolView>::empty().push(
                        placed(text2(first, character), *cursor),
                    ));
                    return Some(symbols);
                }
                if is_single_operator(first) || is_single_keyword(first) {
                    let at = symbol_state.double_cursor;
                    Self::single(first, &at, &mut symbols);
                    symbol_state.could_be_double = None;
                    self.read_unpaired(character, char_buf, cursor, symbol_state, &mut symbols);
                    proof {
                        let single = Seq::<SymbolView>::empty().push(placed(text1(first), at));
                        assert(Seq::<SymbolView>::empty().push(placed(text1(first), at))
                            + Seq::<SymbolView>::empty() =~= single);
                    }
                    return Some(symbols);
                }
                let some = self.read_unpaired(
                    character,
                    char_buf,
                    cursor,
                    symbol_state,
                    &mut symbols,
                );
                proof {
                    let reading = read(
                        *old(symbol_state),
                        old(char_buf)@,
                        character,
                        *cursor,
                        old(self).string_delimiter(),
                    );
                    if let Some(more) = reading.symbols {
                        assert(Seq::<SymbolView>::empty() + more =~= more);
                    }
                }
                if some {
                    Some(symbols)
                } else {
                    None
                }
            },
            None => {
                let some = self.read_unpaired(
                    character,
                    char_buf,
                    cursor,
                    symbol_state,
                    &mut symbols,
                );
                proof {
                    let reading = read(
                        *old(symbol_state),
                        old(char_buf)@,
                        character,
                        *cursor,
                        old(self).string_delimiter(),
                    );
                    if let Some(more) = reading.symbols {
                        assert(Seq::<SymbolView>::empty() + more =~= more);
                    }
                }
                if some {
                    Some(symbols)
                } else {
                    None
                }
            },
        }
    }

    /// Takes one more code point of the source: adds it to `char_buf`, moves
    /// `cursor` onto it, reads it, adds the symbols it completes to `symbols`
    /// and leaves `cursor` ready for the next code point. Where the accumulated
    /// text would go on after a line break, nothing is changed and the code
    /// point is refused as a syntax error.
    pub fn read_char(
        &mut self,
        character: char,
        char_buf: &mut Conveyor<char>,
        cursor: &mut Cursor,
        symbol_state: &mut SymbolState,
        symbols: &mut Vec<Symbol>,
    ) -> (result: Result<(), ParseError>)
        requires
            old(cursor).pos < u64::MAX,
            old(cursor).line < u64::MAX,
            old(cursor).column < u64::MAX,
        ensures
            ({
                let before = Run {
                    state: *old(symbol_state),
                    buffer: old(char_buf)@,
                    cursor: *old(cursor),
                    symbols: views(old(symbols)@),
                };
                let after = Run {
                    state: *final(symbol_state),
                    buffer: final(char_buf)@,
                    cursor: *final(cursor),
                    symbols: views(final(symbols)@),
                };
                match step(
                    before,
                    character,
                    old(char_buf).capacity(),
                    old(self).string_delimiter(),
                ) {
                    Some(run) => result is Ok && after == run,
                    None => result == Err::<(), ParseError>(ParseError::Syntax) && after == before,
                }
            }),
            all_wf(views(old(symbols)@)) ==> all_wf(views(final(symbols)@)),
            final(symbols)@.len() <= old(symbols)@.len() + 3,
            final(char_buf).capacity() == old(char_buf).capacity(),
            *final(self) == *old(self),
    {
        let held = char_buf.len();
        let longer = if held >= char_buf.size() {
            held
        } else {
            held + 1
        };
        let here = Cursor { pos: cursor.pos + 1, line: cursor.line, column: cursor.column };
        if longer as u64 > here.pos || longer as u64 > here.column {
            return Err(ParseError::Syntax);
        }
        char_buf.push(character);
        let new_symbols = self.read_symbol(character, char_buf, &here, symbol_state);
        match new_symbols {
            Some(list) => {
                let ghost given = views(list@);
                let ghost before = views(symbols@);
                let mut list = list;
                symbols.append(&mut list);
                assert(views(symbols@) =~= before + given);
            },
            None => {
                assert(views(symbols@) =~= views(symbols@) + Seq::<SymbolView>::empty());
            },
        }
        if character == '\n' {
            *cursor = Cursor { pos: here.pos, line: here.line + 1, column: 1 };
        } else {
            *cursor = Cursor { pos: here.pos, line: here.line, column: here.column + 1 };
        }
        Ok(())
    }

    /// Ends the source: adds to `symbols` a waiting operator or keyword, and
    /// then the text left in `char_buf` as a last symbol, and empties
    /// `char_buf`. Where the text left does not end on the line on which it
    /// began, nothing is changed and the end is refused as a syntax error.
    pub fn read_end(
        &mut self,
        char_buf: &mut Conveyor<char>,
        cursor: &Cursor,
        symbol_state: &mut SymbolState,
        symbols: &mut Vec<Symbol>,
    ) -> (result: Result<(), ParseError>)
        ensures
            ({
                let run = Run {
                    state: *old(symbol_state),
                    buffer: old(char_buf)@,
                    cursor: *cursor,
                    symbols: views(old(symbols)@),
                };
                match finished(run) {
                    Some(all) => {
                        &&& result is Ok
                        &&& views(final(symbols)@) == all
                        &&& final(char_buf)@ == Seq::<char>::empty()
                        &&& *final(symbol_state) == (SymbolState {
                            could_be_double: None,
                            ..*old(symbol_state)
                        })
                    },
                    None => {
                        &&& result == Err::<(), ParseError>(ParseError::Syntax)
                        &&& views(final(symbols)@) == views(old(symbols)@)
                        &&& final(char_buf)@ == old(char_buf)@
                        &&& *final(symbol_state) == *old(symbol_state)
                    },
                }
            }),
            all_wf(views(old(symbols)@)) ==> all_wf(views(final(symbols)@)),
            final(symbols)@.len() <= old(symbols)@.len() + 2,
            final(char_buf).capacity() == old(char_buf).capacity(),
            *final(self) == *old(self),
    {
        let held = char_buf.len();
        let left = !symbol_state.is_in_comment && held > 0;
        if left && (held as u64 > cursor.pos || held as u64 >= cursor.column) {
            return Err(ParseError::Syntax);
        }
        let ghost before = views(symbols@);
        match symbol_state.could_be_double {
            Some(first) => {
                if is_single_operator(first) || is_single_keyword(first) {
                    let at = symbol_state.double_cursor;
                    Self::single(first, &at, symbols);
                }
            },
            None => {},
        }
        assert(views(symbols@) =~= before + waiting(*symbol_state));
        symbol_state.could_be_double = None;
        if left {
            let end = Cursor { pos: cursor.pos, line: cursor.line, column: cursor.column - 1 };
            let result = Symbol::new(char_buf.to_string(), end);
            symbols.push(result);
            assert(views(symbols@) =~= (before + waiting(*old(symbol_state))).push(
                placed(old(char_buf)@, last_place(*cursor)),
            ));
        }
        char_buf.clear();
        Ok(())
    }
}

} // verus!
