//! What holds of the parser as a whole, proved from the definitions that its
//! functions are held to.

use crate::engine::builder::{
    admissible_from, applied, applied_from, built, lemma_applied_wf, lemma_lexed_admissible,
    lexed_at, node_views, results_of, seed, LexResultView, Tree,
};
use crate::engine::parser::{
    back, extracted, finished, fits, flushed, last_place, leftover, parse_leaves, read, read_paired,
    read_plain, run_of, start, symbols_of, text1, text2, waiting, without_last, ParseError, Parser,
    Reading, SymbolState, ACCUMULATOR_SIZE,
};
use crate::engine::symbols::{
    breaking, comment_opener, delimiter_declarator, double_operator, double_start, single_keyword,
    single_operator,
};
use crate::engine::registry::entries;
use crate::engine::types::{placed, span, views, Cursor, SymbolView};
use crate::engine::util::{decoded, drained, pushed, source_of, window, Decoding, ReadError};
use vstd::prelude::*;
use vstd::utf8::{
    decode_first_scalar, decode_utf8, length_of_first_scalar, pop_first_scalar, valid_first_scalar,
    valid_utf8,
};

verus! {

/// The bits that one, two, three and four bytes of a code point hold stay
/// below 0x80, 0x800, 0x10000 and 0x200000.
proof fn lemma_code_value_bounds(a: u8, b: u8, c: u8, d: u8)
    ensures
        (a & 0x7F) as u32 <= 0x7F,
        (((a & 0x1F) as u32) << 6) | ((b & 0x3F) as u32) <= 0x7FF,
        (((a & 0x0F) as u32) << 12) | (((b & 0x3F) as u32) << 6) | ((c & 0x3F) as u32) <= 0xFFFF,
{
    assert((a & 0x7F) as u32 <= 0x7F) by (bit_vector);
    assert((((a & 0x1F) as u32) << 6) | ((b & 0x3F) as u32) <= 0x7FF) by (bit_vector);
    assert((((a & 0x0F) as u32) << 12) | (((b & 0x3F) as u32) << 6) | ((c & 0x3F) as u32)
        <= 0xFFFF) by (bit_vector);
}

/// Where bytes begin with a well-formed code point, reading one code point
/// from them gives that code point and its length.
pub proof fn lemma_decoded_first(bytes: Seq<u8>)
    requires
        valid_first_scalar(bytes),
    ensures
        decoded(window(bytes)) == Ok::<(char, u8), ReadError>(
            (decode_first_scalar(bytes) as char, length_of_first_scalar(bytes) as u8),
        ),
        1 <= length_of_first_scalar(bytes) <= bytes.len(),
{
    let w = window(bytes);
    assert(bytes.len() >= 1);
    assert(w[0] == bytes[0]);
    if bytes.len() >= 2 {
        assert(w[1] == bytes[1]);
    }
    if bytes.len() >= 3 {
        assert(w[2] == bytes[2]);
    }
    if bytes.len() >= 4 {
        assert(w[3] == bytes[3]);
    }
    lemma_code_value_bounds(w[0], w[1], w[2], w[3]);
}

/// Reading valid UTF-8 one code point at a time gives the code points that
/// the bytes encode, and ends without an error.
pub proof fn lemma_drained_valid(bytes: Seq<u8>)
    requires
        valid_utf8(bytes),
    ensures
        drained(bytes) == (Decoding { chars: decode_utf8(bytes), error: None }),
    decreases bytes.len(),
{
    if bytes.len() > 0 {
        lemma_decoded_first(bytes);
        let length = length_of_first_scalar(bytes);
        assert(bytes.skip(length) =~= pop_first_scalar(bytes));
        lemma_drained_valid(pop_first_scalar(bytes));
        assert(Seq::<char>::empty().push(decode_first_scalar(bytes) as char) + decode_utf8(
            pop_first_scalar(bytes),
        ) =~= decode_utf8(bytes));
    }
}

/// Where a source can be read, its symbols are those of its code points,
/// read through the accumulator, and a source whose code points are refused
/// is a syntax error.
pub proof fn lemma_extracted_symbols(bytes: Seq<u8>, low_mem: bool, reset: char)
    requires
        source_of(bytes, low_mem).error is None,
    ensures
        extracted(bytes, low_mem, reset) == match symbols_of(
            source_of(bytes, low_mem).chars,
            ACCUMULATOR_SIZE as nat,
            reset,
        ) {
            Some(symbols) => Ok::<Seq<SymbolView>, ParseError>(symbols),
            None => Err::<Seq<SymbolView>, ParseError>(ParseError::Syntax),
        },
{
}

/// The two ways of reading a source agree: a source that is valid UTF-8
/// gives the same code points, and so the same symbols or the same error,
/// whether it is decoded at once or one code point at a time.
pub proof fn lemma_modes_agree(bytes: Seq<u8>, reset: char)
    requires
        valid_utf8(bytes),
    ensures
        source_of(bytes, true) == source_of(bytes, false),
        extracted(bytes, true, reset) == extracted(bytes, false, reset),
{
    lemma_drained_valid(bytes);
}

/// Parsing is repeatable: two parses of the same bytes, by parsers with the
/// same configuration that know the same names and register the same pairs,
/// return the same result and leave the same symbols and the same arena:
/// the same ids, parents, kinds and places, node for node.
pub proof fn lemma_parse_repeats(
    first: Parser,
    second: Parser,
    bytes: Seq<u8>,
    pairs: Seq<(Seq<char>, Seq<char>)>,
    first_after: Parser,
    first_result: Result<(), ParseError>,
    second_after: Parser,
    second_result: Result<(), ParseError>,
)
    requires
        first.config.low_mem == second.config.low_mem,
        first.config.string_delimiter == second.config.string_delimiter,
        entries(first.functions) == entries(second.functions),
        parse_leaves(first, bytes, pairs, first_after, first_result),
        parse_leaves(second, bytes, pairs, second_after, second_result),
    ensures
        first_result == second_result,
        first_result is Ok ==> {
            &&& views(first_after.symbols@) == views(second_after.symbols@)
            &&& node_views(first_after.nodes@) == node_views(second_after.nodes@)
            &&& entries(first_after.functions) == entries(second_after.functions)
        },
{
    if first_result is Ok {
        assert(first_result->Ok_0 == ());
        assert(second_result->Ok_0 == ());
    }
}

/// Whether the symbols lie in the source one after the other: each spans
/// its text, the first begins at place 1 or later, and each begins after the
/// one before it has ended.
pub open spec fn tidy(symbols: Seq<SymbolView>) -> bool {
    &&& forall|i: int| 0 <= i < symbols.len() ==> (#[trigger] symbols[i]).spans()
    &&& forall|i: int| 0 <= i < symbols.len() ==> (#[trigger] symbols[i]).start.pos >= 1
    &&& forall|i: int, j: int|
        0 <= i < j < symbols.len() ==> (#[trigger] symbols[i]).end.pos < (
        #[trigger] symbols[j]).start.pos
}

/// The place at which the last of the symbols ends, and 0 for no symbol.
pub open spec fn reach(symbols: Seq<SymbolView>) -> int {
    if symbols.len() == 0 {
        0
    } else {
        symbols.last().end.pos as int
    }
}

/// Whether an operator or keyword of one code point waits to be paired.
pub open spec fn live(state: SymbolState) -> bool {
    state.could_be_double matches Some(first) && (single_operator(first) || single_keyword(first))
}

/// Whether what the symbolizer holds lies behind the symbols it has given:
/// the symbols are tidy; a waiting operator or keyword stands after them; and
/// the accumulated text fits between them, or the waiting code point, and the
/// place `pos`.
pub open spec fn orderly(state: SymbolState, buffer: Seq<char>, pos: int, symbols: Seq<SymbolView>)
    -> bool {
    &&& tidy(symbols)
    &&& if live(state) {
        reach(symbols) < state.double_cursor.pos && state.double_cursor.pos + buffer.len() <= pos
    } else {
        reach(symbols) + buffer.len() <= pos
    }
}

/// Tidy symbols stay tidy with one more that spans its text and begins after
/// them.
pub proof fn lemma_tidy_push(symbols: Seq<SymbolView>, symbol: SymbolView)
    requires
        tidy(symbols),
        symbol.spans(),
        reach(symbols) < symbol.start.pos,
    ensures
        tidy(symbols.push(symbol)),
        reach(symbols.push(symbol)) == symbol.end.pos,
{
    let longer = symbols.push(symbol);
    assert forall|i: int, j: int| 0 <= i < j < longer.len() implies (#[trigger] longer[i]).end.pos
        < (#[trigger] longer[j]).start.pos by {
        if j == symbols.len() {
            let last = symbols.len() - 1;
            assert(symbols[last].spans());
            if i < last {
                assert(symbols[i].end.pos < symbols[last].start.pos);
            }
        } else {
            assert(symbols[i].end.pos < symbols[j].start.pos);
        }
    }
    assert forall|i: int| 0 <= i < longer.len() implies (#[trigger] longer[i]).spans()
        && longer[i].start.pos >= 1 by {
        if i < symbols.len() {
            assert(symbols[i].spans());
        }
    }
}

/// A text placed so that it ends at `cursor` spans its text, where the text
/// is not longer than the place of the cursor.
pub proof fn lemma_placed_spans(text: Seq<char>, cursor: Cursor)
    requires
        span(text) <= cursor.pos,
    ensures
        placed(text, cursor).spans(),
        placed(text, cursor).end.pos == cursor.pos,
        placed(text, cursor).start.pos == cursor.pos - span(text) + 1,
{
}

/// Reading a code point to which no rule of pairing applies keeps the
/// symbolizer orderly.
pub proof fn lemma_read_plain_orderly(
    state: SymbolState,
    buffer: Seq<char>,
    c: char,
    cursor: Cursor,
    reset: char,
    symbols: Seq<SymbolView>,
)
    requires
        fits(buffer, cursor),
        !live(state),
        orderly(state, buffer, cursor.pos as int, symbols),
    ensures
        ({
            let reading = read_plain(state, buffer, c, cursor, reset);
            orderly(
                reading.state,
                reading.buffer,
                cursor.pos as int,
                symbols + (match reading.symbols {
                    Some(more) => more,
                    None => Seq::empty(),
                }),
            )
        }),
{
    reveal(read_plain);
    let reading = read_plain(state, buffer, c, cursor, reset);
    let text = without_last(buffer);
    assert(symbols + Seq::<SymbolView>::empty() =~= symbols);
    if c == state.current_string_delimiter && !state.is_in_string {
    } else if c == state.current_string_delimiter && buffer.len() > 0 {
        lemma_placed_spans(buffer, cursor);
        lemma_tidy_push(symbols, placed(buffer, cursor));
        assert(symbols + Seq::<SymbolView>::empty().push(placed(buffer, cursor))
            =~= symbols.push(placed(buffer, cursor)));
    } else {
        let closed = if c == state.current_string_delimiter {
            SymbolState { is_in_string: false, current_string_delimiter: reset, ..state }
        } else {
            state
        };
        if closed.is_in_string {
        } else if crate::engine::symbols::double_start(c) || crate::engine::symbols::breaking(c) {
            let first = if text.len() > 0 {
                lemma_placed_spans(text, back(cursor));
                lemma_tidy_push(symbols, placed(text, back(cursor)));
                assert(symbols + flushed(text, cursor) =~= symbols.push(
                    placed(text, back(cursor)),
                ));
                symbols.push(placed(text, back(cursor)))
            } else {
                assert(symbols + flushed(text, cursor) =~= symbols);
                symbols
            };
            if !crate::engine::symbols::double_start(c) && c != ' ' {
                lemma_placed_spans(text1(c), cursor);
                lemma_tidy_push(first, placed(text1(c), cursor));
                assert(symbols + flushed(text, cursor).push(placed(text1(c), cursor))
                    =~= first.push(placed(text1(c), cursor)));
            }
        }
    }
}

/// Reading a code point while another waits to be paired keeps the
/// symbolizer orderly.
pub proof fn lemma_read_paired_orderly(
    state: SymbolState,
    first: char,
    buffer: Seq<char>,
    c: char,
    cursor: Cursor,
    reset: char,
    symbols: Seq<SymbolView>,
)
    requires
        fits(buffer, cursor),
        state.could_be_double == Some(first),
        orderly(state, buffer, cursor.pos as int, symbols),
    ensures
        ({
            let reading = read_paired(state, first, buffer, c, cursor, reset);
            orderly(
                reading.state,
                reading.buffer,
                cursor.pos as int,
                symbols + (match reading.symbols {
                    Some(more) => more,
                    None => Seq::empty(),
                }),
            )
        }),
{
    reveal(read_paired);
    assert(symbols + Seq::<SymbolView>::empty() =~= symbols);
    if crate::engine::symbols::comment_opener(first, c) {
    } else if crate::engine::symbols::delimiter_declarator(first, c) {
    } else if crate::engine::symbols::double_operator(first, c) {
        lemma_placed_spans(text2(first, c), cursor);
        lemma_tidy_push(symbols, placed(text2(first, c), cursor));
        assert(symbols + Seq::<SymbolView>::empty().push(placed(text2(first, c), cursor))
            =~= symbols.push(placed(text2(first, c), cursor)));
    } else if single_operator(first) || single_keyword(first) {
        let single = placed(text1(first), state.double_cursor);
        let cleared = SymbolState { could_be_double: None, ..state };
        lemma_tidy_push(symbols, single);
        lemma_read_plain_orderly(cleared, buffer, c, cursor, reset, symbols.push(single));
        let rest = read_plain(cleared, buffer, c, cursor, reset);
        let more = match rest.symbols {
            Some(more) => more,
            None => Seq::empty(),
        };
        assert(symbols + (Seq::<SymbolView>::empty().push(single) + more) =~= symbols.push(single)
            + more);
        assert(Seq::<SymbolView>::empty().push(single) + Seq::<SymbolView>::empty()
            =~= Seq::<SymbolView>::empty().push(single));
    } else {
        lemma_read_plain_orderly(state, buffer, c, cursor, reset, symbols);
    }
}

/// Reading a code point keeps the symbolizer orderly.
pub proof fn lemma_read_orderly(
    state: SymbolState,
    buffer: Seq<char>,
    c: char,
    cursor: Cursor,
    reset: char,
    symbols: Seq<SymbolView>,
)
    requires
        fits(buffer, cursor),
        orderly(state, buffer, cursor.pos as int, symbols),
    ensures
        ({
            let reading = read(state, buffer, c, cursor, reset);
            orderly(
                reading.state,
                reading.buffer,
                cursor.pos as int,
                symbols + (match reading.symbols {
                    Some(more) => more,
                    None => Seq::empty(),
                }),
            )
        }),
{
    reveal(read);
    assert(symbols + Seq::<SymbolView>::empty() =~= symbols);
    if c == '\\' {
    } else if state.is_escaping {
    } else if state.is_in_comment {
    } else if state.is_setting_string_delimiter {
    } else {
        match state.could_be_double {
            Some(first) => {
                lemma_read_paired_orderly(state, first, buffer, c, cursor, reset, symbols);
            },
            None => {
                lemma_read_plain_orderly(state, buffer, c, cursor, reset, symbols);
            },
        }
    }
}

/// Every run of the symbolizer is orderly, and stands at the place of the
/// code point read last.
pub proof fn lemma_run_orderly(chars: Seq<char>, capacity: nat, reset: char)
    requires
        chars.len() < u64::MAX,
    ensures
        run_of(chars, capacity, reset) matches Some(run) ==> {
            &&& run.cursor.pos == chars.len()
            &&& orderly(run.state, run.buffer, run.cursor.pos as int, run.symbols)
        },
    decreases chars.len(),
{
    if chars.len() > 0 {
        lemma_run_orderly(chars.drop_last(), capacity, reset);
        if let Some(before) = run_of(chars.drop_last(), capacity, reset) {
            let c = chars.last();
            let buffer = pushed(before.buffer, capacity, c);
            let cursor = Cursor { pos: (before.cursor.pos + 1) as u64, ..before.cursor };
            if fits(buffer, cursor) {
                lemma_read_orderly(before.state, buffer, c, cursor, reset, before.symbols);
            }
        }
    }
}

/// The symbols of a source lie in it one after the other, for every source:
/// each symbol takes as many places as its text has code points, no symbol
/// begins before place 1, and each symbol begins after the one before it has
/// ended, so that no two overlap.
pub proof fn lemma_symbols_tidy(chars: Seq<char>, capacity: nat, reset: char)
    requires
        chars.len() < u64::MAX,
    ensures
        symbols_of(chars, capacity, reset) matches Some(symbols) ==> tidy(symbols) && reach(symbols)
            <= chars.len(),
{
    lemma_run_orderly(chars, capacity, reset);
    if let Some(run) = run_of(chars, capacity, reset) {
        let base = run.symbols + waiting(run.state);
        if live(run.state) {
            let single = placed(text1(run.state.could_be_double->0), run.state.double_cursor);
            lemma_tidy_push(run.symbols, single);
            assert(base =~= run.symbols.push(single));
        } else {
            assert(base =~= run.symbols);
        }
        if leftover(run) && finished(run) is Some {
            lemma_placed_spans(run.buffer, last_place(run.cursor));
            lemma_tidy_push(base, placed(run.buffer, last_place(run.cursor)));
        }
    }
}

/// A tree in order stays in order under results that it can take, each at
/// its time, and grows by one node for each result at most.
proof fn lemma_applied_from_wf(tree: Tree, results: Seq<LexResultView>, from: int)
    requires
        tree.wf(),
        0 <= from <= results.len(),
        admissible_from(tree, results, from),
        tree.nodes.len() + (results.len() - from) <= u64::MAX,
    ensures
        applied_from(tree, results, from).tree.wf(),
        applied_from(tree, results, from).tree.nodes.len() <= tree.nodes.len() + (results.len()
            - from),
    decreases results.len() - from,
{
    if from < results.len() {
        lemma_applied_wf(tree, results[from]);
        if let Some(next) = applied(tree, results[from]) {
            lemma_applied_from_wf(next, results, from + 1);
        }
    }
}

/// The arena is in order after every list of symbols: each node has its
/// place in the arena as its id, the root is its own parent, every other
/// node has an earlier node as its parent, and the builder stands at a node
/// of the arena. No symbol adds more than three nodes.
pub proof fn lemma_built_in_order(
    registry: Map<Seq<char>, Seq<char>>,
    symbols: Seq<SymbolView>,
    capacity: nat,
)
    requires
        3 * symbols.len() + 4 < u64::MAX,
    ensures
        built(registry, symbols, capacity).tree.wf(),
        built(registry, symbols, capacity).tree.nodes.len() <= 1 + 3 * symbols.len(),
    decreases symbols.len(),
{
    if symbols.len() == 0 {
        assert(seed().nodes[0].id == 0);
    } else {
        lemma_built_in_order(registry, symbols.drop_last(), capacity);
        let before = built(registry, symbols.drop_last(), capacity);
        if before.complete {
            let lexing = lexed_at(registry, before.tree, symbols.last(), capacity);
            lemma_lexed_admissible(registry, before.tree, symbols.last(), capacity);
            crate::engine::builder::lemma_results_short(
                registry,
                before.tree,
                symbols.last(),
                capacity,
            );
            lemma_applied_from_wf(
                Tree { carryover: lexing.carryover, ..before.tree },
                results_of(lexing),
                0,
            );
        }
    }
}

} // verus!
