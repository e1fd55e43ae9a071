//! What the symbolizer keeps of a source: on which sources every symbol
//! holds the text that stands at its place, with nothing but spaces and
//! comments between the symbols, so that the symbols render back to the
//! source without its comments.

use crate::engine::laws::{lemma_placed_spans, lemma_tidy_push, reach, tidy};
use crate::engine::parser::{
    back, flushed, last_place, leftover, lemma_refused_for_good, read, read_paired, read_plain,
    run_of, step, symbols_of, text1, text2, waiting, without_last, Reading, Run, SymbolState,
};
use crate::engine::symbols::{
    breaking, comment_opener, delimiter, delimiter_declarator, double_operator, double_start,
    single_operator,
};
use crate::engine::types::{placed, Cursor, SymbolView};
use crate::engine::util::pushed;
use vstd::prelude::*;

verus! {

/// A choice of places of a source, counted from 1.
pub type Places = spec_fn(int) -> bool;

/// No place at all.
pub open spec fn nowhere() -> Places {
    |k: int| false
}

/// Whether each of the places after `from` up to `to` holds a space or is
/// one of `skip`.
#[verifier::opaque]
pub open spec fn blank(chars: Seq<char>, skip: Places, from: int, to: int) -> bool {
    forall|k: int|
        from < k <= to && 1 <= k <= chars.len() ==> #[trigger] chars[k - 1] == ' ' || skip(k)
}

/// Whether none of the places from `from` to `to` is one of `skip`.
#[verifier::opaque]
pub open spec fn unskipped(skip: Places, from: int, to: int) -> bool {
    forall|k: int| from <= k <= to ==> !#[trigger] skip(k)
}

/// Whether all of the places after `from` up to `to` are of `skip`.
#[verifier::opaque]
pub open spec fn skipped(skip: Places, from: int, to: int) -> bool {
    forall|k: int| from < k <= to ==> #[trigger] skip(k)
}

/// Of no places at all, each holds a space or is skipped.
proof fn lemma_blank_none(chars: Seq<char>, skip: Places, from: int, to: int)
    requires
        to <= from,
    ensures
        blank(chars, skip, from, to),
{
    reveal(blank);
}

/// Places that hold spaces or are skipped stay so with one more such place.
proof fn lemma_blank_more(chars: Seq<char>, skip: Places, from: int, to: int)
    requires
        blank(chars, skip, from, to),
        0 <= to < chars.len(),
        chars[to] == ' ' || skip(to + 1),
    ensures
        blank(chars, skip, from, to + 1),
{
    reveal(blank);
}

/// Of no places at all, none is skipped.
proof fn lemma_unskipped_none(skip: Places, from: int, to: int)
    requires
        to < from,
    ensures
        unskipped(skip, from, to),
{
    reveal(unskipped);
}

/// Places that are not skipped stay so with one more such place.
proof fn lemma_unskipped_more(skip: Places, from: int, to: int)
    requires
        unskipped(skip, from, to),
        !skip(to + 1),
    ensures
        unskipped(skip, from, to + 1),
{
    reveal(unskipped);
}

/// Whether the symbols render the source faithfully but for the places of
/// `skip`: the symbols are tidy; each has as its text the code points of the
/// source from its start to its end, none of which is skipped; and each place
/// before the first symbol and between two symbols holds a space or is
/// skipped.
#[verifier::opaque]
pub open spec fn faithful(symbols: Seq<SymbolView>, chars: Seq<char>, skip: Places) -> bool {
    &&& tidy(symbols)
    &&& forall|i: int|
        0 <= i < symbols.len() ==> (#[trigger] symbols[i]).end.pos <= chars.len()
            && symbols[i].text == chars.subrange(
            symbols[i].start.pos - 1,
            symbols[i].end.pos as int,
        ) && unskipped(skip, symbols[i].start.pos as int, symbols[i].end.pos as int)
    &&& forall|i: int|
        0 <= i < symbols.len() ==> blank(
            chars,
            skip,
            if i == 0 {
                0
            } else {
                symbols[i - 1].end.pos as int
            },
            (#[trigger] symbols[i]).start.pos - 1,
        )
}

/// No symbols are faithful to any source.
proof fn lemma_faithful_none(chars: Seq<char>, skip: Places)
    ensures
        faithful(Seq::<SymbolView>::empty(), chars, skip),
{
    reveal(faithful);
}

/// Faithful symbols stay faithful with one more that holds the text of the
/// source at its place, after nothing but spaces and skipped places.
proof fn lemma_faithful_push(
    symbols: Seq<SymbolView>,
    chars: Seq<char>,
    skip: Places,
    symbol: SymbolView,
)
    requires
        faithful(symbols, chars, skip),
        symbol.spans(),
        reach(symbols) < symbol.start.pos,
        symbol.end.pos <= chars.len(),
        symbol.text == chars.subrange(symbol.start.pos - 1, symbol.end.pos as int),
        unskipped(skip, symbol.start.pos as int, symbol.end.pos as int),
        blank(chars, skip, reach(symbols), symbol.start.pos - 1),
    ensures
        faithful(symbols.push(symbol), chars, skip),
        reach(symbols.push(symbol)) == symbol.end.pos,
{
    reveal(faithful);
    lemma_tidy_push(symbols, symbol);
    let longer = symbols.push(symbol);
    assert forall|i: int| 0 <= i < longer.len() implies (#[trigger] longer[i]).end.pos
        <= chars.len() && longer[i].text == chars.subrange(
        longer[i].start.pos - 1,
        longer[i].end.pos as int,
    ) && unskipped(skip, longer[i].start.pos as int, longer[i].end.pos as int) by {
        if i < symbols.len() {
            assert(longer[i] == symbols[i]);
        }
    }
    assert forall|i: int| 0 <= i < longer.len() implies blank(
        chars,
        skip,
        if i == 0 {
            0
        } else {
            longer[i - 1].end.pos as int
        },
        (#[trigger] longer[i]).start.pos - 1,
    ) by {
        if i < symbols.len() {
            assert(longer[i] == symbols[i]);
            if i > 0 {
                assert(longer[i - 1] == symbols[i - 1]);
            }
        }
    }
}

/// Faithful symbols without the last of them are faithful.
proof fn lemma_faithful_shorter(symbols: Seq<SymbolView>, chars: Seq<char>, skip: Places)
    requires
        faithful(symbols, chars, skip),
        symbols.len() > 0,
    ensures
        faithful(symbols.drop_last(), chars, skip),
        symbols.last().spans(),
        reach(symbols.drop_last()) < symbols.last().start.pos,
        symbols.last().end.pos <= chars.len(),
        symbols.last().text == chars.subrange(
            symbols.last().start.pos - 1,
            symbols.last().end.pos as int,
        ),
        unskipped(skip, symbols.last().start.pos as int, symbols.last().end.pos as int),
        blank(chars, skip, reach(symbols.drop_last()), symbols.last().start.pos - 1),
{
    reveal(faithful);
    let before = symbols.drop_last();
    let n = symbols.len() - 1;
    assert forall|i: int| 0 <= i < before.len() implies (#[trigger] before[i]).spans()
        && before[i].start.pos >= 1 && before[i].end.pos <= chars.len() && before[i].text
        == chars.subrange(before[i].start.pos - 1, before[i].end.pos as int) && unskipped(
        skip,
        before[i].start.pos as int,
        before[i].end.pos as int,
    ) && blank(
        chars,
        skip,
        if i == 0 {
            0
        } else {
            before[i - 1].end.pos as int
        },
        before[i].start.pos - 1,
    ) by {
        assert(before[i] == symbols[i]);
        if i > 0 {
            assert(before[i - 1] == symbols[i - 1]);
        }
    }
    assert forall|i: int, j: int| 0 <= i < j < before.len() implies (#[trigger] before[i]).end.pos
        < (#[trigger] before[j]).start.pos by {
        assert(before[i] == symbols[i]);
        assert(before[j] == symbols[j]);
    }
    assert(symbols[n].spans());
    assert(symbols[n].start.pos >= 1);
    if n > 0 {
        assert(before[n - 1] == symbols[n - 1]);
        assert(symbols[n - 1].end.pos < symbols[n].start.pos);
    }
}

/// What a code point does to the text held before it, where it is read
/// outside a string and is not the string delimiter: the three last rules
/// of `read_plain`.
proof fn lemma_read_plain_outside(
    state: SymbolState,
    buffer: Seq<char>,
    c: char,
    cursor: Cursor,
    reset: char,
)
    requires
        !state.is_in_string,
        c != state.current_string_delimiter,
    ensures
        read_plain(state, buffer, c, cursor, reset) == if double_start(c) {
            Reading {
                state: SymbolState { could_be_double: Some(c), double_cursor: cursor, ..state },
                buffer: Seq::empty(),
                symbols: if without_last(buffer).len() > 0 {
                    Some(flushed(without_last(buffer), cursor))
                } else {
                    None
                },
            }
        } else if breaking(c) {
            Reading {
                state,
                buffer: Seq::empty(),
                symbols: Some(
                    if c != ' ' {
                        flushed(without_last(buffer), cursor).push(placed(text1(c), cursor))
                    } else {
                        flushed(without_last(buffer), cursor)
                    },
                ),
            }
        } else {
            Reading { state, buffer, symbols: None }
        },
{
    reveal(read_plain);
}

/// What a code point does while an operator waits that opens no comment and
/// announces no delimiter with it: the two last rules of `read_paired`.
proof fn lemma_read_paired_operator(
    state: SymbolState,
    first: char,
    buffer: Seq<char>,
    c: char,
    cursor: Cursor,
    reset: char,
)
    requires
        !comment_opener(first, c),
        !delimiter_declarator(first, c),
        single_operator(first),
    ensures
        read_paired(state, first, buffer, c, cursor, reset) == if double_operator(first, c) {
            Reading {
                state: SymbolState { could_be_double: None, ..state },
                buffer: Seq::empty(),
                symbols: Some(Seq::<SymbolView>::empty().push(placed(text2(first, c), cursor))),
            }
        } else {
            let rest = read_plain(
                SymbolState { could_be_double: None, ..state },
                buffer,
                c,
                cursor,
                reset,
            );
            let single = Seq::<SymbolView>::empty().push(
                placed(text1(first), state.double_cursor),
            );
            Reading {
                state: rest.state,
                buffer: rest.buffer,
                symbols: Some(
                    match rest.symbols {
                        Some(more) => single + more,
                        None => single,
                    },
                ),
            }
        },
{
    reveal(read_paired);
}

/// Whether a comment is open in a run.
pub open spec fn commenting(run: Option<Run>) -> bool {
    run matches Some(run) && run.state.is_in_comment
}

/// Whether a slash waits to be paired in a run.
pub open spec fn holds_slash(run: Option<Run>) -> bool {
    run matches Some(run) && run.state.could_be_double == Some('/')
}

/// Whether the code point at place `k`, counted from 1, is passed over as
/// part of a comment: a comment is open after it or before it, or it is the
/// first of the two slashes that open one.
pub open spec fn passed_over(chars: Seq<char>, capacity: nat, reset: char, k: int) -> bool {
    &&& 1 <= k <= chars.len()
    &&& (commenting(run_of(chars.take(k), capacity, reset)) || commenting(
        run_of(chars.take(k - 1), capacity, reset),
    ) || (k < chars.len() && chars[k] == '/' && holds_slash(
        run_of(chars.take(k), capacity, reset),
    )))
}

/// The places of a source that are passed over as comments.
pub open spec fn comments(chars: Seq<char>, capacity: nat, reset: char) -> Places {
    |k: int| passed_over(chars, capacity, reset, k)
}

/// Whether place `k`, counted from 1, holds a backslash, which marks an
/// escape and is dropped.
pub open spec fn escapes_at(chars: Seq<char>, k: int) -> bool {
    1 <= k <= chars.len() && chars[k - 1] == '\\'
}

/// The places of a source that stand aside from its symbols: those passed
/// over as comments, and those of the backslashes.
pub open spec fn asides(chars: Seq<char>, capacity: nat, reset: char) -> Places {
    |k: int| passed_over(chars, capacity, reset, k) || escapes_at(chars, k)
}

/// Whether the symbolizer is at ease: no announcement of a delimiter is
/// open, no `q` waits to be paired, and an escape outside a comment finds
/// nothing held and nothing waiting.
pub open spec fn at_ease(state: SymbolState, buffer: Seq<char>) -> bool {
    &&& !state.is_setting_string_delimiter
    &&& state.could_be_double != Some('q')
    &&& (state.is_escaping && !state.is_in_comment ==> buffer.len() == 0
        && state.could_be_double is None && !state.is_in_string)
}

/// Whether a run, if there is one, is at ease and, where more is to come
/// outside a comment, has room in its buffer.
pub open spec fn hushed_at(run: Option<Run>, more: bool, capacity: nat) -> bool {
    match run {
        Some(run) => at_ease(run.state, run.buffer) && (more && !run.state.is_in_comment
            ==> run.buffer.len() < capacity),
        None => true,
    }
}

/// Whether an escape is open in a run.
pub open spec fn escaping(run: Option<Run>) -> bool {
    run matches Some(run) && run.state.is_escaping
}

/// Whether the symbolizer stays hushed on a source: after each code point it
/// is at ease, and outside comments it never has to make room in its buffer.
/// On such a source it passes over nothing but spaces, comments and the
/// backslashes of escapes, and no escape stands inside a token.
pub open spec fn hushed(chars: Seq<char>, capacity: nat, reset: char) -> bool {
    forall|n: int|
        0 <= n <= chars.len() ==> hushed_at(
            #[trigger] run_of(chars.take(n), capacity, reset),
            n < chars.len(),
            capacity,
        )
}

/// Whether the symbolizer stays quiet on a source: it stays hushed and never
/// meets an escape. On such a source it passes over nothing but spaces and
/// comments.
pub open spec fn quiet(chars: Seq<char>, capacity: nat, reset: char) -> bool {
    &&& hushed(chars, capacity, reset)
    &&& forall|n: int|
        0 <= n <= chars.len() ==> !escaping(#[trigger] run_of(chars.take(n), capacity, reset))
}

/// Whether the symbolizer stays calm on a source: it stays quiet and never
/// opens a comment. On such a source it passes over nothing but spaces.
pub open spec fn calm(chars: Seq<char>, capacity: nat, reset: char) -> bool {
    &&& quiet(chars, capacity, reset)
    &&& forall|n: int|
        0 <= n <= chars.len() ==> !commenting(#[trigger] run_of(chars.take(n), capacity, reset))
}

/// Whether what the symbolizer holds over the first `n` code points keeps
/// the source but for the places of `skip`: the symbols are faithful; inside
/// a comment nothing waits; a waiting code point is the one read last, and
/// its place is skipped just where a slash follows a slash; the buffer holds
/// the code points read since the last symbol, none of them skipped; and
/// between the symbols and what is held lie only spaces and skipped places.
pub open spec fn keeping(
    state: SymbolState,
    buffer: Seq<char>,
    symbols: Seq<SymbolView>,
    chars: Seq<char>,
    skip: Places,
    n: int,
) -> bool {
    &&& 0 <= n <= chars.len()
    &&& faithful(symbols, chars, skip)
    &&& if state.is_in_comment {
        &&& state.could_be_double is None
        &&& !state.is_in_string
        &&& reach(symbols) <= n
        &&& blank(chars, skip, reach(symbols), n)
    } else {
        match state.could_be_double {
            Some(first) => {
                &&& n >= 1
                &&& first == chars[n - 1]
                &&& double_start(first)
                &&& state.double_cursor.pos == n
                &&& buffer.len() == 0
                &&& !state.is_in_string
                &&& reach(symbols) <= n - 1
                &&& blank(chars, skip, reach(symbols), n - 1)
                &&& skip(n) == (first == '/' && n < chars.len() && chars[n] == '/')
            },
            None => {
                &&& buffer == chars.subrange(n - buffer.len(), n)
                &&& reach(symbols) + buffer.len() <= n
                &&& blank(chars, skip, reach(symbols), n - buffer.len())
                &&& unskipped(skip, n - buffer.len() + 1, n)
                &&& (state.is_in_string ==> buffer.len() > 0)
            },
        }
    }
}

/// Whether the place `n` is skipped just where a comment is open before or
/// after its code point, or it is the first of two slashes that open one, or
/// it holds a backslash.
pub open spec fn marks(
    skip: Places,
    before: SymbolState,
    after: SymbolState,
    chars: Seq<char>,
    n: int,
) -> bool {
    skip(n) == (before.is_in_comment || after.is_in_comment || (after.could_be_double == Some('/')
        && n < chars.len() && chars[n] == '/') || escapes_at(chars, n))
}

/// The text held before a code point that ends it becomes a faithful symbol.
proof fn lemma_flush(
    held: Seq<char>,
    symbols: Seq<SymbolView>,
    cursor: Cursor,
    chars: Seq<char>,
    skip: Places,
    n: int,
)
    requires
        0 <= n < chars.len(),
        chars.len() + 1 < u64::MAX,
        cursor.pos == n + 1,
        faithful(symbols, chars, skip),
        held == chars.subrange(n - held.len(), n),
        reach(symbols) + held.len() <= n,
        blank(chars, skip, reach(symbols), n - held.len()),
        unskipped(skip, n - held.len() + 1, n),
    ensures
        faithful(symbols + flushed(held, cursor), chars, skip),
        reach(symbols + flushed(held, cursor)) <= n,
        blank(chars, skip, reach(symbols + flushed(held, cursor)), n),
{
    if held.len() > 0 {
        let flush = placed(held, back(cursor));
        lemma_placed_spans(held, back(cursor));
        lemma_faithful_push(symbols, chars, skip, flush);
        assert(symbols + flushed(held, cursor) =~= symbols.push(flush));
        lemma_blank_none(chars, skip, n, n);
    } else {
        assert(symbols + flushed(held, cursor) =~= symbols);
    }
}

/// Reading the next code point, where nothing waits to be paired and the
/// symbolizer stays at ease outside a comment, keeps the source.
proof fn lemma_quiet_unpaired(
    state: SymbolState,
    held: Seq<char>,
    symbols: Seq<SymbolView>,
    cursor: Cursor,
    chars: Seq<char>,
    skip: Places,
    n: int,
    reset: char,
)
    requires
        0 <= n < chars.len(),
        chars.len() + 1 < u64::MAX,
        cursor.pos == n + 1,
        keeping(state, held, symbols, chars, skip, n),
        state.could_be_double is None,
        !state.is_in_comment,
        chars[n] != '\\',
        read_plain(state, held.push(chars[n]), chars[n], cursor, reset).state.could_be_double
            != Some('q'),
        marks(
            skip,
            state,
            read_plain(state, held.push(chars[n]), chars[n], cursor, reset).state,
            chars,
            n + 1,
        ),
    ensures
        ({
            let reading = read_plain(state, held.push(chars[n]), chars[n], cursor, reset);
            keeping(
                reading.state,
                reading.buffer,
                symbols + (match reading.symbols {
                    Some(more) => more,
                    None => Seq::empty(),
                }),
                chars,
                skip,
                n + 1,
            )
        }),
{
    let c = chars[n];
    let buffer = held.push(c);
    assert(buffer =~= chars.subrange(n + 1 - buffer.len(), n + 1));
    assert(symbols + Seq::<SymbolView>::empty() =~= symbols);
    assert(Seq::<char>::empty() =~= chars.subrange(n + 1, n + 1));
    lemma_unskipped_none(skip, n + 2, n + 1);
    if c == state.current_string_delimiter {
        reveal(read_plain);
        lemma_unskipped_more(skip, n - held.len() + 1, n);
        if state.is_in_string {
            let whole = placed(buffer, cursor);
            lemma_placed_spans(buffer, cursor);
            lemma_faithful_push(symbols, chars, skip, whole);
            assert(symbols + Seq::<SymbolView>::empty().push(whole) =~= symbols.push(whole));
            lemma_blank_none(chars, skip, n + 1, n + 1);
        }
    } else if state.is_in_string {
        reveal(read_plain);
        lemma_unskipped_more(skip, n - held.len() + 1, n);
    } else {
        lemma_read_plain_outside(state, buffer, c, cursor, reset);
        assert(without_last(buffer) =~= held);
        if double_start(c) {
            lemma_flush(held, symbols, cursor, chars, skip, n);
            if held.len() == 0 {
                assert(symbols + flushed(held, cursor) =~= symbols + Seq::<SymbolView>::empty());
            }
        } else if breaking(c) {
            lemma_flush(held, symbols, cursor, chars, skip, n);
            let first = symbols + flushed(held, cursor);
            if c != ' ' {
                let single = placed(text1(c), cursor);
                lemma_placed_spans(text1(c), cursor);
                assert(text1(c) =~= chars.subrange(n, n + 1));
                lemma_unskipped_none(skip, n + 1, n);
                lemma_unskipped_more(skip, n + 1, n);
                lemma_faithful_push(first, chars, skip, single);
                assert(symbols + flushed(held, cursor).push(single) =~= first.push(single));
                lemma_blank_none(chars, skip, n + 1, n + 1);
            } else {
                lemma_blank_more(chars, skip, reach(first), n);
            }
        } else {
            lemma_unskipped_more(skip, n - held.len() + 1, n);
        }
    }
}

/// Reading the next code point while an operator waits, where the
/// symbolizer stays at ease, keeps the source.
proof fn lemma_quiet_paired(
    state: SymbolState,
    first: char,
    symbols: Seq<SymbolView>,
    cursor: Cursor,
    chars: Seq<char>,
    skip: Places,
    n: int,
    reset: char,
)
    requires
        0 <= n < chars.len(),
        chars.len() + 1 < u64::MAX,
        cursor.pos == n + 1,
        keeping(state, Seq::<char>::empty(), symbols, chars, skip, n),
        state.could_be_double == Some(first),
        !state.is_in_comment,
        first != 'q',
        chars[n] != '\\',
        read_paired(
            state,
            first,
            Seq::<char>::empty().push(chars[n]),
            chars[n],
            cursor,
            reset,
        ).state.could_be_double != Some('q'),
        marks(
            skip,
            state,
            read_paired(
                state,
                first,
                Seq::<char>::empty().push(chars[n]),
                chars[n],
                cursor,
                reset,
            ).state,
            chars,
            n + 1,
        ),
    ensures
        ({
            let reading = read_paired(
                state,
                first,
                Seq::<char>::empty().push(chars[n]),
                chars[n],
                cursor,
                reset,
            );
            keeping(
                reading.state,
                reading.buffer,
                symbols + (match reading.symbols {
                    Some(more) => more,
                    None => Seq::empty(),
                }),
                chars,
                skip,
                n + 1,
            )
        }),
{
    let c = chars[n];
    let buffer = Seq::<char>::empty().push(c);
    assert(single_operator(first));
    assert(!delimiter_declarator(first, c));
    assert(symbols + Seq::<SymbolView>::empty() =~= symbols);
    if comment_opener(first, c) {
        reveal(read_paired);
        lemma_blank_more(chars, skip, reach(symbols), n - 1);
        lemma_blank_more(chars, skip, reach(symbols), n);
    } else {
        lemma_read_paired_operator(state, first, buffer, c, cursor, reset);
        lemma_unskipped_none(skip, n, n - 1);
        lemma_unskipped_more(skip, n, n - 1);
        lemma_unskipped_none(skip, n + 2, n + 1);
        if double_operator(first, c) {
            let pair = placed(text2(first, c), cursor);
            lemma_placed_spans(text2(first, c), cursor);
            assert(text2(first, c) =~= chars.subrange(n - 1, n + 1));
            lemma_unskipped_more(skip, n, n);
            lemma_faithful_push(symbols, chars, skip, pair);
            assert(symbols + Seq::<SymbolView>::empty().push(pair) =~= symbols.push(pair));
            assert(Seq::<char>::empty() =~= chars.subrange(n + 1, n + 1));
            lemma_blank_none(chars, skip, n + 1, n + 1);
        } else {
            let single = placed(text1(first), state.double_cursor);
            lemma_placed_spans(text1(first), state.double_cursor);
            assert(text1(first) =~= chars.subrange(n - 1, n));
            lemma_faithful_push(symbols, chars, skip, single);
            let cleared = SymbolState { could_be_double: None, ..state };
            assert(Seq::<char>::empty() =~= chars.subrange(n, n));
            lemma_blank_none(chars, skip, n, n);
            lemma_unskipped_none(skip, n + 1, n);
            lemma_quiet_unpaired(
                cleared,
                Seq::<char>::empty(),
                symbols.push(single),
                cursor,
                chars,
                skip,
                n,
                reset,
            );
            let rest = read_plain(cleared, buffer, c, cursor, reset);
            let more = match rest.symbols {
                Some(more) => more,
                None => Seq::empty(),
            };
            assert(symbols + (Seq::<SymbolView>::empty().push(single) + more) =~= symbols.push(
                single,
            ) + more);
            assert(Seq::<SymbolView>::empty().push(single) + Seq::<SymbolView>::empty()
                =~= Seq::<SymbolView>::empty().push(single));
        }
    }
}

/// Taking the next code point, where the symbolizer is at ease before and
/// after it and has room in its buffer outside a comment, keeps the source.
proof fn lemma_hushed_step(
    before: Run,
    after: Run,
    chars: Seq<char>,
    skip: Places,
    n: int,
    capacity: nat,
    reset: char,
)
    requires
        0 <= n < chars.len(),
        chars.len() + 1 < u64::MAX,
        before.cursor.pos == n,
        keeping(before.state, before.buffer, before.symbols, chars, skip, n),
        at_ease(before.state, before.buffer),
        !before.state.is_in_comment ==> before.buffer.len() < capacity,
        step(before, chars[n], capacity, reset) == Some(after),
        at_ease(after.state, after.buffer),
        marks(skip, before.state, after.state, chars, n + 1),
    ensures
        after.cursor.pos == n + 1,
        keeping(after.state, after.buffer, after.symbols, chars, skip, n + 1),
{
    let c = chars[n];
    let buffer = pushed(before.buffer, capacity, c);
    let cursor = Cursor { pos: (before.cursor.pos + 1) as u64, ..before.cursor };
    reveal(read);
    assert(before.symbols + Seq::<SymbolView>::empty() =~= before.symbols);
    assert(Seq::<char>::empty() =~= chars.subrange(n + 1, n + 1));
    lemma_unskipped_none(skip, n + 2, n + 1);
    if before.state.is_in_comment {
        lemma_blank_more(chars, skip, reach(before.symbols), n);
    } else {
        assert(buffer =~= before.buffer.push(c));
        if c == '\\' {
            assert(without_last(buffer) =~= before.buffer);
            assert(after.buffer =~= Seq::<char>::empty());
            assert(escapes_at(chars, n + 1));
            lemma_blank_more(chars, skip, reach(before.symbols), n);
        } else if before.state.is_escaping {
            assert(buffer =~= chars.subrange(n, n + 1));
            assert(!escapes_at(chars, n + 1));
            lemma_unskipped_none(skip, n + 1, n);
            lemma_unskipped_more(skip, n + 1, n);
        } else {
            match before.state.could_be_double {
                None => {
                    lemma_quiet_unpaired(
                        before.state,
                        before.buffer,
                        before.symbols,
                        cursor,
                        chars,
                        skip,
                        n,
                        reset,
                    );
                },
                Some(first) => {
                    assert(before.buffer =~= Seq::<char>::empty());
                    lemma_quiet_paired(
                        before.state,
                        first,
                        before.symbols,
                        cursor,
                        chars,
                        skip,
                        n,
                        reset,
                    );
                },
            }
        }
    }
}

/// On a source on which the symbolizer stays hushed, every run keeps the
/// source but for what stands aside.
proof fn lemma_hushed_run(chars: Seq<char>, n: int, capacity: nat, reset: char)
    requires
        hushed(chars, capacity, reset),
        0 <= n <= chars.len(),
        chars.len() + 1 < u64::MAX,
    ensures
        run_of(chars.take(n), capacity, reset) matches Some(run) ==> run.cursor.pos == n
            && keeping(
            run.state,
            run.buffer,
            run.symbols,
            chars,
            asides(chars, capacity, reset),
            n,
        ),
    decreases n,
{
    let skip = asides(chars, capacity, reset);
    if n == 0 {
        assert(chars.take(0) =~= Seq::<char>::empty());
        assert(Seq::<char>::empty() =~= chars.subrange(0, 0));
        lemma_faithful_none(chars, skip);
        lemma_blank_none(chars, skip, 0, 0);
        lemma_unskipped_none(skip, 1, 0);
    } else {
        lemma_hushed_run(chars, n - 1, capacity, reset);
        assert(chars.take(n).drop_last() =~= chars.take(n - 1));
        assert(chars.take(n).last() == chars[n - 1]);
        if let Some(after) = run_of(chars.take(n), capacity, reset) {
            let before = run_of(chars.take(n - 1), capacity, reset)->0;
            assert(hushed_at(
                run_of(chars.take(n - 1), capacity, reset),
                n - 1 < chars.len(),
                capacity,
            ));
            assert(hushed_at(run_of(chars.take(n), capacity, reset), n < chars.len(), capacity));
            assert(skip(n) == (passed_over(chars, capacity, reset, n) || escapes_at(chars, n)));
            lemma_hushed_step(before, after, chars, skip, n - 1, capacity, reset);
        }
    }
}

/// A source on which the symbolizer stays hushed is cut into symbols without
/// loss but for what stands aside: each symbol has as its text the code
/// points of the source from its start to its end, none of them part of a
/// comment or a backslash; and before the first symbol, between two symbols
/// and after the last one lie only spaces, comments and the backslashes of
/// escapes.
pub proof fn lemma_hushed_source_is_kept(chars: Seq<char>, capacity: nat, reset: char)
    requires
        hushed(chars, capacity, reset),
        chars.len() + 1 < u64::MAX,
    ensures
        symbols_of(chars, capacity, reset) matches Some(symbols) ==> faithful(
            symbols,
            chars,
            asides(chars, capacity, reset),
        ) && blank(chars, asides(chars, capacity, reset), reach(symbols), chars.len() as int),
{
    let n = chars.len() as int;
    let skip = asides(chars, capacity, reset);
    lemma_hushed_run(chars, n, capacity, reset);
    assert(chars.take(n) =~= chars);
    if let Some(symbols) = symbols_of(chars, capacity, reset) {
        let run = run_of(chars, capacity, reset)->0;
        assert(hushed_at(run_of(chars.take(n), capacity, reset), n < chars.len(), capacity));
        match run.state.could_be_double {
            Some(first) => {
                assert(single_operator(first));
                let single = placed(text1(first), run.state.double_cursor);
                lemma_placed_spans(text1(first), run.state.double_cursor);
                assert(text1(first) =~= chars.subrange(n - 1, n));
                lemma_unskipped_none(skip, n, n - 1);
                lemma_unskipped_more(skip, n, n - 1);
                lemma_faithful_push(run.symbols, chars, skip, single);
                assert(run.symbols + waiting(run.state) =~= run.symbols.push(single));
                lemma_blank_none(chars, skip, n, n);
            },
            None => {
                assert(run.symbols + waiting(run.state) =~= run.symbols);
                if leftover(run) {
                    let last = placed(run.buffer, last_place(run.cursor));
                    lemma_placed_spans(run.buffer, last_place(run.cursor));
                    lemma_faithful_push(run.symbols, chars, skip, last);
                    lemma_blank_none(chars, skip, n, n);
                }
            },
        }
    }
}

/// Where a whole source is taken, each run over its first code points is
/// taken too.
proof fn lemma_taken_before(chars: Seq<char>, n: int, capacity: nat, reset: char)
    requires
        run_of(chars, capacity, reset) is Some,
        0 <= n <= chars.len(),
    ensures
        run_of(chars.take(n), capacity, reset) is Some,
{
    if run_of(chars.take(n), capacity, reset) is None {
        lemma_refused_for_good(chars.take(n), chars.skip(n), capacity, reset);
        assert(chars.take(n) + chars.skip(n) =~= chars);
    }
}

/// Where the symbolizer stays quiet on a source that it takes, only
/// comments stand aside.
proof fn lemma_quiet_asides(chars: Seq<char>, capacity: nat, reset: char)
    requires
        quiet(chars, capacity, reset),
        run_of(chars, capacity, reset) is Some,
    ensures
        asides(chars, capacity, reset) == comments(chars, capacity, reset),
{
    assert forall|k: int| !#[trigger] escapes_at(chars, k) by {
        if 1 <= k <= chars.len() && chars[k - 1] == '\\' {
            lemma_taken_before(chars, k, capacity, reset);
            assert(chars.take(k).drop_last() =~= chars.take(k - 1));
            assert(chars.take(k).last() == chars[k - 1]);
            assert(!escaping(run_of(chars.take(k), capacity, reset)));
            reveal(read);
        }
    }
    assert(asides(chars, capacity, reset) =~= comments(chars, capacity, reset));
}

/// A source on which the symbolizer stays quiet is cut into symbols without
/// loss but for its comments: each symbol has as its text the code points of
/// the source from its start to its end, none of them part of a comment; and
/// before the first symbol, between two symbols and after the last one lie
/// only spaces and comments.
pub proof fn lemma_quiet_source_is_kept(chars: Seq<char>, capacity: nat, reset: char)
    requires
        quiet(chars, capacity, reset),
        chars.len() + 1 < u64::MAX,
    ensures
        symbols_of(chars, capacity, reset) matches Some(symbols) ==> faithful(
            symbols,
            chars,
            comments(chars, capacity, reset),
        ) && blank(
            chars,
            comments(chars, capacity, reset),
            reach(symbols),
            chars.len() as int,
        ),
{
    if symbols_of(chars, capacity, reset) is Some {
        lemma_quiet_asides(chars, capacity, reset);
        lemma_hushed_source_is_kept(chars, capacity, reset);
    }
}

/// Where the symbolizer stays calm on a source that it takes, no place is
/// passed over as a comment.
proof fn lemma_calm_comments(chars: Seq<char>, capacity: nat, reset: char)
    requires
        calm(chars, capacity, reset),
        run_of(chars, capacity, reset) is Some,
    ensures
        comments(chars, capacity, reset) == nowhere(),
{
    assert forall|k: int| !#[trigger] passed_over(chars, capacity, reset, k) by {
        if 1 <= k <= chars.len() {
            assert(!commenting(run_of(chars.take(k), capacity, reset)));
            assert(!commenting(run_of(chars.take(k - 1), capacity, reset)));
            if k < chars.len() && chars[k] == '/' && holds_slash(
                run_of(chars.take(k), capacity, reset),
            ) {
                let before = run_of(chars.take(k), capacity, reset)->0;
                assert(hushed_at(run_of(chars.take(k), capacity, reset), true, capacity));
                assert(!escaping(run_of(chars.take(k), capacity, reset)));
                assert(chars.take(k + 1).drop_last() =~= chars.take(k));
                assert(chars.take(k + 1).last() == chars[k]);
                assert(!commenting(run_of(chars.take(k + 1), capacity, reset)));
                lemma_taken_before(chars, k + 1, capacity, reset);
                lemma_slash_opens(before, chars[k], capacity, reset);
            }
        }
    }
    assert(comments(chars, capacity, reset) =~= nowhere());
}

/// A slash read while a slash waits opens a comment, where no escape and no
/// announcement is open.
proof fn lemma_slash_opens(before: Run, c: char, capacity: nat, reset: char)
    requires
        !before.state.is_escaping,
        !before.state.is_setting_string_delimiter,
        !before.state.is_in_comment,
        before.state.could_be_double == Some('/'),
        c == '/',
    ensures
        step(before, c, capacity, reset) matches Some(after) ==> after.state.is_in_comment,
{
    reveal(read);
    reveal(read_paired);
}

/// A source on which the symbolizer stays calm is cut into symbols without
/// loss: each symbol has as its text the code points of the source from its
/// start to its end, and before the first symbol, between two symbols and
/// after the last one lie only spaces.
pub proof fn lemma_calm_source_is_kept(chars: Seq<char>, capacity: nat, reset: char)
    requires
        calm(chars, capacity, reset),
        chars.len() + 1 < u64::MAX,
    ensures
        symbols_of(chars, capacity, reset) matches Some(symbols) ==> faithful(
            symbols,
            chars,
            nowhere(),
        ) && blank(chars, nowhere(), reach(symbols), chars.len() as int),
{
    if symbols_of(chars, capacity, reset) is Some {
        lemma_calm_comments(chars, capacity, reset);
        lemma_quiet_source_is_kept(chars, capacity, reset);
    }
}

/// The source without the places of `skip`, up to place `upto`.
pub open spec fn without(chars: Seq<char>, skip: Places, upto: int) -> Seq<char>
    decreases upto,
{
    if upto <= 0 || upto > chars.len() {
        Seq::empty()
    } else if skip(upto) {
        without(chars, skip, upto - 1)
    } else {
        without(chars, skip, upto - 1).push(chars[upto - 1])
    }
}

/// Skipped places add nothing to the source without them.
proof fn lemma_without_skipped(chars: Seq<char>, skip: Places, from: int, to: int)
    requires
        0 <= from <= to <= chars.len(),
        skipped(skip, from, to),
    ensures
        without(chars, skip, to) == without(chars, skip, from),
    decreases to - from,
{
    reveal(skipped);
    if from < to {
        assert(skip(to));
        lemma_without_skipped(chars, skip, from, to - 1);
    }
}

/// Places that are not skipped add their code points to the source without
/// the skipped ones.
proof fn lemma_without_unskipped(chars: Seq<char>, skip: Places, from: int, to: int)
    requires
        0 <= from <= to <= chars.len(),
        unskipped(skip, from + 1, to),
    ensures
        without(chars, skip, to) == without(chars, skip, from) + chars.subrange(from, to),
    decreases to - from,
{
    reveal(unskipped);
    if from < to {
        assert(!skip(to));
        lemma_without_unskipped(chars, skip, from, to - 1);
        assert((without(chars, skip, from) + chars.subrange(from, to - 1)).push(chars[to - 1])
            =~= without(chars, skip, from) + chars.subrange(from, to));
    } else {
        assert(without(chars, skip, from) + chars.subrange(from, to) =~= without(
            chars,
            skip,
            from,
        ));
    }
}

/// The source without no place is the source.
proof fn lemma_without_nowhere(chars: Seq<char>, upto: int)
    requires
        0 <= upto <= chars.len(),
    ensures
        without(chars, nowhere(), upto) == chars.take(upto),
    decreases upto,
{
    if upto > 0 {
        lemma_without_nowhere(chars, upto - 1);
        assert(chars.take(upto - 1).push(chars[upto - 1]) =~= chars.take(upto));
    } else {
        assert(chars.take(0) =~= Seq::<char>::empty());
    }
}

/// The text that symbols render to: their texts in order, with one space
/// between two symbols that lie exactly one place apart.
pub open spec fn rendered(symbols: Seq<SymbolView>) -> Seq<char>
    decreases symbols.len(),
{
    if symbols.len() == 0 {
        Seq::empty()
    } else {
        let before = symbols.drop_last();
        let last = symbols.last();
        if before.len() > 0 && last.start.pos == reach(before) + 2 {
            rendered(before).push(' ') + last.text
        } else {
            rendered(before) + last.text
        }
    }
}

/// Whether the places after `from` up to `to`, which lie before a symbol,
/// can be told from the symbols alone: all of them are skipped, or, after an
/// earlier symbol, they are one place that is not skipped.
pub open spec fn told(skip: Places, from: int, to: int, inner: bool) -> bool {
    if inner && to == from + 1 {
        !skip(to)
    } else {
        skipped(skip, from, to)
    }
}

/// Whether the symbols lie snug in a source but for the places of `skip`:
/// the places before each symbol are told, and all places after the last
/// symbol are skipped.
pub open spec fn snug(symbols: Seq<SymbolView>, chars: Seq<char>, skip: Places) -> bool {
    &&& forall|i: int|
        0 <= i < symbols.len() ==> told(
            skip,
            if i == 0 {
                0
            } else {
                symbols[i - 1].end.pos as int
            },
            (#[trigger] symbols[i]).start.pos - 1,
            i > 0,
        )
    &&& skipped(skip, reach(symbols), chars.len() as int)
}

/// Faithful symbols whose gaps are told render to the source without its
/// skipped places, up to the end of the last symbol.
proof fn lemma_rendered_prefix(symbols: Seq<SymbolView>, chars: Seq<char>, skip: Places)
    requires
        faithful(symbols, chars, skip),
        forall|i: int|
            0 <= i < symbols.len() ==> told(
                skip,
                if i == 0 {
                    0
                } else {
                    symbols[i - 1].end.pos as int
                },
                (#[trigger] symbols[i]).start.pos - 1,
                i > 0,
            ),
    ensures
        reach(symbols) <= chars.len(),
        rendered(symbols) == without(chars, skip, reach(symbols)),
    decreases symbols.len(),
{
    if symbols.len() > 0 {
        let before = symbols.drop_last();
        let last = symbols.last();
        let n = symbols.len() - 1;
        lemma_faithful_shorter(symbols, chars, skip);
        assert forall|i: int| 0 <= i < before.len() implies told(
            skip,
            if i == 0 {
                0
            } else {
                before[i - 1].end.pos as int
            },
            (#[trigger] before[i]).start.pos - 1,
            i > 0,
        ) by {
            assert(before[i] == symbols[i]);
            if i > 0 {
                assert(before[i - 1] == symbols[i - 1]);
            }
        }
        lemma_rendered_prefix(before, chars, skip);
        let from = reach(before);
        let to = last.start.pos - 1;
        assert(symbols[n] == last);
        if n > 0 {
            assert(before.last() == symbols[n - 1]);
        }
        assert(told(skip, from, to, n > 0));
        if n > 0 && to == from + 1 {
            reveal(blank);
            assert(chars[to - 1] == ' ' || skip(to));
            lemma_unskipped_none(skip, to, to - 1);
            lemma_unskipped_more(skip, to, to - 1);
            lemma_without_unskipped(chars, skip, from, to);
            assert(chars.subrange(from, to) =~= Seq::<char>::empty().push(' '));
            assert(without(chars, skip, from) + Seq::<char>::empty().push(' ') =~= without(
                chars,
                skip,
                from,
            ).push(' '));
        } else {
            lemma_without_skipped(chars, skip, from, to);
        }
        lemma_without_unskipped(chars, skip, to, last.end.pos as int);
    }
}

/// The round trip: where the symbolizer stays quiet on a source, and the
/// symbols of the source lie snug in it but for its comments, the symbols
/// render back to the source without its comments, code point for code
/// point.
pub proof fn lemma_quiet_round_trip(chars: Seq<char>, capacity: nat, reset: char)
    requires
        quiet(chars, capacity, reset),
        chars.len() + 1 < u64::MAX,
        symbols_of(chars, capacity, reset) matches Some(symbols) && snug(
            symbols,
            chars,
            comments(chars, capacity, reset),
        ),
    ensures
        symbols_of(chars, capacity, reset) matches Some(symbols) && rendered(symbols) == without(
            chars,
            comments(chars, capacity, reset),
            chars.len() as int,
        ),
{
    let skip = comments(chars, capacity, reset);
    lemma_quiet_source_is_kept(chars, capacity, reset);
    let symbols = symbols_of(chars, capacity, reset)->0;
    lemma_rendered_prefix(symbols, chars, skip);
    lemma_without_skipped(chars, skip, reach(symbols), chars.len() as int);
}

/// The round trip of a source without comments: where the symbolizer stays
/// calm on a source, and its symbols lie snug in it, the symbols render back
/// to the source, code point for code point.
pub proof fn lemma_calm_round_trip(chars: Seq<char>, capacity: nat, reset: char)
    requires
        calm(chars, capacity, reset),
        chars.len() + 1 < u64::MAX,
        symbols_of(chars, capacity, reset) matches Some(symbols) && snug(
            symbols,
            chars,
            nowhere(),
        ),
    ensures
        symbols_of(chars, capacity, reset) matches Some(symbols) && rendered(symbols) == chars,
{
    lemma_calm_comments(chars, capacity, reset);
    lemma_quiet_round_trip(chars, capacity, reset);
    lemma_without_nowhere(chars, chars.len() as int);
    assert(chars.take(chars.len() as int) =~= chars);
}

/// Whether the source is plain: it holds no backslash, no `q` and no double
/// quote, and no two slashes in a row, so that it has no escape, no string
/// and no comment.
pub open spec fn plain(chars: Seq<char>) -> bool {
    &&& forall|i: int|
        0 <= i < chars.len() ==> (#[trigger] chars[i]) != '\\' && chars[i] != 'q' && chars[i]
            != '"'
    &&& forall|i: int|
        0 <= i < chars.len() - 1 ==> !(#[trigger] chars[i] == '/' && chars[i + 1] == '/')
}

/// Whether a code point joins the text that is accumulated: it neither ends
/// that text nor may begin a token of two code points.
pub open spec fn joins(c: char) -> bool {
    !breaking(c) && !double_start(c)
}

/// How many code points that join stand in a row just before place `upto`.
pub open spec fn joined(chars: Seq<char>, upto: int) -> nat
    decreases upto,
{
    if upto <= 0 || upto > chars.len() {
        0
    } else if joins(chars[upto - 1]) {
        joined(chars, upto - 1) + 1
    } else {
        0
    }
}

/// Whether every token of the source is shorter than `capacity`.
pub open spec fn short_tokens(chars: Seq<char>, capacity: nat) -> bool {
    forall|upto: int| 0 <= upto <= chars.len() ==> #[trigger] joined(chars, upto) < capacity
}

/// Whether spaces stand singly and inside the source: it neither begins nor
/// ends with a space, and no two spaces stand in a row.
pub open spec fn single_spaced(chars: Seq<char>) -> bool {
    &&& chars.len() > 0 ==> chars[0] != ' ' && chars[chars.len() - 1] != ' '
    &&& forall|i: int|
        0 <= i < chars.len() - 1 ==> !(#[trigger] chars[i] == ' ' && chars[i + 1] == ' ')
}

/// Whether a run over the first `n` code points of a plain source goes the
/// plain way: no string, escape, comment or announcement is open; what waits
/// is the operator read last; else the buffer holds the code points that have
/// joined; and the text held lies on the line of the cursor.
pub open spec fn plain_run(run: Run, chars: Seq<char>, n: int) -> bool {
    &&& !run.state.is_in_string
    &&& !run.state.is_escaping
    &&& !run.state.is_in_comment
    &&& !run.state.is_setting_string_delimiter
    &&& run.state.current_string_delimiter == '"'
    &&& run.cursor.pos == n
    &&& 1 <= run.cursor.column <= n + 1
    &&& run.buffer.len() < run.cursor.column
    &&& match run.state.could_be_double {
        Some(first) => double_start(first) && first != 'q' && n >= 1 && first == chars[n - 1]
            && run.buffer.len() == 0,
        None => run.buffer.len() == joined(chars, n),
    }
}

/// Taking the next code point of a plain source is never refused, and goes
/// the plain way.
proof fn lemma_plain_step(before: Run, chars: Seq<char>, n: int, capacity: nat, reset: char)
    requires
        plain(chars),
        short_tokens(chars, capacity),
        0 <= n < chars.len(),
        chars.len() + 1 < u64::MAX,
        plain_run(before, chars, n),
    ensures
        step(before, chars[n], capacity, reset) matches Some(after) && plain_run(
            after,
            chars,
            n + 1,
        ),
{
    let c = chars[n];
    assert(joined(chars, n) < capacity);
    assert(joined(chars, n + 1) < capacity);
    assert(c != '"' && c != 'q' && c != '\\');
    let buffer = pushed(before.buffer, capacity, c);
    let cursor = Cursor { pos: (before.cursor.pos + 1) as u64, ..before.cursor };
    assert(buffer =~= before.buffer.push(c));
    reveal(read);
    match before.state.could_be_double {
        None => {
            lemma_read_plain_outside(before.state, buffer, c, cursor, reset);
        },
        Some(first) => {
            assert(chars[n - 1] != 'q');
            if first == '/' && c == '/' {
                assert(chars[n - 1] == '/' && chars[n - 1 + 1] == '/');
            }
            reveal(read_paired);
            lemma_read_plain_outside(
                SymbolState { could_be_double: None, ..before.state },
                buffer,
                c,
                cursor,
                reset,
            );
            assert(!joins(first));
        },
    }
}

/// The run over the first `n` code points of a plain source is never
/// refused, and goes the plain way.
proof fn lemma_plain_run(chars: Seq<char>, n: int, capacity: nat, reset: char)
    requires
        plain(chars),
        short_tokens(chars, capacity),
        0 <= n <= chars.len(),
        chars.len() + 1 < u64::MAX,
    ensures
        run_of(chars.take(n), capacity, reset) matches Some(run) && plain_run(run, chars, n),
    decreases n,
{
    if n == 0 {
        assert(chars.take(0) =~= Seq::<char>::empty());
        assert(joined(chars, 0) < capacity);
    } else {
        lemma_plain_run(chars, n - 1, capacity, reset);
        assert(chars.take(n).drop_last() =~= chars.take(n - 1));
        assert(chars.take(n).last() == chars[n - 1]);
        lemma_plain_step(
            run_of(chars.take(n - 1), capacity, reset)->0,
            chars,
            n - 1,
            capacity,
            reset,
        );
    }
}

/// On a plain source whose tokens fit the accumulator the symbolizer stays
/// calm, and the source is never refused.
pub proof fn lemma_plain_is_calm(chars: Seq<char>, capacity: nat, reset: char)
    requires
        plain(chars),
        short_tokens(chars, capacity),
        chars.len() + 1 < u64::MAX,
    ensures
        calm(chars, capacity, reset),
        symbols_of(chars, capacity, reset) is Some,
{
    assert forall|n: int| 0 <= n <= chars.len() implies hushed_at(
        #[trigger] run_of(chars.take(n), capacity, reset),
        n < chars.len(),
        capacity,
    ) && !escaping(run_of(chars.take(n), capacity, reset)) && !commenting(
        run_of(chars.take(n), capacity, reset),
    ) by {
        lemma_plain_run(chars, n, capacity, reset);
        assert(joined(chars, n) < capacity);
    }
    lemma_plain_run(chars, chars.len() as int, capacity, reset);
    assert(chars.take(chars.len() as int) =~= chars);
}

/// A plain source is cut into symbols without loss: it is never refused;
/// each symbol has as its text the code points of the source from its start
/// to its end; and before the first symbol, between two symbols and after
/// the last one lie only spaces.
pub proof fn lemma_plain_source_is_kept(chars: Seq<char>, capacity: nat, reset: char)
    requires
        plain(chars),
        short_tokens(chars, capacity),
        chars.len() + 1 < u64::MAX,
    ensures
        symbols_of(chars, capacity, reset) matches Some(symbols) && faithful(
            symbols,
            chars,
            nowhere(),
        ) && blank(chars, nowhere(), reach(symbols), chars.len() as int),
{
    lemma_plain_is_calm(chars, capacity, reset);
    lemma_calm_source_is_kept(chars, capacity, reset);
}

/// What faithful symbols say of the symbol at place `i`.
proof fn lemma_faithful_at(symbols: Seq<SymbolView>, chars: Seq<char>, skip: Places, i: int)
    requires
        faithful(symbols, chars, skip),
        0 <= i < symbols.len(),
    ensures
        symbols[i].spans(),
        symbols[i].start.pos >= 1,
        symbols[i].end.pos <= chars.len(),
        i > 0 ==> symbols[i - 1].end.pos < symbols[i].start.pos,
        blank(
            chars,
            skip,
            if i == 0 {
                0
            } else {
                symbols[i - 1].end.pos as int
            },
            symbols[i].start.pos - 1,
        ),
{
    reveal(faithful);
}

/// Places that hold only spaces, in a source where no two spaces stand in a
/// row, are one place at most, and none at either end of the source.
proof fn lemma_single_space(chars: Seq<char>, from: int, to: int)
    requires
        single_spaced(chars),
        blank(chars, nowhere(), from, to),
        0 <= from,
        to <= chars.len(),
    ensures
        to <= from + 1,
        from == 0 || to == chars.len() ==> to <= from,
{
    reveal(blank);
    if from < to {
        assert(chars[from + 1 - 1] == ' ');
        assert(chars[to - 1] == ' ');
        if from + 1 < to {
            assert(chars[from + 2 - 1] == ' ');
        }
    }
}

/// In a single-spaced source, symbols that are faithful with nothing but
/// spaces between them lie snug.
proof fn lemma_single_spaced_snug(symbols: Seq<SymbolView>, chars: Seq<char>)
    requires
        faithful(symbols, chars, nowhere()),
        blank(chars, nowhere(), reach(symbols), chars.len() as int),
        single_spaced(chars),
    ensures
        snug(symbols, chars, nowhere()),
{
    assert forall|i: int| 0 <= i < symbols.len() implies told(
        nowhere(),
        if i == 0 {
            0
        } else {
            symbols[i - 1].end.pos as int
        },
        (#[trigger] symbols[i]).start.pos - 1,
        i > 0,
    ) by {
        let from = if i == 0 {
            0
        } else {
            symbols[i - 1].end.pos as int
        };
        let to = symbols[i].start.pos - 1;
        lemma_faithful_at(symbols, chars, nowhere(), i);
        lemma_single_space(chars, from, to);
        reveal(skipped);
    }
    if symbols.len() > 0 {
        lemma_faithful_at(symbols, chars, nowhere(), symbols.len() - 1);
    }
    lemma_single_space(chars, reach(symbols), chars.len() as int);
    reveal(skipped);
}

/// The round trip of a plain source: the symbols of a plain, single-spaced
/// source whose tokens fit the accumulator render back to the source, code
/// point for code point.
pub proof fn lemma_round_trip(chars: Seq<char>, capacity: nat, reset: char)
    requires
        plain(chars),
        short_tokens(chars, capacity),
        single_spaced(chars),
        chars.len() + 1 < u64::MAX,
    ensures
        symbols_of(chars, capacity, reset) matches Some(symbols) && rendered(symbols) == chars,
{
    lemma_plain_is_calm(chars, capacity, reset);
    lemma_plain_source_is_kept(chars, capacity, reset);
    let symbols = symbols_of(chars, capacity, reset)->0;
    lemma_single_spaced_snug(symbols, chars);
    lemma_calm_round_trip(chars, capacity, reset);
}

} // verus!
