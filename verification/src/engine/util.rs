//! Utilities the parser is built from: conversions between text and code
//! points, searches in arguments and text, and the bounded buffer that holds
//! a token while it grows.

use vstd::prelude::*;
use vstd::string::StringSliceAdditionalSpecFns;
use vstd::utf8::{
    codepoint_width_1, codepoint_width_2, codepoint_width_3, codepoint_width_4, decode_utf8,
    is_continuation_byte, is_leading_byte_width_1, is_leading_byte_width_2, is_leading_byte_width_3,
    is_leading_byte_width_4, is_scalar, valid_utf8,
};

verus! {

/// `String::push` appends the code point to the end of the string.
pub assume_specification[ String::push ](s: &mut String, c: char)
    ensures
        final(s)@ == old(s)@.push(c),
;

/// The code points of `text`, in order.
pub fn chars_of(text: &str) -> (chars: Vec<char>)
    ensures
        chars@ == text@,
{
    let mut chars: Vec<char> = Vec::new();
    for c in iter: text.chars()
        invariant
            iter.seq() == text@,
            chars@ == text@.take(iter.index()),
    {
        chars.push(c);
    }
    chars
}

/// The text made of `chars`, in order.
pub fn text_of(chars: &Vec<char>) -> (text: String)
    ensures
        text@ == chars@,
{
    let mut text = String::new();
    let mut i: usize = 0;
    while i < chars.len()
        invariant
            i <= chars.len(),
            text@ == chars@.take(i as int),
        decreases chars.len() - i,
    {
        text.push(chars[i]);
        i = i + 1;
    }
    text
}

/// Whether two texts hold the same code points.
pub fn same_text(a: &str, b: &str) -> (same: bool)
    ensures
        same == (a@ == b@),
{
    let left = chars_of(a);
    let right = chars_of(b);
    if left.len() != right.len() {
        return false;
    }
    let mut i: usize = 0;
    while i < left.len()
        invariant
            i <= left.len(),
            left.len() == right.len(),
            left@ == a@,
            right@ == b@,
            forall|j: int| 0 <= j < i ==> left@[j] == right@[j],
        decreases left.len() - i,
    {
        if left[i] != right[i] {
            return false;
        }
        i = i + 1;
    }
    assert(a@ =~= b@);
    true
}

/// The texts of a list of strings.
pub open spec fn texts(strings: Seq<String>) -> Seq<Seq<char>> {
    Seq::new(strings.len(), |i: int| strings[i]@)
}

/// The place, counted from 0, of the first of `items` that equals `key`, or
/// -1 where none does.
pub open spec fn place_of(items: Seq<Seq<char>>, key: Seq<char>) -> int
    decreases items.len(),
{
    if items.len() == 0 {
        -1
    } else if items[0] == key {
        0
    } else {
        let rest = place_of(items.drop_first(), key);
        if rest < 0 {
            -1
        } else {
            rest + 1
        }
    }
}

/// `place_of` is the least place that holds the key, and is -1 exactly where
/// no place holds it.
pub proof fn lemma_place_of(items: Seq<Seq<char>>, key: Seq<char>)
    ensures
        -1 <= place_of(items, key) < items.len(),
        place_of(items, key) >= 0 ==> items[place_of(items, key)] == key,
        forall|j: int|
            0 <= j < items.len() && (place_of(items, key) < 0 || j < place_of(items, key))
                ==> items[j] != key,
    decreases items.len(),
{
    if items.len() > 0 && items[0] != key {
        let rest = items.drop_first();
        lemma_place_of(rest, key);
        assert forall|j: int|
            0 <= j < items.len() && (place_of(items, key) < 0 || j < place_of(items, key))
                implies items[j] != key by {
            if j > 0 {
                assert(rest[j - 1] == items[j]);
            }
        }
    }
}

/// The place, counted from 0, of the first string of `vector` that equals
/// `key`, or -1 where none does.
pub fn get_index(vector: &Vec<String>, key: &str) -> (index: i32)
    requires
        vector@.len() <= i32::MAX,
    ensures
        index == place_of(texts(vector@), key@),
{
    let mut i: usize = 0;
    while i < vector.len()
        invariant
            i <= vector@.len() <= i32::MAX,
            forall|j: int| 0 <= j < i ==> texts(vector@)[j] != key@,
        decreases vector.len() - i,
    {
        if same_text(vector[i].as_str(), key) {
            proof {
                lemma_place_of(texts(vector@), key@);
                assert(texts(vector@)[i as int] == key@);
            }
            return i as i32;
        }
        i = i + 1;
    }
    proof {
        lemma_place_of(texts(vector@), key@);
    }
    -1
}

/// The number of line breaks among the first `end` bytes.
pub open spec fn line_breaks(bytes: Seq<u8>, end: int) -> nat
    decreases end,
{
    if end <= 0 || end > bytes.len() {
        0
    } else if bytes[end - 1] == 10 {
        line_breaks(bytes, end - 1) + 1
    } else {
        line_breaks(bytes, end - 1)
    }
}

/// The byte offset at which the line of number `index`, counted from 1, ends:
/// the place of the line break that closes it, or the length of the text for
/// the last line.
pub fn get_index_of_line(txt: &str, index: usize) -> (offset: usize)
    requires
        1 <= index <= line_breaks(txt.spec_bytes(), txt.spec_bytes().len() as int) + 1,
    ensures
        offset <= txt.spec_bytes().len(),
        line_breaks(txt.spec_bytes(), offset as int) == index - 1,
        offset == txt.spec_bytes().len() || txt.spec_bytes()[offset as int] == 10,
{
    let bytes = txt.as_bytes();
    let mut at: usize = 0;
    let mut seen: usize = 0;
    while at < bytes.len()
        invariant
            at <= bytes@.len(),
            bytes@ == txt.spec_bytes(),
            seen == line_breaks(bytes@, at as int),
            seen < index,
        decreases bytes.len() - at,
    {
        if bytes[at] == 10 {
            if seen + 1 == index {
                return at;
            }
            seen = seen + 1;
        }
        at = at + 1;
    }
    at
}

/// What a scan for a pattern outside quoted text has found so far.
pub struct Scan {
    /// How often the pattern stood outside quoted text.
    pub count: nat,
    /// Whether the scan stands inside quoted text.
    pub in_string: bool,
    /// Whether the next code point is escaped.
    pub escaped: bool,
}

/// The scan after one more code point.
pub open spec fn scan_step(scan: Scan, c: char, pat: char) -> Scan {
    if scan.escaped {
        Scan { escaped: false, ..scan }
    } else if c == '\\' {
        Scan { escaped: true, ..scan }
    } else {
        Scan {
            count: if c == pat && !scan.in_string {
                scan.count + 1
            } else {
                scan.count
            },
            in_string: if c == '"' || c == '\'' {
                !scan.in_string
            } else {
                scan.in_string
            },
            escaped: false,
        }
    }
}

/// The scan after all of `chars`.
pub open spec fn scan_of(chars: Seq<char>, pat: char) -> Scan
    decreases chars.len(),
{
    if chars.len() == 0 {
        Scan { count: 0, in_string: false, escaped: false }
    } else {
        scan_step(scan_of(chars.drop_last(), pat), chars.last(), pat)
    }
}

/// A scan counts no more than it has read.
proof fn lemma_scan_bounded(chars: Seq<char>, pat: char)
    ensures
        scan_of(chars, pat).count <= chars.len(),
    decreases chars.len(),
{
    if chars.len() > 0 {
        lemma_scan_bounded(chars.drop_last(), pat);
    }
}

/// How often `pat` stands in `txt` outside quoted text. A single or double
/// quote opens or closes quoted text; a backslash escapes the code point
/// after it, which is then neither counted nor taken for a quote.
pub fn count_occurences_not_in_string(txt: &str, pat: char) -> (count: usize)
    ensures
        count == scan_of(txt@, pat).count,
{
    let chars = chars_of(txt);
    let mut count: usize = 0;
    let mut is_in_string = false;
    let mut is_escaped = false;
    let mut i: usize = 0;
    while i < chars.len()
        invariant
            i <= chars.len(),
            chars@ == txt@,
            count == scan_of(chars@.take(i as int), pat).count,
            is_in_string == scan_of(chars@.take(i as int), pat).in_string,
            is_escaped == scan_of(chars@.take(i as int), pat).escaped,
        decreases chars.len() - i,
    {
        let character = chars[i];
        proof {
            assert(chars@.take(i + 1).drop_last() == chars@.take(i as int));
            lemma_scan_bounded(chars@.take(i as int), pat);
        }
        if is_escaped {
            is_escaped = false;
        } else if character == '\\' {
            is_escaped = true;
        } else {
            if character == pat && !is_in_string {
                count = count + 1;
            }
            if character == '"' || character == '\'' {
                is_in_string = !is_in_string;
            }
        }
        i = i + 1;
    }
    assert(chars@.take(i as int) == chars@);
    count
}

/// A bounded buffer that holds items in the order in which they came. Once it
/// is full, a new item takes the place of the newest one.
#[derive(Debug)]
pub struct Conveyor<T> {
    items: Vec<T>,
    size: usize,
}

impl<T> View for Conveyor<T> {
    type V = Seq<T>;

    /// The items held, oldest first.
    closed spec fn view(&self) -> Seq<T> {
        self.items@
    }
}

/// What a buffer of `capacity` items holds after `item` was pushed onto `items`.
pub open spec fn pushed<T>(items: Seq<T>, capacity: nat, item: T) -> Seq<T> {
    if items.len() >= capacity && items.len() > 0 {
        items.drop_last().push(item)
    } else {
        items.push(item)
    }
}

impl<T> Conveyor<T> {
    #[verifier::type_invariant]
    spec fn inv(&self) -> bool {
        0 < self.size && self.items@.len() <= self.size
    }

    /// The number of items the buffer can hold.
    pub closed spec fn capacity(&self) -> nat {
        self.size as nat
    }

    /// An empty buffer for at most `size` items.
    pub fn new(size: usize) -> (conveyor: Self)
        requires
            size > 0,
        ensures
            conveyor@ == Seq::<T>::empty(),
            conveyor.capacity() == size,
    {
        Self { items: Vec::new(), size }
    }

    /// Adds `item` as the newest. Where the buffer was full, the item that was
    /// the newest until now leaves and is returned.
    pub fn push(&mut self, item: T) -> (evicted: Option<T>)
        ensures
            final(self).capacity() == old(self).capacity(),
            final(self)@ == pushed(old(self)@, old(self).capacity(), item),
            evicted == if old(self)@.len() >= old(self).capacity() {
                Some(old(self)@.last())
            } else {
                None
            },
    {
        proof {
            use_type_invariant(&*self);
        }
        let mut items: Vec<T> = Vec::new();
        std::mem::swap(&mut items, &mut self.items);
        let pop = if items.len() >= self.size {
            items.pop()
        } else {
            None
        };
        items.push(item);
        self.items = items;
        pop
    }

    /// The oldest item, which stays in the buffer.
    pub fn next(&self) -> (oldest: Option<&T>)
        ensures
            oldest == if self@.len() > 0 {
                Some(&self@[0])
            } else {
                None
            },
    {
        if self.items.len() > 0 {
            Some(&self.items[0])
        } else {
            None
        }
    }

    /// Takes the newest item out of the buffer.
    pub fn pop(&mut self) -> (newest: Option<T>)
        ensures
            final(self).capacity() == old(self).capacity(),
            final(self)@ == if old(self)@.len() > 0 {
                old(self)@.drop_last()
            } else {
                old(self)@
            },
            newest == if old(self)@.len() > 0 {
                Some(old(self)@.last())
            } else {
                None
            },
    {
        proof {
            use_type_invariant(&*self);
        }
        let mut items: Vec<T> = Vec::new();
        std::mem::swap(&mut items, &mut self.items);
        let newest = items.pop();
        self.items = items;
        newest
    }

    /// Empties the buffer.
    pub fn clear(&mut self)
        ensures
            final(self).capacity() == old(self).capacity(),
            final(self)@ == Seq::<T>::empty(),
    {
        proof {
            use_type_invariant(&*self);
        }
        self.items = Vec::new();
    }

    /// The newest item, which stays in the buffer.
    pub fn last(&self) -> (newest: Option<&T>)
        ensures
            newest == if self@.len() > 0 {
                Some(&self@.last())
            } else {
                None
            },
    {
        let n = self.items.len();
        if n > 0 {
            Some(&self.items[n - 1])
        } else {
            None
        }
    }

    /// The number of items the buffer can hold, which is at least 1.
    pub fn size(&self) -> (size: usize)
        ensures
            size == self.capacity(),
            size > 0,
    {
        proof {
            use_type_invariant(self);
        }
        self.size
    }

    /// The number of items held, which is never more than the capacity.
    pub fn len(&self) -> (n: usize)
        ensures
            n == self@.len(),
            n <= self.capacity(),
    {
        proof {
            use_type_invariant(self);
        }
        self.items.len()
    }
}

impl Conveyor<char> {
    /// The code points held, oldest first, as one text.
    pub fn to_string(&self) -> (text: String)
        ensures
            text@ == self@,
    {
        text_of(&self.items)
    }
}

/// `char::from_u32` gives the code point with the given value, and nothing
/// for a value that is no code point: one above 0x10FFFF or a surrogate.
pub assume_specification[ char::from_u32 ](value: u32) -> (c: Option<char>)
    ensures
        c == if is_scalar(value) {
            Some(value as char)
        } else {
            None::<char>
        },
;

/// `String::from_utf8` gives the text that the bytes encode, and fails
/// exactly where the bytes are not UTF-8.
#[verifier::external_body]
fn text_from_utf8(bytes: Vec<u8>) -> (text: Option<String>)
    ensures
        text is Some <==> valid_utf8(bytes@),
        text matches Some(decoded) ==> decoded@ == decode_utf8(bytes@),
{
    match String::from_utf8(bytes) {
        Ok(text) => Some(text),
        Err(_) => None,
    }
}

/// The number of bytes of the code point whose bytes `window` begins with,
/// by the form of those bytes: one byte `0xxxxxxx`; two bytes `110xxxxx
/// 10xxxxxx`; three bytes `1110xxxx` and two of `10xxxxxx`; four bytes
/// `11110xxx` and three of `10xxxxxx`. `None` for any other form.
pub open spec fn char_length(window: Seq<u8>) -> Option<u8> {
    if is_leading_byte_width_1(window[0]) {
        Some(1u8)
    } else if is_leading_byte_width_2(window[0]) && is_continuation_byte(window[1]) {
        Some(2u8)
    } else if is_leading_byte_width_3(window[0]) && is_continuation_byte(window[1])
        && is_continuation_byte(window[2]) {
        Some(3u8)
    } else if is_leading_byte_width_4(window[0]) && is_continuation_byte(window[1])
        && is_continuation_byte(window[2]) && is_continuation_byte(window[3]) {
        Some(4u8)
    } else {
        None
    }
}

/// The number of bytes of the code point that `buf` begins with, or `None`
/// where the bytes have none of the four forms.
pub fn find_char_length(buf: [u8; 4]) -> (length: Option<u8>)
    ensures
        length == char_length(buf@),
{
    if buf[0] <= 0x7f {
        Some(1)
    } else if 0xc0 <= buf[0] && buf[0] <= 0xdf && 0x80 <= buf[1] && buf[1] <= 0xbf {
        Some(2)
    } else if 0xe0 <= buf[0] && buf[0] <= 0xef && 0x80 <= buf[1] && buf[1] <= 0xbf && 0x80
        <= buf[2] && buf[2] <= 0xbf {
        Some(3)
    } else if 0xf0 <= buf[0] && buf[0] <= 0xf7 && 0x80 <= buf[1] && buf[1] <= 0xbf && 0x80
        <= buf[2] && buf[2] <= 0xbf && 0x80 <= buf[3] && buf[3] <= 0xbf {
        Some(4)
    } else {
        None
    }
}

/// The number of bytes of the code point that `buf` begins with. The bytes
/// must have one of the four forms.
pub fn get_char_length(buf: [u8; 4]) -> (length: u8)
    requires
        char_length(buf@) is Some,
    ensures
        Some(length) == char_length(buf@),
        1 <= length <= 4,
{
    match find_char_length(buf) {
        Some(length) => length,
        None => 1,
    }
}

/// Why bytes could not be read as code points.
#[derive(Debug, Clone, Copy, PartialEq, Eq, Structural)]
pub enum ReadError {
    /// A source that is read at once is not UTF-8.
    Encoding,
    /// The bytes at hand have none of the four forms of a code point.
    Form,
    /// The value that the bytes hold is no code point.
    Value,
}

/// The value that the first `length` bytes of `window` hold: the payload
/// bits of the leading byte, then six bits of each byte that continues it.
pub open spec fn code_value(window: Seq<u8>, length: u8) -> u32 {
    if length == 1 {
        codepoint_width_1(window[0])
    } else if length == 2 {
        codepoint_width_2(window[0], window[1])
    } else if length == 3 {
        codepoint_width_3(window[0], window[1], window[2])
    } else {
        codepoint_width_4(window[0], window[1], window[2], window[3])
    }
}

/// The code point that `window` begins with, and the number of its bytes.
pub open spec fn decoded(window: Seq<u8>) -> Result<(char, u8), ReadError> {
    match char_length(window) {
        None => Err(ReadError::Form),
        Some(length) => if is_scalar(code_value(window, length)) {
            Ok((code_value(window, length) as char, length))
        } else {
            Err(ReadError::Value)
        },
    }
}

/// The code point that the four bytes begin with, and the number of bytes
/// it takes.
pub fn decode_char(buf: [u8; 4]) -> (result: Result<(char, u8), ReadError>)
    ensures
        result == decoded(buf@),
{
    match find_char_length(buf) {
        None => Err(ReadError::Form),
        Some(length) => {
            let value: u32 = if length == 1 {
                (buf[0] & 0x7F) as u32
            } else if length == 2 {
                (((buf[0] & 0x1F) as u32) << 6) | ((buf[1] & 0x3F) as u32)
            } else if length == 3 {
                (((buf[0] & 0x0F) as u32) << 12) | (((buf[1] & 0x3F) as u32) << 6) | ((buf[2]
                    & 0x3F) as u32)
            } else {
                (((buf[0] & 0x07) as u32) << 18) | (((buf[1] & 0x3F) as u32) << 12) | (((buf[2]
                    & 0x3F) as u32) << 6) | ((buf[3] & 0x3F) as u32)
            };
            match char::from_u32(value) {
                Some(c) => Ok((c, length)),
                None => Err(ReadError::Value),
            }
        },
    }
}

/// The next four bytes of `bytes`, with 0 for each byte that is missing.
pub open spec fn window(bytes: Seq<u8>) -> Seq<u8> {
    Seq::new(
        4,
        |i: int|
            if i < bytes.len() {
                bytes[i]
            } else {
                0u8
            },
    )
}

/// What reading bytes one code point at a time comes to: the code points
/// read, and the error that ended the reading, if one did.
pub struct Decoding {
    pub chars: Seq<char>,
    pub error: Option<ReadError>,
}

/// A code point never takes more bytes than there are.
pub proof fn lemma_decoded_within(bytes: Seq<u8>)
    requires
        bytes.len() > 0,
    ensures
        decoded(window(bytes)) matches Ok((c, length)) ==> 1 <= length <= bytes.len(),
{
}

/// Reading `bytes` from the start, one code point at a time, until they end
/// or a code point cannot be read.
pub open spec fn drained(bytes: Seq<u8>) -> Decoding
    decreases bytes.len(),
{
    if bytes.len() == 0 {
        Decoding { chars: Seq::empty(), error: None }
    } else {
        match decoded(window(bytes)) {
            Err(error) => Decoding { chars: Seq::empty(), error: Some(error) },
            Ok((c, length)) => if 1 <= length <= bytes.len() {
                let rest = drained(bytes.skip(length as int));
                Decoding { chars: Seq::<char>::empty().push(c) + rest.chars, error: rest.error }
            } else {
                Decoding { chars: Seq::empty(), error: Some(ReadError::Form) }
            },
        }
    }
}

/// What a source gives to the symbolizer: in low-memory mode the code points
/// read one at a time from the bytes; else the code points of the whole
/// source, decoded at once, and `Encoding` where the bytes are not UTF-8.
pub open spec fn source_of(bytes: Seq<u8>, low_mem: bool) -> Decoding {
    if low_mem {
        drained(bytes)
    } else if valid_utf8(bytes) {
        Decoding { chars: decode_utf8(bytes), error: None }
    } else {
        Decoding { chars: Seq::empty(), error: Some(ReadError::Encoding) }
    }
}

/// A text has at most as many code points as bytes.
pub proof fn lemma_decode_len(bytes: Seq<u8>)
    requires
        valid_utf8(bytes),
    ensures
        decode_utf8(bytes).len() <= bytes.len(),
    decreases bytes.len(),
{
    if bytes.len() > 0 {
        let rest = vstd::utf8::pop_first_scalar(bytes);
        lemma_decode_len(rest);
    }
}

/// A source of code points over the bytes of a file. It either decodes the
/// whole file when it is made, or decodes one code point at a time from the
/// bytes as they are asked for.
pub struct CharReader {
    low_mem: bool,
    file: Vec<u8>,
    file_contents: Option<Vec<char>>,
    current_pos: usize,
    file_length: usize,
}

impl CharReader {
    #[verifier::type_invariant]
    spec fn inv(&self) -> bool {
        if self.low_mem {
            self.file_length == self.file@.len() && self.current_pos <= self.file_length
        } else {
            self.file_contents is Some && self.current_pos <= self.file_contents->0@.len()
        }
    }

    /// Whether the reader decodes one code point at a time.
    pub closed spec fn low_memory(&self) -> bool {
        self.low_mem
    }

    /// The bytes that a low-memory reader has not read yet.
    pub closed spec fn bytes_left(&self) -> Seq<u8> {
        self.file@.skip(self.current_pos as int)
    }

    /// The code points that a reader which decoded its file at once has not
    /// given yet.
    pub closed spec fn chars_left(&self) -> Seq<char> {
        self.file_contents->0@.skip(self.current_pos as int)
    }

    /// What the reader has yet to give: the code points, and the error that
    /// ends them, if one does.
    pub open spec fn rest(&self) -> Decoding {
        if self.low_memory() {
            drained(self.bytes_left())
        } else {
            Decoding { chars: self.chars_left(), error: None }
        }
    }

    /// How many bytes or code points the reader still holds.
    pub open spec fn left(&self) -> nat {
        if self.low_memory() {
            self.bytes_left().len()
        } else {
            self.chars_left().len()
        }
    }

    /// A reader over the bytes of a file, in low-memory mode where `low_mem`
    /// says so. In the other mode the file is decoded here, and bytes that
    /// are not UTF-8 are refused.
    pub fn new(file: Vec<u8>, low_mem: Option<bool>) -> (result: Result<Self, ReadError>)
        ensures
            result is Err <==> low_mem != Some(true) && !valid_utf8(file@),
            result matches Err(error) ==> error == ReadError::Encoding,
            result matches Ok(reader) ==> {
                &&& reader.low_memory() == (low_mem == Some(true))
                &&& reader.low_memory() ==> reader.bytes_left() == file@
                &&& !reader.low_memory() ==> reader.chars_left() == decode_utf8(file@)
                &&& reader.left() <= file@.len()
            },
    {
        let low = match low_mem {
            Some(low) => low,
            None => false,
        };
        let file_length = file.len();
        if low {
            Ok(Self { low_mem: true, file, file_contents: None, current_pos: 0, file_length })
        } else {
            proof {
                if valid_utf8(file@) {
                    lemma_decode_len(file@);
                }
            }
            match text_from_utf8(file) {
                Some(text) => {
                    let chars = chars_of(text.as_str());
                    Ok(
                        Self {
                            low_mem: false,
                            file: Vec::new(),
                            file_contents: Some(chars),
                            current_pos: 0,
                            file_length,
                        },
                    )
                },
                None => Err(ReadError::Encoding),
            }
        }
    }

    /// The next code point of a file that was decoded at once.
    fn read(&mut self) -> (next: Option<char>)
        requires
            !old(self).low_memory(),
        ensures
            !final(self).low_memory(),
            next == if old(self).chars_left().len() > 0 {
                Some(old(self).chars_left()[0])
            } else {
                None
            },
            final(self).chars_left() == if old(self).chars_left().len() > 0 {
                old(self).chars_left().skip(1)
            } else {
                old(self).chars_left()
            },
    {
        proof {
            use_type_invariant(&*self);
        }
        let next = match &self.file_contents {
            Some(contents) => if self.current_pos < contents.len() {
                Some(contents[self.current_pos])
            } else {
                None
            },
            None => None,
        };
        if next.is_some() {
            assert(self.chars_left().skip(1) =~= self.file_contents->0@.skip(
                self.current_pos + 1,
            ));
            self.current_pos = self.current_pos + 1;
        }
        next
    }

    /// The byte that lies `ahead` bytes after the place of the reader, or 0
    /// past the end of the file.
    fn byte_at(&self, ahead: usize) -> (byte: u8)
        requires
            self.low_memory(),
            ahead < 4,
        ensures
            byte == window(self.bytes_left())[ahead as int],
    {
        proof {
            use_type_invariant(self);
        }
        if ahead < self.file_length - self.current_pos {
            self.file[self.current_pos + ahead]
        } else {
            0
        }
    }

    /// The next code point, decoded from the bytes at the place of the
    /// reader, which then moves past them.
    fn read_low_mem(&mut self) -> (next: Result<Option<char>, ReadError>)
        requires
            old(self).low_memory(),
        ensures
            final(self).low_memory(),
            old(self).bytes_left().len() == 0 ==> next == Ok::<Option<char>, ReadError>(None)
                && final(self).bytes_left() == old(self).bytes_left(),
            old(self).bytes_left().len() > 0 ==> match decoded(window(old(self).bytes_left())) {
                Ok((c, length)) => {
                    &&& next == Ok::<Option<char>, ReadError>(Some(c))
                    &&& final(self).bytes_left() == old(self).bytes_left().skip(length as int)
                },
                Err(error) => {
                    &&& next == Err::<Option<char>, ReadError>(error)
                    &&& final(self).bytes_left() == old(self).bytes_left()
                },
            },
    {
        proof {
            use_type_invariant(&*self);
        }
        if self.file_length <= self.current_pos {
            return Ok(None);
        }
        let buf = [self.byte_at(0), self.byte_at(1), self.byte_at(2), self.byte_at(3)];
        assert(buf@ =~= window(self.bytes_left()));
        proof {
            lemma_decoded_within(self.bytes_left());
        }
        match decode_char(buf) {
            Ok((c, length)) => {
                assert(self.bytes_left().skip(length as int) =~= self.file@.skip(
                    self.current_pos + length,
                ));
                self.current_pos = self.current_pos + length as usize;
                Ok(Some(c))
            },
            Err(error) => Err(error),
        }
    }

    /// The next code point of the file, or `None` at its end.
    pub fn next(&mut self) -> (next: Result<Option<char>, ReadError>)
        ensures
            final(self).low_memory() == old(self).low_memory(),
            !old(self).low_memory() ==> {
                &&& next == Ok::<Option<char>, ReadError>(
                    if old(self).chars_left().len() > 0 {
                        Some(old(self).chars_left()[0])
                    } else {
                        None
                    },
                )
                &&& final(self).chars_left() == if old(self).chars_left().len() > 0 {
                    old(self).chars_left().skip(1)
                } else {
                    old(self).chars_left()
                }
            },
            old(self).low_memory() && old(self).bytes_left().len() == 0 ==> {
                &&& next == Ok::<Option<char>, ReadError>(None)
                &&& final(self).bytes_left() == old(self).bytes_left()
            },
            old(self).low_memory() && old(self).bytes_left().len() > 0 ==> match decoded(
                window(old(self).bytes_left()),
            ) {
                Ok((c, length)) => {
                    &&& next == Ok::<Option<char>, ReadError>(Some(c))
                    &&& final(self).bytes_left() == old(self).bytes_left().skip(length as int)
                },
                Err(error) => {
                    &&& next == Err::<Option<char>, ReadError>(error)
                    &&& final(self).bytes_left() == old(self).bytes_left()
                },
            },
    {
        if self.low_mem {
            self.read_low_mem()
        } else {
            Ok(self.read())
        }
    }
}

} // verus!
