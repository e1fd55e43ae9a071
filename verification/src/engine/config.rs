//! What a run of the parser is told: where the source lies, where the result
//! goes, and how strings are delimited.

use crate::engine::util::{chars_of, get_index, lemma_place_of, place_of, texts};
use vstd::prelude::*;
use vstd::string::StringExecFns;

verus! {

/// A configuration as a file states it.
#[derive(Debug)]
pub struct ConfigFile {
    pub src: String,
    pub out: String,
    pub low_mem: bool,
    pub string_delimiter: char,
}

/// The configuration of one run.
#[derive(Debug, Clone, PartialEq, Eq)]
pub struct Config {
    pub src: String,
    pub out: String,
    pub origin: String,
    pub debbuging: bool,
    pub low_mem: bool,
    pub string_delimiter: char,
}

/// Whether one of the arguments is `flag`.
pub open spec fn has_flag(arguments: Seq<Seq<char>>, flag: Seq<char>) -> bool {
    place_of(arguments, flag) >= 0
}

/// The argument that follows the first `flag`, or `fallback` where `flag`
/// is the last argument.
pub open spec fn value_after(arguments: Seq<Seq<char>>, flag: Seq<char>, fallback: Seq<char>) -> Seq<
    char,
> {
    let at = place_of(arguments, flag);
    if at + 1 < arguments.len() {
        arguments[at + 1]
    } else {
        fallback
    }
}

/// The text from which the string delimiter is taken: what follows `--qq`,
/// or a double quote.
pub open spec fn delimiter_text(arguments: Seq<Seq<char>>) -> Seq<char> {
    if has_flag(arguments, "--qq"@) {
        value_after(arguments, "--qq"@, "\""@)
    } else {
        "\""@
    }
}

/// The argument after the first `flag`, or `fallback` where none follows.
fn argument_after(args: &Vec<String>, flag: &str, fallback: &str) -> (value: String)
    requires
        args@.len() < i32::MAX,
        has_flag(texts(args@), flag@),
    ensures
        value@ == value_after(texts(args@), flag@, fallback@),
{
    let found = get_index(args, flag);
    proof {
        lemma_place_of(texts(args@), flag@);
    }
    let next = (found + 1) as usize;
    if next < args.len() {
        assert(texts(args@)[next as int] == args@[next as int]@);
        args[next].clone()
    } else {
        String::from_str(fallback)
    }
}

/// Whether one of `args` is `flag`.
fn flag_given(args: &Vec<String>, flag: &str) -> (given: bool)
    requires
        args@.len() < i32::MAX,
    ensures
        given == has_flag(texts(args@), flag@),
{
    let found = get_index(args, flag);
    found >= 0
}

/// The configuration that the arguments of a command line state. Both
/// `--src` and `--out` must be given; each takes the argument after it, or
/// `./src` and `./target` where none follows. `--low-mem` asks for the
/// low-memory reader. `--qq` sets the string delimiter to the last code point
/// of the argument after it, which must not be empty.
pub fn extract_config(args: &Vec<String>) -> (result: Result<Config, String>)
    requires
        args@.len() < i32::MAX,
        has_flag(texts(args@), "--src"@) && has_flag(texts(args@), "--out"@) ==> delimiter_text(
            texts(args@),
        ).len() > 0,
    ensures
        result is Ok <==> has_flag(texts(args@), "--src"@) && has_flag(texts(args@), "--out"@),
        result matches Err(message) ==> message@ == "No configuration provided!"@,
        result matches Ok(config) ==> {
            &&& config.src@ == value_after(texts(args@), "--src"@, "./src"@)
            &&& config.out@ == value_after(texts(args@), "--out"@, "./target"@)
            &&& config.origin@ == "."@
            &&& !config.debbuging
            &&& config.low_mem == has_flag(texts(args@), "--low-mem"@)
            &&& config.string_delimiter == delimiter_text(texts(args@)).last()
        },
{
    let has_src = flag_given(args, "--src");
    let has_out = flag_given(args, "--out");
    let has_low_mem = flag_given(args, "--low-mem");
    let has_str_del = flag_given(args, "--qq");
    if has_src && has_out {
        let src = argument_after(args, "--src", "./src");
        let out = argument_after(args, "--out", "./target");
        let del = if has_str_del {
            argument_after(args, "--qq", "\"")
        } else {
            String::from_str("\"")
        };
        let del_chars = chars_of(del.as_str());
        let string_delimiter = del_chars[del_chars.len() - 1];
        return Ok(
            Config {
                src,
                out,
                origin: String::from_str("."),
                debbuging: false,
                low_mem: has_low_mem,
                string_delimiter,
            },
        );
    }
    Err(String::from_str("No configuration provided!"))
}

} // verus!
