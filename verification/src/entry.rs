//! What the compiled program and the start of the process ask of the runtime,
//! besides collecting and printing: the error codes and their messages, the
//! reading of the two inputs, and the dump of the stack.

use vstd::prelude::*;
use vstd::string::StringExecFns;
use crate::value::{word_of_int, TRUE_WORD, FALSE_WORD};
use crate::heap::{Region, addr_in, addr_of, index_of};
use crate::text::{decimal, decimal_text, hex, hex_text};

verus! {

/// The errors that end a program.
#[derive(Clone, Copy, Debug, PartialEq, Eq, Structural)]
pub enum ErrCode {
    InvalidArgument,
    Overflow,
    IndexOutOfBounds,
    InvalidVecSize,
    OutOfMemory,
}

impl ErrCode {
    /// The number of an error, which is also the status the process exits with.
    pub open spec fn code_spec(self) -> i64 {
        match self {
            ErrCode::InvalidArgument => 1,
            ErrCode::Overflow => 2,
            ErrCode::IndexOutOfBounds => 3,
            ErrCode::InvalidVecSize => 4,
            ErrCode::OutOfMemory => 5,
        }
    }

    /// The number of an error.
    pub fn code(self) -> (c: i64)
        ensures
            c == self.code_spec(),
    {
        match self {
            ErrCode::InvalidArgument => 1,
            ErrCode::Overflow => 2,
            ErrCode::IndexOutOfBounds => 3,
            ErrCode::InvalidVecSize => 4,
            ErrCode::OutOfMemory => 5,
        }
    }

    /// The error with a given number, if there is one.
    pub fn from_code(c: i64) -> (r: Option<ErrCode>)
        ensures
            r.is_some() <==> 1 <= c <= 5,
            r.is_some() ==> r.unwrap().code_spec() == c,
    {
        if c == 1 {
            Some(ErrCode::InvalidArgument)
        } else if c == 2 {
            Some(ErrCode::Overflow)
        } else if c == 3 {
            Some(ErrCode::IndexOutOfBounds)
        } else if c == 4 {
            Some(ErrCode::InvalidVecSize)
        } else if c == 5 {
            Some(ErrCode::OutOfMemory)
        } else {
            None
        }
    }
}

/// The message for an error number that the compiled program raises. Running
/// out of memory is not raised this way, so its number gets the general message.
pub open spec fn error_message(errcode: i64) -> Seq<char> {
    if errcode == 1 {
        "invalid argument"@
    } else if errcode == 2 {
        "overflow"@
    } else if errcode == 3 {
        "index out of bounds"@
    } else if errcode == 4 {
        "vector size must be non-negative"@
    } else {
        "an error ocurred "@ + decimal_text(errcode as int)
    }
}

/// The message to write before the process exits with `errcode`.
pub fn snek_error(errcode: i64) -> (msg: String)
    ensures
        msg@ == error_message(errcode),
{
    if errcode == ErrCode::InvalidArgument.code() {
        String::from_str("invalid argument")
    } else if errcode == ErrCode::Overflow.code() {
        String::from_str("overflow")
    } else if errcode == ErrCode::IndexOutOfBounds.code() {
        String::from_str("index out of bounds")
    } else if errcode == ErrCode::InvalidVecSize.code() {
        String::from_str("vector size must be non-negative")
    } else {
        let mut msg: String = String::from_str("an error ocurred ");
        let num: String = decimal(errcode as i128);
        msg.append(num.as_str());
        msg
    }
}

/// The message to write when a collection has not made room.
pub fn out_of_memory_message() -> (msg: String)
    ensures
        msg@ == "out of memory"@,
{
    String::from_str("out of memory")
}

/// What `str::parse::<i64>` makes of a text: the integer, or nothing where the
/// text is not one.
pub uninterp spec fn parsed_i64(s: Seq<char>) -> Option<i64>;

/// What `str::parse::<usize>` makes of a text.
pub uninterp spec fn parsed_usize(s: Seq<char>) -> Option<usize>;

/// Calls `str::parse::<i64>`. Trusted: the result depends on the text alone.
#[verifier::external_body]
fn parse_i64(s: &str) -> (r: Option<i64>)
    ensures
        r == parsed_i64(s@),
{
    s.parse::<i64>().ok()
}

/// Calls `str::parse::<usize>`. Trusted: the result depends on the text alone.
#[verifier::external_body]
fn parse_usize(s: &str) -> (r: Option<usize>)
    ensures
        r == parsed_usize(s@),
{
    s.parse::<usize>().ok()
}

/// The word for the program's input: `true`, `false`, or an integer, shifted
/// left by one bit whatever its size.
pub open spec fn input_word_spec(s: Seq<char>) -> Option<u64> {
    if s == "true"@ {
        Some(7u64)
    } else if s == "false"@ {
        Some(3u64)
    } else {
        match parsed_i64(s) {
            Some(n) => Some(word_of_int(n as int)),
            None => None,
        }
    }
}

/// The word for an integer input: twice the integer, modulo two to the 64.
pub fn input_word(n: i64) -> (w: u64)
    ensures
        w == word_of_int(n as int),
        w % 2 == 0,
{
    if n >= 0 {
        (n as u64) * 2
    } else {
        let up: i64 = n - i64::MIN;
        (up as u64) * 2
    }
}

/// Tells whether two texts are the same.
fn same_text(a: &str, b: &str) -> (r: bool)
    ensures
        r == (a@ == b@),
{
    let x: String = String::from_str(a);
    let y: String = String::from_str(b);
    x == y
}

/// Reads the program's input from a text that is `true`, `false` or an integer.
pub fn parse_input(input: &str) -> (w: u64)
    requires
        input_word_spec(input@).is_some(),
    ensures
        Some(w) == input_word_spec(input@),
{
    if same_text(input, "true") {
        TRUE_WORD
    } else if same_text(input, "false") {
        FALSE_WORD
    } else {
        match parse_i64(input) {
            Some(n) => input_word(n),
            None => 0,
        }
    }
}

/// Reads the program's input from any text: nothing where the text is neither
/// `true`, `false` nor an integer.
pub fn try_parse_input(input: &str) -> (r: Option<u64>)
    ensures
        r == input_word_spec(input@),
{
    if same_text(input, "true") || same_text(input, "false") {
        Some(parse_input(input))
    } else {
        match parse_i64(input) {
            Some(n) => Some(parse_input(input)),
            None => None,
        }
    }
}

/// Reads the heap's size in words from a text that is a number.
pub fn parse_heap_size(input: &str) -> (n: usize)
    requires
        parsed_usize(input@).is_some(),
    ensures
        Some(n) == parsed_usize(input@),
{
    match parse_usize(input) {
        Some(n) => n,
        None => 0,
    }
}

/// Reads the heap's size in words from any text: nothing where the text is no number.
pub fn try_parse_heap_size(input: &str) -> (r: Option<usize>)
    ensures
        r == parsed_usize(input@),
{
    match parse_usize(input) {
        Some(n) => Some(parse_heap_size(input)),
        None => None,
    }
}

/// The line that frames the dump of the stack.
pub open spec fn dump_frame() -> Seq<char> {
    "-----------------------------------------"@
}

/// The line for the stack word at index `i`: its address, a colon, the word.
pub open spec fn dump_line(stack: Region, i: int) -> Seq<char> {
    hex_text(addr_of(stack.start, i) as nat) + ": "@ + hex_text(stack.words@[i] as nat)
}

/// The lines of the dump: the words from index `base` down to index `sp`,
/// between two framing lines.
pub open spec fn dump_lines(stack: Region, base: int, sp: int) -> Seq<Seq<char>> {
    seq![dump_frame()] + Seq::new((if base >= sp { base - sp + 1 } else { 0 }) as nat, |k: int| dump_line(stack, base - k))
        + seq![dump_frame()]
}

/// The lines that dumping the stack writes, from the stack base down to the
/// stack pointer: nothing unless the base is the address of a stack word and
/// the stack pointer a word address in the stack or just above it.
pub fn snek_print_stack(stack: &Region, stack_base: u64, fp: u64, sp: u64) -> (r: Option<Vec<String>>)
    requires
        stack.valid(),
    ensures
        r.is_some() <==> addr_in(stack.start, stack_base as int, stack.words@.len() as int) && addr_in(
            stack.start,
            sp as int,
            stack.words@.len() as int + 1,
        ),
        r.is_some() ==> ({
            let lines = dump_lines(*stack, index_of(stack.start, stack_base as int), index_of(stack.start, sp as int));
            &&& r.unwrap()@.len() == lines.len()
            &&& forall|k: int| 0 <= k < lines.len() ==> (#[trigger] r.unwrap()@[k])@ == lines[k]
        }),
{
    let n: usize = stack.words.len();
    let base_i: usize = match stack.index(stack_base, n) {
        Some(i) => i,
        None => {
            return None;
        },
    };
    if sp < stack.start || (sp - stack.start) % 8 != 0 || (sp - stack.start) / 8 > n as u64 {
        return None;
    }
    let sp_i: u64 = (sp - stack.start) / 8;
    let mut out: Vec<String> = Vec::new();
    out.push(String::from_str("-----------------------------------------"));
    let mut p: u64 = base_i as u64 + 1;
    while p > sp_i
        invariant
            stack.valid(),
            n == stack.words@.len(),
            base_i < n,
            p <= base_i + 1,
            p >= sp_i || p == base_i + 1,
            out@.len() == base_i + 2 - p,
            out@[0]@ == dump_frame(),
            forall|k: int| 1 <= k < out@.len() ==> (#[trigger] out@[k])@ == dump_line(*stack, base_i + 1 - k),
        decreases p,
    {
        p = p - 1;
        let mut line: String = hex(stack.addr(p as usize));
        line.append(": ");
        let val: String = hex(stack.words[p as usize]);
        line.append(val.as_str());
        out.push(line);
    }
    out.push(String::from_str("-----------------------------------------"));
    Some(out)
}

} // verus!
