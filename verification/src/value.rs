//! The encoding of values in one 64-bit word.

use vstd::prelude::*;

verus! {

/// The word that stands for `true`.
pub const TRUE_WORD: u64 = 7;

/// The word that stands for `false`.
pub const FALSE_WORD: u64 = 3;

/// The word that stands for the empty value.
pub const NIL_WORD: u64 = 1;

/// What a word stands for.
#[derive(Clone, Copy, Debug, PartialEq, Eq, Structural)]
pub enum Value {
    /// A signed integer of 63 bits.
    Int(i64),
    /// One of the two truth values.
    Bool(bool),
    /// The empty value.
    Nil,
    /// A reference to the vector whose header stands at this address.
    VecRef(u64),
}

/// A word with its low bit set that is none of the three sentinels.
pub open spec fn is_ref(w: u64) -> bool {
    w % 2 == 1 && w != 1 && w != 3 && w != 7
}

/// The integers that fit in the 63 bits of a word.
pub open spec fn int_in_range(n: int) -> bool {
    -0x4000_0000_0000_0000 <= n < 0x4000_0000_0000_0000
}

/// The integer held by an even word: the word shifted right by one bit, the sign kept.
pub open spec fn int_of_word(w: u64) -> int {
    if w < 0x8000_0000_0000_0000 {
        w as int / 2
    } else {
        (w as int - 0x1_0000_0000_0000_0000) / 2
    }
}

/// The even word that holds an integer: twice the integer, modulo two to the 64.
pub open spec fn word_of_int(n: int) -> u64 {
    ((2 * n) % 0x1_0000_0000_0000_0000) as u64
}

/// The value that a word stands for.
pub open spec fn decode_spec(w: u64) -> Value {
    if w == 7 {
        Value::Bool(true)
    } else if w == 3 {
        Value::Bool(false)
    } else if w == 1 {
        Value::Nil
    } else if w % 2 == 0 {
        Value::Int(int_of_word(w) as i64)
    } else {
        Value::VecRef((w - 1) as u64)
    }
}

/// The values that a word can hold: an integer of 63 bits, or an even address
/// that no sentinel stands one above.
pub open spec fn encodable(v: Value) -> bool {
    match v {
        Value::Int(n) => int_in_range(n as int),
        Value::VecRef(a) => a % 2 == 0 && a != 0 && a != 2 && a != 6,
        _ => true,
    }
}

/// The word that stands for a value.
pub open spec fn encode_spec(v: Value) -> u64 {
    match v {
        Value::Int(n) => word_of_int(n as int),
        Value::Bool(true) => 7,
        Value::Bool(false) => 3,
        Value::Nil => 1,
        Value::VecRef(a) => (a + 1) as u64,
    }
}

/// Tells whether a word is a vector reference.
pub fn is_vec_ref(w: u64) -> (r: bool)
    ensures
        r == is_ref(w),
{
    w != TRUE_WORD && w != FALSE_WORD && w != NIL_WORD && w % 2 == 1
}

/// The address of the header that a vector reference points to.
pub fn ref_to_addr(w: u64) -> (a: u64)
    requires
        is_ref(w),
    ensures
        a == w - 1,
        a % 2 == 0,
{
    w - 1
}

/// The reference word for the header at an address.
pub fn addr_to_ref(a: u64) -> (w: u64)
    requires
        encodable(Value::VecRef(a)),
    ensures
        w == a + 1,
        is_ref(w),
{
    a + 1
}

/// Classifies a word.
pub fn decode(w: u64) -> (v: Value)
    ensures
        v == decode_spec(w),
        encodable(v),
{
    if w == TRUE_WORD {
        Value::Bool(true)
    } else if w == FALSE_WORD {
        Value::Bool(false)
    } else if w == NIL_WORD {
        Value::Nil
    } else if w % 2 == 0 {
        if w < 0x8000_0000_0000_0000 {
            Value::Int((w / 2) as i64)
        } else {
            let half: u64 = (w - 0x8000_0000_0000_0000) / 2;
            Value::Int(half as i64 - 0x4000_0000_0000_0000)
        }
    } else {
        Value::VecRef(w - 1)
    }
}

/// Builds the word for a value.
pub fn encode(v: Value) -> (w: u64)
    requires
        encodable(v),
    ensures
        w == encode_spec(v),
        decode_spec(w) == v,
{
    match v {
        Value::Int(n) => {
            if n >= 0 {
                (n as u64) * 2
            } else {
                let up: u64 = (n + 0x4000_0000_0000_0000) as u64;
                up * 2 + 0x8000_0000_0000_0000
            }
        },
        Value::Bool(b) => if b { TRUE_WORD } else { FALSE_WORD },
        Value::Nil => NIL_WORD,
        Value::VecRef(a) => a + 1,
    }
}

/// Decoding the word of a value gives the value back, and the word of what a
/// word decodes to is that word.
pub proof fn lemma_encoding_round_trip(v: Value, w: u64)
    ensures
        encodable(v) ==> decode_spec(encode_spec(v)) == v,
        encode_spec(decode_spec(w)) == w,
        decode_spec(7) == Value::Bool(true),
        decode_spec(3) == Value::Bool(false),
        decode_spec(1) == Value::Nil,
{
}

} // verus!
