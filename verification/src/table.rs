//! The Base64 alphabet table: the fixed bidirectional mapping between the
//! 64 sextet values and their ASCII symbols (`A`-`Z`, `a`-`z`, `0`-`9`,
//! `+`, `/`), plus the pad character `=`.

use vstd::prelude::*;

verus! {

/// ASCII code of the pad character `=`.
pub const PAD: u8 = 61;

/// True when `b` is the ASCII code of one of the 64 alphabet symbols.
/// The pad character `=` is not a symbol.
pub open spec fn is_symbol(b: u8) -> bool {
    (65 <= b <= 90)  // 'A'..'Z'
    || (97 <= b <= 122)  // 'a'..'z'
    || (48 <= b <= 57)  // '0'..'9'
    || b == 43  // '+'
    || b == 47  // '/'
}

/// The ASCII symbol standing for the sextet value `v` (0..63).
pub open spec fn symbol_of_sextet(v: u8) -> u8
    recommends
        v < 64,
{
    if v < 26 {
        (v + 65) as u8  // 'A'..'Z'
    } else if v < 52 {
        (v + 71) as u8  // 'a'..'z'
    } else if v < 62 {
        (v - 4) as u8  // '0'..'9'
    } else if v == 62 {
        43  // '+'
    } else {
        47  // '/'
    }
}

/// The sextet value (0..63) that the ASCII symbol `b` stands for.
pub open spec fn sextet_of_symbol(b: u8) -> u8
    recommends
        is_symbol(b),
{
    if 65 <= b <= 90 {
        (b - 65) as u8
    } else if 97 <= b <= 122 {
        (b - 71) as u8
    } else if 48 <= b <= 57 {
        (b + 4) as u8
    } else if b == 43 {
        62
    } else {
        63
    }
}

/// The table lookups are mutually inverse: looking a symbol's value back up
/// returns the sextet it was produced from, and every symbol produced is in
/// the alphabet (and in particular is never the pad character).
pub proof fn lemma_table_round_trip(i: u8)
    requires
        i < 64,
    ensures
        is_symbol(symbol_of_sextet(i)),
        symbol_of_sextet(i) != PAD,
        sextet_of_symbol(symbol_of_sextet(i)) == i,
{
}

/// Forward table lookup: the ASCII symbol for the sextet value `index`.
pub fn value_of(index: u8) -> (c: u8)
    requires
        index < 64,
    ensures
        c == symbol_of_sextet(index),
        is_symbol(c),
{
    if index < 26 {
        index + 65
    } else if index < 52 {
        index + 71
    } else if index < 62 {
        index - 4
    } else if index == 62 {
        43
    } else {
        47
    }
}

/// Reverse table lookup: the sextet value for the ASCII symbol `c`, or
/// `None` when `c` is not in the 64-symbol alphabet (the pad character
/// included).
pub fn index_of(c: u8) -> (r: Option<u8>)
    ensures
        r is Some <==> is_symbol(c),
        r is Some ==> r->0 == sextet_of_symbol(c) && r->0 < 64,
{
    if 65 <= c && c <= 90 {
        Some(c - 65)
    } else if 97 <= c && c <= 122 {
        Some(c - 71)
    } else if 48 <= c && c <= 57 {
        Some(c + 4)
    } else if c == 43 {
        Some(62)
    } else if c == 47 {
        Some(63)
    } else {
        None
    }
}

} // verus!
