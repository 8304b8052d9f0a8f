//! The decoder: validates Base64 text and recombines each group of four
//! sextets into the original bytes, honouring trailing `=` padding.

use vstd::prelude::*;

use crate::encode::encoding;
use crate::encode::lemma_char_bits_in_range;
use crate::encode::lemma_encoding_length;
use crate::encode::spec_first_char_bits;
use crate::encode::spec_second_char_bits;
use crate::encode::spec_third_char_bits;
use crate::encode::spec_fourth_char_bits;
use crate::table::index_of;
use crate::table::is_symbol;
use crate::table::lemma_table_round_trip;
use crate::table::sextet_of_symbol;
use crate::table::symbol_of_sextet;
use crate::table::PAD;

verus! {

/// The one error the codec reports: the decoder's input was not valid
/// Base64 text, be it by length, by an unknown character, or by a pad in a
/// position where none may stand.
#[derive(Clone, Copy, Debug, PartialEq, Eq, Structural)]
pub struct InvalidInputError;

// --- the three byte recombinations, one per byte of a group ---

/// The first sextet's six bits joined with the top two of the second.
pub open spec fn spec_first_byte(first_sextet: u8, second_sextet: u8) -> u8 {
    (first_sextet & 0b111111) << 2 | (second_sextet & 0b110000) >> 4
}

/// The second sextet's low four bits joined with the top four of the third.
pub open spec fn spec_second_byte(second_sextet: u8, third_sextet: u8) -> u8 {
    (second_sextet & 0b001111) << 4 | (third_sextet & 0b111100) >> 2
}

/// The third sextet's low two bits joined with the fourth's six.
pub open spec fn spec_third_byte(third_sextet: u8, fourth_sextet: u8) -> u8 {
    (third_sextet & 0b000011) << 6 | (fourth_sextet & 0b111111)
}

pub fn compose_first_byte(first_sextet: u8, second_sextet: u8) -> (r: u8)
    ensures
        r == spec_first_byte(first_sextet, second_sextet),
{
    (first_sextet & 0b111111) << 2 | (second_sextet & 0b110000) >> 4
}

pub fn compose_second_byte(second_sextet: u8, third_sextet: u8) -> (r: u8)
    ensures
        r == spec_second_byte(second_sextet, third_sextet),
{
    (second_sextet & 0b001111) << 4 | (third_sextet & 0b111100) >> 2
}

pub fn compose_third_byte(third_sextet: u8, fourth_sextet: u8) -> (r: u8)
    ensures
        r == spec_third_byte(third_sextet, fourth_sextet),
{
    (third_sextet & 0b000011) << 6 | (fourth_sextet & 0b111111)
}

// --- validity of Base64 text ---

/// A valid group of four symbol slots anywhere in the input: four alphabet
/// symbols and no pad.
pub open spec fn full_group(g: Seq<u8>) -> bool
    recommends
        g.len() == 4,
{
    is_symbol(g[0]) && is_symbol(g[1]) && is_symbol(g[2]) && is_symbol(g[3])
}

/// A valid final group of four symbol slots: no pad, one trailing pad, or
/// two trailing pads.  A pad may never stand in the first or second slot,
/// nor in the third slot without the fourth being a pad too.
pub open spec fn final_group(g: Seq<u8>) -> bool
    recommends
        g.len() == 4,
{
    is_symbol(g[0]) && is_symbol(g[1]) && ((is_symbol(g[2]) && is_symbol(g[3])) || (is_symbol(g[2])
        && g[3] == PAD) || (g[2] == PAD && g[3] == PAD))
}

/// Valid Base64 text: a length that is a multiple of four, every group but
/// the last free of pads, and the last group padded only in trailing
/// positions.  The empty input is valid.
pub open spec fn valid_base64(t: Seq<u8>) -> bool
    decreases t.len(),
{
    if t.len() == 0 {
        true
    } else if t.len() % 4 != 0 {
        false
    } else if t.len() == 4 {
        final_group(t)
    } else {
        full_group(t.take(4)) && valid_base64(t.skip(4))
    }
}

// --- the decoding itself ---

/// The bytes encoded by one group of four symbol slots: three bytes for a
/// full group, two when the fourth slot is a pad, one when the third and
/// fourth are.
pub open spec fn group_bytes(g: Seq<u8>) -> Seq<u8>
    recommends
        g.len() == 4,
        final_group(g),
{
    let v0 = sextet_of_symbol(g[0]);
    let v1 = sextet_of_symbol(g[1]);
    let v2 = sextet_of_symbol(g[2]);
    let v3 = sextet_of_symbol(g[3]);
    if g[2] == PAD {
        seq![spec_first_byte(v0, v1)]
    } else if g[3] == PAD {
        seq![spec_first_byte(v0, v1), spec_second_byte(v1, v2)]
    } else {
        seq![spec_first_byte(v0, v1), spec_second_byte(v1, v2), spec_third_byte(v2, v3)]
    }
}

/// The bytes that a Base64 text decodes to, group by group.  Meaningful
/// for valid text; total so that it can be spoken of anywhere.
pub open spec fn decoding(t: Seq<u8>) -> Seq<u8>
    decreases t.len(),
{
    if t.len() < 4 {
        Seq::empty()
    } else {
        group_bytes(t.take(4)) + decoding(t.skip(4))
    }
}

/// Decodes Base64 text, given as its ASCII bytes, back to the bytes it
/// encodes.  Returns the decoded bytes exactly when the input is valid
/// Base64 text, and reports `InvalidInputError` otherwise.
pub fn decode(b64_string: &[u8]) -> (r: Result<Vec<u8>, InvalidInputError>)
    ensures
        r is Ok <==> valid_base64(b64_string@),
        r matches Ok(v) ==> v@ == decoding(b64_string@),
{
    let n = b64_string.len();
    if n % 4 != 0 {
        return Err(InvalidInputError);
    }
    let mut v: Vec<u8> = Vec::new();
    let mut i: usize = 0;
    proof {
        assert(b64_string@.skip(0) =~= b64_string@);
    }
    while i < n
        invariant
            n == b64_string@.len(),
            n % 4 == 0,
            i % 4 == 0,
            i <= n,
            valid_base64(b64_string@) == valid_base64(b64_string@.skip(i as int)),
            decoding(b64_string@) == v@ + decoding(b64_string@.skip(i as int)),
        decreases n - i,
    {
        let ghost rest = b64_string@.skip(i as int);
        let ghost prefix = v@;
        proof {
            assert(rest.len() == n - i >= 4 && rest.len() % 4 == 0);
            assert(rest.take(4) =~= b64_string@.subrange(i as int, i as int + 4));
            assert(rest.skip(4) =~= b64_string@.skip(i as int + 4));
            assert(rest[0] == b64_string@[i as int] && rest[1] == b64_string@[i as int + 1] && rest[2] == b64_string@[i as int
                + 2] && rest[3] == b64_string@[i as int + 3]);
            if rest.len() == 4 {
                assert(valid_base64(rest) == final_group(rest));
            } else {
                assert(rest.take(4)[0] == rest[0] && rest.take(4)[1] == rest[1] && rest.take(4)[2]
                    == rest[2] && rest.take(4)[3] == rest[3]);
                assert(valid_base64(rest) == (full_group(rest.take(4)) && valid_base64(
                    rest.skip(4),
                )));
            }
        }
        let s0 = b64_string[i];
        let s1 = b64_string[i + 1];
        let s2 = b64_string[i + 2];
        let s3 = b64_string[i + 3];
        let is_final = i + 4 == n;
        let v0 = match index_of(s0) {
            Some(x) => x,
            None => {
                return Err(InvalidInputError);
            },
        };
        let v1 = match index_of(s1) {
            Some(x) => x,
            None => {
                return Err(InvalidInputError);
            },
        };
        if s2 == PAD {
            // valid only as the trailing two-pad pattern of the final group
            if !is_final || s3 != PAD {
                return Err(InvalidInputError);
            }
            v.push(compose_first_byte(v0, v1));
            proof {
                assert(decoding(rest.skip(4)) =~= Seq::<u8>::empty());
                assert(v@ =~= prefix + group_bytes(rest.take(4)));
            }
            i = i + 4;
        } else {
            let v2 = match index_of(s2) {
                Some(x) => x,
                None => {
                    return Err(InvalidInputError);
                },
            };
            if s3 == PAD {
                // valid only as the trailing one-pad pattern of the final group
                if !is_final {
                    return Err(InvalidInputError);
                }
                v.push(compose_first_byte(v0, v1));
                v.push(compose_second_byte(v1, v2));
                proof {
                    assert(decoding(rest.skip(4)) =~= Seq::<u8>::empty());
                    assert(v@ =~= prefix + group_bytes(rest.take(4)));
                }
                i = i + 4;
            } else {
                let v3 = match index_of(s3) {
                    Some(x) => x,
                    None => {
                        return Err(InvalidInputError);
                    },
                };
                v.push(compose_first_byte(v0, v1));
                v.push(compose_second_byte(v1, v2));
                v.push(compose_third_byte(v2, v3));
                proof {
                    assert(v@ =~= prefix + group_bytes(rest.take(4)));
                }
                i = i + 4;
            }
        }
    }
    proof {
        assert(b64_string@.skip(n as int) =~= Seq::<u8>::empty());
        assert(v@ =~= v@ + decoding(Seq::<u8>::empty()));
    }
    Ok(v)
}

// --- the round trip ---

/// The bit recombinations invert the bit extractions: a group of three
/// bytes, taken apart into four sextets, is put back together unchanged.
proof fn lemma_group_round_trip(b0: u8, b1: u8, b2: u8)
    ensures
        spec_first_byte(spec_first_char_bits(b0), spec_second_char_bits(b0, b1)) == b0,
        spec_second_byte(spec_second_char_bits(b0, b1), spec_third_char_bits(b1, b2)) == b1,
        spec_third_byte(spec_third_char_bits(b1, b2), spec_fourth_char_bits(b2)) == b2,
{
    assert(spec_first_byte(spec_first_char_bits(b0), spec_second_char_bits(b0, b1)) == b0)
        by (bit_vector);
    assert(spec_second_byte(spec_second_char_bits(b0, b1), spec_third_char_bits(b1, b2)) == b1)
        by (bit_vector);
    assert(spec_third_byte(spec_third_char_bits(b1, b2), spec_fourth_char_bits(b2)) == b2)
        by (bit_vector);
}

/// Round-trip: decoding is the exact inverse of encoding.  Every encoder
/// output is valid Base64 text, and decoding it returns the byte sequence
/// it was made from.
pub proof fn lemma_round_trip(b: Seq<u8>)
    ensures
        valid_base64(encoding(b)),
        decoding(encoding(b)) == b,
    decreases b.len(),
{
    let e = encoding(b);
    assert(decoding(Seq::<u8>::empty()) =~= Seq::<u8>::empty());
    if b.len() == 0 {
        assert(e =~= Seq::<u8>::empty());
        assert(decoding(e) =~= b);
    } else if b.len() == 1 {
        let x0 = spec_first_char_bits(b[0]);
        let x1 = spec_second_char_bits(b[0], 0);
        lemma_char_bits_in_range(b[0], 0, 0);
        lemma_table_round_trip(x0);
        lemma_table_round_trip(x1);
        let c0 = symbol_of_sextet(x0);
        let c1 = symbol_of_sextet(x1);
        assert(e =~= seq![c0, c1, PAD, PAD]);
        assert(final_group(e));
        assert(e.take(4) =~= e);
        assert(e.skip(4) =~= Seq::<u8>::empty());
        lemma_group_round_trip(b[0], 0, 0);
        assert(group_bytes(e) =~= seq![b[0]]);
        assert(decoding(e) =~= b);
    } else if b.len() == 2 {
        let x0 = spec_first_char_bits(b[0]);
        let x1 = spec_second_char_bits(b[0], b[1]);
        let x2 = spec_third_char_bits(b[1], 0);
        lemma_char_bits_in_range(b[0], b[1], 0);
        lemma_table_round_trip(x0);
        lemma_table_round_trip(x1);
        lemma_table_round_trip(x2);
        let c0 = symbol_of_sextet(x0);
        let c1 = symbol_of_sextet(x1);
        let c2 = symbol_of_sextet(x2);
        assert(e =~= seq![c0, c1, c2, PAD]);
        assert(final_group(e));
        assert(e.take(4) =~= e);
        assert(e.skip(4) =~= Seq::<u8>::empty());
        lemma_group_round_trip(b[0], b[1], 0);
        assert(group_bytes(e) =~= seq![b[0], b[1]]);
        assert(decoding(e) =~= b);
    } else {
        let x0 = spec_first_char_bits(b[0]);
        let x1 = spec_second_char_bits(b[0], b[1]);
        let x2 = spec_third_char_bits(b[1], b[2]);
        let x3 = spec_fourth_char_bits(b[2]);
        lemma_char_bits_in_range(b[0], b[1], b[2]);
        lemma_table_round_trip(x0);
        lemma_table_round_trip(x1);
        lemma_table_round_trip(x2);
        lemma_table_round_trip(x3);
        let c0 = symbol_of_sextet(x0);
        let c1 = symbol_of_sextet(x1);
        let c2 = symbol_of_sextet(x2);
        let c3 = symbol_of_sextet(x3);
        let g = seq![c0, c1, c2, c3];
        let rest = b.skip(3);
        let rest_e = encoding(rest);
        lemma_group_round_trip(b[0], b[1], b[2]);
        assert(e =~= g + rest_e);
        if b.len() == 3 {
            assert(rest =~= Seq::<u8>::empty());
            assert(rest_e =~= Seq::<u8>::empty());
            assert(e =~= g);
            assert(final_group(e));
            assert(e.take(4) =~= e);
            assert(e.skip(4) =~= Seq::<u8>::empty());
            assert(group_bytes(e) =~= seq![b[0], b[1], b[2]]);
            assert(decoding(e) =~= b);
        } else {
            lemma_round_trip(rest);
            lemma_encoding_length(rest);
            assert(e.take(4) =~= g);
            assert(e.skip(4) =~= rest_e);
            assert(full_group(g));
            assert(valid_base64(e));
            assert(group_bytes(g) =~= seq![b[0], b[1], b[2]]);
            assert(decoding(e) =~= seq![b[0], b[1], b[2]] + decoding(rest_e));
            assert(decoding(e) =~= b);
        }
    }
}

} // verus!
