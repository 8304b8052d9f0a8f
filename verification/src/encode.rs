//! The encoder: partitions the input bytes into octet groups of up to three
//! bytes and maps each group to four Base64 symbols, padding a short final
//! group with `=`.

use vstd::prelude::*;

use crate::table::is_symbol;
use crate::table::symbol_of_sextet;
use crate::table::value_of;
use crate::table::PAD;

verus! {

// --- the four 6-bit extractions, one per symbol of a group ---

/// Bits 7..2 of the first byte.
pub open spec fn spec_first_char_bits(first_byte: u8) -> u8 {
    (0b11111100 & first_byte) >> 2
}

/// Bits 1..0 of the first byte joined with bits 7..4 of the second.
pub open spec fn spec_second_char_bits(first_byte: u8, second_byte: u8) -> u8 {
    (0b00000011 & first_byte) << 4 | (0b11110000 & second_byte) >> 4
}

/// Bits 3..0 of the second byte joined with bits 7..6 of the third.
pub open spec fn spec_third_char_bits(second_byte: u8, third_byte: u8) -> u8 {
    (0b00001111 & second_byte) << 2 | (0b11000000 & third_byte) >> 6
}

/// Bits 5..0 of the third byte.
pub open spec fn spec_fourth_char_bits(third_byte: u8) -> u8 {
    0b00111111 & third_byte
}

/// Every extraction yields a sextet: a value below 64.
pub proof fn lemma_char_bits_in_range(b0: u8, b1: u8, b2: u8)
    ensures
        spec_first_char_bits(b0) < 64,
        spec_second_char_bits(b0, b1) < 64,
        spec_third_char_bits(b1, b2) < 64,
        spec_fourth_char_bits(b2) < 64,
{
    assert(spec_first_char_bits(b0) < 64) by (bit_vector);
    assert(spec_second_char_bits(b0, b1) < 64) by (bit_vector);
    assert(spec_third_char_bits(b1, b2) < 64) by (bit_vector);
    assert(spec_fourth_char_bits(b2) < 64) by (bit_vector);
}

pub fn extract_first_char_bits(first_byte: u8) -> (r: u8)
    ensures
        r == spec_first_char_bits(first_byte),
        r < 64,
{
    proof {
        lemma_char_bits_in_range(first_byte, 0, 0);
    }
    (0b11111100 & first_byte) >> 2
}

pub fn extract_second_char_bits(first_byte: u8, second_byte: u8) -> (r: u8)
    ensures
        r == spec_second_char_bits(first_byte, second_byte),
        r < 64,
{
    proof {
        lemma_char_bits_in_range(first_byte, second_byte, 0);
    }
    (0b00000011 & first_byte) << 4 | (0b11110000 & second_byte) >> 4
}

pub fn extract_third_char_bits(second_byte: u8, third_byte: u8) -> (r: u8)
    ensures
        r == spec_third_char_bits(second_byte, third_byte),
        r < 64,
{
    proof {
        lemma_char_bits_in_range(0, second_byte, third_byte);
    }
    (0b00001111 & second_byte) << 2 | (0b11000000 & third_byte) >> 6
}

pub fn extract_fourth_char_bits(third_byte: u8) -> (r: u8)
    ensures
        r == spec_fourth_char_bits(third_byte),
        r < 64,
{
    proof {
        lemma_char_bits_in_range(0, 0, third_byte);
    }
    0b00111111 & third_byte
}

// --- grouping the input into octet groups of up to three bytes ---

/// The input partitioned into consecutive groups of three bytes; the final
/// group may hold one or two.  An empty input has no groups.
pub open spec fn octet_groups(s: Seq<u8>) -> Seq<Seq<u8>>
    decreases s.len(),
{
    if s.len() == 0 {
        Seq::empty()
    } else if s.len() <= 3 {
        seq![s]
    } else {
        seq![s.take(3)] + octet_groups(s.skip(3))
    }
}

/// Splits the input into its octet groups.
pub fn data_to_octets(data: &[u8]) -> (r: Vec<Vec<u8>>)
    ensures
        r.deep_view() == octet_groups(data@),
{
    let mut r: Vec<Vec<u8>> = Vec::new();
    let n = data.len();
    let mut i: usize = 0;
    proof {
        assert(data@.skip(0) =~= data@);
        assert(r.deep_view() =~~= Seq::<Seq<u8>>::empty());
        assert(octet_groups(data@) =~~= r.deep_view() + octet_groups(data@.skip(0)));
    }
    while i < n
        invariant
            n == data@.len(),
            i <= n,
            octet_groups(data@) == r.deep_view() + octet_groups(data@.skip(i as int)),
        decreases n - i,
    {
        let ghost rest = data@.skip(i as int);
        let ghost groups_before = r.deep_view();
        if n - i >= 3 {
            let g = vec![data[i], data[i + 1], data[i + 2]];
            proof {
                assert(rest.take(3) =~= g@);
                assert(rest.skip(3) =~= data@.skip(i as int + 3));
            }
            r.push(g);
            proof {
                assert(r.deep_view() =~~= groups_before.push(rest.take(3)));
                if rest.len() <= 3 {
                    assert(octet_groups(rest) =~= seq![rest]);
                    assert(rest.take(3) =~= rest);
                    assert(octet_groups(rest.skip(3)) =~= Seq::<Seq<u8>>::empty());
                }
                assert(r.deep_view() + octet_groups(data@.skip(i as int + 3)) =~~= groups_before
                    + octet_groups(rest));
            }
            i = i + 3;
        } else if n - i == 2 {
            let g = vec![data[i], data[i + 1]];
            r.push(g);
            proof {
                assert(rest =~= g@);
                assert(octet_groups(rest) == seq![rest]);
                assert(r.deep_view() =~~= groups_before.push(rest));
                assert(data@.skip(n as int) =~= Seq::<u8>::empty());
                assert(r.deep_view() + octet_groups(data@.skip(n as int)) =~~= groups_before
                    + octet_groups(rest));
            }
            i = n;
        } else {
            let g = vec![data[i]];
            r.push(g);
            proof {
                assert(rest =~= g@);
                assert(octet_groups(rest) == seq![rest]);
                assert(r.deep_view() =~~= groups_before.push(rest));
                assert(data@.skip(n as int) =~= Seq::<u8>::empty());
                assert(r.deep_view() + octet_groups(data@.skip(n as int)) =~~= groups_before
                    + octet_groups(rest));
            }
            i = n;
        }
    }
    proof {
        assert(data@.skip(n as int) =~= Seq::<u8>::empty());
        assert(r.deep_view() =~~= r.deep_view() + octet_groups(Seq::<u8>::empty()));
    }
    r
}

// --- the encoding itself ---

/// The Base64 encoding of a byte sequence, as a sequence of ASCII codes:
/// each full group of three bytes becomes four alphabet symbols; a final
/// group of two bytes becomes three symbols and one pad; a final group of
/// one byte becomes two symbols and two pads.
pub open spec fn encoding(s: Seq<u8>) -> Seq<u8>
    decreases s.len(),
{
    if s.len() == 0 {
        Seq::empty()
    } else if s.len() == 1 {
        seq![
            symbol_of_sextet(spec_first_char_bits(s[0])),
            symbol_of_sextet(spec_second_char_bits(s[0], 0)),
            PAD,
            PAD,
        ]
    } else if s.len() == 2 {
        seq![
            symbol_of_sextet(spec_first_char_bits(s[0])),
            symbol_of_sextet(spec_second_char_bits(s[0], s[1])),
            symbol_of_sextet(spec_third_char_bits(s[1], 0)),
            PAD,
        ]
    } else {
        seq![
            symbol_of_sextet(spec_first_char_bits(s[0])),
            symbol_of_sextet(spec_second_char_bits(s[0], s[1])),
            symbol_of_sextet(spec_third_char_bits(s[1], s[2])),
            symbol_of_sextet(spec_fourth_char_bits(s[2])),
        ] + encoding(s.skip(3))
    }
}

/// A sequence of ASCII codes read as characters.
pub open spec fn chars_of(s: Seq<u8>) -> Seq<char> {
    s.map_values(|b: u8| b as char)
}

/// Relies on String::push: appends the given character to the end of the
/// string.
#[verifier::external_body]
fn push_char(s: &mut String, c: char)
    ensures
        final(s)@ == old(s)@.push(c),
{
    s.push(c)
}

/// Encodes arbitrary bytes as Base64 text.  Every input is encodable; the
/// result is exactly the encoding of the input, so for non-empty input its
/// length is a positive multiple of four.
pub fn encode(data: &[u8]) -> (r: String)
    ensures
        r@ == chars_of(encoding(data@)),
{
    let mut r = String::new();
    let n = data.len();
    let mut i: usize = 0;
    proof {
        assert(data@.skip(0) =~= data@);
        assert(chars_of(encoding(data@)) =~= r@ + chars_of(encoding(data@.skip(0))));
    }
    while n - i >= 3
        invariant
            n == data@.len(),
            i <= n,
            chars_of(encoding(data@)) == r@ + chars_of(encoding(data@.skip(i as int))),
        decreases n - i,
    {
        let b0 = data[i];
        let b1 = data[i + 1];
        let b2 = data[i + 2];
        let c0 = value_of(extract_first_char_bits(b0));
        let c1 = value_of(extract_second_char_bits(b0, b1));
        let c2 = value_of(extract_third_char_bits(b1, b2));
        let c3 = value_of(extract_fourth_char_bits(b2));
        let ghost prefix = r@;
        push_char(&mut r, c0 as char);
        push_char(&mut r, c1 as char);
        push_char(&mut r, c2 as char);
        push_char(&mut r, c3 as char);
        proof {
            let rest = data@.skip(i as int);
            let group = seq![c0, c1, c2, c3];
            assert(rest.skip(3) =~= data@.skip(i as int + 3));
            assert(encoding(rest) =~= group + encoding(rest.skip(3)));
            assert(chars_of(group + encoding(rest.skip(3))) =~= chars_of(group) + chars_of(
                encoding(rest.skip(3)),
            ));
            assert(r@ =~= prefix + chars_of(group));
        }
        i = i + 3;
    }
    if n - i == 1 {
        let b0 = data[i];
        let c0 = value_of(extract_first_char_bits(b0));
        let c1 = value_of(extract_second_char_bits(b0, 0));
        let ghost prefix = r@;
        push_char(&mut r, c0 as char);
        push_char(&mut r, c1 as char);
        push_char(&mut r, PAD as char);
        push_char(&mut r, PAD as char);
        proof {
            let rest = data@.skip(i as int);
            let group = seq![c0, c1, PAD, PAD];
            assert(encoding(rest) =~= group);
            assert(r@ =~= prefix + chars_of(group));
        }
    } else if n - i == 2 {
        let b0 = data[i];
        let b1 = data[i + 1];
        let c0 = value_of(extract_first_char_bits(b0));
        let c1 = value_of(extract_second_char_bits(b0, b1));
        let c2 = value_of(extract_third_char_bits(b1, 0));
        let ghost prefix = r@;
        push_char(&mut r, c0 as char);
        push_char(&mut r, c1 as char);
        push_char(&mut r, c2 as char);
        push_char(&mut r, PAD as char);
        proof {
            let rest = data@.skip(i as int);
            let group = seq![c0, c1, c2, PAD];
            assert(encoding(rest) =~= group);
            assert(r@ =~= prefix + chars_of(group));
        }
    } else {
        proof {
            assert(data@.skip(i as int) =~= Seq::<u8>::empty());
            assert(chars_of(encoding(data@.skip(i as int))) =~= Seq::<char>::empty());
            assert(r@ =~= r@ + Seq::<char>::empty());
        }
    }
    r
}

// --- testable invariants of the encoding ---

/// Output-length invariant: the encoding holds four symbols for every
/// started group of three bytes; for non-empty input the length is a
/// positive multiple of four.
pub proof fn lemma_encoding_length(s: Seq<u8>)
    ensures
        encoding(s).len() == 4 * ((s.len() + 2) / 3),
        s.len() > 0 ==> encoding(s).len() % 4 == 0 && encoding(s).len() >= 4,
    decreases s.len(),
{
    if s.len() == 3 {
        assert(s.skip(3) =~= Seq::<u8>::empty());
        assert(encoding(Seq::<u8>::empty()) =~= Seq::<u8>::empty());
    } else if s.len() > 3 {
        lemma_encoding_length(s.skip(3));
        vstd::arithmetic::div_mod::lemma_div_plus_one(s.len() - 1, 3);
    }
}

/// The number of `=` pad characters at the end of a symbol sequence.
pub open spec fn trailing_pads(t: Seq<u8>) -> nat
    decreases t.len(),
{
    if t.len() == 0 || t.last() != PAD {
        0
    } else {
        1 + trailing_pads(t.drop_last())
    }
}

/// Trailing pads are decided by the right-hand part of a concatenation,
/// as long as that part does not consist of pads alone.
proof fn lemma_trailing_pads_concat(a: Seq<u8>, b: Seq<u8>)
    requires
        trailing_pads(b) < b.len(),
    ensures
        trailing_pads(a + b) == trailing_pads(b),
    decreases b.len(),
{
    assert((a + b).last() == b.last());
    if b.last() == PAD {
        assert((a + b).drop_last() =~= a + b.drop_last());
        lemma_trailing_pads_concat(a, b.drop_last());
    }
}

/// Counts the trailing pads of one encoded group of four, given that its
/// leading symbols are not pads.
proof fn lemma_trailing_pads_group(c0: u8, c1: u8, c2: u8, c3: u8)
    requires
        c0 != PAD,
        c1 != PAD,
        c2 == PAD ==> c3 == PAD,
    ensures
        trailing_pads(seq![c0, c1, c2, c3]) == if c2 == PAD {
            2nat
        } else if c3 == PAD {
            1nat
        } else {
            0nat
        },
{
    let g = seq![c0, c1, c2, c3];
    assert(g.last() == c3);
    assert(g.drop_last() =~= seq![c0, c1, c2]);
    assert(seq![c0, c1, c2].last() == c2);
    assert(seq![c0, c1, c2].drop_last() =~= seq![c0, c1]);
    assert(seq![c0, c1].last() == c1);
    assert(trailing_pads(seq![c0, c1]) == 0);
    if c2 == PAD {
        assert(trailing_pads(seq![c0, c1, c2]) == 1);
        assert(trailing_pads(g) == 2);
    } else if c3 == PAD {
        assert(trailing_pads(seq![c0, c1, c2]) == 0);
        assert(trailing_pads(g) == 1);
    } else {
        assert(trailing_pads(g) == 0);
    }
}

/// Padding count invariant: the encoding of `s` ends in `(3 - len % 3) % 3`
/// pad characters: two for a final one-byte group, one for a final
/// two-byte group, none when the input divides into full groups of three.
pub proof fn lemma_padding_count(s: Seq<u8>)
    ensures
        trailing_pads(encoding(s)) == ((3 - s.len() % 3) % 3) as nat,
        trailing_pads(encoding(s)) <= 2,
    decreases s.len(),
{
    if s.len() == 0 {
    } else if s.len() <= 3 {
        lemma_char_bits_in_range(s[0], if s.len() >= 2 {
            s[1]
        } else {
            0
        }, if s.len() == 3 {
            s[2]
        } else {
            0
        });
        if s.len() == 1 {
            crate::table::lemma_table_round_trip(spec_first_char_bits(s[0]));
            crate::table::lemma_table_round_trip(spec_second_char_bits(s[0], 0));
            lemma_trailing_pads_group(
                symbol_of_sextet(spec_first_char_bits(s[0])),
                symbol_of_sextet(spec_second_char_bits(s[0], 0)),
                PAD,
                PAD,
            );
        } else if s.len() == 2 {
            crate::table::lemma_table_round_trip(spec_first_char_bits(s[0]));
            crate::table::lemma_table_round_trip(spec_second_char_bits(s[0], s[1]));
            crate::table::lemma_table_round_trip(spec_third_char_bits(s[1], 0));
            lemma_trailing_pads_group(
                symbol_of_sextet(spec_first_char_bits(s[0])),
                symbol_of_sextet(spec_second_char_bits(s[0], s[1])),
                symbol_of_sextet(spec_third_char_bits(s[1], 0)),
                PAD,
            );
        } else {
            crate::table::lemma_table_round_trip(spec_first_char_bits(s[0]));
            crate::table::lemma_table_round_trip(spec_second_char_bits(s[0], s[1]));
            crate::table::lemma_table_round_trip(spec_third_char_bits(s[1], s[2]));
            crate::table::lemma_table_round_trip(spec_fourth_char_bits(s[2]));
            lemma_trailing_pads_group(
                symbol_of_sextet(spec_first_char_bits(s[0])),
                symbol_of_sextet(spec_second_char_bits(s[0], s[1])),
                symbol_of_sextet(spec_third_char_bits(s[1], s[2])),
                symbol_of_sextet(spec_fourth_char_bits(s[2])),
            );
            assert(s.skip(3) =~= Seq::<u8>::empty());
            assert(encoding(Seq::<u8>::empty()) =~= Seq::<u8>::empty());
            assert(encoding(s) =~= seq![
                symbol_of_sextet(spec_first_char_bits(s[0])),
                symbol_of_sextet(spec_second_char_bits(s[0], s[1])),
                symbol_of_sextet(spec_third_char_bits(s[1], s[2])),
                symbol_of_sextet(spec_fourth_char_bits(s[2])),
            ]);
        }
    } else {
        let rest = s.skip(3);
        lemma_padding_count(rest);
        lemma_encoding_length(rest);
        lemma_trailing_pads_concat(
            seq![
                symbol_of_sextet(spec_first_char_bits(s[0])),
                symbol_of_sextet(spec_second_char_bits(s[0], s[1])),
                symbol_of_sextet(spec_third_char_bits(s[1], s[2])),
                symbol_of_sextet(spec_fourth_char_bits(s[2])),
            ],
            encoding(rest),
        );
    }
}

} // verus!
