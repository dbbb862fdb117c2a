//! Lowercase hexadecimal rendering of digests, with a decoder that inverts
//! it exactly.

use vstd::arithmetic::div_mod::lemma_fundamental_div_mod;
use vstd::prelude::*;
use vstd::string::StrSliceExecFns;
use vstd::string::StringExecFns;

verus! {

/// The lowercase hex character for one value below sixteen.
pub open spec fn hex_char(n: nat) -> char
    recommends
        n < 16,
{
    if n == 0 {
        '0'
    } else if n == 1 {
        '1'
    } else if n == 2 {
        '2'
    } else if n == 3 {
        '3'
    } else if n == 4 {
        '4'
    } else if n == 5 {
        '5'
    } else if n == 6 {
        '6'
    } else if n == 7 {
        '7'
    } else if n == 8 {
        '8'
    } else if n == 9 {
        '9'
    } else if n == 10 {
        'a'
    } else if n == 11 {
        'b'
    } else if n == 12 {
        'c'
    } else if n == 13 {
        'd'
    } else if n == 14 {
        'e'
    } else {
        'f'
    }
}

/// A character that lowercase hex output may contain.
pub open spec fn is_hex_digit_char(c: char) -> bool {
    ('0' <= c && c <= '9') || ('a' <= c && c <= 'f')
}

/// The value of one lowercase hex character.
pub open spec fn hex_digit_val(c: char) -> nat
    recommends
        is_hex_digit_char(c),
{
    if '0' <= c && c <= '9' {
        (c as nat - '0' as nat) as nat
    } else if 'a' <= c && c <= 'f' {
        (c as nat - 'a' as nat + 10) as nat
    } else {
        0
    }
}

/// The lowercase hex rendering of a byte sequence: two characters per
/// byte, high nibble first, no separators and no prefix.
pub open spec fn hex_of(bytes: Seq<u8>) -> Seq<char>
    decreases bytes.len(),
{
    if bytes.len() == 0 {
        Seq::empty()
    } else {
        hex_of(bytes.drop_last()) + seq![
            hex_char((bytes.last() / 16) as nat),
            hex_char((bytes.last() % 16) as nat),
        ]
    }
}

/// The bytes a hex string stands for, or `None` where the string is not
/// well-formed lowercase hex (odd length, or a character outside 0-9a-f).
pub open spec fn hex_decode(s: Seq<char>) -> Option<Seq<u8>>
    decreases s.len(),
{
    if s.len() % 2 != 0 {
        None
    } else if s.len() == 0 {
        Some(Seq::empty())
    } else if !is_hex_digit_char(s[s.len() - 2]) || !is_hex_digit_char(s[s.len() - 1]) {
        None
    } else {
        match hex_decode(s.take(s.len() - 2)) {
            Some(rest) => Some(
                rest + seq![
                    (hex_digit_val(s[s.len() - 2]) * 16 + hex_digit_val(s[s.len() - 1])) as u8,
                ],
            ),
            None => None,
        }
    }
}

/// Hex output is twice as long as its input.
pub proof fn lemma_hex_of_len(bytes: Seq<u8>)
    ensures
        hex_of(bytes).len() == 2 * bytes.len(),
    decreases bytes.len(),
{
    if bytes.len() != 0 {
        lemma_hex_of_len(bytes.drop_last());
    }
}

/// Hex output holds only the characters 0-9 and a-f.
pub proof fn lemma_hex_of_digits(bytes: Seq<u8>)
    ensures
        forall|i: int|
            0 <= i < hex_of(bytes).len() ==> is_hex_digit_char(#[trigger] hex_of(bytes)[i]),
    decreases bytes.len(),
{
    if bytes.len() != 0 {
        lemma_hex_of_digits(bytes.drop_last());
        lemma_hex_of_len(bytes.drop_last());
    }
}

/// Each value below sixteen is encoded by a valid hex character whose
/// value decodes back to it.
proof fn lemma_hex_char_val(n: nat)
    requires
        n < 16,
    ensures
        is_hex_digit_char(hex_char(n)),
        hex_digit_val(hex_char(n)) == n,
{
}

/// Decoding inverts encoding: the hex rendering of any byte sequence
/// decodes back to exactly that sequence.
pub proof fn lemma_hex_round_trip(bytes: Seq<u8>)
    ensures
        hex_decode(hex_of(bytes)) == Some(bytes),
    decreases bytes.len(),
{
    lemma_hex_of_len(bytes);
    if bytes.len() == 0 {
        assert(hex_of(bytes) =~= Seq::<char>::empty());
        assert(bytes =~= Seq::<u8>::empty());
    } else {
        let prefix = bytes.drop_last();
        let b = bytes.last();
        let s = hex_of(bytes);
        lemma_hex_round_trip(prefix);
        lemma_hex_of_len(prefix);
        let hi = (b / 16) as nat;
        let lo = (b % 16) as nat;
        lemma_hex_char_val(hi);
        lemma_hex_char_val(lo);
        assert(s[s.len() - 2] == hex_char(hi));
        assert(s[s.len() - 1] == hex_char(lo));
        assert(s.take(s.len() - 2) =~= hex_of(prefix));
        lemma_fundamental_div_mod(b as int, 16);
        assert((hex_digit_val(s[s.len() - 2]) * 16 + hex_digit_val(s[s.len() - 1])) as u8 == b);
        assert(prefix + seq![b] =~= bytes);
    }
}

/// Append the hex character for one value below sixteen.
fn push_hex_digit(s: &mut String, n: u8)
    requires
        n < 16,
    ensures
        final(s)@ == old(s)@ + seq![hex_char(n as nat)],
{
    match n {
        0 => {
            s.append("0");
            proof {
                reveal_strlit("0");
                assert(s@ =~= old(s)@ + seq![hex_char(0)]);
            }
        },
        1 => {
            s.append("1");
            proof {
                reveal_strlit("1");
                assert(s@ =~= old(s)@ + seq![hex_char(1)]);
            }
        },
        2 => {
            s.append("2");
            proof {
                reveal_strlit("2");
                assert(s@ =~= old(s)@ + seq![hex_char(2)]);
            }
        },
        3 => {
            s.append("3");
            proof {
                reveal_strlit("3");
                assert(s@ =~= old(s)@ + seq![hex_char(3)]);
            }
        },
        4 => {
            s.append("4");
            proof {
                reveal_strlit("4");
                assert(s@ =~= old(s)@ + seq![hex_char(4)]);
            }
        },
        5 => {
            s.append("5");
            proof {
                reveal_strlit("5");
                assert(s@ =~= old(s)@ + seq![hex_char(5)]);
            }
        },
        6 => {
            s.append("6");
            proof {
                reveal_strlit("6");
                assert(s@ =~= old(s)@ + seq![hex_char(6)]);
            }
        },
        7 => {
            s.append("7");
            proof {
                reveal_strlit("7");
                assert(s@ =~= old(s)@ + seq![hex_char(7)]);
            }
        },
        8 => {
            s.append("8");
            proof {
                reveal_strlit("8");
                assert(s@ =~= old(s)@ + seq![hex_char(8)]);
            }
        },
        9 => {
            s.append("9");
            proof {
                reveal_strlit("9");
                assert(s@ =~= old(s)@ + seq![hex_char(9)]);
            }
        },
        10 => {
            s.append("a");
            proof {
                reveal_strlit("a");
                assert(s@ =~= old(s)@ + seq![hex_char(10)]);
            }
        },
        11 => {
            s.append("b");
            proof {
                reveal_strlit("b");
                assert(s@ =~= old(s)@ + seq![hex_char(11)]);
            }
        },
        12 => {
            s.append("c");
            proof {
                reveal_strlit("c");
                assert(s@ =~= old(s)@ + seq![hex_char(12)]);
            }
        },
        13 => {
            s.append("d");
            proof {
                reveal_strlit("d");
                assert(s@ =~= old(s)@ + seq![hex_char(13)]);
            }
        },
        14 => {
            s.append("e");
            proof {
                reveal_strlit("e");
                assert(s@ =~= old(s)@ + seq![hex_char(14)]);
            }
        },
        _ => {
            s.append("f");
            proof {
                reveal_strlit("f");
                assert(s@ =~= old(s)@ + seq![hex_char(15)]);
            }
        },
    }
}

/// Render bytes as lowercase hex: two characters per byte, no separators,
/// no prefix.  Total: it never fails, and the output length is twice the
/// input length.
pub fn to_hex_string(bytes: &[u8]) -> (r: String)
    ensures
        r@ == hex_of(bytes@),
        r@.len() == 2 * bytes@.len(),
        forall|i: int| 0 <= i < r@.len() ==> is_hex_digit_char(#[trigger] r@[i]),
{
    let mut hex_str = String::new();
    let len = bytes.len();
    let mut i: usize = 0;
    while i < len
        invariant
            i <= len,
            len == bytes@.len(),
            hex_str@ == hex_of(bytes@.take(i as int)),
        decreases len - i,
    {
        let b = *vstd::slice::slice_index_get(bytes, i);
        push_hex_digit(&mut hex_str, b / 16);
        push_hex_digit(&mut hex_str, b % 16);
        proof {
            let taken = bytes@.take(i as int + 1);
            assert(taken.drop_last() =~= bytes@.take(i as int));
            assert(taken.last() == bytes@[i as int]);
            assert(hex_str@ =~= hex_of(bytes@.take(i as int + 1)));
        }
        i = i + 1;
    }
    proof {
        assert(bytes@.take(len as int) =~= bytes@);
        lemma_hex_of_len(bytes@);
        lemma_hex_of_digits(bytes@);
    }
    hex_str
}

/// An even-position pair with a character outside 0-9a-f poisons the whole
/// decoding.
proof fn lemma_hex_decode_bad_pair(s: Seq<char>, i: int)
    requires
        s.len() % 2 == 0,
        0 <= 2 * i,
        2 * i + 1 < s.len(),
        !is_hex_digit_char(s[2 * i]) || !is_hex_digit_char(s[2 * i + 1]),
    ensures
        hex_decode(s) is None,
    decreases s.len(),
{
    if 2 * i + 1 < s.len() - 1 {
        assert(s.take(s.len() - 2)[2 * i] == s[2 * i]);
        assert(s.take(s.len() - 2)[2 * i + 1] == s[2 * i + 1]);
        lemma_hex_decode_bad_pair(s.take(s.len() - 2), i);
    }
}

/// Decode a lowercase hex string back into bytes.  Returns `Some` exactly
/// on well-formed input: even length, every character in 0-9a-f.
pub fn from_hex_string(s: &str) -> (r: Option<Vec<u8>>)
    ensures
        r matches Some(v) ==> hex_decode(s@) == Some(v@),
        r is None <==> hex_decode(s@) is None,
{
    let len = s.unicode_len();
    if len % 2 != 0 {
        return None;
    }
    let mut out: Vec<u8> = Vec::new();
    let mut i: usize = 0;
    while i < len
        invariant
            i <= len,
            i % 2 == 0,
            len % 2 == 0,
            len == s@.len(),
            hex_decode(s@.take(i as int)) == Some(out@),
        decreases len - i,
    {
        let c1 = s.get_char(i);
        let c2 = s.get_char(i + 1);
        let v1 = match hex_digit_value(c1) {
            Some(v) => v,
            None => {
                proof {
                    lemma_hex_decode_bad_pair(s@, i as int / 2);
                }
                return None;
            },
        };
        let v2 = match hex_digit_value(c2) {
            Some(v) => v,
            None => {
                proof {
                    lemma_hex_decode_bad_pair(s@, i as int / 2);
                }
                return None;
            },
        };
        out.push(v1 * 16 + v2);
        proof {
            let taken = s@.take(i as int + 2);
            assert(taken.take(taken.len() - 2) =~= s@.take(i as int));
            assert(taken[taken.len() - 2] == s@[i as int]);
            assert(taken[taken.len() - 1] == s@[i + 1 as int]);
            assert(out@ =~= hex_decode(s@.take(i as int)).unwrap() + seq![
                (hex_digit_val(s@[i as int]) * 16 + hex_digit_val(s@[i + 1 as int])) as u8,
            ]);
        }
        i = i + 2;
    }
    proof {
        assert(s@.take(len as int) =~= s@);
    }
    Some(out)
}

/// The value of one hex character, or `None` for any other character.
fn hex_digit_value(c: char) -> (r: Option<u8>)
    ensures
        r matches Some(v) ==> is_hex_digit_char(c) && v as nat == hex_digit_val(c) && v < 16,
        r is None <==> !is_hex_digit_char(c),
{
    if '0' <= c && c <= '9' {
        Some((c as u32 - '0' as u32) as u8)
    } else if 'a' <= c && c <= 'f' {
        Some((c as u32 - 'a' as u32 + 10) as u8)
    } else {
        None
    }
}

} // verus!
