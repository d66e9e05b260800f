//! Hexadecimal encoding and decoding of byte strings, written against an
//! exact character-level specification. Script values travel as hex text.

use vstd::prelude::*;

verus! {

/// The lowercase hex character of a value below 16.
pub open spec fn hex_char(v: u8) -> char {
    if v == 0 {
        '0'
    } else if v == 1 {
        '1'
    } else if v == 2 {
        '2'
    } else if v == 3 {
        '3'
    } else if v == 4 {
        '4'
    } else if v == 5 {
        '5'
    } else if v == 6 {
        '6'
    } else if v == 7 {
        '7'
    } else if v == 8 {
        '8'
    } else if v == 9 {
        '9'
    } else if v == 10 {
        'a'
    } else if v == 11 {
        'b'
    } else if v == 12 {
        'c'
    } else if v == 13 {
        'd'
    } else if v == 14 {
        'e'
    } else {
        'f'
    }
}

/// Whether a character is a hex digit, upper or lower case.
pub open spec fn is_hex_digit(c: char) -> bool {
    (48 <= c as u32 && c as u32 <= 57) || (97 <= c as u32 && c as u32 <= 102) || (65 <= c as u32
        && c as u32 <= 70)
}

/// The value of a hex digit character.
pub open spec fn hex_digit_val(c: char) -> u8 {
    if 48 <= c as u32 && c as u32 <= 57 {
        (c as u32 - 48) as u8
    } else if 97 <= c as u32 && c as u32 <= 102 {
        (c as u32 - 87) as u8
    } else if 65 <= c as u32 && c as u32 <= 70 {
        (c as u32 - 55) as u8
    } else {
        0
    }
}

/// The lowercase hex encoding of a byte string: two characters per byte,
/// high digit first.
pub open spec fn hex_enc(data: Seq<u8>) -> Seq<char>
    decreases data.len(),
{
    if data.len() == 0 {
        Seq::empty()
    } else {
        hex_enc(data.drop_last()) + seq![
            hex_char(data.last() / 16),
            hex_char(data.last() % 16),
        ]
    }
}

/// Whether a character string is well-formed hex: even length, digits only.
pub open spec fn is_hex_str(s: Seq<char>) -> bool {
    s.len() % 2 == 0 && (forall|i: int| 0 <= i < s.len() ==> is_hex_digit(#[trigger] s[i]))
}

/// The bytes a well-formed hex string denotes.
pub open spec fn hex_bytes(s: Seq<char>) -> Seq<u8> {
    Seq::new((s.len() / 2) as nat, |i: int| (hex_digit_val(s[2 * i]) * 16 + hex_digit_val(
        s[2 * i + 1],
    )) as u8)
}

/// Decoding: the bytes of a well-formed hex string, nothing otherwise.
pub open spec fn hex_dec(s: Seq<char>) -> Option<Seq<u8>> {
    if is_hex_str(s) {
        Some(hex_bytes(s))
    } else {
        None
    }
}

/// The one-character string of a hex digit value.
fn hex_char_str(v: u8) -> (r: &'static str)
    requires
        v < 16,
    ensures
        r@.len() == 1,
        r@[0] == hex_char(v),
{
    proof {
        reveal_strlit("0");
        reveal_strlit("1");
        reveal_strlit("2");
        reveal_strlit("3");
        reveal_strlit("4");
        reveal_strlit("5");
        reveal_strlit("6");
        reveal_strlit("7");
        reveal_strlit("8");
        reveal_strlit("9");
        reveal_strlit("a");
        reveal_strlit("b");
        reveal_strlit("c");
        reveal_strlit("d");
        reveal_strlit("e");
        reveal_strlit("f");
    }
    match v {
        0 => "0",
        1 => "1",
        2 => "2",
        3 => "3",
        4 => "4",
        5 => "5",
        6 => "6",
        7 => "7",
        8 => "8",
        9 => "9",
        10 => "a",
        11 => "b",
        12 => "c",
        13 => "d",
        14 => "e",
        _ => "f",
    }
}

/// Lowercase hex encoding of a byte string.
pub fn encode(data: &[u8]) -> (r: String)
    ensures
        r@ == hex_enc(data@),
{
    let mut r = String::new();
    let mut i: usize = 0;
    while i < data.len()
        invariant
            i <= data@.len(),
            r@ =~= hex_enc(data@.take(i as int)),
        decreases data@.len() - i,
    {
        let b = data[i];
        r.append(hex_char_str(b / 16));
        r.append(hex_char_str(b % 16));
        proof {
            assert(data@.take(i + 1).drop_last() =~= data@.take(i as int));
            assert(data@.take(i + 1).last() == data@[i as int]);
        }
        i = i + 1;
    }
    proof {
        assert(data@.take(data@.len() as int) =~= data@);
    }
    r
}

/// Decodes a hex string; yields nothing when the text is not well-formed hex.
pub fn decode(s: &str) -> (r: Option<Vec<u8>>)
    ensures
        r is Some <==> is_hex_str(s@),
        r is Some ==> r->Some_0@ == hex_bytes(s@),
{
    let n = s.unicode_len();
    if n % 2 != 0 {
        return None;
    }
    let mut out: Vec<u8> = Vec::new();
    let mut i: usize = 0;
    while i < n
        invariant
            s@.len() == n,
            n % 2 == 0,
            i % 2 == 0,
            i <= n,
            forall|j: int| 0 <= j < i ==> is_hex_digit(#[trigger] s@[j]),
            out@.len() == i / 2,
            forall|k: int|
                0 <= k < i / 2 ==> out@[k] == (hex_digit_val(s@[2 * k]) * 16 + hex_digit_val(
                    s@[2 * k + 1],
                )) as u8,
        decreases n - i,
    {
        let hi = s.get_char(i);
        let lo = s.get_char(i + 1);
        let hv = match hex_val(hi) {
            Some(v) => v,
            None => {
                return None;
            },
        };
        let lv = match hex_val(lo) {
            Some(v) => v,
            None => {
                return None;
            },
        };
        out.push(hv * 16 + lv);
        i = i + 2;
    }
    proof {
        assert(out@ =~= hex_bytes(s@));
    }
    Some(out)
}

/// The value of one hex digit character, if it is one.
fn hex_val(c: char) -> (r: Option<u8>)
    ensures
        r is Some <==> is_hex_digit(c),
        r is Some ==> r->Some_0 == hex_digit_val(c),
{
    let u = c as u32;
    if 48 <= u && u <= 57 {
        Some((u - 48) as u8)
    } else if 97 <= u && u <= 102 {
        Some((u - 87) as u8)
    } else if 65 <= u && u <= 70 {
        Some((u - 55) as u8)
    } else {
        None
    }
}


/// Hex encoding yields exactly two hex digits per byte, high digit first.
pub proof fn lemma_hex_enc_shape(data: Seq<u8>)
    ensures
        hex_enc(data).len() == 2 * data.len(),
        forall|i: int| 0 <= i < 2 * data.len() ==> is_hex_digit(#[trigger] hex_enc(data)[i]),
        forall|i: int|
            0 <= i < data.len() ==> hex_enc(data)[2 * i] == hex_char(#[trigger] data[i] / 16)
                && hex_enc(data)[2 * i + 1] == hex_char(data[i] % 16),
    decreases data.len(),
{
    if data.len() > 0 {
        let d = data.drop_last();
        lemma_hex_enc_shape(d);
        assert(forall|n: u8| n < 16 ==> is_hex_digit(#[trigger] hex_char(n)));
        assert forall|i: int|
            0 <= i < data.len() implies hex_enc(data)[2 * i] == hex_char(
            #[trigger] data[i] / 16,
        ) && hex_enc(data)[2 * i + 1] == hex_char(data[i] % 16) by {
            if i < data.len() - 1 {
                assert(d[i] == data[i]);
                assert(hex_enc(data)[2 * i] == hex_enc(d)[2 * i]);
                assert(hex_enc(data)[2 * i + 1] == hex_enc(d)[2 * i + 1]);
            } else {
                assert(hex_enc(data)[2 * i] == hex_char(data.last() / 16));
                assert(hex_enc(data)[2 * i + 1] == hex_char(data.last() % 16));
            }
        }
        assert forall|i: int| 0 <= i < 2 * data.len() implies is_hex_digit(
            #[trigger] hex_enc(data)[i],
        ) by {
            if i < 2 * (data.len() - 1) {
                assert(hex_enc(data)[i] == hex_enc(d)[i]);
            } else if i == 2 * (data.len() - 1) {
                assert(hex_enc(data)[i] == hex_char(data.last() / 16));
            } else {
                assert(hex_enc(data)[i] == hex_char(data.last() % 16));
            }
        }
    }
}

/// Decoding inverts encoding: the hex text of a byte string is well formed
/// and denotes the bytes again.
pub proof fn lemma_hex_roundtrip(data: Seq<u8>)
    ensures
        is_hex_str(hex_enc(data)),
        hex_dec(hex_enc(data)) == Some(data),
{
    lemma_hex_enc_shape(data);
    assert(forall|n: u8| n < 16 ==> hex_digit_val(#[trigger] hex_char(n)) == n);
    assert forall|i: int| 0 <= i < data.len() implies hex_bytes(hex_enc(data))[i] == data[i] by {
        assert(hex_enc(data)[2 * i] == hex_char(data[i] / 16));
        assert(hex_enc(data)[2 * i + 1] == hex_char(data[i] % 16));
        assert(data[i] / 16 < 16);
        assert((data[i] / 16) * 16 + data[i] % 16 == data[i]);
    }
    assert(hex_bytes(hex_enc(data)) =~= data);
}

} // verus!

