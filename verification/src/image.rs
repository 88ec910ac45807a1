//! The frame buffer as image bytes: each pixel's colour, written as six
//! hexadecimal digits, is decoded into its red, green and blue bytes.

use vstd::prelude::*;
use hex::FromHexError;

verus! {

/// Why a text could not be decoded as hexadecimal.
#[verifier::external_type_specification]
#[verifier::external_body]
pub struct ExFromHexError(FromHexError);

/// The upper-case character of hexadecimal digit `d`.
pub open spec fn hex_char(d: nat) -> char {
    if d < 10 {
        ((d + 48) as u8) as char
    } else {
        ((d - 10 + 65) as u8) as char
    }
}

/// The value of the hexadecimal digit `c` (either case), if it is one.
pub open spec fn hex_value(c: char) -> Option<nat> {
    if '0' <= c && c <= '9' {
        Some((c as nat - 48) as nat)
    } else if 'A' <= c && c <= 'F' {
        Some((c as nat - 65 + 10) as nat)
    } else if 'a' <= c && c <= 'f' {
        Some((c as nat - 97 + 10) as nat)
    } else {
        None
    }
}

/// The places of the six hexadecimal digits of a colour, most
/// significant first.
pub open spec fn place(j: int) -> nat {
    if j == 0 {
        1048576
    } else if j == 1 {
        65536
    } else if j == 2 {
        4096
    } else if j == 3 {
        256
    } else if j == 4 {
        16
    } else {
        1
    }
}

/// Colour `c` as six upper-case hexadecimal digits, zero-padded.
pub open spec fn hex6(c: u32) -> Seq<char> {
    Seq::new(6, |j: int| hex_char(((c as nat) / place(j)) % 16))
}

/// `hex::decode_to_slice` into three bytes: succeeds exactly when `text`
/// is six hexadecimal digits (either case), each byte then being the
/// value of its digit pair, high digit first. On failure the bytes
/// written so far are dropped.
#[verifier::external_body]
fn decode_hex3(text: &str) -> (r: Result<[u8; 3], FromHexError>)
    ensures
        r is Ok <==> (text@.len() == 6 && forall|j: int| 0 <= j < 6 ==> #[trigger] hex_value(text@[j]) is Some),
        r matches Ok(b) ==> forall|k: int| 0 <= k < 3 ==> #[trigger] b[k] == 16 * hex_value(text@[2 * k])->0
            + hex_value(text@[2 * k + 1])->0,
{
    let mut out = [0u8; 3];
    hex::decode_to_slice(text, &mut out)?;
    Ok(out)
}

/// The one-character text of hexadecimal digit `d`.
fn hex_digit_str(d: u32) -> (r: &'static str)
    requires
        d < 16,
    ensures
        r@ == seq![hex_char(d as nat)],
{
    proof {
        reveal_strlit("0");
        reveal_strlit("1");
        reveal_strlit("2");
        reveal_strlit("3");
        reveal_strlit("4");
        reveal_strlit("5");
        reveal_strlit("6");
        reveal_strlit("7");
        reveal_strlit("8");
        reveal_strlit("9");
        reveal_strlit("A");
        reveal_strlit("B");
        reveal_strlit("C");
        reveal_strlit("D");
        reveal_strlit("E");
        reveal_strlit("F");
    }
    if d == 0 { "0" }
    else if d == 1 { "1" }
    else if d == 2 { "2" }
    else if d == 3 { "3" }
    else if d == 4 { "4" }
    else if d == 5 { "5" }
    else if d == 6 { "6" }
    else if d == 7 { "7" }
    else if d == 8 { "8" }
    else if d == 9 { "9" }
    else if d == 10 { "A" }
    else if d == 11 { "B" }
    else if d == 12 { "C" }
    else if d == 13 { "D" }
    else if d == 14 { "E" }
    else { "F" }
}

/// Colour `c` as six upper-case hexadecimal digits.
pub fn hex_text(c: u32) -> (s: String)
    ensures
        s@ == hex6(c),
{
    let mut s = String::new();
    let places: [u32; 6] = [1048576, 65536, 4096, 256, 16, 1];
    let mut j: usize = 0;
    while j < 6
        invariant
            j <= 6,
            places@ == seq![1048576u32, 65536, 4096, 256, 16, 1],
            s@ == hex6(c).take(j as int),
        decreases 6 - j,
    {
        let p = places[j];
        assert(p == place(j as int));
        let d = (c / p) % 16;
        s.append(hex_digit_str(d));
        proof {
            assert(s@ =~= hex6(c).take(j + 1));
        }
        j = j + 1;
    }
    assert(hex6(c).take(6) =~= hex6(c));
    s
}

/// The red, green and blue bytes of colour `c`.
pub open spec fn rgb(c: u32) -> Seq<u8> {
    seq![(c / 65536) as u8, ((c / 256) % 256) as u8, (c % 256) as u8]
}

/// A pair of hexadecimal digits of `x`, high digit first, is its low byte.
proof fn lemma_digit_pair(x: nat)
    ensures
        16 * ((x / 16) % 16) + x % 16 == x % 256,
{
    assert(16 * ((x / 16) % 16) + x % 16 == x % 256) by (nonlinear_arith);
}

/// The hexadecimal digit characters decode back to their digits.
proof fn lemma_hex_roundtrip(d: nat)
    requires
        d < 16,
    ensures
        hex_value(hex_char(d)) == Some(d),
{
}

/// The red, green and blue bytes of colour `c`, which must fit in six
/// hexadecimal digits.
pub fn rgb_of(c: u32) -> (b: [u8; 3])
    requires
        c <= 0xFFFFFF,
    ensures
        b@ == rgb(c),
{
    let text = hex_text(c);
    let ghost t = text@;
    proof {
        assert forall|j: int| 0 <= j < 6 implies #[trigger] hex_value(t[j]) is Some by {
            lemma_hex_roundtrip(((c as nat) / place(j)) % 16);
        }
    }
    match decode_hex3(text.as_str()) {
        Ok(b) => {
            proof {
                let x = c as nat;
                assert forall|j: int| 0 <= j < 6 implies #[trigger] hex_value(t[j]) == Some((x / place(j)) % 16) by {
                    lemma_hex_roundtrip((x / place(j)) % 16);
                }
                assert(hex_value(t[0]) == Some((x / 1048576) % 16));
                assert(hex_value(t[1]) == Some((x / 65536) % 16));
                assert(hex_value(t[2]) == Some((x / 4096) % 16));
                assert(hex_value(t[3]) == Some((x / 256) % 16));
                assert(hex_value(t[4]) == Some((x / 16) % 16));
                assert(hex_value(t[5]) == Some(x % 16));
                assert(b[0] == 16 * hex_value(t[0])->0 + hex_value(t[1])->0);
                assert(b[1] == 16 * hex_value(t[2])->0 + hex_value(t[3])->0);
                assert(b[2] == 16 * hex_value(t[4])->0 + hex_value(t[5])->0);
                lemma_digit_pair(x / 65536);
                lemma_digit_pair(x / 256);
                lemma_digit_pair(x);
                assert((x / 65536) / 16 == x / 1048576) by (nonlinear_arith);
                assert((x / 256) / 16 == x / 4096) by (nonlinear_arith);
                assert(x / 65536 < 256) by (nonlinear_arith)
                    requires
                        x <= 0xFFFFFF,
                ;
                assert(b@ =~= rgb(c));
            }
            b
        },
        Err(_) => {
            proof {
                assert(false);
            }
            [0, 0, 0]
        },
    }
}

/// The frame buffer as image bytes, three per pixel.
pub open spec fn rgb_bytes(buf: Seq<u32>) -> Seq<u8>
    decreases buf.len(),
{
    if buf.len() == 0 {
        Seq::empty()
    } else {
        rgb_bytes(buf.drop_last()) + rgb(buf.last())
    }
}

/// The red, green and blue bytes of every pixel, in order.
pub fn frame_rgb(buf: &Vec<u32>) -> (img: Vec<u8>)
    requires
        forall|i: int| 0 <= i < buf.len() ==> #[trigger] buf[i] <= 0xFFFFFF,
    ensures
        img@ == rgb_bytes(buf@),
{
    let mut img: Vec<u8> = Vec::new();
    let mut i: usize = 0;
    while i < buf.len()
        invariant
            i <= buf.len(),
            forall|i: int| 0 <= i < buf.len() ==> #[trigger] buf[i] <= 0xFFFFFF,
            img@ == rgb_bytes(buf@.take(i as int)),
        decreases buf.len() - i,
    {
        let b = rgb_of(buf[i]);
        img.push(b[0]);
        img.push(b[1]);
        img.push(b[2]);
        proof {
            let t = buf@.take(i + 1);
            assert(t.drop_last() =~= buf@.take(i as int));
            assert(t.last() == buf@[i as int]);
            assert(img@ =~= rgb_bytes(t));
        }
        i = i + 1;
    }
    assert(buf@.take(buf.len() as int) =~= buf@);
    img
}

} // verus!
