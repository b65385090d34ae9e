//! Hexadecimal encoding of bytes (lower-case digits, two per byte) and its
//! decoding (either case accepted).

use vstd::prelude::*;
use crate::text::{chars_of, string_of_chars};

verus! {

/// The lower-case hexadecimal digit for `n`, which is below sixteen.
pub open spec fn hex_digit(n: int) -> char {
    seq!['0', '1', '2', '3', '4', '5', '6', '7', '8', '9', 'a', 'b', 'c', 'd', 'e', 'f'][n]
}

/// Two hexadecimal digits per byte, high nibble first.
pub open spec fn hex_of_bytes(b: Seq<u8>) -> Seq<char>
    decreases b.len(),
{
    if b.len() == 0 {
        Seq::empty()
    } else {
        hex_of_bytes(b.drop_last()) + seq![hex_digit((b.last() / 16) as int), hex_digit((b.last() % 16) as int)]
    }
}

/// The value of a hexadecimal digit of either case.
pub open spec fn hex_char_value(c: char) -> Option<u8> {
    if '0' <= c && c <= '9' {
        Some((c as u32 - 48) as u8)
    } else if 'a' <= c && c <= 'f' {
        Some((c as u32 - 87) as u8)
    } else if 'A' <= c && c <= 'F' {
        Some((c as u32 - 55) as u8)
    } else {
        None
    }
}

/// The bytes that hexadecimal text stands for: none unless it has an even
/// number of characters, all hexadecimal digits.
pub open spec fn hex_decode_chars(cs: Seq<char>) -> Option<Seq<u8>>
    decreases cs.len(),
{
    if cs.len() == 0 {
        Some(Seq::empty())
    } else if cs.len() == 1 {
        None
    } else {
        match (hex_decode_chars(cs.take(cs.len() - 2)), hex_char_value(cs[cs.len() - 2]), hex_char_value(cs[cs.len() - 1])) {
            (Some(rest), Some(h), Some(l)) => Some(rest.push((h * 16 + l) as u8)),
            _ => None,
        }
    }
}

fn hex_digit_exec(n: u8) -> (c: char)
    requires
        n < 16,
    ensures
        c == hex_digit(n as int),
{
    let table: [char; 16] = ['0', '1', '2', '3', '4', '5', '6', '7', '8', '9', 'a', 'b', 'c', 'd', 'e', 'f'];
    proof {
        assert(table@ =~= seq!['0', '1', '2', '3', '4', '5', '6', '7', '8', '9', 'a', 'b', 'c', 'd', 'e', 'f']);
    }
    table[n as usize]
}

/// The lower-case hexadecimal text of `bytes`.
pub fn hex_encode(bytes: &[u8]) -> (r: String)
    ensures
        r@ == hex_of_bytes(bytes@),
{
    let mut out: Vec<char> = Vec::new();
    let mut i: usize = 0;
    while i < bytes.len()
        invariant
            i <= bytes.len(),
            out@ == hex_of_bytes(bytes@.take(i as int)),
        decreases bytes.len() - i,
    {
        let b = bytes[i];
        let hi = hex_digit_exec(b / 16);
        let lo = hex_digit_exec(b % 16);
        out.push(hi);
        out.push(lo);
        proof {
            assert(bytes@.take(i + 1).drop_last() =~= bytes@.take(i as int));
            assert(out@ =~= hex_of_bytes(bytes@.take(i as int)) + seq![hex_digit((b / 16) as int), hex_digit((b % 16) as int)]);
        }
        i = i + 1;
    }
    proof {
        assert(bytes@.take(i as int) =~= bytes@);
    }
    string_of_chars(&out)
}

fn hex_value_exec(c: char) -> (r: Option<u8>)
    ensures
        r == hex_char_value(c),
{
    if '0' <= c && c <= '9' {
        Some((c as u32 - 48) as u8)
    } else if 'a' <= c && c <= 'f' {
        Some((c as u32 - 87) as u8)
    } else if 'A' <= c && c <= 'F' {
        Some((c as u32 - 55) as u8)
    } else {
        None
    }
}

proof fn lemma_hex_decode_prefix(cs: Seq<char>, i: int)
    requires
        0 <= i <= cs.len(),
        i % 2 == 0,
        hex_decode_chars(cs) is Some,
    ensures
        hex_decode_chars(cs.take(i)) is Some,
    decreases cs.len(),
{
    if cs.len() >= 2 && i < cs.len() {
        let t = cs.take(cs.len() - 2);
        if cs.len() % 2 == 1 {
            lemma_hex_odd(cs);
        } else {
            assert(cs.take(i) =~= t.take(i));
            lemma_hex_decode_prefix(t, i);
        }
    } else if i == cs.len() {
        assert(cs.take(i) =~= cs);
    }
}

proof fn lemma_hex_odd(cs: Seq<char>)
    requires
        cs.len() % 2 == 1,
    ensures
        hex_decode_chars(cs) is None,
    decreases cs.len(),
{
    if cs.len() > 1 {
        lemma_hex_odd(cs.take(cs.len() - 2));
    }
}

/// The bytes that the hexadecimal text `s` stands for.
pub fn hex_decode(s: &str) -> (r: Option<Vec<u8>>)
    ensures
        match r {
            Some(b) => hex_decode_chars(s@) == Some(b@),
            None => hex_decode_chars(s@) is None,
        },
{
    let cs = chars_of(s);
    if cs.len() % 2 != 0 {
        proof {
            lemma_hex_odd(cs@);
        }
        return None;
    }
    let mut out: Vec<u8> = Vec::new();
    let mut i: usize = 0;
    proof {
        assert(cs@.take(0) =~= Seq::<char>::empty());
    }
    while i < cs.len()
        invariant
            i <= cs.len(),
            i % 2 == 0,
            cs.len() % 2 == 0,
            cs@ == s@,
            hex_decode_chars(cs@.take(i as int)) == Some(out@),
        decreases cs.len() - i,
    {
        let h = hex_value_exec(cs[i]);
        let l = hex_value_exec(cs[i + 1]);
        let ghost next = cs@.take(i + 2);
        proof {
            assert(next.take(next.len() - 2) =~= cs@.take(i as int));
            assert(next[next.len() - 2] == cs@[i as int]);
            assert(next[next.len() - 1] == cs@[i + 1]);
        }
        match (h, l) {
            (Some(h), Some(l)) => {
                out.push(h * 16 + l);
            },
            _ => {
                proof {
                    assert(hex_decode_chars(next) is None);
                    if hex_decode_chars(cs@) is Some {
                        lemma_hex_decode_prefix(cs@, i + 2);
                    }
                }
                return None;
            },
        }
        i = i + 2;
    }
    proof {
        assert(cs@.take(i as int) =~= cs@);
    }
    Some(out)
}

} // verus!

verus! {

proof fn lemma_hex_digit_value(n: int)
    requires
        0 <= n < 16,
    ensures
        hex_char_value(hex_digit(n)) == Some(n as u8),
{
    let t = seq!['0', '1', '2', '3', '4', '5', '6', '7', '8', '9', 'a', 'b', 'c', 'd', 'e', 'f'];
    assert(t[0] == '0' && t[1] == '1' && t[2] == '2' && t[3] == '3');
    assert(t[4] == '4' && t[5] == '5' && t[6] == '6' && t[7] == '7');
    assert(t[8] == '8' && t[9] == '9' && t[10] == 'a' && t[11] == 'b');
    assert(t[12] == 'c' && t[13] == 'd' && t[14] == 'e' && t[15] == 'f');
}

/// Decoding the hexadecimal text of bytes gives the bytes back.
pub proof fn law_hex_roundtrip(b: Seq<u8>)
    ensures
        hex_decode_chars(hex_of_bytes(b)) == Some(b),
    decreases b.len(),
{
    if b.len() > 0 {
        let t = b.drop_last();
        law_hex_roundtrip(t);
        let x = b.last();
        let h = hex_of_bytes(b);
        lemma_hex_len(t);
        assert(h.take(h.len() - 2) =~= hex_of_bytes(t));
        lemma_hex_digit_value((x / 16) as int);
        lemma_hex_digit_value((x % 16) as int);
        assert(((x / 16) as u8 * 16 + (x % 16) as u8) as u8 == x) by (nonlinear_arith);
        assert(t.push(x) =~= b);
    }
}

proof fn lemma_hex_len(b: Seq<u8>)
    ensures
        hex_of_bytes(b).len() == 2 * b.len(),
    decreases b.len(),
{
    if b.len() > 0 {
        lemma_hex_len(b.drop_last());
    }
}

} // verus!
