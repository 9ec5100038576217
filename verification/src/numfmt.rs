//! Rendering of numbers as lowercase hexadecimal and decimal strings.
//!
//! The adapter derives entity tags from sizes and timestamps, and the key
//! derivation layer renders random salt bytes as text; both need an exact
//! account of the produced characters.

use vstd::prelude::*;
use vstd::string::*;

verus! {

/// The lowercase hexadecimal digit for a value below sixteen.
pub open spec fn hex_digit(d: u8) -> char {
    if d == 0 {
        '0'
    } else if d == 1 {
        '1'
    } else if d == 2 {
        '2'
    } else if d == 3 {
        '3'
    } else if d == 4 {
        '4'
    } else if d == 5 {
        '5'
    } else if d == 6 {
        '6'
    } else if d == 7 {
        '7'
    } else if d == 8 {
        '8'
    } else if d == 9 {
        '9'
    } else if d == 10 {
        'a'
    } else if d == 11 {
        'b'
    } else if d == 12 {
        'c'
    } else if d == 13 {
        'd'
    } else if d == 14 {
        'e'
    } else {
        'f'
    }
}

/// The digits of `v` in base sixteen, most significant first, no leading
/// zeros (a single `'0'` for zero), as `{:x}` renders them.
pub open spec fn u64_hex_digits(v: u64) -> Seq<char>
    decreases v,
{
    if v < 16 {
        seq![hex_digit(v as u8)]
    } else {
        u64_hex_digits(v / 16).push(hex_digit((v % 16) as u8))
    }
}

/// The digits of `v` in base ten, most significant first, no leading zeros,
/// as `{}` renders them.
pub open spec fn u64_dec_digits(v: u64) -> Seq<char>
    decreases v,
{
    if v < 10 {
        seq![hex_digit(v as u8)]
    } else {
        u64_dec_digits(v / 10).push(hex_digit((v % 10) as u8))
    }
}

/// Both hexadecimal digits of one byte, high nibble first.
pub open spec fn byte_hex(b: u8) -> Seq<char> {
    seq![hex_digit(b / 16), hex_digit(b % 16)]
}

/// The hexadecimal rendering of a byte string, two digits per byte.
pub open spec fn bytes_hex(s: Seq<u8>) -> Seq<char>
    decreases s.len(),
{
    if s.len() == 0 {
        Seq::empty()
    } else {
        byte_hex(s[0]) + bytes_hex(s.skip(1))
    }
}

pub proof fn lemma_bytes_hex_len(s: Seq<u8>)
    ensures
        bytes_hex(s).len() == 2 * s.len(),
    decreases s.len(),
{
    if s.len() > 0 {
        lemma_bytes_hex_len(s.skip(1));
    }
}

pub proof fn lemma_bytes_hex_snoc(s: Seq<u8>)
    requires
        s.len() > 0,
    ensures
        bytes_hex(s) == bytes_hex(s.drop_last()) + byte_hex(s.last()),
    decreases s.len(),
{
    if s.len() == 1 {
        assert(s.skip(1) =~= Seq::<u8>::empty());
        assert(s.drop_last() =~= Seq::<u8>::empty());
        assert(bytes_hex(s) =~= bytes_hex(s.drop_last()) + byte_hex(s.last()));
    } else {
        lemma_bytes_hex_snoc(s.skip(1));
        assert(s.skip(1).drop_last() =~= s.drop_last().skip(1));
        assert(s.skip(1).last() == s.last());
        assert(s.drop_last()[0] == s[0]);
        assert(bytes_hex(s) =~= bytes_hex(s.drop_last()) + byte_hex(s.last()));
    }
}

fn hex_digit_str(d: u8) -> (r: &'static str)
    requires
        d < 16,
    ensures
        r@ == seq![hex_digit(d)],
{
    proof {
        reveal_strlit("0");
        reveal_strlit("1");
        reveal_strlit("2");
        reveal_strlit("3");
        reveal_strlit("4");
        reveal_strlit("5");
        reveal_strlit("6");
        reveal_strlit("7");
        reveal_strlit("8");
        reveal_strlit("9");
        reveal_strlit("a");
        reveal_strlit("b");
        reveal_strlit("c");
        reveal_strlit("d");
        reveal_strlit("e");
        reveal_strlit("f");
    }
    let r = match d {
        0 => "0",
        1 => "1",
        2 => "2",
        3 => "3",
        4 => "4",
        5 => "5",
        6 => "6",
        7 => "7",
        8 => "8",
        9 => "9",
        10 => "a",
        11 => "b",
        12 => "c",
        13 => "d",
        14 => "e",
        _ => "f",
    };
    proof {
        assert(r@ =~= seq![hex_digit(d)]);
    }
    r
}

/// Renders `v` in lowercase hexadecimal, as `{:x}` would.
pub fn u64_to_hex(v: u64) -> (r: String)
    ensures
        r@ == u64_hex_digits(v),
    decreases v,
{
    if v < 16 {
        hex_digit_str(v as u8).to_owned()
    } else {
        let mut s = u64_to_hex(v / 16);
        s.append(hex_digit_str((v % 16) as u8));
        proof {
            assert(s@ =~= u64_hex_digits(v));
        }
        s
    }
}

/// Renders `v` in decimal, as `{}` would.
pub fn u64_to_dec(v: u64) -> (r: String)
    ensures
        r@ == u64_dec_digits(v),
    decreases v,
{
    if v < 10 {
        hex_digit_str(v as u8).to_owned()
    } else {
        let mut s = u64_to_dec(v / 10);
        s.append(hex_digit_str((v % 10) as u8));
        proof {
            assert(s@ =~= u64_dec_digits(v));
        }
        s
    }
}

/// Renders a byte string as lowercase hexadecimal, two digits per byte.
pub fn bytes_to_hex(b: &[u8]) -> (r: String)
    ensures
        r@ == bytes_hex(b@),
{
    let mut out = String::new();
    let mut i: usize = 0;
    while i < b.len()
        invariant
            i <= b@.len(),
            out@ == bytes_hex(b@.take(i as int)),
        decreases b@.len() - i,
    {
        let byte = b[i];
        out.append(hex_digit_str(byte / 16));
        out.append(hex_digit_str(byte % 16));
        proof {
            let t = b@.take(i as int + 1);
            assert(t.drop_last() =~= b@.take(i as int));
            assert(t.last() == b@[i as int]);
            lemma_bytes_hex_snoc(t);
            assert(out@ =~= bytes_hex(t));
        }
        i += 1;
    }
    proof {
        assert(b@.take(b@.len() as int) =~= b@);
    }
    out
}

} // verus!
