//! Hexadecimal encoding and decoding of byte strings, verified against a
//! direct mathematical description. Encoding always produces lowercase
//! digits; decoding accepts both lowercase and uppercase digits.

use vstd::prelude::*;

verus! {

use vstd::string::StringSliceAdditionalSpecFns;

/// The lowercase hexadecimal digit for a value below 16.
pub open spec fn hex_char_of(n: u8) -> char
    recommends
        n < 16,
{
    if n < 10 {
        ((48 + n) as u8) as char
    } else {
        ((97 + (n - 10)) as u8) as char
    }
}

/// The hexadecimal form of a byte string: two digits per byte, high
/// nibble first.
pub open spec fn hex_of(bs: Seq<u8>) -> Seq<char>
    decreases bs.len(),
{
    if bs.len() == 0 {
        Seq::empty()
    } else {
        hex_of(bs.drop_last()) + seq![hex_char_of(bs.last() / 16), hex_char_of(bs.last() % 16)]
    }
}

/// The value of one hexadecimal digit; `None` for any other character.
pub open spec fn hex_val(c: char) -> Option<u8> {
    let n = c as u32;
    if 48 <= n && n <= 57 {
        Some((n - 48) as u8)
    } else if 97 <= n && n <= 102 {
        Some((n - 97 + 10) as u8)
    } else if 65 <= n && n <= 70 {
        Some((n - 65 + 10) as u8)
    } else {
        None
    }
}

/// The byte string denoted by a hexadecimal character string, or `None`
/// when the string has odd length or holds a non-digit.
pub open spec fn unhex(s: Seq<char>) -> Option<Seq<u8>>
    decreases s.len(),
{
    if s.len() % 2 != 0 {
        None
    } else if s.len() == 0 {
        Some(Seq::empty())
    } else {
        let hi = hex_val(s[s.len() - 2]);
        let lo = hex_val(s[s.len() - 1]);
        let rest = unhex(s.drop_last().drop_last());
        if hi is Some && lo is Some && rest is Some {
            Some(rest.unwrap().push((16 * hi.unwrap() + lo.unwrap()) as u8))
        } else {
            None
        }
    }
}

pub proof fn lemma_hex_of_len(bs: Seq<u8>)
    ensures
        hex_of(bs).len() == 2 * bs.len(),
    decreases bs.len(),
{
    if bs.len() > 0 {
        lemma_hex_of_len(bs.drop_last());
    }
}

pub proof fn lemma_hex_val_of_char(n: u8)
    requires
        n < 16,
    ensures
        hex_val(hex_char_of(n)) == Some(n),
{
}

/// Decoding inverts encoding: the hexadecimal form of a byte string
/// denotes exactly that byte string.
pub proof fn lemma_unhex_hex_of(bs: Seq<u8>)
    ensures
        unhex(hex_of(bs)) == Some(bs),
    decreases bs.len(),
{
    lemma_hex_of_len(bs);
    if bs.len() == 0 {
        assert(unhex(hex_of(bs)) == Some(bs));
    } else {
        let s = hex_of(bs);
        lemma_unhex_hex_of(bs.drop_last());
        lemma_hex_of_len(bs.drop_last());
        assert(s.drop_last().drop_last() =~= hex_of(bs.drop_last()));
        lemma_hex_val_of_char(bs.last() / 16);
        lemma_hex_val_of_char(bs.last() % 16);
        assert(s[s.len() - 2] == hex_char_of(bs.last() / 16));
        assert(s[s.len() - 1] == hex_char_of(bs.last() % 16));
        assert(16 * (bs.last() / 16) + bs.last() % 16 == bs.last());
        assert(bs.drop_last().push(bs.last()) =~= bs);
    }
}

/// A string that denotes a byte string has even length and is made of
/// hexadecimal digits only (hence of ASCII characters only).
pub proof fn lemma_unhex_char_facts(s: Seq<char>)
    requires
        unhex(s) is Some,
    ensures
        s.len() % 2 == 0,
        forall|i: int| 0 <= i < s.len() ==> (#[trigger] hex_val(s[i])) is Some,
        vstd::utf8::is_ascii_chars(s),
    decreases s.len(),
{
    if s.len() > 0 {
        lemma_unhex_char_facts(s.drop_last().drop_last());
        assert forall|i: int| 0 <= i < s.len() implies (#[trigger] hex_val(s[i])) is Some by {
            if i < s.len() - 2 {
                assert(s.drop_last().drop_last()[i] == s[i]);
            }
        }
    }
    assert forall|i: int| 0 <= i < s.len() implies '\0' <= #[trigger] s[i] <= '\u{7f}' by {
        assert(hex_val(s[i]) is Some);
        let n = s[i] as u32;
        assert((48 <= n && n <= 57) || (97 <= n && n <= 102) || (65 <= n && n <= 70));
        vstd::utf8::char_u32_cast(s[i], n);
        assert(s[i] == n as char);
        assert('\0' <= (n as char) && (n as char) <= '\u{7f}');
    }
}

pub proof fn lemma_unhex_len(s: Seq<char>)
    requires
        unhex(s) is Some,
    ensures
        unhex(s).unwrap().len() == s.len() / 2,
    decreases s.len(),
{
    if s.len() > 0 {
        lemma_unhex_len(s.drop_last().drop_last());
    }
}

fn push_hex_digit(s: &mut String, n: u8)
    requires
        n < 16,
    ensures
        final(s)@ == old(s)@ + seq![hex_char_of(n)],
{
    proof {
        reveal_strlit("0");
        reveal_strlit("1");
        reveal_strlit("2");
        reveal_strlit("3");
        reveal_strlit("4");
        reveal_strlit("5");
        reveal_strlit("6");
        reveal_strlit("7");
        reveal_strlit("8");
        reveal_strlit("9");
        reveal_strlit("a");
        reveal_strlit("b");
        reveal_strlit("c");
        reveal_strlit("d");
        reveal_strlit("e");
        reveal_strlit("f");
    }
    match n {
        0 => s.append("0"),
        1 => s.append("1"),
        2 => s.append("2"),
        3 => s.append("3"),
        4 => s.append("4"),
        5 => s.append("5"),
        6 => s.append("6"),
        7 => s.append("7"),
        8 => s.append("8"),
        9 => s.append("9"),
        10 => s.append("a"),
        11 => s.append("b"),
        12 => s.append("c"),
        13 => s.append("d"),
        14 => s.append("e"),
        _ => s.append("f"),
    }
}

/// Turns a byte string into its lowercase hexadecimal form.
pub fn hex_encode(bs: &[u8]) -> (r: String)
    ensures
        r@ == hex_of(bs@),
{
    let mut r = String::new();
    let mut i: usize = 0;
    while i < bs.len()
        invariant
            i <= bs@.len(),
            r@ == hex_of(bs@.take(i as int)),
        decreases bs@.len() - i,
    {
        let b = bs[i];
        push_hex_digit(&mut r, b / 16);
        push_hex_digit(&mut r, b % 16);
        proof {
            let t = bs@.take(i + 1);
            assert(t.drop_last() =~= bs@.take(i as int));
            assert(t.last() == bs@[i as int]);
            assert(r@ == hex_of(bs@.take(i + 1)));
        }
        i = i + 1;
    }
    proof {
        assert(bs@.take(bs@.len() as int) =~= bs@);
    }
    r
}

fn hex_val_of_byte(b: u8) -> (r: Option<u8>)
    ensures
        forall|c: char| c as u32 == b as u32 ==> r == hex_val(c),
        r is Some ==> r.unwrap() < 16,
{
    if 48 <= b && b <= 57 {
        Some(b - 48)
    } else if 97 <= b && b <= 102 {
        Some(b - 97 + 10)
    } else if 65 <= b && b <= 70 {
        Some(b - 65 + 10)
    } else {
        None
    }
}

/// Parses a hexadecimal character string into the byte string it
/// denotes; `None` exactly when the string does not denote one.
pub fn hex_decode(s: &str) -> (r: Option<Vec<u8>>)
    ensures
        match r {
            Some(v) => unhex(s@) == Some(v@),
            None => unhex(s@) is None,
        },
{
    broadcast use vstd::string::is_ascii_spec_bytes, vstd::slice::axiom_spec_len;

    if !s.is_ascii() {
        proof {
            if unhex(s@) is Some {
                lemma_unhex_char_facts(s@);
            }
        }
        return None;
    }
    let bytes = s.as_bytes();
    let n = bytes.len();
    assert(n == s@.len());
    if n % 2 != 0 {
        return None;
    }
    let mut v: Vec<u8> = Vec::new();
    let mut i: usize = 0;
    while i < n / 2
        invariant
            s.is_ascii(),
            bytes@ == s.spec_bytes(),
            bytes@ =~= Seq::new(s@.len(), |j: int| s@.index(j) as u8),
            n == s@.len(),
            n == bytes@.len(),
            n % 2 == 0,
            i <= n / 2,
            unhex(s@.take(2 * i)) == Some(v@),
        decreases n / 2 - i,
    {
        let hi = hex_val_of_byte(bytes[2 * i]);
        let lo = hex_val_of_byte(bytes[2 * i + 1]);
        proof {
            assert(bytes@[2 * i] == s@[2 * i] as u8);
            assert(bytes@[2 * i + 1] == s@[2 * i + 1] as u8);
            assert(s@[2 * i] as u32 == (s@[2 * i] as u8) as u32);
            assert(s@[2 * i + 1] as u32 == (s@[2 * i + 1] as u8) as u32);
        }
        match (hi, lo) {
            (Some(h), Some(l)) => {
                v.push(16 * h + l);
                proof {
                    let t = s@.take(2 * i + 2);
                    assert(t.drop_last().drop_last() =~= s@.take(2 * i));
                    assert(t[t.len() - 2] == s@[2 * i]);
                    assert(t[t.len() - 1] == s@[2 * i + 1]);
                }
                i = i + 1;
            },
            _ => {
                proof {
                    assert(hi == hex_val(s@[2 * i]));
                    assert(lo == hex_val(s@[2 * i + 1]));
                    if unhex(s@) is Some {
                        lemma_unhex_char_facts(s@);
                        assert(hex_val(s@[2 * i]) is Some);
                        assert(hex_val(s@[2 * i + 1]) is Some);
                        assert(false);
                    }
                }
                return None;
            },
        }
    }
    proof {
        assert(s@.take(2 * (n / 2) as int) =~= s@);
    }
    Some(v)
}

} // verus!
