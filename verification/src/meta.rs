//! Recording which seed produced a maze: the 16 seed bytes rendered as 32
//! lowercase hex characters, the inverse parse, and the passive record that
//! holds the rendered string.

use vstd::prelude::*;
use vstd::string::StrSliceExecFns;
use vstd::string::StringExecFns;

verus! {

/// The lowercase hex digit for a nibble value.
pub open spec fn hex_char(n: int) -> char {
    if n == 0 {
        '0'
    } else if n == 1 {
        '1'
    } else if n == 2 {
        '2'
    } else if n == 3 {
        '3'
    } else if n == 4 {
        '4'
    } else if n == 5 {
        '5'
    } else if n == 6 {
        '6'
    } else if n == 7 {
        '7'
    } else if n == 8 {
        '8'
    } else if n == 9 {
        '9'
    } else if n == 10 {
        'a'
    } else if n == 11 {
        'b'
    } else if n == 12 {
        'c'
    } else if n == 13 {
        'd'
    } else if n == 14 {
        'e'
    } else {
        'f'
    }
}

/// Whether `c` is a lowercase hex digit.
pub open spec fn is_hex_digit(c: char) -> bool {
    ('0' <= c && c <= '9') || ('a' <= c && c <= 'f')
}

/// The nibble value of a lowercase hex digit.
pub open spec fn hex_val(c: char) -> int {
    if '0' <= c && c <= '9' {
        c as int - '0' as int
    } else {
        c as int - 'a' as int + 10
    }
}

/// The byte encoded by a pair of hex digits, high nibble first.
pub open spec fn hex_pair_val(c1: char, c2: char) -> u8 {
    (16 * hex_val(c1) + hex_val(c2)) as u8
}

/// The hex rendering of a byte sequence: two lowercase digits per byte,
/// high nibble first, in sequence order.
pub open spec fn hex_of(s: Seq<u8>) -> Seq<char> {
    Seq::new(
        2 * s.len(),
        |i: int|
            if i % 2 == 0 {
                hex_char((s[i / 2] / 16) as int)
            } else {
                hex_char((s[i / 2] % 16) as int)
            },
    )
}

/// The bytes a hex string encodes: defined exactly when the length is even
/// and every character is a lowercase hex digit.
pub open spec fn parse_hex(t: Seq<char>) -> Option<Seq<u8>> {
    if t.len() % 2 == 0 && (forall|i: int| 0 <= i < t.len() ==> is_hex_digit(#[trigger] t[i])) {
        Some(Seq::new((t.len() / 2) as nat, |i: int| hex_pair_val(t[2 * i], t[2 * i + 1])))
    } else {
        None
    }
}

/// A nibble's hex digit is a hex digit, and decodes back to the nibble.
pub proof fn lemma_hex_char_val(n: int)
    requires
        0 <= n < 16,
    ensures
        is_hex_digit(hex_char(n)),
        hex_val(hex_char(n)) == n,
{
}

/// Round trip: rendering any byte sequence as hex and parsing the result
/// back yields the original bytes.
pub proof fn lemma_hex_round_trip(s: Seq<u8>)
    ensures
        parse_hex(hex_of(s)) == Some(s),
{
    let t = hex_of(s);
    assert forall|i: int| 0 <= i < t.len() implies is_hex_digit(#[trigger] t[i]) by {
        let b = s[i / 2];
        assert(0 <= b / 16 < 16 && 0 <= b % 16 < 16) by (nonlinear_arith)
            requires
                0 <= b <= 255,
        ;
        if i % 2 == 0 {
            lemma_hex_char_val((b / 16) as int);
        } else {
            lemma_hex_char_val((b % 16) as int);
        }
    }
    let parsed = parse_hex(t).unwrap();
    assert forall|i: int| 0 <= i < s.len() implies parsed[i] == s[i] by {
        let b = s[i];
        assert(0 <= b / 16 < 16 && 0 <= b % 16 < 16 && b == 16 * (b / 16) + b % 16)
            by (nonlinear_arith)
            requires
                0 <= b <= 255,
        ;
        assert((2 * i) % 2 == 0 && (2 * i) / 2 == i && (2 * i + 1) % 2 == 1 && (2 * i + 1) / 2
            == i);
        lemma_hex_char_val((b / 16) as int);
        lemma_hex_char_val((b % 16) as int);
        assert(t[2 * i] == hex_char((b / 16) as int) && t[2 * i + 1] == hex_char((b % 16) as int));
    }
    assert(parsed =~= s);
}

fn hex_digit_str(n: u8) -> (r: &'static str)
    requires
        n < 16,
    ensures
        r@.len() == 1,
        r@[0] == hex_char(n as int),
{
    proof {
        reveal_strlit("0");
        reveal_strlit("1");
        reveal_strlit("2");
        reveal_strlit("3");
        reveal_strlit("4");
        reveal_strlit("5");
        reveal_strlit("6");
        reveal_strlit("7");
        reveal_strlit("8");
        reveal_strlit("9");
        reveal_strlit("a");
        reveal_strlit("b");
        reveal_strlit("c");
        reveal_strlit("d");
        reveal_strlit("e");
        reveal_strlit("f");
    }
    match n {
        0 => "0",
        1 => "1",
        2 => "2",
        3 => "3",
        4 => "4",
        5 => "5",
        6 => "6",
        7 => "7",
        8 => "8",
        9 => "9",
        10 => "a",
        11 => "b",
        12 => "c",
        13 => "d",
        14 => "e",
        _ => "f",
    }
}

/// The 32-character lowercase hex rendering of a 16-byte seed.
pub fn to_hex_string(seed: [u8; 16]) -> (s: String)
    ensures
        s@ == hex_of(seed@),
        s@.len() == 32,
{
    let mut s = String::new();
    let mut i: usize = 0;
    while i < 16
        invariant
            i <= 16,
            s@ =~= hex_of(seed@).take(2 * i),
        decreases 16 - i,
    {
        let b = seed[i];
        let hi = b / 16;
        let lo = b % 16;
        s.append(hex_digit_str(hi));
        s.append(hex_digit_str(lo));
        proof {
            assert((2 * i as int) % 2 == 0 && (2 * i as int) / 2 == i as int
                && (2 * i as int + 1) % 2 == 1 && (2 * i as int + 1) / 2 == i as int);
            assert(s@ =~= hex_of(seed@).take(2 * (i + 1)));
        }
        i = i + 1;
    }
    proof {
        assert(hex_of(seed@).take(32) =~= hex_of(seed@));
    }
    s
}

fn hex_digit_val(c: char) -> (r: Option<u8>)
    ensures
        is_hex_digit(c) ==> r == Some(hex_val(c) as u8),
        !is_hex_digit(c) ==> r is None,
{
    match c {
        '0' => Some(0),
        '1' => Some(1),
        '2' => Some(2),
        '3' => Some(3),
        '4' => Some(4),
        '5' => Some(5),
        '6' => Some(6),
        '7' => Some(7),
        '8' => Some(8),
        '9' => Some(9),
        'a' => Some(10),
        'b' => Some(11),
        'c' => Some(12),
        'd' => Some(13),
        'e' => Some(14),
        'f' => Some(15),
        _ => None,
    }
}

/// Parses a lowercase hex string back into bytes: the inverse of
/// [`to_hex_string`]. Returns `None` exactly when the length is odd or a
/// character is not a lowercase hex digit.
pub fn from_hex_string(s: &str) -> (r: Option<Vec<u8>>)
    ensures
        match r {
            Some(v) => parse_hex(s@) == Some(v@),
            None => parse_hex(s@) is None,
        },
{
    let len = s.unicode_len();
    if len % 2 != 0 {
        return None;
    }
    let mut v: Vec<u8> = Vec::new();
    let mut i: usize = 0;
    while i < len / 2
        invariant
            len == s@.len(),
            len % 2 == 0,
            i <= len / 2,
            v@.len() == i,
            forall|j: int| 0 <= j < 2 * i ==> is_hex_digit(#[trigger] s@[j]),
            forall|j: int| 0 <= j < i ==> v@[j] == hex_pair_val(s@[2 * j], s@[2 * j + 1]),
        decreases len / 2 - i,
    {
        let c1 = s.get_char(2 * i);
        let c2 = s.get_char(2 * i + 1);
        let d1 = match hex_digit_val(c1) {
            Some(d) => d,
            None => {
                return None;
            },
        };
        let d2 = match hex_digit_val(c2) {
            Some(d) => d,
            None => {
                return None;
            },
        };
        v.push(16 * d1 + d2);
        i = i + 1;
    }
    proof {
        assert forall|j: int| 0 <= j < s@.len() implies is_hex_digit(#[trigger] s@[j]) by {
            assert(0 <= j < 2 * ((len / 2) as int));
        }
        let parsed = parse_hex(s@).unwrap();
        assert(v@ =~= parsed);
    }
    Some(v)
}

/// A passive record of how a maze came to be: the hex rendering of the
/// seed that generated it.
#[derive(Debug)]
pub struct MetaData {
    pub seed: String,
}

impl MetaData {
    /// A record with no seed assigned yet.
    pub fn new_empty() -> (m: MetaData)
        ensures
            m.seed@ == Seq::<char>::empty(),
    {
        MetaData { seed: String::new() }
    }
}

} // verus!
