//! Rendering and parsing of the unsigned decimal and hexadecimal numbers
//! that appear in the wire protocol, with round-trip proofs.

use vstd::prelude::*;
use vstd::string::*;

verus! {

pub open spec fn spec_dec_char(d: int) -> char {
    if d == 0 {
        '0'
    } else if d == 1 {
        '1'
    } else if d == 2 {
        '2'
    } else if d == 3 {
        '3'
    } else if d == 4 {
        '4'
    } else if d == 5 {
        '5'
    } else if d == 6 {
        '6'
    } else if d == 7 {
        '7'
    } else if d == 8 {
        '8'
    } else {
        '9'
    }
}

/// The value of a decimal digit character, or -1 for any other character.
pub open spec fn dec_val_of_char(c: char) -> int {
    if c == '0' {
        0
    } else if c == '1' {
        1
    } else if c == '2' {
        2
    } else if c == '3' {
        3
    } else if c == '4' {
        4
    } else if c == '5' {
        5
    } else if c == '6' {
        6
    } else if c == '7' {
        7
    } else if c == '8' {
        8
    } else if c == '9' {
        9
    } else {
        -1
    }
}

pub open spec fn is_dec_digit(c: char) -> bool {
    dec_val_of_char(c) >= 0
}

/// The canonical decimal rendering of `n`, most significant digit first,
/// no leading zeros (a single `'0'` for zero).
pub open spec fn dec_digits(n: nat) -> Seq<char>
    decreases n,
{
    if n < 10 {
        seq![spec_dec_char(n as int)]
    } else {
        dec_digits(n / 10) + seq![spec_dec_char(n as int % 10)]
    }
}

pub open spec fn all_dec_digits(s: Seq<char>) -> bool {
    forall|i: int| 0 <= i < s.len() ==> is_dec_digit(#[trigger] s[i])
}

/// The number denoted by a digit string (meaningful when all characters
/// are decimal digits).
pub open spec fn dec_val(s: Seq<char>) -> int
    decreases s.len(),
{
    if s.len() == 0 {
        0
    } else {
        dec_val(s.drop_last()) * 10 + dec_val_of_char(s.last())
    }
}

/// What parsing a decimal field yields: the value when the token is a
/// nonempty all-digit string, and nothing otherwise.
pub open spec fn parse_dec(s: Seq<char>) -> Option<int> {
    if s.len() > 0 && all_dec_digits(s) {
        Some(dec_val(s))
    } else {
        None
    }
}

pub proof fn lemma_dec_val_nonneg(s: Seq<char>)
    requires
        all_dec_digits(s),
    ensures
        dec_val(s) >= 0,
    decreases s.len(),
{
    if s.len() > 0 {
        assert(all_dec_digits(s.drop_last())) by {
            assert(forall|i: int| 0 <= i < s.len() - 1 ==> s.drop_last()[i] == s[i]);
        }
        lemma_dec_val_nonneg(s.drop_last());
    }
}

/// A digit prefix denotes no more than the whole digit string.
pub proof fn lemma_dec_val_take_le(s: Seq<char>, i: int)
    requires
        all_dec_digits(s),
        0 <= i <= s.len(),
    ensures
        dec_val(s.take(i)) <= dec_val(s),
    decreases s.len() - i,
{
    if i == s.len() {
        assert(s.take(i) =~= s);
    } else {
        assert(s.take(i + 1).drop_last() =~= s.take(i));
        assert(s.take(i + 1).last() == s[i]);
        assert(all_dec_digits(s.take(i))) by {
            assert(forall|k: int| 0 <= k < i ==> s.take(i)[k] == s[k]);
        }
        lemma_dec_val_nonneg(s.take(i));
        assert(dec_val(s.take(i + 1)) == dec_val(s.take(i)) * 10 + dec_val_of_char(s[i]));
        lemma_dec_val_take_le(s, i + 1);
    }
}

/// Decimal round trip: the canonical rendering of `n` is a nonempty
/// all-digit string that parses back to exactly `n`.
pub proof fn lemma_dec_round_trip(n: nat)
    ensures
        dec_digits(n).len() > 0,
        all_dec_digits(dec_digits(n)),
        dec_val(dec_digits(n)) == n,
        parse_dec(dec_digits(n)) == Some(n as int),
    decreases n,
{
    if n < 10 {
        let s = dec_digits(n);
        assert(s == seq![spec_dec_char(n as int)]);
        assert(s.drop_last() =~= Seq::<char>::empty());
        assert(dec_val(Seq::<char>::empty()) == 0);
        assert(s.last() == spec_dec_char(n as int));
        assert(dec_val_of_char(spec_dec_char(n as int)) == n);
        assert(dec_val(s) == n);
    } else {
        lemma_dec_round_trip(n / 10);
        let a = dec_digits(n / 10);
        let s = dec_digits(n);
        assert(s == a + seq![spec_dec_char(n as int % 10)]);
        assert(s.drop_last() =~= a);
        assert(s.last() == spec_dec_char(n as int % 10));
        assert(dec_val(s) == dec_val(a) * 10 + dec_val_of_char(spec_dec_char(n as int % 10)));
        assert(dec_val_of_char(spec_dec_char(n as int % 10)) == n as int % 10);
        assert(dec_val(s) == (n / 10) * 10 + n % 10);
        assert((n / 10) * 10 + n % 10 == n) by (nonlinear_arith);
        assert forall|i: int| 0 <= i < s.len() implies is_dec_digit(#[trigger] s[i]) by {
            if i < s.len() - 1 {
                assert(s[i] == a[i]);
            } else {
                assert(s[i] == spec_dec_char(n as int % 10));
            }
        }
    }
}

/// No digit character is a space, so rendered numbers never split a token.
pub proof fn lemma_dec_digits_no_space(n: nat)
    ensures
        forall|i: int| 0 <= i < dec_digits(n).len() ==> #[trigger] dec_digits(n)[i] != ' ',
{
    lemma_dec_round_trip(n);
}

fn dec_digit_str(d: u8) -> (s: &'static str)
    requires
        d < 10,
    ensures
        s@ =~= seq![spec_dec_char(d as int)],
{
    let s: &'static str = if d == 0 {
        "0"
    } else if d == 1 {
        "1"
    } else if d == 2 {
        "2"
    } else if d == 3 {
        "3"
    } else if d == 4 {
        "4"
    } else if d == 5 {
        "5"
    } else if d == 6 {
        "6"
    } else if d == 7 {
        "7"
    } else if d == 8 {
        "8"
    } else {
        "9"
    };
    proof {
        reveal_strlit("0");
        reveal_strlit("1");
        reveal_strlit("2");
        reveal_strlit("3");
        reveal_strlit("4");
        reveal_strlit("5");
        reveal_strlit("6");
        reveal_strlit("7");
        reveal_strlit("8");
        reveal_strlit("9");
    }
    s
}

/// Renders `n` in decimal, most significant digit first.
pub fn render_u32(n: u32) -> (s: String)
    ensures
        s@ == dec_digits(n as nat),
    decreases n,
{
    if n < 10 {
        let s = String::from_str(dec_digit_str(n as u8));
        proof {
            assert(s@ =~= dec_digits(n as nat));
        }
        s
    } else {
        let mut s = render_u32(n / 10);
        s.append(dec_digit_str((n % 10) as u8));
        proof {
            assert(s@ =~= dec_digits(n as nat));
        }
        s
    }
}

fn char_dec_val(c: char) -> (r: Option<u8>)
    ensures
        r is Some <==> is_dec_digit(c),
        r is Some ==> r.unwrap() as int == dec_val_of_char(c),
{
    match c {
        '0' => Some(0),
        '1' => Some(1),
        '2' => Some(2),
        '3' => Some(3),
        '4' => Some(4),
        '5' => Some(5),
        '6' => Some(6),
        '7' => Some(7),
        '8' => Some(8),
        '9' => Some(9),
        _ => None,
    }
}

/// Parses a nonempty all-digit token as a `u32`; fails on an empty token,
/// a non-digit character, or a value that does not fit.
pub fn parse_u32(s: &str) -> (r: Option<u32>)
    ensures
        r is Some <==> (s@.len() > 0 && all_dec_digits(s@) && dec_val(s@) <= u32::MAX),
        r is Some ==> r.unwrap() as int == dec_val(s@),
{
    let len = s.unicode_len();
    if len == 0 {
        return None;
    }
    let mut acc: u32 = 0;
    let mut i: usize = 0;
    proof {
        assert(s@.take(0) =~= Seq::<char>::empty());
    }
    while i < len
        invariant
            0 <= i <= s@.len(),
            len == s@.len(),
            all_dec_digits(s@.take(i as int)),
            acc as int == dec_val(s@.take(i as int)),
        decreases s@.len() - i,
    {
        let c = s.get_char(i);
        let d = match char_dec_val(c) {
            Some(d) => d,
            None => {
                return None;
            },
        };
        proof {
            assert(s@.take(i as int + 1).drop_last() =~= s@.take(i as int));
            assert(s@.take(i as int + 1).last() == s@[i as int]);
            assert(all_dec_digits(s@.take(i as int + 1))) by {
                assert(forall|k: int|
                    0 <= k < i as int ==> s@.take(i as int + 1)[k] == s@.take(i as int)[k]);
            }
        }
        if acc > (u32::MAX - d as u32) / 10 {
            proof {
                assert(dec_val(s@.take(i as int + 1)) == acc as int * 10 + d as int);
                assert(acc as int * 10 + d as int > u32::MAX) by (nonlinear_arith)
                    requires
                        acc > (u32::MAX - d as u32) / 10,
                        d < 10,
                ;
                if all_dec_digits(s@) {
                    lemma_dec_val_take_le(s@, i as int + 1);
                }
                assert(s@.take(s@.len() as int) =~= s@);
            }
            return None;
        }
        proof {
            assert(acc as int * 10 + d as int <= u32::MAX) by (nonlinear_arith)
                requires
                    acc <= (u32::MAX - d as u32) / 10,
                    d < 10,
            ;
        }
        acc = acc * 10 + d as u32;
        i = i + 1;
    }
    proof {
        assert(s@.take(s@.len() as int) =~= s@);
    }
    Some(acc)
}

pub open spec fn spec_hex_char(d: int) -> char {
    if d < 10 {
        spec_dec_char(d)
    } else if d == 10 {
        'A'
    } else if d == 11 {
        'B'
    } else if d == 12 {
        'C'
    } else if d == 13 {
        'D'
    } else if d == 14 {
        'E'
    } else {
        'F'
    }
}

/// The value of a hexadecimal digit character, either case, or -1.
pub open spec fn hex_val_of_char(c: char) -> int {
    if dec_val_of_char(c) >= 0 {
        dec_val_of_char(c)
    } else if c == 'a' || c == 'A' {
        10
    } else if c == 'b' || c == 'B' {
        11
    } else if c == 'c' || c == 'C' {
        12
    } else if c == 'd' || c == 'D' {
        13
    } else if c == 'e' || c == 'E' {
        14
    } else if c == 'f' || c == 'F' {
        15
    } else {
        -1
    }
}

pub open spec fn is_hex_digit(c: char) -> bool {
    hex_val_of_char(c) >= 0
}

pub open spec fn all_hex_digits(s: Seq<char>) -> bool {
    forall|i: int| 0 <= i < s.len() ==> is_hex_digit(#[trigger] s[i])
}

pub open spec fn hex_val(s: Seq<char>) -> int
    decreases s.len(),
{
    if s.len() == 0 {
        0
    } else {
        hex_val(s.drop_last()) * 16 + hex_val_of_char(s.last())
    }
}

/// What parsing a hexadecimal field yields.
pub open spec fn parse_hex(s: Seq<char>) -> Option<int> {
    if s.len() > 0 && all_hex_digits(s) {
        Some(hex_val(s))
    } else {
        None
    }
}

/// A room code rendered as exactly four uppercase hexadecimal digits.
pub open spec fn hex_digits4(n: nat) -> Seq<char> {
    seq![
        spec_hex_char(n as int / 4096 % 16),
        spec_hex_char(n as int / 256 % 16),
        spec_hex_char(n as int / 16 % 16),
        spec_hex_char(n as int % 16),
    ]
}

pub proof fn lemma_hex_val_nonneg(s: Seq<char>)
    requires
        all_hex_digits(s),
    ensures
        hex_val(s) >= 0,
    decreases s.len(),
{
    if s.len() > 0 {
        assert(all_hex_digits(s.drop_last())) by {
            assert(forall|i: int| 0 <= i < s.len() - 1 ==> s.drop_last()[i] == s[i]);
        }
        lemma_hex_val_nonneg(s.drop_last());
    }
}

pub proof fn lemma_hex_val_take_le(s: Seq<char>, i: int)
    requires
        all_hex_digits(s),
        0 <= i <= s.len(),
    ensures
        hex_val(s.take(i)) <= hex_val(s),
    decreases s.len() - i,
{
    if i == s.len() {
        assert(s.take(i) =~= s);
    } else {
        assert(s.take(i + 1).drop_last() =~= s.take(i));
        assert(s.take(i + 1).last() == s[i]);
        assert(all_hex_digits(s.take(i))) by {
            assert(forall|k: int| 0 <= k < i ==> s.take(i)[k] == s[k]);
        }
        lemma_hex_val_nonneg(s.take(i));
        assert(hex_val(s.take(i + 1)) == hex_val(s.take(i)) * 16 + hex_val_of_char(s[i]));
        lemma_hex_val_take_le(s, i + 1);
    }
}

/// Hexadecimal round trip: the four-digit rendering of a 16-bit value is a
/// nonempty all-hex string that parses back to exactly that value.
pub proof fn lemma_hex_round_trip(n: u16)
    ensures
        hex_digits4(n as nat).len() == 4,
        all_hex_digits(hex_digits4(n as nat)),
        hex_val(hex_digits4(n as nat)) == n,
        parse_hex(hex_digits4(n as nat)) == Some(n as int),
        forall|i: int| 0 <= i < 4 ==> #[trigger] hex_digits4(n as nat)[i] != ' ',
{
    let m = n as int;
    let s = hex_digits4(n as nat);
    let a = m / 4096 % 16;
    let b = m / 256 % 16;
    let c = m / 16 % 16;
    let d = m % 16;
    assert(0 <= a < 16 && 0 <= b < 16 && 0 <= c < 16 && 0 <= d < 16);
    assert(hex_val_of_char(spec_hex_char(a)) == a);
    assert(hex_val_of_char(spec_hex_char(b)) == b);
    assert(hex_val_of_char(spec_hex_char(c)) == c);
    assert(hex_val_of_char(spec_hex_char(d)) == d);
    let s1 = seq![spec_hex_char(a)];
    let s2 = seq![spec_hex_char(a), spec_hex_char(b)];
    let s3 = seq![spec_hex_char(a), spec_hex_char(b), spec_hex_char(c)];
    assert(s1.drop_last() =~= Seq::<char>::empty());
    assert(hex_val(Seq::<char>::empty()) == 0);
    assert(s1.last() == spec_hex_char(a));
    assert(hex_val(s1) == a);
    assert(s2.drop_last() =~= s1);
    assert(s2.last() == spec_hex_char(b));
    assert(hex_val(s2) == a * 16 + b);
    assert(s3.drop_last() =~= s2);
    assert(s3.last() == spec_hex_char(c));
    assert(hex_val(s3) == (a * 16 + b) * 16 + c);
    assert(s.drop_last() =~= s3);
    assert(s.last() == spec_hex_char(d));
    assert(hex_val(s) == ((a * 16 + b) * 16 + c) * 16 + d);
    assert(((a * 16 + b) * 16 + c) * 16 + d == a * 4096 + b * 256 + c * 16 + d)
        by (nonlinear_arith);
    assert(a * 4096 + b * 256 + c * 16 + d == m) by (nonlinear_arith)
        requires
            0 <= m < 65536,
            a == m / 4096 % 16,
            b == m / 256 % 16,
            c == m / 16 % 16,
            d == m % 16,
    ;
}

fn hex_digit_str(d: u8) -> (s: &'static str)
    requires
        d < 16,
    ensures
        s@ =~= seq![spec_hex_char(d as int)],
{
    if d < 10 {
        dec_digit_str(d)
    } else {
        let s: &'static str = if d == 10 {
            "A"
        } else if d == 11 {
            "B"
        } else if d == 12 {
            "C"
        } else if d == 13 {
            "D"
        } else if d == 14 {
            "E"
        } else {
            "F"
        };
        proof {
            reveal_strlit("A");
            reveal_strlit("B");
            reveal_strlit("C");
            reveal_strlit("D");
            reveal_strlit("E");
            reveal_strlit("F");
        }
        s
    }
}

/// Renders a room code as four uppercase hexadecimal digits.
pub fn render_hex_u16(n: u16) -> (s: String)
    ensures
        s@ == hex_digits4(n as nat),
{
    let mut s = String::from_str(hex_digit_str(((n / 4096) % 16) as u8));
    s.append(hex_digit_str(((n / 256) % 16) as u8));
    s.append(hex_digit_str(((n / 16) % 16) as u8));
    s.append(hex_digit_str((n % 16) as u8));
    proof {
        assert(s@ =~= hex_digits4(n as nat));
    }
    s
}

fn char_hex_val(c: char) -> (r: Option<u8>)
    ensures
        r is Some <==> is_hex_digit(c),
        r is Some ==> r.unwrap() as int == hex_val_of_char(c),
{
    match c {
        '0' => Some(0),
        '1' => Some(1),
        '2' => Some(2),
        '3' => Some(3),
        '4' => Some(4),
        '5' => Some(5),
        '6' => Some(6),
        '7' => Some(7),
        '8' => Some(8),
        '9' => Some(9),
        'a' | 'A' => Some(10),
        'b' | 'B' => Some(11),
        'c' | 'C' => Some(12),
        'd' | 'D' => Some(13),
        'e' | 'E' => Some(14),
        'f' | 'F' => Some(15),
        _ => None,
    }
}

/// Parses a nonempty hexadecimal token (either case) as a `u16`.
pub fn parse_u16_hex(s: &str) -> (r: Option<u16>)
    ensures
        r is Some <==> (s@.len() > 0 && all_hex_digits(s@) && hex_val(s@) <= u16::MAX),
        r is Some ==> r.unwrap() as int == hex_val(s@),
{
    let len = s.unicode_len();
    if len == 0 {
        return None;
    }
    let mut acc: u16 = 0;
    let mut i: usize = 0;
    proof {
        assert(s@.take(0) =~= Seq::<char>::empty());
    }
    while i < len
        invariant
            0 <= i <= s@.len(),
            len == s@.len(),
            all_hex_digits(s@.take(i as int)),
            acc as int == hex_val(s@.take(i as int)),
        decreases s@.len() - i,
    {
        let c = s.get_char(i);
        let d = match char_hex_val(c) {
            Some(d) => d,
            None => {
                return None;
            },
        };
        proof {
            assert(s@.take(i as int + 1).drop_last() =~= s@.take(i as int));
            assert(s@.take(i as int + 1).last() == s@[i as int]);
            assert(all_hex_digits(s@.take(i as int + 1))) by {
                assert(forall|k: int|
                    0 <= k < i as int ==> s@.take(i as int + 1)[k] == s@.take(i as int)[k]);
            }
        }
        if acc > (u16::MAX - d as u16) / 16 {
            proof {
                assert(hex_val(s@.take(i as int + 1)) == acc as int * 16 + d as int);
                assert(acc as int * 16 + d as int > u16::MAX) by (nonlinear_arith)
                    requires
                        acc > (u16::MAX - d as u16) / 16,
                        d < 16,
                ;
                if all_hex_digits(s@) {
                    lemma_hex_val_take_le(s@, i as int + 1);
                }
                assert(s@.take(s@.len() as int) =~= s@);
            }
            return None;
        }
        proof {
            assert(acc as int * 16 + d as int <= u16::MAX) by (nonlinear_arith)
                requires
                    acc <= (u16::MAX - d as u16) / 16,
                    d < 16,
            ;
        }
        acc = acc * 16 + d as u16;
        i = i + 1;
    }
    proof {
        assert(s@.take(s@.len() as int) =~= s@);
    }
    Some(acc)
}

} // verus!
