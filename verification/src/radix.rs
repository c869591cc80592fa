//! Numbers as text: the hexadecimal names that files and chunks have on disk,
//! and decimal numbers in messages.
use vstd::prelude::*;
use vstd::string::*;

verus! {

/// The digit with the value `d`, for `d < 16`; letters are lower case.
pub open spec fn digit_char(d: nat) -> char {
    if d < 10 {
        ('0' as nat + d) as char
    } else {
        ('a' as nat + (d - 10)) as char
    }
}

/// The digits of `n` to the base `base`, the most significant first and
/// without leading zeros; zero is a single `0`.
pub open spec fn digits(n: nat, base: nat) -> Seq<char>
    decreases n,
{
    if n < base || base < 2 {
        seq![digit_char(n)]
    } else {
        proof {
            vstd::arithmetic::div_mod::lemma_div_decreases(n as int, base as int);
        }
        digits(n / base, base).push(digit_char(n % base))
    }
}

/// `n` in lower-case hexadecimal.
pub open spec fn hex(n: nat) -> Seq<char> {
    digits(n, 16)
}

/// `n` in decimal.
pub open spec fn decimal(n: nat) -> Seq<char> {
    digits(n, 10)
}

/// The value of a hexadecimal digit of either case.
pub open spec fn hex_digit_value(c: char) -> Option<nat> {
    if '0' <= c && c <= '9' {
        Some((c as nat - '0' as nat) as nat)
    } else if 'a' <= c && c <= 'f' {
        Some((c as nat - 'a' as nat + 10) as nat)
    } else if 'A' <= c && c <= 'F' {
        Some((c as nat - 'A' as nat + 10) as nat)
    } else {
        None
    }
}

/// The number that a sequence of hexadecimal digits stands for, if they all
/// are digits. An empty sequence stands for zero.
pub open spec fn hex_value(s: Seq<char>) -> Option<nat>
    decreases s.len(),
{
    if s.len() == 0 {
        Some(0)
    } else {
        match (hex_value(s.drop_last()), hex_digit_value(s.last())) {
            (Some(high), Some(low)) => Some(high * 16 + low),
            _ => None,
        }
    }
}

/// The number that `s` names: one or more hexadecimal digits of either case,
/// after an optional plus sign.
pub open spec fn parse_hex(s: Seq<char>) -> Option<nat> {
    let body = if s.len() > 0 && s[0] == '+' {
        s.drop_first()
    } else {
        s
    };
    if body.len() == 0 {
        None
    } else {
        hex_value(body)
    }
}

/// The number that `s` names, if it is no larger than `max`.
pub open spec fn parse_hex_up_to(s: Seq<char>, max: nat) -> Option<nat> {
    match parse_hex(s) {
        Some(n) => if n <= max {
            Some(n)
        } else {
            None
        },
        None => None,
    }
}

fn digit_str(d: u8) -> (s: &'static str)
    requires
        d < 16,
    ensures
        s@ == seq![digit_char(d as nat)],
{
    proof {
        reveal_strlit("0");
        reveal_strlit("1");
        reveal_strlit("2");
        reveal_strlit("3");
        reveal_strlit("4");
        reveal_strlit("5");
        reveal_strlit("6");
        reveal_strlit("7");
        reveal_strlit("8");
        reveal_strlit("9");
        reveal_strlit("a");
        reveal_strlit("b");
        reveal_strlit("c");
        reveal_strlit("d");
        reveal_strlit("e");
        reveal_strlit("f");
    }
    match d {
        0 => "0",
        1 => "1",
        2 => "2",
        3 => "3",
        4 => "4",
        5 => "5",
        6 => "6",
        7 => "7",
        8 => "8",
        9 => "9",
        10 => "a",
        11 => "b",
        12 => "c",
        13 => "d",
        14 => "e",
        _ => "f",
    }
}

/// Writes `n` to the base `base`.
fn render(n: u128, base: u128) -> (s: String)
    requires
        2 <= base <= 16,
    ensures
        s@ == digits(n as nat, base as nat),
    decreases n,
{
    if n < base {
        digit_str(n as u8).to_owned()
    } else {
        assert(n / base < n) by (nonlinear_arith)
            requires
                2 <= base <= n,
        ;
        let mut s = render(n / base, base);
        s.append(digit_str((n % base) as u8));
        s
    }
}

/// `n` in lower-case hexadecimal, as files and chunks are named on disk.
pub fn to_hex(n: u128) -> (s: String)
    ensures
        s@ == hex(n as nat),
{
    render(n, 16)
}

/// `n` in decimal.
pub fn to_decimal(n: u128) -> (s: String)
    ensures
        s@ == decimal(n as nat),
{
    render(n, 10)
}

fn exec_hex_digit(c: char) -> (d: Option<u8>)
    ensures
        match d {
            Some(d) => d < 16 && hex_digit_value(c) == Some(d as nat),
            None => hex_digit_value(c) is None,
        },
{
    if '0' <= c && c <= '9' {
        Some((c as u32 - 48) as u8)
    } else if 'a' <= c && c <= 'f' {
        Some((c as u32 - 87) as u8)
    } else if 'A' <= c && c <= 'F' {
        Some((c as u32 - 55) as u8)
    } else {
        None
    }
}

/// A prefix of a number's digits is itself a number, and no larger.
proof fn lemma_hex_value_prefix(s: Seq<char>, k: int)
    requires
        0 <= k <= s.len(),
        hex_value(s) is Some,
    ensures
        hex_value(s.take(k)) is Some,
        hex_value(s.take(k))->0 <= hex_value(s)->0,
    decreases s.len() - k,
{
    if k == s.len() {
        assert(s.take(k) =~= s);
    } else {
        lemma_hex_value_prefix(s, k + 1);
        assert(s.take(k + 1).drop_last() =~= s.take(k));
    }
}

/// Text with a character that is no digit is no number.
pub(crate) proof fn lemma_hex_value_is_none(s: Seq<char>, i: int)
    requires
        0 <= i < s.len(),
        hex_digit_value(s[i]) is None,
    ensures
        hex_value(s) is None,
{
    if hex_value(s) is Some {
        lemma_hex_value_prefix(s, i + 1);
        assert(s.take(i + 1).last() == s[i]);
    }
}

/// Reads hexadecimal digits up to the value `max`.
fn read_hex(s: &str, max: u128) -> (n: Option<u128>)
    requires
        16 <= max,
    ensures
        match n {
            Some(n) => parse_hex_up_to(s@, max as nat) == Some(n as nat),
            None => parse_hex_up_to(s@, max as nat) is None,
        },
{
    let mut value: u128 = 0;
    let mut signed: bool = false;
    let mut any: bool = false;
    let mut start: bool = true;
    let ghost text = s@;
    let ghost body = if text.len() > 0 && text[0] == '+' {
        text.drop_first()
    } else {
        text
    };
    for c in it: s.chars()
        invariant
            it.seq() == text,
            text == s@,
            16 <= max,
            body == (if text.len() > 0 && text[0] == '+' {
                text.drop_first()
            } else {
                text
            }),
            start == (it.index() == 0),
            signed == (it.index() > 0 && text[0] == '+'),
            any == (it.index() > (if signed {
                1int
            } else {
                0int
            })),
            value <= max,
            hex_value(body.take(it.index() - (if signed {
                1int
            } else {
                0int
            }))) == Some(value as nat),
    {
        let ghost at = it.index() - (if signed {
            1int
        } else {
            0int
        });
        assert(c == text[it.index() as int]);
        if start && c == '+' {
            signed = true;
            assert(body.take(0) =~= Seq::<char>::empty());
        } else {
            proof {
                assert(body[at] == c);
                assert(body.take(at + 1).drop_last() =~= body.take(at));
                if hex_value(body) is Some {
                    lemma_hex_value_prefix(body, at + 1);
                }
            }
            match exec_hex_digit(c) {
                None => {
                    return None;
                },
                Some(d) => {
                    if value > max / 16 || value * 16 > max - d as u128 {
                        return None;
                    }
                    value = value * 16 + d as u128;
                    any = true;
                },
            }
        }
        start = false;
    }
    assert(body.take(body.len() as int) =~= body);
    if any {
        Some(value)
    } else {
        None
    }
}

/// Reads the name of a file's directory: a hexadecimal number.
pub fn parse_file_hash(name: &str) -> (hash: Option<u128>)
    ensures
        match hash {
            Some(n) => parse_hex_up_to(name@, u128::MAX as nat) == Some(n as nat),
            None => parse_hex_up_to(name@, u128::MAX as nat) is None,
        },
{
    read_hex(name, u128::MAX)
}

/// Reads the name of a chunk's file: a hexadecimal number.
pub fn parse_chunk_id(name: &str) -> (id: Option<u64>)
    ensures
        match id {
            Some(n) => parse_hex_up_to(name@, u64::MAX as nat) == Some(n as nat),
            None => parse_hex_up_to(name@, u64::MAX as nat) is None,
        },
{
    match read_hex(name, u64::MAX as u128) {
        Some(n) => Some(n as u64),
        None => None,
    }
}

proof fn lemma_hex_digits_value(n: nat)
    ensures
        hex(n).len() > 0,
        hex(n)[0] != '+',
        hex_value(hex(n)) == Some(n),
    decreases n,
{
    if n < 16 {
        assert(hex(n).drop_last() =~= Seq::<char>::empty());
        assert(hex_value(hex(n).drop_last()) == Some(0nat));
    } else {
        lemma_hex_digits_value(n / 16);
        assert(hex(n).drop_last() =~= hex(n / 16));
    }
}

/// A name written by `to_hex` is read back as the number it was written for.
pub proof fn law_hex_round_trip(n: nat)
    ensures
        parse_hex(hex(n)) == Some(n),
{
    lemma_hex_digits_value(n);
}

/// Different numbers have different hexadecimal names.
pub proof fn law_hex_names_are_distinct(m: nat, n: nat)
    ensures
        hex(m) == hex(n) ==> m == n,
{
    law_hex_round_trip(m);
    law_hex_round_trip(n);
}

/// The number that a decimal text stands for.
pub open spec fn decimal_value(s: Seq<char>) -> nat
    decreases s.len(),
{
    if s.len() == 0 {
        0
    } else {
        decimal_value(s.drop_last()) * 10 + (s.last() as nat - '0' as nat) as nat
    }
}

/// The decimal text of a number has one or more decimal digits, no more than it
/// needs, and stands for the number; so different numbers have different texts.
pub proof fn law_decimal_round_trip(n: nat)
    ensures
        decimal(n).len() > 0,
        forall|i: int| 0 <= i < decimal(n).len() ==> '0' <= #[trigger] decimal(n)[i] <= '9',
        decimal(n)[0] == '0' ==> n == 0 && decimal(n).len() == 1,
        decimal_value(decimal(n)) == n,
        !decimal(n).contains(','),
    decreases n,
{
    if n < 10 {
        assert(decimal(n).drop_last() =~= Seq::<char>::empty());
        assert(decimal_value(decimal(n).drop_last()) == 0);
    } else {
        law_decimal_round_trip(n / 10);
        assert(decimal(n).drop_last() =~= decimal(n / 10));
    }
    assert forall|i: int| 0 <= i < decimal(n).len() implies '0' <= #[trigger] decimal(n)[i]
        <= '9' by {
        if n >= 10 && i < decimal(n).len() - 1 {
            assert(decimal(n / 10)[i] == decimal(n)[i]);
        }
    }
}

/// How a name is read as a number does not depend on leading zeros, nor on a
/// plus sign before it, nor on the case of its digits; each further digit takes
/// the number sixteen times and adds its value.
pub proof fn law_names_are_read_digit_by_digit(s: Seq<char>, c: char)
    requires
        s.len() > 0,
        s[0] != '+',
    ensures
        parse_hex(seq!['0'] + s) == parse_hex(s),
        parse_hex(seq!['+'] + s) == parse_hex(s),
        match (parse_hex(s), hex_digit_value(c)) {
            (Some(high), Some(low)) => parse_hex(s.push(c)) == Some(16 * high + low),
            _ => parse_hex(s.push(c)) is None,
        },
        hex_digit_value(c) matches Some(d) ==> d < 16,
        forall|max: nat| #[trigger]
            parse_hex_up_to(s, max) is Some <==> (parse_hex(s) is Some && parse_hex(s)->0 <= max),
        forall|max: nat| #[trigger]
            parse_hex_up_to(s, max) is Some ==> parse_hex_up_to(s, max) == parse_hex(s),
        '0' <= c <= '9' ==> hex_digit_value(c) == Some((c as nat - '0' as nat) as nat),
        'a' <= c <= 'f' ==> hex_digit_value(c) == Some((c as nat - 'a' as nat + 10) as nat),
        'A' <= c <= 'F' ==> hex_digit_value(c) == Some((c as nat - 'A' as nat + 10) as nat),
        !('0' <= c <= '9') && !('a' <= c <= 'f') && !('A' <= c <= 'F') ==> hex_digit_value(
            c,
        ) is None,
{
    lemma_leading_zero(s);
    assert((seq!['+'] + s).drop_first() =~= s);
    assert(s.push(c).drop_last() =~= s);
}

proof fn lemma_leading_zero(s: Seq<char>)
    ensures
        hex_value(seq!['0'] + s) == hex_value(s),
    decreases s.len(),
{
    let more = seq!['0'] + s;
    if s.len() == 0 {
        assert(more.drop_last() =~= s);
        assert(hex_value(more.drop_last()) == Some(0nat));
    } else {
        lemma_leading_zero(s.drop_last());
        assert(more.drop_last() =~= seq!['0'] + s.drop_last());
        assert(more.last() == s.last());
    }
}

/// A hexadecimal name has lower-case digits, and no more of them than it needs.
pub proof fn law_hex_names_are_plain(n: nat)
    ensures
        hex(n).len() > 0,
        forall|i: int|
            0 <= i < hex(n).len() ==> '0' <= #[trigger] hex(n)[i] <= '9' || 'a' <= hex(n)[i]
                <= 'f',
        hex(n)[0] == '0' ==> n == 0 && hex(n).len() == 1,
    decreases n,
{
    if n >= 16 {
        law_hex_names_are_plain(n / 16);
        assert(hex(n).drop_last() =~= hex(n / 16));
    }
    assert forall|i: int| 0 <= i < hex(n).len() implies '0' <= #[trigger] hex(n)[i] <= '9' || 'a'
        <= hex(n)[i] <= 'f' by {
        if n >= 16 && i < hex(n).len() - 1 {
            assert(hex(n / 16)[i] == hex(n)[i]);
        }
    }
}

} // verus!
