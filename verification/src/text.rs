//! Building and reading text: decimal and hexadecimal numbers, and the characters of a string.
use vstd::prelude::*;
use vstd::string::*;

verus! {

/// `String::push` appends one character.
pub assume_specification[ String::push ](s: &mut String, c: char)
    ensures
        final(s)@ == old(s)@.push(c),
;

/// The decimal digit `d`.
pub open spec fn digit(d: nat) -> char {
    (48 + d) as char
}

/// `n` in decimal, without leading zeros.
pub open spec fn decimal(n: nat) -> Seq<char>
    decreases n,
{
    if n < 10 {
        seq![digit(n)]
    } else {
        decimal(n / 10).push(digit(n % 10))
    }
}

/// `n` zeros.
pub open spec fn zeros(n: nat) -> Seq<char> {
    Seq::new(n, |i: int| '0')
}

/// `s` with zeros in front, to at least `width` characters.
pub open spec fn zero_padded(s: Seq<char>, width: nat) -> Seq<char> {
    if s.len() >= width {
        s
    } else {
        zeros((width - s.len()) as nat) + s
    }
}

/// `n` in decimal with its sign, and zeros between the sign and the digits to at least `width`
/// characters in all.
pub open spec fn signed_padded(n: int, width: nat) -> Seq<char> {
    if n < 0 {
        seq!['-'] + zero_padded(decimal((-n) as nat), if width == 0 { 0 } else { (width - 1) as nat })
    } else {
        zero_padded(decimal(n as nat), width)
    }
}

fn digit_char(d: u8) -> (c: char)
    requires
        d < 10,
    ensures
        c == digit(d as nat),
{
    (48 + d) as char
}

/// Appends `n` in decimal.
pub fn push_decimal(s: &mut String, n: u64)
    ensures
        final(s)@ == old(s)@ + decimal(n as nat),
    decreases n,
{
    if n >= 10 {
        push_decimal(s, n / 10);
    }
    s.push(digit_char((n % 10) as u8));
    assert(s@ == old(s)@ + decimal(n as nat));
}

fn push_zeros(s: &mut String, n: usize)
    ensures
        final(s)@ == old(s)@ + zeros(n as nat),
{
    let mut i: usize = 0;
    assert(s@ == old(s)@ + zeros(0));
    while i < n
        invariant
            i <= n,
            s@ == old(s)@ + zeros(i as nat),
        decreases n - i,
    {
        s.push('0');
        i = i + 1;
        assert(s@ == old(s)@ + zeros(i as nat));
    }
}

/// Appends `n` in decimal, padded with zeros to at least `width` characters.
pub fn push_padded(s: &mut String, n: u64, width: usize)
    ensures
        final(s)@ == old(s)@ + zero_padded(decimal(n as nat), width as nat),
    decreases n,
{
    let rest: usize = if width == 0 {
        0
    } else {
        width - 1
    };
    if n >= 10 {
        push_padded(s, n / 10, rest);
    } else {
        push_zeros(s, rest);
    }
    s.push(digit_char((n % 10) as u8));
    assert(s@ == old(s)@ + zero_padded(decimal(n as nat), width as nat));
}

/// `n` in hexadecimal, in lower case and without leading zeros.
pub open spec fn hexadecimal(n: nat) -> Seq<char>
    decreases n,
{
    if n < 16 {
        seq![hex_digit(n as int)]
    } else {
        hexadecimal(n / 16).push(hex_digit((n % 16) as int))
    }
}

/// A hexadecimal digit, in lower case.
pub open spec fn hex_digit(d: int) -> char {
    if d < 10 {
        (48 + d) as char
    } else {
        (87 + d) as char
    }
}

/// The hexadecimal digit of a number.
pub fn hex_char(d: u8) -> (c: char)
    requires
        d < 16,
    ensures
        c == hex_digit(d as int),
{
    if d < 10 {
        (48 + d) as char
    } else {
        (87 + d) as char
    }
}

/// Appends `n` in hexadecimal, padded with zeros to at least `width` characters.
pub fn push_hex(s: &mut String, n: u64, width: usize)
    ensures
        final(s)@ == old(s)@ + zero_padded(hexadecimal(n as nat), width as nat),
    decreases n,
{
    let rest: usize = if width == 0 {
        0
    } else {
        width - 1
    };
    if n >= 16 {
        push_hex(s, n / 16, rest);
    } else {
        push_zeros(s, rest);
    }
    s.push(hex_char((n % 16) as u8));
    assert(s@ == old(s)@ + zero_padded(hexadecimal(n as nat), width as nat));
}

/// Appends `n` in decimal with its sign, padded with zeros to at least `width` characters.
pub fn push_signed_padded(s: &mut String, n: i64, width: usize)
    ensures
        final(s)@ == old(s)@ + signed_padded(n as int, width as nat),
{
    if n < 0 {
        s.push('-');
        let size: u64 = if n == i64::MIN {
            0x8000_0000_0000_0000
        } else {
            (-n) as u64
        };
        let rest: usize = if width == 0 {
            0
        } else {
            width - 1
        };
        push_padded(s, size, rest);
        assert(s@ == old(s)@ + signed_padded(n as int, width as nat));
    } else {
        push_padded(s, n as u64, width);
    }
}

/// The characters of a string.
pub fn chars_of(s: &str) -> (v: Vec<char>)
    ensures
        v@ == s@,
{
    let mut v: Vec<char> = Vec::new();
    for c in it: s.chars()
        invariant
            v@ == s@.take(it.index()),
            it.seq() == s@,
    {
        v.push(c);
        assert(s@.take(it.index() + 1) == s@.take(it.index()).push(c));
    }
    assert(s@.take(s@.len() as int) == s@);
    v
}

/// The string of the characters from `from` up to `to`.
pub fn string_of_range(v: &Vec<char>, from: usize, to: usize) -> (s: String)
    requires
        from <= to <= v@.len(),
    ensures
        s@ == v@.subrange(from as int, to as int),
{
    let mut s: String = String::new();
    let mut i: usize = from;
    while i < to
        invariant
            from <= i <= to <= v@.len(),
            s@ == v@.subrange(from as int, i as int),
        decreases to - i,
    {
        s.push(v[i]);
        i = i + 1;
        assert(s@ == v@.subrange(from as int, i as int));
    }
    s
}

/// The value of a digit, letters counting on from ten.
pub open spec fn digit_of(c: char) -> Option<nat> {
    if '0' <= c <= '9' {
        Some((c as u32 - '0' as u32) as nat)
    } else if 'a' <= c <= 'z' {
        Some((c as u32 - 'a' as u32 + 10) as nat)
    } else if 'A' <= c <= 'Z' {
        Some((c as u32 - 'A' as u32 + 10) as nat)
    } else {
        None
    }
}

/// The number that some digits write, if digits of this radix is what they are.
pub open spec fn digits_value(s: Seq<char>, radix: nat) -> Option<nat>
    decreases s.len(),
{
    if s.len() == 0 {
        Some(0)
    } else {
        match (digits_value(s.drop_last(), radix), digit_of(s.last())) {
            (Some(n), Some(d)) => if d < radix {
                Some(n * radix + d)
            } else {
                None
            },
            _ => None,
        }
    }
}

/// The number that a text writes: at least one digit, perhaps behind a plus sign.
pub open spec fn number_of(s: Seq<char>, radix: nat) -> Option<nat> {
    let digits = if s.len() > 0 && s[0] == '+' {
        s.drop_first()
    } else {
        s
    };
    if digits.len() == 0 {
        None
    } else {
        digits_value(digits, radix)
    }
}

/// The number that a text writes, if it is no greater than a limit.
pub open spec fn number_within(s: Seq<char>, radix: nat, limit: nat) -> Option<nat> {
    match number_of(s, radix) {
        Some(n) => if n <= limit {
            Some(n)
        } else {
            None
        },
        None => None,
    }
}

fn read_digit(c: char) -> (d: Option<u32>)
    ensures
        match d {
            Some(v) => digit_of(c) == Some(v as nat),
            None => digit_of(c) is None,
        },
        d matches Some(v) ==> v < 36,
{
    let x: u32 = c as u32;
    if x >= 0x30 && x <= 0x39 {
        Some(x - 0x30)
    } else if x >= 0x61 && x <= 0x7a {
        Some(x - 0x61 + 10)
    } else if x >= 0x41 && x <= 0x5a {
        Some(x - 0x41 + 10)
    } else {
        None
    }
}

proof fn digits_grow(s: Seq<char>, radix: nat, i: int)
    requires
        0 <= i <= s.len(),
        radix >= 1,
    ensures
        digits_value(s, radix) matches Some(n) ==> (digits_value(s.take(i), radix) matches Some(m)
            && m <= n),
    decreases s.len() - i,
{
    if i < s.len() {
        digits_grow(s, radix, i + 1);
        let next = s.take(i + 1);
        assert(next.drop_last() =~= s.take(i));
        if digits_value(s, radix) is Some {
            let m = digits_value(s.take(i), radix).unwrap();
            assert(m <= m * radix) by (nonlinear_arith)
                requires
                    radix >= 1,
            ;
        }
    } else {
        assert(s.take(i) =~= s);
    }
}

/// Reads a number.
pub fn parse_number(text: &str, radix: u32, limit: u128) -> (r: Option<u128>)
    requires
        2 <= radix <= 36,
    ensures
        match r {
            Some(v) => number_within(text@, radix as nat, limit as nat) == Some(v as nat),
            None => number_within(text@, radix as nat, limit as nat) is None,
        },
{
    let chars: Vec<char> = chars_of(text);
    let n: usize = chars.len();
    let first: usize = if n > 0 && chars[0] == '+' {
        1
    } else {
        0
    };
    let ghost digits = chars@.skip(first as int);
    proof {
        assert(digits =~= if text@.len() > 0 && text@[0] == '+' {
            text@.drop_first()
        } else {
            text@
        });
    }
    if first == n {
        return None;
    }
    let mut value: u128 = 0;
    let mut i: usize = first;
    assert(digits.take(0) =~= Seq::empty());
    while i < n
        invariant
            2 <= radix <= 36,
            first <= i <= n,
            n == chars@.len(),
            digits == chars@.skip(first as int),
            number_of(text@, radix as nat) == digits_value(digits, radix as nat),
            digits_value(digits.take(i - first), radix as nat) == Some(value as nat),
            value <= limit,
        decreases n - i,
    {
        let ghost k = i - first;
        let ghost next = digits.take(k + 1);
        proof {
            assert(next.drop_last() =~= digits.take(k));
            assert(next.last() == chars@[i as int]);
            digits_grow(digits, radix as nat, k + 1);
        }
        let d: u32 = match read_digit(chars[i]) {
            Some(d) => d,
            None => {
                return None;
            },
        };
        if d >= radix {
            return None;
        }
        let grown: u128 = match value.checked_mul(radix as u128) {
            Some(g) => g,
            None => {
                return None;
            },
        };
        let sum: u128 = match grown.checked_add(d as u128) {
            Some(t) => t,
            None => {
                return None;
            },
        };
        if sum > limit {
            return None;
        }
        value = sum;
        i = i + 1;
    }
    assert(digits.take(n - first) =~= digits);
    Some(value)
}

proof fn digits_are_read(n: nat, radix: nat, s: Seq<char>)
    requires
        radix == 10 || radix == 16,
        s == if radix == 10 {
            decimal(n)
        } else {
            hexadecimal(n)
        },
    ensures
        digits_value(s, radix) == Some(n),
        s.len() > 0,
        s[0] != '+' && s[0] != '-',
        n > 0 ==> s[0] != '0',
    decreases n,
{
    let d = (n % radix) as int;
    assert(digit_of(digit(0)) == Some(0nat) && digit_of(digit(9)) == Some(9nat));
    if n < radix {
        assert(s.drop_last() =~= Seq::<char>::empty());
        assert(digits_value(s.drop_last(), radix) == Some(0nat));
        assert(s.last() == hex_digit(n as int));
        assert(digit_of(hex_digit(n as int)) == Some(n));
        assert(0 * radix == 0) by (nonlinear_arith);
    } else {
        let rest = if radix == 10 {
            decimal(n / 10)
        } else {
            hexadecimal(n / 16)
        };
        assert(n / radix < n && n / radix > 0) by (nonlinear_arith)
            requires
                n >= radix,
                radix >= 2,
        ;
        digits_are_read(n / radix, radix, rest);
        assert(s.drop_last() =~= rest);
        assert(s.last() == hex_digit(d));
        assert(digit_of(hex_digit(d)) == Some(d as nat));
        vstd::arithmetic::div_mod::lemma_fundamental_div_mod(n as int, radix as int);
        assert((n / radix) * radix == radix * (n / radix)) by (nonlinear_arith);
    }
}

proof fn zeros_count_for_nothing(k: nat, s: Seq<char>, radix: nat)
    requires
        radix >= 2,
    ensures
        digits_value(zeros(k) + s, radix) == digits_value(s, radix),
    decreases s.len(), k,
{
    let all = zeros(k) + s;
    if s.len() > 0 {
        assert(all.drop_last() =~= zeros(k) + s.drop_last());
        assert(all.last() == s.last());
        zeros_count_for_nothing(k, s.drop_last(), radix);
    } else if k > 0 {
        assert(all.drop_last() =~= zeros((k - 1) as nat) + s);
        assert(all.last() == '0');
        zeros_count_for_nothing((k - 1) as nat, s, radix);
        assert(digit_of('0') == Some(0nat));
        assert(0 * radix == 0) by (nonlinear_arith);
    } else {
        assert(all =~= s);
    }
}

/// A number that is written reads back: in decimal or in hexadecimal, with zeros in front to any
/// width or without. Without them it does not begin with a zero, and with them it is as wide as was
/// asked for.
pub proof fn a_written_number_reads_back(n: nat, width: nat)
    ensures
        number_of(decimal(n), 10) == Some(n),
        number_of(hexadecimal(n), 16) == Some(n),
        number_of(zero_padded(decimal(n), width), 10) == Some(n),
        number_of(zero_padded(hexadecimal(n), width), 16) == Some(n),
        n > 0 ==> decimal(n)[0] != '0' && hexadecimal(n)[0] != '0',
        zero_padded(decimal(n), width).len() >= width,
        zero_padded(hexadecimal(n), width).len() >= width,
        decimal(n).len() >= width ==> zero_padded(decimal(n), width) == decimal(n),
{
    digits_are_read(n, 10, decimal(n));
    digits_are_read(n, 16, hexadecimal(n));
    if decimal(n).len() < width {
        zeros_count_for_nothing((width - decimal(n).len()) as nat, decimal(n), 10);
    }
    if hexadecimal(n).len() < width {
        zeros_count_for_nothing((width - hexadecimal(n).len()) as nat, hexadecimal(n), 16);
    }
}

/// A number with a sign is its digits, behind a dash where it is negative.
pub proof fn a_sign_is_a_dash(n: int, width: nat)
    ensures
        n >= 0 ==> number_of(signed_padded(n, width), 10) == Some(n as nat),
        n < 0 ==> signed_padded(n, width)[0] == '-' && number_of(
            signed_padded(n, width).drop_first(),
            10,
        ) == Some((-n) as nat),
        signed_padded(n, width).len() >= width,
{
    if n >= 0 {
        a_written_number_reads_back(n as nat, width);
    } else {
        let w = if width == 0 {
            0
        } else {
            (width - 1) as nat
        };
        a_written_number_reads_back((-n) as nat, w);
        assert(signed_padded(n, width).drop_first() =~= zero_padded(decimal((-n) as nat), w));
    }
}

} // verus!
