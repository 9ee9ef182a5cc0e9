//! Integers as text, in both directions.

use vstd::prelude::*;

verus! {

/// The digit that stands for `d`, in lower case.
pub open spec fn digit_char(d: nat) -> char {
    if d < 10 {
        (0x30 + d) as char
    } else {
        (0x61 + d - 10) as char
    }
}

/// What the digit `c` stands for in the given radix, in either case.
pub open spec fn digit_value(c: char, radix: nat) -> Option<nat> {
    let n = c as u32 as nat;
    let d = if 0x30 <= n <= 0x39 {
        (n - 0x30) as nat
    } else if 0x61 <= n <= 0x7a {
        (n - 0x61 + 10) as nat
    } else if 0x41 <= n <= 0x5a {
        (n - 0x41 + 10) as nat
    } else {
        radix
    };
    if d < radix {
        Some(d)
    } else {
        None
    }
}

/// `n` written in the given radix, without leading zeros.
pub open spec fn digits(n: nat, radix: nat) -> Seq<char>
    decreases n,
{
    if radix < 2 || n < radix {
        seq![digit_char(n)]
    } else {
        proof {
            assert(n / radix < n) by (nonlinear_arith)
                requires
                    n >= radix,
                    radix >= 2,
            ;
        }
        digits(n / radix, radix).push(digit_char(n % radix))
    }
}

/// `n` in decimal.
pub open spec fn dec(n: nat) -> Seq<char> {
    digits(n, 10)
}

/// `n` in decimal, behind a minus sign where it is negative.
pub open spec fn signed(n: int) -> Seq<char> {
    if n < 0 {
        seq!['-'] + dec((-n) as nat)
    } else {
        dec(n as nat)
    }
}

/// `n` zeros.
pub open spec fn zeros(n: nat) -> Seq<char> {
    Seq::new(n, |i: int| '0')
}

/// `n` in decimal with zeros behind its sign, so that it takes at least `width` characters.
pub open spec fn zero_padded(n: int, width: nat) -> Seq<char> {
    let sign = if n < 0 {
        seq!['-']
    } else {
        Seq::<char>::empty()
    };
    let body = dec(
        if n < 0 {
            (-n) as nat
        } else {
            n as nat
        },
    );
    let used = sign.len() + body.len();
    sign + zeros(
        if used < width {
            (width - used) as nat
        } else {
            0
        },
    ) + body
}

/// The number that a run of digits stands for; an empty run stands for zero.
pub open spec fn run_value(s: Seq<char>, radix: nat) -> Option<nat>
    decreases s.len(),
{
    if s.len() == 0 {
        Some(0)
    } else {
        match (run_value(s.drop_last(), radix), digit_value(s.last(), radix)) {
            (Some(v), Some(d)) => Some(v * radix + d),
            _ => None,
        }
    }
}

/// The number that `s` stands for, where it holds at least one digit and nothing else.
pub open spec fn number(s: Seq<char>, radix: nat) -> Option<nat> {
    if s.len() == 0 {
        None
    } else {
        run_value(s, radix)
    }
}

/// `s` without one plus sign at its start.
pub open spec fn strip_plus(s: Seq<char>) -> Seq<char> {
    if s.len() > 0 && s[0] == '+' {
        s.drop_first()
    } else {
        s
    }
}

/// The number up to `max` that `s` stands for: digits, behind an optional plus sign.
pub open spec fn parse_unsigned(s: Seq<char>, radix: nat, max: nat) -> Option<nat> {
    match number(strip_plus(s), radix) {
        Some(v) => if v <= max {
            Some(v)
        } else {
            None
        },
        None => None,
    }
}

/// The 32-bit integer that `s` stands for: decimal digits, behind an optional sign.
pub open spec fn parse_signed(s: Seq<char>) -> Option<int> {
    if s.len() > 0 && s[0] == '-' {
        match number(s.drop_first(), 10) {
            Some(v) => if v <= 0x8000_0000 {
                Some(-v)
            } else {
                None
            },
            None => None,
        }
    } else {
        match parse_unsigned(s, 10, 0x7fff_ffff) {
            Some(v) => Some(v as int),
            None => None,
        }
    }
}

/// A digit stands for the number it was written for.
pub proof fn lemma_digit_back(d: nat, radix: nat)
    requires
        d < radix <= 16,
    ensures
        digit_value(digit_char(d), radix) == Some(d),
{
}

/// A digit is no sign, no space and no control character.
pub proof fn lemma_digit_plain(d: nat)
    requires
        d < 16,
    ensures
        ({
            let n = digit_char(d) as u32;
            (0x30 <= n <= 0x39) || (0x61 <= n <= 0x66)
        }),
        d < 10 ==> 0x30 <= digit_char(d) as u32 <= 0x39,
{
}

/// Numerals hold digits only, and at least one.
pub proof fn lemma_digits_plain(n: nat, radix: nat)
    requires
        2 <= radix <= 16,
    ensures
        digits(n, radix).len() > 0,
        forall|i: int|
            0 <= i < digits(n, radix).len() ==> {
                let c = #[trigger] digits(n, radix)[i] as u32;
                (0x30 <= c <= 0x39) || (radix > 10 && 0x61 <= c <= 0x66)
            },
    decreases n,
{
    if n < radix {
        lemma_digit_plain(n);
    } else {
        assert(n / radix < n) by (nonlinear_arith)
            requires
                n >= radix,
                radix >= 2,
        ;
        lemma_digits_plain(n / radix, radix);
        assert(n % radix < radix) by (nonlinear_arith)
            requires
                radix >= 2,
        ;
        lemma_digit_plain(n % radix);
        let front = digits(n / radix, radix);
        assert forall|i: int| 0 <= i < digits(n, radix).len() implies {
            let c = #[trigger] digits(n, radix)[i] as u32;
            (0x30 <= c <= 0x39) || (radix > 10 && 0x61 <= c <= 0x66)
        } by {
            if i < front.len() {
                assert(digits(n, radix)[i] == front[i]);
            }
        }
    }
}

/// A numeral stands for the number it was written for.
pub proof fn lemma_digits_back(n: nat, radix: nat)
    requires
        2 <= radix <= 16,
    ensures
        run_value(digits(n, radix), radix) == Some(n),
        digits(n, radix).len() > 0,
    decreases n,
{
    let s = digits(n, radix);
    if n < radix {
        lemma_digit_back(n, radix);
        assert(s.drop_last() =~= Seq::<char>::empty());
        reveal_with_fuel(run_value, 2);
        assert(0 * radix == 0) by (nonlinear_arith);
    } else {
        assert(n / radix < n && n % radix < radix) by (nonlinear_arith)
            requires
                n >= radix,
                radix >= 2,
        ;
        lemma_digits_back(n / radix, radix);
        lemma_digit_back(n % radix, radix);
        assert(s.drop_last() =~= digits(n / radix, radix));
        assert((n / radix) * radix + n % radix == n) by (nonlinear_arith)
            requires
                radix >= 2,
        ;
    }
}

/// Reading back a number up to `max` that was written in the same radix gives that number.
pub proof fn law_written_numbers_read_back(n: nat, radix: nat, max: nat)
    requires
        2 <= radix <= 16,
        n <= max,
    ensures
        parse_unsigned(digits(n, radix), radix, max) == Some(n),
{
    lemma_digits_back(n, radix);
    lemma_digits_plain(n, radix);
    let first = digits(n, radix)[0];
    assert(first as u32 != '+' as u32);
}

/// Reading back a 32-bit integer that was written in decimal gives that integer.
pub proof fn law_written_integers_read_back(n: i32)
    ensures
        parse_signed(signed(n as int)) == Some(n as int),
{
    if n < 0 {
        let m = (-n) as nat;
        lemma_digits_back(m, 10);
        assert(signed(n as int).drop_first() =~= dec(m));
    } else {
        law_written_numbers_read_back(n as nat, 10, 0x7fff_ffff);
        lemma_digits_plain(n as nat, 10);
        assert(dec(n as nat)[0] as u32 != '-' as u32);
    }
}

/// More digits never make the number smaller.
proof fn lemma_run_grows(s: Seq<char>, i: int, radix: nat)
    requires
        0 <= i <= s.len(),
        radix >= 1,
        run_value(s, radix) is Some,
    ensures
        run_value(s.take(i), radix) is Some,
        run_value(s.take(i), radix)->0 <= run_value(s, radix)->0,
    decreases s.len(),
{
    if i == s.len() {
        assert(s.take(i) =~= s);
    } else {
        lemma_run_grows(s.drop_last(), i, radix);
        assert(s.drop_last().take(i) =~= s.take(i));
        let v = run_value(s.drop_last(), radix)->0;
        assert(v <= v * radix) by (nonlinear_arith)
            requires
                radix >= 1,
        ;
    }
}

/// The digit that stands for `d`.
fn to_digit(d: u64) -> (r: char)
    requires
        d < 16,
    ensures
        r == digit_char(d as nat),
{
    if d < 10 {
        (0x30u8 + d as u8) as char
    } else {
        (0x61u8 + (d as u8 - 10)) as char
    }
}

/// Appends `n` in the given radix.
pub fn push_digits(out: &mut String, n: u64, radix: u64)
    requires
        2 <= radix <= 16,
    ensures
        final(out)@ == old(out)@ + digits(n as nat, radix as nat),
    decreases n,
{
    if n >= radix {
        assert(n / radix < n && n % radix < radix) by (nonlinear_arith)
            requires
                n >= radix,
                radix >= 2,
        ;
        push_digits(out, n / radix, radix);
        out.push(to_digit(n % radix));
    } else {
        out.push(to_digit(n));
    }
    assert(out@ =~= old(out)@ + digits(n as nat, radix as nat));
}

/// Appends `n` in decimal.
pub fn push_dec(out: &mut String, n: u64)
    ensures
        final(out)@ == old(out)@ + dec(n as nat),
{
    push_digits(out, n, 10);
}

/// `n` in decimal.
pub fn to_dec(n: u64) -> (r: String)
    ensures
        r@ == dec(n as nat),
{
    let mut r = String::new();
    push_dec(&mut r, n);
    assert(r@ =~= dec(n as nat));
    r
}

/// `n` as an unsigned number, without its sign.
fn magnitude(n: i32) -> (r: u64)
    ensures
        r == (if n < 0 {
            -n
        } else {
            n as int
        }),
{
    if n < 0 {
        (-(n as i64)) as u64
    } else {
        n as u64
    }
}

/// Appends `n` in decimal, behind a minus sign where it is negative.
pub fn push_signed(out: &mut String, n: i32)
    ensures
        final(out)@ == old(out)@ + signed(n as int),
{
    if n < 0 {
        out.push('-');
    }
    push_dec(out, magnitude(n));
    assert(out@ =~= old(out)@ + signed(n as int));
}

/// `n` in decimal, behind a minus sign where it is negative.
pub fn to_signed(n: i32) -> (r: String)
    ensures
        r@ == signed(n as int),
{
    let mut r = String::new();
    push_signed(&mut r, n);
    assert(r@ =~= signed(n as int));
    r
}

/// Appends `n` with zeros behind its sign, so that it takes at least `width` characters.
pub fn push_zero_padded(out: &mut String, n: i32, width: usize)
    ensures
        final(out)@ == old(out)@ + zero_padded(n as int, width as nat),
{
    let ghost start = out@;
    let body = crate::text::chars_of(to_dec(magnitude(n)).as_str());
    let mut left: usize = width;
    if n < 0 {
        out.push('-');
        if left > 0 {
            left = left - 1;
        }
    }
    let ghost sign = if n < 0 {
        seq!['-']
    } else {
        Seq::<char>::empty()
    };
    assert(out@ =~= start + sign);
    let count: usize = if left > body.len() {
        left - body.len()
    } else {
        0
    };
    for i in 0..count
        invariant
            out@ == start + sign + zeros(i as nat),
    {
        out.push('0');
        assert(out@ =~= start + sign + zeros((i + 1) as nat));
    }
    crate::text::push_chars(out, body.as_slice());
    assert(out@ =~= start + zero_padded(n as int, width as nat));
}

/// What the digit `c` stands for.
fn from_digit(c: char, radix: u64) -> (r: Option<u64>)
    ensures
        match r {
            Some(d) => digit_value(c, radix as nat) == Some(d as nat) && d < radix,
            None => digit_value(c, radix as nat) is None,
        },
{
    let n: u64 = c as u32 as u64;
    let d: u64 = if 0x30 <= n && n <= 0x39 {
        n - 0x30
    } else if 0x61 <= n && n <= 0x7a {
        n - 0x61 + 10
    } else if 0x41 <= n && n <= 0x5a {
        n - 0x41 + 10
    } else {
        radix
    };
    if d < radix {
        Some(d)
    } else {
        None
    }
}

/// The number up to `max` that the digits from `from` on stand for.
fn read_number(s: &[char], from: usize, radix: u64, max: u64) -> (r: Option<u64>)
    requires
        from <= s@.len(),
        2 <= radix <= 16,
    ensures
        match r {
            Some(v) => v <= max && number(s@.skip(from as int), radix as nat) == Some(v as nat),
            None => match number(s@.skip(from as int), radix as nat) {
                Some(v) => v > max,
                None => true,
            },
        },
{
    let ghost t = s@.skip(from as int);
    if from == s.len() {
        return None;
    }
    let mut acc: u64 = 0;
    for i in from..s.len()
        invariant
            from <= i <= s@.len(),
            t == s@.skip(from as int),
            2 <= radix <= 16,
            acc <= max,
            run_value(t.take(i - from), radix as nat) == Some(acc as nat),
    {
        assert(t.take(i + 1 - from).drop_last() =~= t.take(i - from));
        assert(t.take(i + 1 - from).last() == s@[i as int]);
        match from_digit(s[i], radix) {
            None => {
                proof {
                    if run_value(t, radix as nat) is Some {
                        lemma_run_grows(t, i + 1 - from, radix as nat);
                    }
                }
                return None;
            },
            Some(d) => {
                assert(acc * radix <= 0xffff_ffff_ffff_ffff * 16) by (nonlinear_arith)
                    requires
                        acc <= 0xffff_ffff_ffff_ffff,
                        radix <= 16,
                ;
                let next: u128 = acc as u128 * radix as u128 + d as u128;
                if next > max as u128 {
                    proof {
                        if run_value(t, radix as nat) is Some {
                            lemma_run_grows(t, i + 1 - from, radix as nat);
                        }
                    }
                    return None;
                }
                acc = next as u64;
            },
        }
    }
    assert(t.take(s@.len() - from) =~= t);
    Some(acc)
}

/// The number up to `max` that `s` stands for.
pub fn read_unsigned(s: &[char], radix: u64, max: u64) -> (r: Option<u64>)
    requires
        2 <= radix <= 16,
    ensures
        match r {
            Some(v) => v <= max && parse_unsigned(s@, radix as nat, max as nat) == Some(v as nat),
            None => parse_unsigned(s@, radix as nat, max as nat) is None,
        },
{
    if s.len() > 0 && s[0] == '+' {
        assert(s@.skip(1) =~= s@.drop_first());
        read_number(s, 1, radix, max)
    } else {
        assert(s@.skip(0) =~= s@);
        read_number(s, 0, radix, max)
    }
}

/// The 32-bit integer that `s` stands for.
pub fn read_signed(s: &[char]) -> (r: Option<i32>)
    ensures
        match r {
            Some(v) => parse_signed(s@) == Some(v as int),
            None => parse_signed(s@) is None,
        },
{
    if s.len() > 0 && s[0] == '-' {
        assert(s@.skip(1) =~= s@.drop_first());
        match read_number(s, 1, 10, 0x8000_0000) {
            Some(v) => Some((-(v as i64)) as i32),
            None => None,
        }
    } else {
        match read_unsigned(s, 10, 0x7fff_ffff) {
            Some(v) => Some(v as i32),
            None => None,
        }
    }
}

} // verus!
