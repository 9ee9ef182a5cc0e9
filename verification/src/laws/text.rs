//! Laws of texts and numbers: what white space and digits are, and that lines, words and numbers
//! that were written read back.

use crate::num;
use crate::sys::linux::process;
use crate::text;
use crate::text::Sep;
use vstd::prelude::*;

verus! {

/// Whether a character is white space.
pub open spec fn white(c: char) -> bool {
    let n = c as u32;
    ||| 9 <= n <= 13 || n == 32 || n == 0x85 || n == 0xa0
    ||| n == 0x1680 || 0x2000 <= n <= 0x200a
    ||| n == 0x2028 || n == 0x2029 || n == 0x202f || n == 0x205f || n == 0x3000
}

/// What separates words: white space between fields, and spaces and control characters in what is
/// shown.
pub proof fn law_what_separates(c: char, d: char)
    ensures
        text::separates(Sep::White, c) == white(c),
        text::separates(Sep::Blank, c) == (c == ' ' || (c as u32) < 32 || 127 <= c as u32 <= 159),
        text::separates(Sep::Char(d), c) == (c == d),
{
}

proof fn lemma_trim_start(s: Seq<char>) -> (n: int)
    ensures
        0 <= n <= s.len(),
        text::trim_start(s) == s.skip(n),
        forall|i: int| 0 <= i < n ==> white(#[trigger] s[i]),
        n < s.len() ==> !white(s[n]),
    decreases s.len(),
{
    if s.len() > 0 && text::is_white(s[0]) {
        let rest = s.drop_first();
        let m = lemma_trim_start(rest);
        assert(rest.skip(m) =~= s.skip(m + 1));
        assert forall|i: int| 0 <= i < m + 1 implies white(#[trigger] s[i]) by {
            if i > 0 {
                assert(white(rest[i - 1]));
            }
        }
        m + 1
    } else {
        assert(s.skip(0) =~= s);
        0
    }
}

proof fn lemma_trim_end(s: Seq<char>) -> (n: int)
    ensures
        0 <= n <= s.len(),
        text::trim_end(s) == s.take(n),
        forall|i: int| n <= i < s.len() ==> white(#[trigger] s[i]),
        n > 0 ==> !white(s[n - 1]),
    decreases s.len(),
{
    if s.len() > 0 && text::is_white(s.last()) {
        let front = s.drop_last();
        let m = lemma_trim_end(front);
        assert(front.take(m) =~= s.take(m));
        assert forall|i: int| m <= i < s.len() implies white(#[trigger] s[i]) by {
            if i < front.len() {
                assert(white(front[i]));
            }
        }
        m
    } else {
        assert(s.take(s.len() as int) =~= s);
        s.len() as int
    }
}

/// Trimming takes white space away at both ends and nothing else, and leaves none there.
pub proof fn law_trimming_takes_white_space(s: Seq<char>)
    ensures
        exists|a: int, b: int| #[trigger] is_trimmed(s, a, b, text::trim(s)),
{
    let a = lemma_trim_start(s);
    let t = s.skip(a);
    let n = lemma_trim_end(t);
    let b = a + n;
    assert(t.take(n) =~= s.subrange(a, b));
    assert forall|i: int| b <= i < s.len() implies white(#[trigger] s[i]) by {
        assert(t[i - a] == s[i]);
    }
    if a < b {
        assert(t[n - 1] == s[b - 1]);
    }
    assert(is_trimmed(s, a, b, text::trim(s)));
}

/// Whether a text is what stands from `a` up to `b`, with nothing but white space around it.
pub open spec fn is_trimmed(s: Seq<char>, a: int, b: int, t: Seq<char>) -> bool {
    &&& 0 <= a <= b <= s.len()
    &&& t == s.subrange(a, b)
    &&& forall|i: int| 0 <= i < a ==> white(#[trigger] s[i])
    &&& forall|i: int| b <= i < s.len() ==> white(#[trigger] s[i])
    &&& a < b ==> !white(s[a]) && !white(s[b - 1])
}

/// The value of a digit, in either case.
pub open spec fn digit(c: char, radix: nat) -> Option<nat> {
    let d = if '0' <= c <= '9' {
        c as u32 - '0' as u32
    } else if 'a' <= c <= 'z' {
        c as u32 - 'a' as u32 + 10
    } else if 'A' <= c <= 'Z' {
        c as u32 - 'A' as u32 + 10
    } else {
        radix as int
    };
    if d < radix {
        Some(d as nat)
    } else {
        None
    }
}

/// Numbers are read digit by digit: one more digit makes the number as many times larger as there
/// are digits, and adds its own value. What is no digit, or makes a number that is too large, is
/// no number; nor is nothing at all.
pub proof fn law_numbers_are_read_by_digits(s: Seq<char>, c: char, radix: nat, max: nat)
    requires
        2 <= radix <= 16,
    ensures
        num::parse_unsigned(Seq::<char>::empty(), radix, max) is None,
        num::parse_unsigned(seq![c], radix, max) == (match digit(c, radix) {
            Some(d) => if d <= max {
                Some(d)
            } else {
                None
            },
            None => None,
        }),
        s.len() > 0 && s != seq!['+'] ==> num::parse_unsigned(s.push(c), radix, max) == (match (
            num::parse_unsigned(s, radix, max),
            digit(c, radix),
        ) {
            (Some(v), Some(d)) => if v * radix + d <= max {
                Some(v * radix + d)
            } else {
                None
            },
            _ => None,
        }),
        digit(c, radix) is Some ==> num::parse_unsigned(seq!['+', c], radix, max)
            == num::parse_unsigned(seq![c], radix, max),
{
    reveal_with_fuel(num::run_value, 3);
    let none = Seq::<char>::empty();
    assert(num::digit_value(c, radix) == digit(c, radix));
    assert(seq![c].drop_last() =~= none);
    assert(seq!['+'].drop_first() =~= none);
    assert(seq!['+', c].drop_first() =~= seq![c]);
    assert(0 * radix == 0) by (nonlinear_arith);
    if s.len() > 0 && s != seq!['+'] {
        let t = s.push(c);
        if s[0] == '+' {
            assert(t.drop_first() =~= s.drop_first().push(c));
            assert(t.drop_first().drop_last() =~= s.drop_first());
            if s.len() == 1 {
                assert(s =~= seq!['+']);
            }
        } else {
            assert(t.drop_last() =~= s);
        }
        let body = num::strip_plus(s);
        if let Some(v) = num::run_value(body, radix) {
            assert(v <= v * radix) by (nonlinear_arith)
                requires
                    radix >= 1,
            ;
        }
    }
}

/// Lines one below the other, with a line feed behind each.
pub open spec fn lines_ended(lines: Seq<Seq<char>>) -> Seq<char>
    decreases lines.len(),
{
    if lines.len() == 0 {
        Seq::<char>::empty()
    } else {
        lines_ended(lines.drop_last()) + lines.last() + seq!['\n']
    }
}

/// Whether lines hold no line feed, and none ends in a carriage return.
pub open spec fn plain_lines(lines: Seq<Seq<char>>) -> bool {
    forall|i: int|
        0 <= i < lines.len() ==> !(#[trigger] lines[i]).contains('\n') && (lines[i].len() > 0
            ==> lines[i].last() != '\r')
}

proof fn lemma_lines_split(lines: Seq<Seq<char>>)
    requires
        plain_lines(lines),
    ensures
        text::split(lines_ended(lines), Sep::Char('\n')) == lines.push(Seq::<char>::empty()),
    decreases lines.len(),
{
    let feed = Sep::Char('\n');
    let none = Seq::<char>::empty();
    if lines.len() == 0 {
        assert(text::split(none, feed) =~= lines.push(none));
    } else {
        let front = lines.drop_last();
        let line = lines[lines.len() - 1];
        assert forall|i: int| 0 <= i < front.len() implies !(#[trigger] front[i]).contains('\n')
            && (front[i].len() > 0 ==> front[i].last() != '\r') by {
            assert(front[i] == lines[i]);
        }
        lemma_lines_split(front);
        assert(!lines[lines.len() - 1].contains('\n'));
        assert forall|j: int| 0 <= j < line.len() implies !text::separates(
            feed,
            #[trigger] line[j],
        ) by {
            assert(line.contains(line[j]));
        }
        let before = lines_ended(front);
        lemma_split_append(before, line, feed);
        let whole = lines_ended(lines);
        assert(whole =~= (before + line).push('\n') + none);
        text::lemma_split_behind(before + line, '\n', none, feed);
        assert(front.push(none).drop_last() =~= front);
        assert(none + line =~= line);
        assert(front.push(line) =~= lines);
    }
}

/// What holds no separator goes to the last piece.
proof fn lemma_split_append(a: Seq<char>, b: Seq<char>, sep: Sep)
    requires
        forall|j: int| 0 <= j < b.len() ==> !text::separates(sep, #[trigger] b[j]),
    ensures
        text::split(a + b, sep) == text::split(a, sep).drop_last().push(
            text::split(a, sep).last() + b,
        ),
    decreases b.len(),
{
    let before = text::split(a, sep);
    text::lemma_split_len(a, sep);
    if b.len() == 0 {
        assert(a + b =~= a);
        assert(before.last() + b =~= before.last());
        assert(before.drop_last().push(before.last()) =~= before);
    } else {
        let front = b.drop_last();
        let c = b[b.len() - 1];
        assert forall|j: int| 0 <= j < front.len() implies !text::separates(
            sep,
            #[trigger] front[j],
        ) by {
            assert(front[j] == b[j]);
        }
        lemma_split_append(a, front, sep);
        assert((a + b).drop_last() =~= a + front);
        assert((a + b).last() == c);
        let mid = before.drop_last().push(before.last() + front);
        assert(mid.drop_last() =~= before.drop_last());
        assert((before.last() + front).push(c) =~= before.last() + b);
    }
}

/// Lines that were written read back, each as itself.
pub proof fn law_lines_read_back(lines: Seq<Seq<char>>)
    requires
        plain_lines(lines),
    ensures
        text::lines(lines_ended(lines)) == lines,
{
    lemma_lines_split(lines);
    let pieces = text::split(lines_ended(lines), Sep::Char('\n'));
    assert(pieces.drop_last() =~= lines);
    assert(pieces.drop_last().map_values(|l: Seq<char>| text::strip_cr(l)) =~= lines) by {
        assert forall|i: int| 0 <= i < lines.len() implies text::strip_cr(#[trigger] lines[i])
            == lines[i] by {}
    }
}

/// When the system started is what the first line behind `btime` says, whatever stands around it.
pub proof fn law_boot_time_reads_back(lines: Seq<Seq<char>>, k: int, t: u64)
    requires
        plain_lines(lines),
        0 <= k < lines.len(),
        lines[k] == seq!['b', 't', 'i', 'm', 'e', ' '] + num::dec(t as nat),
        forall|i: int|
            0 <= i < k ==> !((#[trigger] lines[i]).len() >= 6 && lines[i].take(6) == seq![
                'b',
                't',
                'i',
                'm',
                'e',
                ' ',
            ]),
    ensures
        process::boot_time_of(Some(lines_ended(lines))) == t,
{
    law_lines_read_back(lines);
    lemma_boot_time(lines, k, t);
}

/// Without such a line, or without the file, it is zero.
pub proof fn law_boot_time_may_be_missing(lines: Seq<Seq<char>>)
    requires
        plain_lines(lines),
        forall|i: int|
            0 <= i < lines.len() ==> !((#[trigger] lines[i]).len() >= 6 && lines[i].take(6) == seq![
                'b',
                't',
                'i',
                'm',
                'e',
                ' ',
            ]),
    ensures
        process::boot_time_of(Some(lines_ended(lines))) == 0,
        process::boot_time_of(None) == 0,
{
    law_lines_read_back(lines);
    lemma_no_boot_time(lines);
}

proof fn lemma_boot_time(lines: Seq<Seq<char>>, k: int, t: u64)
    requires
        0 <= k < lines.len(),
        lines[k] == seq!['b', 't', 'i', 'm', 'e', ' '] + num::dec(t as nat),
        forall|i: int|
            0 <= i < k ==> !((#[trigger] lines[i]).len() >= 6 && lines[i].take(6) == seq![
                'b',
                't',
                'i',
                'm',
                'e',
                ' ',
            ]),
    ensures
        process::boot_time_in(lines) == t,
    decreases lines.len(),
{
    reveal_strlit("btime ");
    let key = "btime "@;
    assert(key =~= seq!['b', 't', 'i', 'm', 'e', ' ']);
    if k == 0 {
        let d = num::dec(t as nat);
        assert(lines[0].take(6) =~= key);
        assert(lines[0].skip(6) =~= d);
        num::lemma_digits_plain(t as nat, 10);
        assert(d[0] == num::digits(t as nat, 10)[0]);
        assert(d[d.len() - 1] == num::digits(t as nat, 10)[d.len() - 1]);
        assert(!text::is_white(d[0]) && !text::is_white(d.last()));
        assert(text::trim(d) == d);
        num::law_written_numbers_read_back(t as nat, 10, 0xffff_ffff_ffff_ffff);
    } else {
        let rest = lines.drop_first();
        assert(!text::starts_with(lines[0], key));
        assert forall|i: int| 0 <= i < k - 1 implies !((#[trigger] rest[i]).len() >= 6
            && rest[i].take(6) == seq!['b', 't', 'i', 'm', 'e', ' ']) by {
            assert(rest[i] == lines[i + 1]);
        }
        lemma_boot_time(rest, k - 1, t);
    }
}

proof fn lemma_no_boot_time(lines: Seq<Seq<char>>)
    requires
        forall|i: int|
            0 <= i < lines.len() ==> !((#[trigger] lines[i]).len() >= 6 && lines[i].take(6) == seq![
                'b',
                't',
                'i',
                'm',
                'e',
                ' ',
            ]),
    ensures
        process::boot_time_in(lines) == 0,
    decreases lines.len(),
{
    reveal_strlit("btime ");
    let key = "btime "@;
    assert(key =~= seq!['b', 't', 'i', 'm', 'e', ' ']);
    if lines.len() > 0 {
        let rest = lines.drop_first();
        assert(!text::starts_with(lines[0], key));
        assert forall|i: int| 0 <= i < rest.len() implies !((#[trigger] rest[i]).len() >= 6
            && rest[i].take(6) == seq!['b', 't', 'i', 'm', 'e', ' ']) by {
            assert(rest[i] == lines[i + 1]);
        }
        lemma_no_boot_time(rest);
    }
}

/// What comes first in the order of texts: the one with the smaller character where they first
/// differ, or the one that the other starts with.
pub proof fn law_how_texts_are_ordered(a: Seq<char>, b: Seq<char>)
    ensures
        text::lex_less(a, b) <==> exists|k: int| #[trigger] differ_at(a, b, k),
    decreases b.len(),
{
    if b.len() > 0 && a.len() > 0 && a[0] == b[0] {
        let x = a.drop_first();
        let y = b.drop_first();
        law_how_texts_are_ordered(x, y);
        if text::lex_less(x, y) {
            let k = choose|k: int| #[trigger] differ_at(x, y, k);
            assert(differ_at(a, b, k + 1)) by {
                assert forall|i: int| 0 <= i < k + 1 implies #[trigger] a[i] == b[i] by {
                    if i > 0 {
                        assert(x[i - 1] == y[i - 1]);
                    }
                }
            }
        }
        if exists|k: int| #[trigger] differ_at(a, b, k) {
            let k = choose|k: int| #[trigger] differ_at(a, b, k);
            assert(k > 0);
            assert(differ_at(x, y, k - 1)) by {
                assert forall|i: int| 0 <= i < k - 1 implies #[trigger] x[i] == y[i] by {
                    assert(a[i + 1] == b[i + 1]);
                }
            }
        }
    } else if b.len() > 0 {
        if text::lex_less(a, b) {
            assert(differ_at(a, b, 0));
        }
        if exists|k: int| #[trigger] differ_at(a, b, k) {
            let k = choose|k: int| #[trigger] differ_at(a, b, k);
            if k > 0 {
                assert(a[0] == b[0]);
            }
        }
    }
}

/// Whether the texts are alike in front of `k`, where the first ends or has the smaller character.
pub open spec fn differ_at(a: Seq<char>, b: Seq<char>, k: int) -> bool {
    &&& 0 <= k < b.len()
    &&& k <= a.len()
    &&& forall|i: int| 0 <= i < k ==> #[trigger] a[i] == b[i]
    &&& k < a.len() ==> a[k] < b[k]
}

/// Integers are read as numbers are, and turned round behind a minus sign.
pub proof fn law_integers_are_read_with_their_sign(s: Seq<char>)
    requires
        s.len() > 0,
        s[0] != '+',
        s[0] != '-',
    ensures
        num::parse_signed(s) == (match num::parse_unsigned(s, 10, 2147483647) {
            Some(n) => Some(n as int),
            None => None,
        }),
        num::parse_signed(seq!['-'] + s) == (match num::parse_unsigned(s, 10, 2147483648) {
            Some(n) => Some(-n),
            None => None,
        }),
        num::parse_signed(seq!['+'] + s) == num::parse_signed(s),
{
    assert((seq!['-'] + s).drop_first() =~= s);
    assert((seq!['+'] + s).drop_first() =~= s);
}

} // verus!
