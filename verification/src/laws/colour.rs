//! Laws of colours: the escape sequences that paint a text, and the text without them.

use crate::cli::Args;
use crate::fmt;
use crate::fmt::Style;
use crate::run;
use vstd::prelude::*;

verus! {

/// How many of the first characters of `s` are decimal digits.
pub open spec fn digits_ahead(s: Seq<char>) -> nat
    decreases s.len(),
{
    if s.len() > 0 && '0' <= s[0] <= '9' {
        1 + digits_ahead(s.skip(1))
    } else {
        0
    }
}

/// How long the escape sequence is that `s` starts with: the escape character, a bracket, at
/// least one digit and an `m`. Zero where `s` starts with none.
pub open spec fn escape_len(s: Seq<char>) -> nat {
    let n = digits_ahead(s.skip(2));
    if s.len() > n + 2 && s[0] == '\u{1b}' && s[1] == '[' && n > 0 && s[n as int + 2] == 'm' {
        n + 3
    } else {
        0
    }
}

/// `s` with every escape sequence of that form taken out.
pub open spec fn without_colours(s: Seq<char>) -> Seq<char>
    decreases s.len(),
{
    if s.len() == 0 {
        Seq::<char>::empty()
    } else if escape_len(s) > 0 {
        without_colours(s.skip(escape_len(s) as int))
    } else {
        seq![s[0]] + without_colours(s.skip(1))
    }
}

/// Whether a text holds no escape character.
pub open spec fn bare(s: Seq<char>) -> bool {
    forall|i: int| 0 <= i < s.len() ==> #[trigger] s[i] != '\u{1b}'
}

/// Whether taking the escape sequences out of `x` leaves `y`, whatever stands behind `x`.
#[verifier::opaque]
pub open spec fn paints(x: Seq<char>, y: Seq<char>) -> bool {
    forall|t: Seq<char>| #[trigger] without_colours(x + t) == y + without_colours(t)
}

pub proof fn lemma_paints_add(x: Seq<char>, y: Seq<char>, u: Seq<char>, v: Seq<char>)
    requires
        paints(x, y),
        paints(u, v),
    ensures
        paints(x + u, y + v),
{
    reveal(paints);
    assert forall|t: Seq<char>| #[trigger]
        without_colours((x + u) + t) == (y + v) + without_colours(t) by {
        assert((x + u) + t =~= x + (u + t));
        assert(without_colours(u + t) == v + without_colours(t));
        assert(y + (v + without_colours(t)) =~= (y + v) + without_colours(t));
    }
}

pub proof fn lemma_bare_paints(s: Seq<char>)
    requires
        bare(s),
    ensures
        paints(s, s),
    decreases s.len(),
{
    reveal(paints);
    if s.len() == 0 {
        assert forall|t: Seq<char>| #[trigger] without_colours(s + t) == s + without_colours(t) by {
            assert(s + t =~= t);
            assert(s + without_colours(t) =~= without_colours(t));
        }
    } else {
        let rest = s.skip(1);
        assert forall|i: int| 0 <= i < rest.len() implies #[trigger] rest[i] != '\u{1b}' by {
            assert(rest[i] == s[i + 1]);
        }
        lemma_bare_paints(rest);
        assert forall|t: Seq<char>| #[trigger] without_colours(s + t) == s + without_colours(t) by {
            assert((s + t)[0] == s[0]);
            assert((s + t).skip(1) =~= rest + t);
            assert(without_colours(rest + t) == rest + without_colours(t));
            assert(seq![s[0]] + (rest + without_colours(t)) =~= s + without_colours(t));
        }
    }
}

/// Whether `code` is what may stand in an escape sequence.
pub open spec fn is_code(code: Seq<char>) -> bool {
    &&& code.len() > 0
    &&& forall|i: int| 0 <= i < code.len() ==> '0' <= #[trigger] code[i] <= '9'
}

proof fn lemma_digits_ahead(code: Seq<char>, t: Seq<char>)
    requires
        forall|i: int| 0 <= i < code.len() ==> '0' <= #[trigger] code[i] <= '9',
        t.len() > 0,
        !('0' <= t[0] <= '9'),
    ensures
        digits_ahead(code + t) == code.len(),
    decreases code.len(),
{
    if code.len() == 0 {
        assert(code + t =~= t);
    } else {
        let rest = code.skip(1);
        assert forall|i: int| 0 <= i < rest.len() implies '0' <= #[trigger] rest[i] <= '9' by {
            assert(rest[i] == code[i + 1]);
        }
        lemma_digits_ahead(rest, t);
        assert((code + t)[0] == code[0]);
        assert((code + t).skip(1) =~= rest + t);
    }
}

proof fn lemma_escape_paints_nothing(code: Seq<char>)
    requires
        is_code(code),
    ensures
        paints("\x1b["@ + code + "m"@, Seq::<char>::empty()),
{
    reveal(paints);
    reveal_strlit("\x1b[");
    reveal_strlit("m");
    let esc = "\x1b["@ + code + "m"@;
    let none = Seq::<char>::empty();
    assert forall|t: Seq<char>| #[trigger] without_colours(esc + t) == none + without_colours(t) by {
        let s = esc + t;
        lemma_digits_ahead(code, "m"@ + t);
        assert(s.skip(2) =~= code + ("m"@ + t));
        assert(s[code.len() as int + 2] == 'm');
        assert(escape_len(s) == esc.len());
        assert(s.skip(esc.len() as int) =~= t);
        assert(none + without_colours(t) =~= without_colours(t));
    }
}

pub proof fn lemma_painted_paints(code: Seq<char>, x: Seq<char>, y: Seq<char>)
    requires
        is_code(code),
        paints(x, y),
    ensures
        paints(fmt::painted(true, code, x), y),
{
    let none = Seq::<char>::empty();
    reveal_strlit("\x1b[");
    reveal_strlit("m");
    reveal_strlit("\x1b[0m");
    reveal_strlit("0");
    lemma_escape_paints_nothing(code);
    lemma_escape_paints_nothing("0"@);
    assert("\x1b["@ + "0"@ + "m"@ =~= "\x1b[0m"@);
    lemma_paints_add("\x1b["@ + code + "m"@, none, x, y);
    lemma_paints_add("\x1b["@ + code + "m"@ + x, none + y, "\x1b[0m"@, none);
    assert(none + y + none =~= y);
}

pub proof fn lemma_colours_paint(x: Seq<char>, y: Seq<char>)
    requires
        paints(x, y),
    ensures
        paints(fmt::bold(true, x), y),
        paints(fmt::dim(true, x), y),
        paints(fmt::cyan(true, x), y),
        paints(fmt::green(true, x), y),
        paints(fmt::yellow(true, x), y),
{
    reveal_strlit("1");
    reveal_strlit("2");
    reveal_strlit("36");
    reveal_strlit("32");
    reveal_strlit("33");
    lemma_painted_paints("1"@, x, y);
    lemma_painted_paints("2"@, x, y);
    lemma_painted_paints("36"@, x, y);
    lemma_painted_paints("32"@, x, y);
    lemma_painted_paints("33"@, x, y);
}

pub proof fn lemma_paints_three(
    a: Seq<char>,
    b: Seq<char>,
    c: Seq<char>,
    p: Seq<char>,
    q: Seq<char>,
    r: Seq<char>,
)
    requires
        paints(a, p),
        paints(b, q),
        paints(c, r),
    ensures
        paints(a + b + c, p + q + r),
{
    lemma_paints_add(a, p, b, q);
    lemma_paints_add(a + b, p + q, c, r);
}

/// A text that paints another is that text without its colours.
pub proof fn lemma_paints_alone(x: Seq<char>, y: Seq<char>)
    requires
        paints(x, y),
    ensures
        without_colours(x) == y,
{
    reveal(paints);
    let none = Seq::<char>::empty();
    assert(without_colours(x + none) == y + without_colours(none));
    assert(x + none =~= x);
    assert(y + none =~= y);
}

/// Painting takes nothing away: without the escape sequences, a painted text is the text itself.
pub proof fn law_painting_keeps_the_text(code: Seq<char>, s: Seq<char>)
    requires
        is_code(code),
        bare(s),
    ensures
        without_colours(fmt::painted(true, code, s)) == fmt::painted(false, code, s),
{
    lemma_bare_paints(s);
    lemma_painted_paints(code, s, s);
    lemma_paints_alone(fmt::painted(true, code, s), s);
}

/// How a text is painted: behind the escape character, a bracket, the code of the colour and an
/// `m`, and in front of the sequence that resets it. Without colours it stays as it is.
pub proof fn law_what_colours_are(s: Seq<char>)
    ensures
        fmt::bold(true, s) == seq!['\u{1b}', '[', '1', 'm'] + s + seq!['\u{1b}', '[', '0', 'm'],
        fmt::dim(true, s) == seq!['\u{1b}', '[', '2', 'm'] + s + seq!['\u{1b}', '[', '0', 'm'],
        fmt::red(true, s) == seq!['\u{1b}', '[', '3', '1', 'm'] + s + seq!['\u{1b}', '[', '0', 'm'],
        fmt::green(true, s) == seq!['\u{1b}', '[', '3', '2', 'm'] + s + seq![
            '\u{1b}',
            '[',
            '0',
            'm',
        ],
        fmt::yellow(true, s) == seq!['\u{1b}', '[', '3', '3', 'm'] + s + seq![
            '\u{1b}',
            '[',
            '0',
            'm',
        ],
        fmt::cyan(true, s) == seq!['\u{1b}', '[', '3', '6', 'm'] + s + seq![
            '\u{1b}',
            '[',
            '0',
            'm',
        ],
        fmt::bold(false, s) == s && fmt::dim(false, s) == s && fmt::red(false, s) == s,
        fmt::green(false, s) == s && fmt::yellow(false, s) == s && fmt::cyan(false, s) == s,
{
    reveal_strlit("\x1b[");
    reveal_strlit("m");
    reveal_strlit("\x1b[0m");
    reveal_strlit("1");
    reveal_strlit("2");
    reveal_strlit("31");
    reveal_strlit("32");
    reveal_strlit("33");
    reveal_strlit("36");
    let end = seq!['\u{1b}', '[', '0', 'm'];
    assert(fmt::bold(true, s) =~= seq!['\u{1b}', '[', '1', 'm'] + s + end);
    assert(fmt::dim(true, s) =~= seq!['\u{1b}', '[', '2', 'm'] + s + end);
    assert(fmt::red(true, s) =~= seq!['\u{1b}', '[', '3', '1', 'm'] + s + end);
    assert(fmt::green(true, s) =~= seq!['\u{1b}', '[', '3', '2', 'm'] + s + end);
    assert(fmt::yellow(true, s) =~= seq!['\u{1b}', '[', '3', '3', 'm'] + s + end);
    assert(fmt::cyan(true, s) =~= seq!['\u{1b}', '[', '3', '6', 'm'] + s + end);
}

/// When there are colours: on a terminal, unless the environment or an option forbids them or JSON
/// is asked for.
pub proof fn law_when_there_are_colours(args: Args, no_color: bool, tty: bool, r: Style)
    requires
        call_ensures(run::style, (&args, no_color, tty), r),
    ensures
        r.colored() <==> tty && !no_color && !args.no_color && !args.json,
{
}

} // verus!
