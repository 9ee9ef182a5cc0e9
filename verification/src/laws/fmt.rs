//! Laws of terminal text: what cleaning, truncating, wrapping and padding keep and bound.

use crate::fmt;
use crate::fmt::CalendarTime;
use crate::num;
use crate::text;
use crate::text::Sep;
use vstd::prelude::*;

verus! {

/// Texts that are not empty and hold no separator.
pub open spec fn solid(words: Seq<Seq<char>>, sep: Sep) -> bool {
    &&& forall|i: int| 0 <= i < words.len() ==> (#[trigger] words[i]).len() > 0
    &&& forall|i: int, j: int|
        0 <= i < words.len() && 0 <= j < words[i].len() ==> !text::separates(
            sep,
            #[trigger] words[i][j],
        )
}

/// What is not empty among texts without separators is solid.
proof fn lemma_nonempty_solid(pieces: Seq<Seq<char>>, sep: Sep)
    requires
        forall|i: int, j: int|
            0 <= i < pieces.len() && 0 <= j < pieces[i].len() ==> !text::separates(
                sep,
                #[trigger] pieces[i][j],
            ),
    ensures
        solid(text::nonempty(pieces), sep),
    decreases pieces.len(),
{
    if pieces.len() > 0 {
        let front = pieces.drop_last();
        assert forall|i: int, j: int|
            0 <= i < front.len() && 0 <= j < front[i].len() implies !text::separates(
            sep,
            #[trigger] front[i][j],
        ) by {
            assert(front[i] == pieces[i]);
            assert(!text::separates(sep, pieces[i][j]));
        }
        lemma_nonempty_solid(front, sep);
        let kept = text::nonempty(front);
        let all = text::nonempty(pieces);
        if pieces.last().len() > 0 {
            assert forall|i: int, j: int|
                0 <= i < all.len() && 0 <= j < all[i].len() implies !text::separates(
                sep,
                #[trigger] all[i][j],
            ) by {
                if i < kept.len() {
                    assert(all[i] == kept[i]);
                    assert(!text::separates(sep, kept[i][j]));
                } else {
                    assert(all[i] == pieces[pieces.len() - 1]);
                }
            }
            assert forall|i: int| 0 <= i < all.len() implies (#[trigger] all[i]).len() > 0 by {
                if i < kept.len() {
                    assert(all[i] == kept[i]);
                }
            }
        }
    }
}

/// The words of a text are not empty and hold no separator.
pub proof fn law_words_are_solid(s: Seq<char>, sep: Sep)
    ensures
        solid(text::words(s, sep), sep),
{
    text::law_pieces_hold_no_separator(s, sep);
    lemma_nonempty_solid(text::split(s, sep), sep);
}

/// Splitting what was joined by a space gives back the words.
pub proof fn lemma_split_joined(words: Seq<Seq<char>>, sep: Sep)
    requires
        solid(words, sep),
        text::separates(sep, ' '),
        words.len() > 0,
    ensures
        text::split(text::join(words, seq![' ']), sep) == words,
    decreases words.len(),
{
    let last = words[words.len() - 1];
    assert forall|j: int| 0 <= j < last.len() implies !text::separates(sep, #[trigger] last[j]) by {
        assert(!text::separates(sep, words[words.len() - 1][j]));
    }
    if words.len() == 1 {
        text::lemma_split_solid(last, sep);
        assert(words =~= seq![last]);
    } else {
        let front = words.drop_last();
        assert forall|i: int, j: int|
            0 <= i < front.len() && 0 <= j < front[i].len() implies !text::separates(
            sep,
            #[trigger] front[i][j],
        ) by {
            assert(!text::separates(sep, words[i][j]));
        }
        assert forall|i: int| 0 <= i < front.len() implies (#[trigger] front[i]).len() > 0 by {
            assert(words[i].len() > 0);
        }
        lemma_split_joined(front, sep);
        let head = text::join(front, seq![' ']);
        text::lemma_split_behind(head, ' ', last, sep);
        assert(head + seq![' '] + last =~= head.push(' ') + last);
        assert(front.push(last) =~= words);
    }
}

/// Where nothing is empty, nothing is left out.
pub proof fn lemma_nonempty_all(words: Seq<Seq<char>>)
    requires
        forall|i: int| 0 <= i < words.len() ==> (#[trigger] words[i]).len() > 0,
    ensures
        text::nonempty(words) == words,
    decreases words.len(),
{
    if words.len() > 0 {
        let front = words.drop_last();
        assert forall|i: int| 0 <= i < front.len() implies (#[trigger] front[i]).len() > 0 by {
            assert(words[i].len() > 0);
        }
        lemma_nonempty_all(front);
        assert(words[words.len() - 1].len() > 0);
        assert(front.push(words.last()) =~= words);
    } else {
        assert(text::nonempty(words) =~= words);
    }
}

/// Cleaning a text keeps its words and their order.
pub proof fn law_sanitize_keeps_the_words(s: Seq<char>)
    ensures
        text::words(fmt::sanitized(s), Sep::Blank) == text::words(s, Sep::Blank),
{
    let words = text::words(s, Sep::Blank);
    law_words_are_solid(s, Sep::Blank);
    if words.len() == 0 {
        let none = Seq::<char>::empty();
        assert(fmt::sanitized(s) =~= none);
        let pieces = text::split(none, Sep::Blank);
        assert(pieces =~= seq![none]);
        assert(pieces.drop_last() =~= Seq::<Seq<char>>::empty());
        assert(text::nonempty(pieces.drop_last()) =~= Seq::<Seq<char>>::empty());
        assert(text::words(none, Sep::Blank) =~= words);
    } else {
        lemma_split_joined(words, Sep::Blank);
        lemma_nonempty_all(words);
    }
}

/// Cleaning a clean text changes nothing.
pub proof fn law_sanitize_is_idempotent(s: Seq<char>)
    ensures
        fmt::sanitized(fmt::sanitized(s)) == fmt::sanitized(s),
{
    law_sanitize_keeps_the_words(s);
}

/// No control character, no space at either end, no two spaces in a row.
pub open spec fn clean(t: Seq<char>) -> bool {
    &&& forall|i: int| 0 <= i < t.len() ==> !text::is_control(#[trigger] t[i])
    &&& t.len() > 0 ==> t[0] != ' ' && t.last() != ' '
    &&& forall|i: int| 0 < i < t.len() && #[trigger] t[i] == ' ' ==> t[i - 1] != ' '
}

proof fn lemma_joined_clean(words: Seq<Seq<char>>)
    requires
        solid(words, Sep::Blank),
    ensures
        clean(text::join(words, seq![' '])),
        words.len() > 0 ==> text::join(words, seq![' ']).len() > 0,
    decreases words.len(),
{
    let t = text::join(words, seq![' ']);
    if words.len() == 1 {
        let w = words[0];
        assert forall|i: int| 0 <= i < t.len() implies !text::is_control(#[trigger] t[i]) && t[i]
            != ' ' by {
            assert(!text::separates(Sep::Blank, words[0][i]));
        }
        assert(w.len() > 0);
    } else if words.len() > 1 {
        let front = words.drop_last();
        let last = words[words.len() - 1];
        assert(last.len() > 0);
        assert forall|i: int, j: int|
            0 <= i < front.len() && 0 <= j < front[i].len() implies !text::separates(
            Sep::Blank,
            #[trigger] front[i][j],
        ) by {
            assert(!text::separates(Sep::Blank, words[i][j]));
        }
        assert forall|i: int| 0 <= i < front.len() implies (#[trigger] front[i]).len() > 0 by {
            assert(words[i].len() > 0);
        }
        lemma_joined_clean(front);
        let head = text::join(front, seq![' ']);
        let n = head.len() as int;
        assert forall|j: int| 0 <= j < last.len() implies !text::is_control(#[trigger] last[j])
            && last[j] != ' ' by {
            assert(!text::separates(Sep::Blank, words[words.len() - 1][j]));
        }
        assert forall|i: int| 0 <= i < t.len() implies !text::is_control(#[trigger] t[i]) by {
            if i < n {
                assert(t[i] == head[i]);
            } else if i > n {
                assert(t[i] == last[i - n - 1]);
            }
        }
        assert forall|i: int| 0 < i < t.len() && #[trigger] t[i] == ' ' implies t[i - 1] != ' ' by {
            if i < n {
                assert(t[i] == head[i]);
                assert(t[i - 1] == head[i - 1]);
            } else if i == n {
                assert(t[i - 1] == head[n - 1]);
            } else {
                assert(t[i] == last[i - n - 1]);
            }
        }
        assert(t[0] == head[0]);
        assert(t.last() == last[last.len() - 1]);
    }
}

/// A cleaned text holds no control character, and so cannot start a terminal escape sequence
/// or leave its line.
pub proof fn law_sanitized_is_clean(s: Seq<char>)
    ensures
        clean(fmt::sanitized(s)),
{
    law_words_are_solid(s, Sep::Blank);
    lemma_joined_clean(text::words(s, Sep::Blank));
}

/// A truncated text takes at most the columns it was given, where it was given at least one.
pub proof fn law_truncated_fits(s: Seq<char>, max: nat)
    requires
        max > 0,
    ensures
        fmt::columns(fmt::truncated(s, max)) <= max,
{
    fmt::lemma_columns_push(Seq::<char>::empty(), '…');
    assert(Seq::<char>::empty().push('…') =~= seq!['…']);
    if fmt::columns(s) > max && max > 1 {
        let head = fmt::fitting(s, (max - 1) as nat);
        fmt::lemma_fitting(s, (max - 1) as nat);
        fmt::lemma_columns_push(head, '…');
    }
}

/// A text that is cut ends in an ellipsis behind a beginning of it that could not have been one
/// character longer.
pub proof fn law_truncated_cuts_late(s: Seq<char>, max: nat)
    requires
        max > 1,
        fmt::columns(s) > max,
    ensures
        ({
            let t = fmt::truncated(s, max);
            let n = t.len() - 1;
            &&& 0 <= n < s.len()
            &&& t == s.take(n).push('…')
            &&& fmt::columns(s.take(n + 1)) > max - 1
        }),
{
    let m = (max - 1) as nat;
    fmt::lemma_fitting(s, m);
    lemma_fitting_maximal(s, m);
}

proof fn lemma_fitting_maximal(s: Seq<char>, max: nat)
    requires
        fmt::columns(s) > max,
    ensures
        fmt::fitting(s, max).len() < s.len(),
        fmt::columns(s.take(fmt::fitting(s, max).len() as int + 1)) > max,
    decreases s.len(),
{
    let front = s.drop_last();
    if fmt::columns(front) <= max {
        assert(fmt::fitting(front, max) == front);
        assert(s.take(front.len() as int + 1) =~= s);
    } else {
        lemma_fitting_maximal(front, max);
        let n = fmt::fitting(s, max).len() as int;
        assert(front.take(n + 1) =~= s.take(n + 1));
    }
}

/// Padding gives a text the columns asked for, or leaves it as it is where it takes more.
pub proof fn law_padded_takes_the_columns(s: Seq<char>, to: nat)
    ensures
        fmt::columns(fmt::padded(s, to)) == if fmt::columns(s) >= to {
            fmt::columns(s)
        } else {
            to
        },
{
    if fmt::columns(s) < to {
        let n = (to - fmt::columns(s)) as nat;
        fmt::lemma_columns_add(s, text::spaces(n));
        fmt::lemma_columns_spaces(n);
    }
}

proof fn lemma_layout_fits(words: Seq<Seq<char>>, width: nat)
    requires
        width >= 2,
    ensures
        forall|i: int|
            0 <= i < fmt::layout(words, width).len() ==> fmt::columns(
                #[trigger] fmt::layout(words, width)[i],
            ) <= width,
    decreases words.len(),
{
    if words.len() > 0 {
        let front = words.drop_last();
        lemma_layout_fits(front, width);
        let before = fmt::layout(front, width);
        let word = words.last();
        let all = fmt::layout(words, width);
        if before.len() > 0 && fmt::columns(before.last()) + 1 + fmt::columns(word) <= width {
            let line = before.last() + seq![' '] + word;
            fmt::lemma_columns_push(before.last(), ' ');
            assert(before.last().push(' ') =~= before.last() + seq![' ']);
            fmt::lemma_columns_add(before.last() + seq![' '], word);
            assert forall|i: int| 0 <= i < all.len() implies fmt::columns(#[trigger] all[i])
                <= width by {
                if i < before.len() - 1 {
                    assert(all[i] == before[i]);
                } else {
                    assert(all[i] == line);
                }
            }
        } else {
            fmt::lemma_chopped_widths(word, width);
            let pieces = fmt::chopped(word, width);
            assert forall|i: int| 0 <= i < all.len() implies fmt::columns(#[trigger] all[i])
                <= width by {
                if i < before.len() {
                    assert(all[i] == before[i]);
                } else {
                    assert(all[i] == pieces[i - before.len()]);
                }
            }
        }
    }
}

/// No wrapped line is wider than the width asked for (which counts as eight where it is less).
pub proof fn law_wrapped_lines_fit(s: Seq<char>, max_width: nat, max_lines: nat)
    ensures
        forall|i: int|
            0 <= i < fmt::wrapped(s, max_width, max_lines).len() ==> fmt::columns(
                #[trigger] fmt::wrapped(s, max_width, max_lines)[i],
            ) <= fmt::line_width(max_width),
{
    let width = fmt::line_width(max_width);
    let words = text::words(s, Sep::Char(' '));
    let all = fmt::layout(words, width);
    lemma_layout_fits(words, width);
    fmt::lemma_columns_push(Seq::<char>::empty(), '…');
    assert(Seq::<char>::empty().push('…') =~= seq!['…']);
    let r = fmt::wrapped(s, max_width, max_lines);
    assert forall|i: int| 0 <= i < r.len() implies fmt::columns(#[trigger] r[i]) <= width by {
        if all.len() > 0 && i < all.len() && i != max_lines {
            assert(r[i] == all[i]);
        }
    }
}

/// Wrapped text has at least one line, and at most one more than the limit. Where its lines are
/// more than the limit, it has that one more, and it is an ellipsis that stands for the rest.
pub proof fn law_wrap_stops_at_the_limit(s: Seq<char>, max_width: nat, max_lines: nat)
    ensures
        0 < fmt::wrapped(s, max_width, max_lines).len() <= max_lines + 1,
        fmt::layout(text::words(s, Sep::Char(' ')), fmt::line_width(max_width)).len() > max_lines
            ==> {
            &&& fmt::wrapped(s, max_width, max_lines).len() == max_lines + 1
            &&& fmt::wrapped(s, max_width, max_lines).last() == seq!['…']
        },
{
}

/// The characters of `s` that are no spaces.
pub open spec fn ink(s: Seq<char>) -> Seq<char>
    decreases s.len(),
{
    if s.len() == 0 {
        Seq::<char>::empty()
    } else if s.last() == ' ' {
        ink(s.drop_last())
    } else {
        ink(s.drop_last()).push(s.last())
    }
}

/// The characters of several texts that are no spaces.
pub open spec fn ink_of_all(parts: Seq<Seq<char>>) -> Seq<char>
    decreases parts.len(),
{
    if parts.len() == 0 {
        Seq::<char>::empty()
    } else {
        ink_of_all(parts.drop_last()) + ink(parts.last())
    }
}

proof fn lemma_ink_add(a: Seq<char>, b: Seq<char>)
    ensures
        ink(a + b) == ink(a) + ink(b),
    decreases b.len(),
{
    if b.len() == 0 {
        assert(a + b =~= a);
        assert(ink(a) + ink(b) =~= ink(a));
    } else {
        lemma_ink_add(a, b.drop_last());
        assert((a + b).drop_last() =~= a + b.drop_last());
        assert(ink(a + b) =~= ink(a) + ink(b));
    }
}

proof fn lemma_ink_of_all_add(a: Seq<Seq<char>>, b: Seq<Seq<char>>)
    ensures
        ink_of_all(a + b) == ink_of_all(a) + ink_of_all(b),
    decreases b.len(),
{
    if b.len() == 0 {
        assert(a + b =~= a);
        assert(ink_of_all(a) + ink_of_all(b) =~= ink_of_all(a));
    } else {
        lemma_ink_of_all_add(a, b.drop_last());
        assert((a + b).drop_last() =~= a + b.drop_last());
        assert(ink_of_all(a + b) =~= ink_of_all(a) + ink_of_all(b));
    }
}

proof fn lemma_ink_push(a: Seq<char>, c: char)
    ensures
        ink(a.push(c)) == if c == ' ' {
            ink(a)
        } else {
            ink(a).push(c)
        },
{
    assert(a.push(c).drop_last() =~= a);
}

proof fn lemma_ink_of_all_push(a: Seq<Seq<char>>, t: Seq<char>)
    ensures
        ink_of_all(a.push(t)) == ink_of_all(a) + ink(t),
{
    assert(a.push(t).drop_last() =~= a);
}

proof fn lemma_ink_of_split(s: Seq<char>)
    ensures
        ink_of_all(text::split(s, Sep::Char(' '))) == ink(s),
    decreases s.len(),
{
    let all = text::split(s, Sep::Char(' '));
    if s.len() == 0 {
        lemma_ink_of_all_push(Seq::<Seq<char>>::empty(), s);
        assert(s =~= Seq::<char>::empty());
        assert(all =~= Seq::<Seq<char>>::empty().push(s));
        assert(ink_of_all(all) =~= ink(s));
    } else {
        let front = s.drop_last();
        text::lemma_split_len(front, Sep::Char(' '));
        lemma_ink_of_split(front);
        let before = text::split(front, Sep::Char(' '));
        if s.last() == ' ' {
            lemma_ink_of_all_push(before, Seq::<char>::empty());
            assert(ink_of_all(all) =~= ink(s));
        } else {
            let grown = before.last().push(s.last());
            lemma_ink_of_all_push(before.drop_last(), grown);
            lemma_ink_push(before.last(), s.last());
            assert(ink_of_all(all) =~= ink_of_all(before).push(s.last()));
        }
    }
}

proof fn lemma_ink_of_nonempty(pieces: Seq<Seq<char>>)
    ensures
        ink_of_all(text::nonempty(pieces)) == ink_of_all(pieces),
    decreases pieces.len(),
{
    if pieces.len() > 0 {
        lemma_ink_of_nonempty(pieces.drop_last());
        if pieces.last().len() == 0 {
            assert(ink(pieces.last()) =~= Seq::<char>::empty());
            assert(ink_of_all(pieces) =~= ink_of_all(pieces.drop_last()));
        } else {
            lemma_ink_of_all_push(text::nonempty(pieces.drop_last()), pieces.last());
        }
    }
}

proof fn lemma_ink_of_chopped(word: Seq<char>, width: nat)
    ensures
        ink_of_all(fmt::chopped(word, width)) == ink(word),
    decreases word.len(),
{
    if word.len() > 0 {
        let front = word.drop_last();
        let c = word.last();
        lemma_ink_of_chopped(front, width);
        let before = fmt::chopped(front, width);
        lemma_ink_push(front, c);
        assert(front.push(c) =~= word);
        if before.len() > 0 && fmt::columns(before.last()) + fmt::char_columns(c) <= width {
            lemma_ink_of_all_push(before.drop_last(), before.last().push(c));
            lemma_ink_push(before.last(), c);
            assert(ink_of_all(fmt::chopped(word, width)) =~= ink(word));
        } else {
            lemma_ink_of_all_push(before, seq![c]);
            lemma_ink_push(Seq::<char>::empty(), c);
            assert(Seq::<char>::empty().push(c) =~= seq![c]);
            assert(ink_of_all(fmt::chopped(word, width)) =~= ink(word));
        }
    }
}

proof fn lemma_ink_of_layout(words: Seq<Seq<char>>, width: nat)
    ensures
        ink_of_all(fmt::layout(words, width)) == ink_of_all(words),
    decreases words.len(),
{
    if words.len() > 0 {
        let front = words.drop_last();
        let word = words.last();
        lemma_ink_of_layout(front, width);
        let before = fmt::layout(front, width);
        if before.len() > 0 && fmt::columns(before.last()) + 1 + fmt::columns(word) <= width {
            let line = before.last() + seq![' '] + word;
            lemma_ink_of_all_push(before.drop_last(), line);
            lemma_ink_add(before.last() + seq![' '], word);
            lemma_ink_push(before.last(), ' ');
            assert(before.last().push(' ') =~= before.last() + seq![' ']);
            assert(ink_of_all(fmt::layout(words, width)) =~= ink_of_all(words));
        } else {
            lemma_ink_of_chopped(word, width);
            lemma_ink_of_all_add(before, fmt::chopped(word, width));
        }
    }
}

/// Wrapping that is not cut off at the limit loses no character but spaces.
pub proof fn law_wrap_loses_no_character(s: Seq<char>, max_width: nat, max_lines: nat)
    requires
        fmt::layout(text::words(s, Sep::Char(' ')), fmt::line_width(max_width)).len()
            <= max_lines,
    ensures
        ink_of_all(fmt::wrapped(s, max_width, max_lines)) == ink(s),
{
    let words = text::words(s, Sep::Char(' '));
    let all = fmt::layout(words, fmt::line_width(max_width));
    lemma_ink_of_split(s);
    lemma_ink_of_nonempty(text::split(s, Sep::Char(' ')));
    lemma_ink_of_layout(words, fmt::line_width(max_width));
    if all.len() == 0 {
        let none = Seq::<char>::empty();
        lemma_ink_of_all_push(Seq::<Seq<char>>::empty(), none);
        assert(seq![none] =~= Seq::<Seq<char>>::empty().push(none));
        assert(ink_of_all(fmt::wrapped(s, max_width, max_lines)) =~= ink(s));
    }
}

/// The name of the unit with the given number of seconds.
pub open spec fn unit_name(secs: nat) -> char {
    if secs == fmt::DAY {
        'd'
    } else if secs == fmt::HOUR {
        'h'
    } else if secs == fmt::MINUTE {
        'm'
    } else {
        's'
    }
}

/// A number of a larger unit, and of a smaller one where it is not zero.
pub open spec fn duration_in(large: nat, large_secs: nat, small: nat, small_secs: nat) -> Seq<char> {
    fmt::units(large, unit_name(large_secs), small, unit_name(small_secs))
}

/// The two largest units that a span of time reaches: how many of the larger one it holds, how
/// many seconds that unit has, and the same of the smaller one.
pub open spec fn duration_parts(secs: nat) -> (nat, nat, nat, nat) {
    let m = fmt::MINUTE as nat;
    let h = fmt::HOUR as nat;
    let d = fmt::DAY as nat;
    if secs < m {
        (secs, 1nat, 0nat, 1nat)
    } else if secs < h {
        (secs / m, m, secs % m, 1nat)
    } else if secs < d {
        (secs / h, h, (secs % h) / m, m)
    } else {
        (secs / d, d, (secs % d) / h, h)
    }
}

/// A duration shows at most two units. They make up the whole span but for less than one of the
/// smaller unit, and the smaller unit never makes up one of the larger.
pub proof fn law_duration_rounds_down(secs: nat)
    ensures
        ({
            let (large, large_secs, small, small_secs) = duration_parts(secs);
            &&& fmt::duration_text(secs) == duration_in(large, large_secs, small, small_secs)
            &&& large * large_secs + small * small_secs <= secs
            &&& secs < large * large_secs + small * small_secs + small_secs
            &&& small * small_secs < large_secs
        }),
{
    let (large, large_secs, small, small_secs) = duration_parts(secs);
    if secs < 60 {
        assert(large * large_secs == secs) by (nonlinear_arith)
            requires
                large == secs,
                large_secs == 1,
        ;
        assert(small * small_secs == 0) by (nonlinear_arith)
            requires
                small == 0,
        ;
    } else if secs < 3600 {
        assert(large * large_secs == (secs / 60) * 60);
        assert(small * small_secs == small) by (nonlinear_arith)
            requires
                small_secs == 1,
        ;
    } else if secs < 86400 {
        assert(large * large_secs == (secs / 3600) * 3600);
        assert(small * small_secs == ((secs % 3600) / 60) * 60);
    } else {
        assert(large * large_secs == (secs / 86400) * 86400);
        assert(small * small_secs == ((secs % 86400) / 3600) * 3600);
    }
}

/// How much room a character takes: two columns for what is wide in East Asian scripts, and one
/// for all else. A text takes what its characters take.
pub proof fn law_what_columns_are(s: Seq<char>, c: char)
    ensures
        ({
            let n = c as u32;
            let wide = 0x1100 <= n <= 0x115f || 0x2e80 <= n <= 0x303e || 0x3041 <= n <= 0x4dbf
                || 0x4e00 <= n <= 0xa4cf || 0xac00 <= n <= 0xd7a3 || 0xf900 <= n <= 0xfaff || 0xfe30
                <= n <= 0xfe6f || 0xff00 <= n <= 0xff60 || 0xffe0 <= n <= 0xffe6 || 0x1f300 <= n
                <= 0x1f9ff || 0x20000 <= n <= 0x3fffd;
            fmt::columns(s.push(c)) == fmt::columns(s) + if wide {
                2int
            } else {
                1int
            }
        }),
        fmt::columns(Seq::<char>::empty()) == 0,
{
    assert(s.push(c).drop_last() =~= s);
}

/// What is cut to no room, or to one column, is an ellipsis; what fits stays as it is.
pub proof fn law_truncated_at_the_ends(s: Seq<char>, max: nat)
    ensures
        fmt::columns(s) <= max ==> fmt::truncated(s, max) == s,
        fmt::columns(s) > max && max <= 1 ==> fmt::truncated(s, max) == seq!['…'],
{
}

/// Padding puts spaces behind a text, and nothing else.
pub proof fn law_padding_is_spaces(s: Seq<char>, to: nat)
    ensures
        ({
            let t = fmt::padded(s, to);
            &&& t.len() >= s.len()
            &&& t.take(s.len() as int) == s
            &&& forall|i: int| s.len() <= i < t.len() ==> #[trigger] t[i] == ' '
        }),
{
    let t = fmt::padded(s, to);
    assert(t.take(s.len() as int) =~= s);
}

/// How a span of time is written: seconds, minutes and seconds, hours and minutes, or days and
/// hours. The smaller unit is left out where there is none of it.
pub proof fn law_how_durations_are_written(secs: nat)
    ensures
        ({
            let t = fmt::duration_text(secs);
            let with = |large: nat, l: char, small: nat, m: char|
                num::dec(large) + seq![l] + (if small == 0 {
                    Seq::<char>::empty()
                } else {
                    seq![' '] + num::dec(small) + seq![m]
                });
            &&& secs < 60 ==> t == num::dec(secs) + seq!['s']
            &&& 60 <= secs < 3600 ==> t == with(secs / 60, 'm', secs % 60, 's')
            &&& 3600 <= secs < 86400 ==> t == with(secs / 3600, 'h', (secs % 3600) / 60, 'm')
            &&& secs >= 86400 ==> t == with(secs / 86400, 'd', (secs % 86400) / 3600, 'h')
        }),
{
    let t = fmt::duration_text(secs);
    if secs < 60 {
        assert(t =~= num::dec(secs) + seq!['s']);
    } else if secs < 3600 {
        lemma_units(secs / 60, 'm', secs % 60, 's');
    } else if secs < 86400 {
        lemma_units(secs / 3600, 'h', (secs % 3600) / 60, 'm');
    } else {
        lemma_units(secs / 86400, 'd', (secs % 86400) / 3600, 'h');
    }
}

proof fn lemma_units(large: nat, l: char, small: nat, m: char)
    ensures
        fmt::units(large, l, small, m) == num::dec(large) + seq![l] + (if small == 0 {
            Seq::<char>::empty()
        } else {
            seq![' '] + num::dec(small) + seq![m]
        }),
{
    let t = fmt::units(large, l, small, m);
    if small == 0 {
        assert(t =~= num::dec(large) + seq![l] + Seq::<char>::empty());
    } else {
        assert(t =~= num::dec(large) + seq![l] + (seq![' '] + num::dec(small) + seq![m]));
    }
}

/// A number that is filled up with zeros takes at least the room asked for and stands for itself.
pub proof fn law_zeros_keep_the_number(n: nat, width: nat)
    ensures
        num::zero_padded(n as int, width).len() >= width,
        num::run_value(num::zero_padded(n as int, width), 10) == Some(n),
        num::zero_padded(n as int, width).len() > width ==> num::zero_padded(n as int, width)
            == num::dec(n),
{
    let d = num::dec(n);
    let k = if d.len() < width {
        (width - d.len()) as nat
    } else {
        0
    };
    num::lemma_digits_back(n, 10);
    lemma_zeros_value(k, d);
    let t = num::zero_padded(n as int, width);
    assert(t =~= num::zeros(k) + d);
    if k == 0 {
        assert(t =~= d);
    }
}

proof fn lemma_zeros_value(k: nat, d: Seq<char>)
    ensures
        num::run_value(num::zeros(k) + d, 10) == num::run_value(d, 10),
    decreases d.len(),
{
    let s = num::zeros(k) + d;
    if d.len() == 0 {
        assert(s =~= num::zeros(k));
        lemma_zeros_alone(k);
    } else {
        lemma_zeros_value(k, d.drop_last());
        assert(s.drop_last() =~= num::zeros(k) + d.drop_last());
        assert(s.last() == d.last());
    }
}

proof fn lemma_zeros_alone(k: nat)
    ensures
        num::run_value(num::zeros(k), 10) == Some(0nat),
    decreases k,
{
    if k > 0 {
        lemma_zeros_alone((k - 1) as nat);
        assert(num::zeros(k).drop_last() =~= num::zeros((k - 1) as nat));
        num::lemma_digit_back(0, 10);
    }
}

/// How a moment is written: the year in four digits, and month, day, hour, minute and second in
/// two, in this order and with the usual signs between them. A moment that the calendar has no
/// place for is written as its number of seconds.
pub proof fn law_how_moments_are_written(unix: nat, t: CalendarTime)
    requires
        0 <= t.year + 1900 <= 9999,
        0 <= t.mon < 99,
        0 <= t.mday < 100,
        0 <= t.hour < 100,
        0 <= t.min < 100,
        0 <= t.sec < 100,
    ensures
        ({
            let w = fmt::local_time_text(unix, Some(t));
            &&& w.len() == 19
            &&& num::run_value(w.subrange(0, 4), 10) == Some((t.year + 1900) as nat)
            &&& w[4] == '-'
            &&& num::run_value(w.subrange(5, 7), 10) == Some((t.mon + 1) as nat)
            &&& w[7] == '-'
            &&& num::run_value(w.subrange(8, 10), 10) == Some(t.mday as nat)
            &&& w[10] == ' '
            &&& num::run_value(w.subrange(11, 13), 10) == Some(t.hour as nat)
            &&& w[13] == ':'
            &&& num::run_value(w.subrange(14, 16), 10) == Some(t.min as nat)
            &&& w[16] == ':'
            &&& num::run_value(w.subrange(17, 19), 10) == Some(t.sec as nat)
        }),
        fmt::local_time_text(unix, None) == num::dec(unix),
{
    let a = num::zero_padded(t.year + 1900, 4);
    let b = num::zero_padded(t.mon + 1, 2);
    let c = num::zero_padded(t.mday as int, 2);
    let d = num::zero_padded(t.hour as int, 2);
    let e = num::zero_padded(t.min as int, 2);
    let f = num::zero_padded(t.sec as int, 2);
    lemma_filled((t.year + 1900) as nat, 4);
    lemma_filled((t.mon + 1) as nat, 2);
    lemma_filled(t.mday as nat, 2);
    lemma_filled(t.hour as nat, 2);
    lemma_filled(t.min as nat, 2);
    lemma_filled(t.sec as nat, 2);
    let w = fmt::local_time_text(unix, Some(t));
    assert(w.subrange(0, 4) =~= a);
    assert(w.subrange(5, 7) =~= b);
    assert(w.subrange(8, 10) =~= c);
    assert(w.subrange(11, 13) =~= d);
    assert(w.subrange(14, 16) =~= e);
    assert(w.subrange(17, 19) =~= f);
}

/// A number that fits the room takes exactly that.
proof fn lemma_filled(n: nat, width: nat)
    requires
        width == 2 && n < 100 || width == 4 && n < 10000,
    ensures
        num::zero_padded(n as int, width).len() == width,
        num::run_value(num::zero_padded(n as int, width), 10) == Some(n),
{
    law_zeros_keep_the_number(n, width);
    reveal_with_fuel(num::digits, 5);
}

/// The first run of characters that are no spaces.
pub open spec fn lead(line: Seq<char>) -> Seq<char> {
    text::split(line, Sep::Char(' '))[0]
}

/// The pieces of all lines, between spaces.
pub open spec fn pieces_of(lines: Seq<Seq<char>>) -> Seq<Seq<char>>
    decreases lines.len(),
{
    if lines.len() == 0 {
        Seq::<Seq<char>>::empty()
    } else {
        pieces_of(lines.drop_last()) + text::split(lines.last(), Sep::Char(' '))
    }
}

proof fn lemma_pieces_push(lines: Seq<Seq<char>>, line: Seq<char>)
    ensures
        pieces_of(lines.push(line)) == pieces_of(lines) + text::split(line, Sep::Char(' ')),
{
    assert(lines.push(line).drop_last() =~= lines);
}

proof fn lemma_layout_pieces(words: Seq<Seq<char>>, width: nat)
    requires
        width >= 2,
        solid(words, Sep::Char(' ')),
        forall|i: int| 0 <= i < words.len() ==> fmt::columns(#[trigger] words[i]) <= width,
    ensures
        pieces_of(fmt::layout(words, width)) == words,
    decreases words.len(),
{
    if words.len() == 0 {
        assert(pieces_of(fmt::layout(words, width)) =~= words);
    } else {
        let front = words.drop_last();
        let word = words[words.len() - 1];
        assert forall|i: int, j: int|
            0 <= i < front.len() && 0 <= j < front[i].len() implies !text::separates(
            Sep::Char(' '),
            #[trigger] front[i][j],
        ) by {
            assert(!text::separates(Sep::Char(' '), words[i][j]));
        }
        assert forall|i: int| 0 <= i < front.len() implies (#[trigger] front[i]).len() > 0
            && fmt::columns(front[i]) <= width by {
            assert(words[i].len() > 0 && fmt::columns(words[i]) <= width);
        }
        lemma_layout_pieces(front, width);
        let before = fmt::layout(front, width);
        assert forall|j: int| 0 <= j < word.len() implies !text::separates(
            Sep::Char(' '),
            #[trigger] word[j],
        ) by {
            assert(!text::separates(Sep::Char(' '), words[words.len() - 1][j]));
        }
        text::lemma_split_solid(word, Sep::Char(' '));
        if before.len() > 0 && fmt::columns(before.last()) + 1 + fmt::columns(word) <= width {
            let line = before.last() + seq![' '] + word;
            lemma_pieces_push(before.drop_last(), line);
            text::lemma_split_around(before.last(), ' ', word, Sep::Char(' '));
            assert(pieces_of(before.drop_last().push(line)) =~= pieces_of(before).push(word));
        } else {
            fmt::lemma_chopped_widths(word, width);
            assert(words[words.len() - 1].len() > 0);
            assert(before + seq![word] =~= before.push(word));
            lemma_pieces_push(before, word);
            assert(pieces_of(before.push(word)) =~= pieces_of(before).push(word));
        }
        assert(front.push(word) =~= words);
    }
}

/// Wrapping breaks at spaces where it can: where every word fits on a line and the text is not cut
/// off, the lines hold the words of the text, whole and in order.
pub proof fn law_wrap_breaks_at_spaces(s: Seq<char>, max_width: nat, max_lines: nat)
    requires
        forall|i: int|
            0 <= i < text::words(s, Sep::Char(' ')).len() ==> fmt::columns(
                #[trigger] text::words(s, Sep::Char(' '))[i],
            ) <= max_width,
        text::words(s, Sep::Char(' ')).len() > 0,
        fmt::wrapped(s, max_width, max_lines).len() <= max_lines,
    ensures
        pieces_of(fmt::wrapped(s, max_width, max_lines)) == text::words(s, Sep::Char(' ')),
{
    let words = text::words(s, Sep::Char(' '));
    let width = fmt::line_width(max_width);
    law_words_are_solid(s, Sep::Char(' '));
    assert forall|i: int| 0 <= i < words.len() implies fmt::columns(#[trigger] words[i])
        <= width by {}
    lemma_layout_pieces(words, width);
    let all = fmt::layout(words, width);
    if all.len() == 0 {
        assert(pieces_of(all).len() == 0);
    }
}

/// Whether no line could have taken the first run of characters of the line below it.
pub open spec fn filled_up(lines: Seq<Seq<char>>, width: nat) -> bool {
    forall|i: int|
        0 <= i < lines.len() - 1 ==> fmt::columns(#[trigger] lines[i]) + 1 + fmt::columns(
            lead(lines[i + 1]),
        ) > width
}

proof fn lemma_chopped_full(word: Seq<char>, width: nat)
    requires
        width >= 2,
    ensures
        forall|i: int|
            0 <= i < fmt::chopped(word, width).len() - 1 ==> fmt::columns(
                #[trigger] fmt::chopped(word, width)[i],
            ) >= width - 1,
    decreases word.len(),
{
    if word.len() > 0 {
        let front = word.drop_last();
        lemma_chopped_full(front, width);
        let before = fmt::chopped(front, width);
        let all = fmt::chopped(word, width);
        assert forall|i: int| 0 <= i < all.len() - 1 implies fmt::columns(#[trigger] all[i])
            >= width - 1 by {
            assert(all[i] == before[i]);
        }
    }
}

proof fn lemma_chopped_solid(word: Seq<char>, width: nat)
    requires
        forall|j: int| 0 <= j < word.len() ==> #[trigger] word[j] != ' ',
    ensures
        forall|i: int, j: int|
            0 <= i < fmt::chopped(word, width).len() && 0 <= j < fmt::chopped(word, width)[i].len()
                ==> #[trigger] fmt::chopped(word, width)[i][j] != ' ',
    decreases word.len(),
{
    if word.len() > 0 {
        let front = word.drop_last();
        assert forall|j: int| 0 <= j < front.len() implies #[trigger] front[j] != ' ' by {
            assert(front[j] == word[j]);
        }
        lemma_chopped_solid(front, width);
        let before = fmt::chopped(front, width);
        let all = fmt::chopped(word, width);
        assert(word[word.len() - 1] != ' ');
        assert forall|i: int, j: int| 0 <= i < all.len() && 0 <= j < all[i].len() implies (
        #[trigger] all[i][j]) != ' ' by {
            if i < before.len() - 1 {
                assert(all[i] == before[i]);
                assert(before[i][j] != ' ');
            } else if i < before.len() && j < before[i].len() {
                assert(all[i][j] == before[i][j]);
            }
        }
    }
}

proof fn lemma_lead_solid(s: Seq<char>)
    requires
        forall|j: int| 0 <= j < s.len() ==> #[trigger] s[j] != ' ',
    ensures
        lead(s) == s,
{
    text::lemma_split_solid(s, Sep::Char(' '));
}

proof fn lemma_lead_more(s: Seq<char>, word: Seq<char>)
    ensures
        lead(s + seq![' '] + word) == lead(s),
{
    text::lemma_split_around(s, ' ', word, Sep::Char(' '));
    text::lemma_split_len(s, Sep::Char(' '));
}

proof fn lemma_layout_filled(words: Seq<Seq<char>>, width: nat)
    requires
        width >= 2,
        solid(words, Sep::Char(' ')),
    ensures
        filled_up(fmt::layout(words, width), width),
        forall|i: int|
            0 <= i < fmt::layout(words, width).len() ==> fmt::columns(
                #[trigger] fmt::layout(words, width)[i],
            ) >= 1,
    decreases words.len(),
{
    if words.len() > 0 {
        let front = words.drop_last();
        let word = words[words.len() - 1];
        assert forall|i: int, j: int|
            0 <= i < front.len() && 0 <= j < front[i].len() implies !text::separates(
            Sep::Char(' '),
            #[trigger] front[i][j],
        ) by {
            assert(!text::separates(Sep::Char(' '), words[i][j]));
        }
        assert forall|i: int| 0 <= i < front.len() implies (#[trigger] front[i]).len() > 0 by {
            assert(words[i].len() > 0);
        }
        lemma_layout_filled(front, width);
        assert forall|j: int| 0 <= j < word.len() implies #[trigger] word[j] != ' ' by {
            assert(!text::separates(Sep::Char(' '), words[words.len() - 1][j]));
        }
        assert(words[words.len() - 1].len() > 0);
        let before = fmt::layout(front, width);
        if before.len() > 0 && fmt::columns(before.last()) + 1 + fmt::columns(word) <= width {
            lemma_filled_more(before, word, width);
        } else {
            lemma_filled_next(before, word, width);
        }
    }
}

proof fn lemma_filled_more(before: Seq<Seq<char>>, word: Seq<char>, width: nat)
    requires
        before.len() > 0,
        filled_up(before, width),
        forall|i: int| 0 <= i < before.len() ==> fmt::columns(#[trigger] before[i]) >= 1,
    ensures
        ({
            let all = before.drop_last().push(before.last() + seq![' '] + word);
            &&& filled_up(all, width)
            &&& forall|i: int| 0 <= i < all.len() ==> fmt::columns(#[trigger] all[i]) >= 1
        }),
{
    let line = before.last() + seq![' '] + word;
    let all = before.drop_last().push(line);
    lemma_lead_more(before.last(), word);
    assert(before[before.len() - 1] == before.last());
    fmt::lemma_columns_add(before.last(), seq![' ']);
    fmt::lemma_columns_add(before.last() + seq![' '], word);
    assert forall|i: int| 0 <= i < all.len() - 1 implies fmt::columns(#[trigger] all[i]) + 1
        + fmt::columns(lead(all[i + 1])) > width by {
        assert(all[i] == before[i]);
        assert(lead(all[i + 1]) == lead(before[i + 1]));
    }
    assert forall|i: int| 0 <= i < all.len() implies fmt::columns(#[trigger] all[i]) >= 1 by {
        if i < all.len() - 1 {
            assert(all[i] == before[i]);
        }
    }
}

proof fn lemma_filled_next(before: Seq<Seq<char>>, word: Seq<char>, width: nat)
    requires
        width >= 2,
        word.len() > 0,
        forall|j: int| 0 <= j < word.len() ==> #[trigger] word[j] != ' ',
        filled_up(before, width),
        forall|i: int| 0 <= i < before.len() ==> fmt::columns(#[trigger] before[i]) >= 1,
        before.len() > 0 ==> fmt::columns(before.last()) + 1 + fmt::columns(word) > width,
    ensures
        ({
            let all = before + fmt::chopped(word, width);
            &&& filled_up(all, width)
            &&& forall|i: int| 0 <= i < all.len() ==> fmt::columns(#[trigger] all[i]) >= 1
        }),
{
    let more = fmt::chopped(word, width);
    let all = before + more;
    fmt::lemma_chopped_widths(word, width);
    lemma_chopped_full(word, width);
    lemma_chopped_solid(word, width);
    assert forall|i: int| 0 <= i < more.len() implies lead(#[trigger] more[i]) == more[i] by {
        assert forall|j: int| 0 <= j < more[i].len() implies #[trigger] more[i][j] != ' ' by {}
        lemma_lead_solid(more[i]);
    }
    assert forall|i: int| 0 <= i < all.len() - 1 implies fmt::columns(#[trigger] all[i]) + 1
        + fmt::columns(lead(all[i + 1])) > width by {
        if i + 1 < before.len() {
            assert(all[i] == before[i] && all[i + 1] == before[i + 1]);
        } else if i + 1 == before.len() {
            assert(all[i] == before[i] && all[i + 1] == more[0]);
            assert(lead(more[0]) == more[0]);
            if fmt::columns(word) <= width {
                assert(more[0] == word);
            } else {
                lemma_columns_of_one(word, width);
                assert(fmt::columns(more[0]) >= width - 1);
            }
        } else {
            let k = i - before.len();
            assert(all[i] == more[k] && all[i + 1] == more[k + 1]);
            assert(lead(more[k + 1]) == more[k + 1]);
            assert(fmt::columns(more[k]) >= width - 1);
        }
    }
    assert forall|i: int| 0 <= i < all.len() implies fmt::columns(#[trigger] all[i]) >= 1 by {
        if i < before.len() {
            assert(all[i] == before[i]);
        } else {
            assert(all[i] == more[i - before.len()]);
        }
    }
}

/// A word that is wider than a line is chopped into at least two pieces.
proof fn lemma_columns_of_one(word: Seq<char>, width: nat)
    requires
        width >= 2,
        fmt::columns(word) > width,
    ensures
        fmt::chopped(word, width).len() >= 2,
{
    fmt::lemma_chopped_widths(word, width);
    let all = fmt::chopped(word, width);
    if all.len() == 1 {
        lemma_chopped_whole(word, width);
        assert(all[0] == word);
    }
}

proof fn lemma_chopped_whole(word: Seq<char>, width: nat)
    ensures
        fmt::chopped(word, width).len() == 1 ==> fmt::chopped(word, width)[0] == word,
        word.len() > 0 ==> fmt::chopped(word, width).len() >= 1,
    decreases word.len(),
{
    if word.len() > 0 {
        let front = word.drop_last();
        lemma_chopped_whole(front, width);
        let before = fmt::chopped(front, width);
        assert(front.push(word.last()) =~= word);
        if before.len() == 0 {
            assert(seq![word.last()] =~= word);
        }
    }
}

/// Wrapping fills its lines: none could have taken the first word, or piece of a word, of the line
/// below it.
pub proof fn law_wrap_fills_its_lines(s: Seq<char>, max_width: nat, max_lines: nat)
    requires
        fmt::wrapped(s, max_width, max_lines).len() <= max_lines,
    ensures
        filled_up(
            fmt::wrapped(s, max_width, max_lines),
            if max_width < 8 {
                8
            } else {
                max_width
            },
        ),
{
    law_words_are_solid(s, Sep::Char(' '));
    lemma_layout_filled(text::words(s, Sep::Char(' ')), fmt::line_width(max_width));
}

/// What is cut off at a limit is the end: the lines in front of the ellipsis are those that a
/// larger limit would have kept too.
pub proof fn law_wrap_cuts_the_end(s: Seq<char>, max_width: nat, few: nat, many: nat)
    requires
        few < fmt::wrapped(s, max_width, many).len() <= many,
        s.len() > 0,
        text::words(s, Sep::Char(' ')).len() > 0,
    ensures
        fmt::wrapped(s, max_width, few) == fmt::wrapped(s, max_width, many).take(few as int).push(
            seq!['…'],
        ),
{
    let words = text::words(s, Sep::Char(' '));
    law_words_are_solid(s, Sep::Char(' '));
    assert(words[words.len() - 1].len() > 0);
    lemma_layout_some(words, fmt::line_width(max_width));
}

proof fn lemma_layout_some(words: Seq<Seq<char>>, width: nat)
    requires
        words.len() > 0,
        words.last().len() > 0,
        width >= 2,
    ensures
        fmt::layout(words, width).len() > 0,
{
    fmt::lemma_chopped_widths(words.last(), width);
}

} // verus!
