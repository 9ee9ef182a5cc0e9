//! Text for a terminal: display widths, cleaning, truncation, wrapping, times and colours.

use crate::num;
use crate::text;
use vstd::prelude::*;

verus! {

/// The main ranges of East Asian wide and fullwidth characters.
pub open spec fn is_wide(c: char) -> bool {
    let n = c as u32;
    ||| 0x1100 <= n <= 0x115f
    ||| 0x2e80 <= n <= 0x303e
    ||| 0x3041 <= n <= 0x33ff
    ||| 0x3400 <= n <= 0x4dbf
    ||| 0x4e00 <= n <= 0x9fff
    ||| 0xa000 <= n <= 0xa4cf
    ||| 0xac00 <= n <= 0xd7a3
    ||| 0xf900 <= n <= 0xfaff
    ||| 0xfe30 <= n <= 0xfe6f
    ||| 0xff00 <= n <= 0xff60
    ||| 0xffe0 <= n <= 0xffe6
    ||| 0x1f300 <= n <= 0x1f9ff
    ||| 0x20000 <= n <= 0x3fffd
}

/// How many columns of a terminal a character takes.
pub open spec fn char_columns(c: char) -> nat {
    if is_wide(c) {
        2
    } else {
        1
    }
}

/// How many columns of a terminal a text takes.
pub open spec fn columns(s: Seq<char>) -> nat
    decreases s.len(),
{
    if s.len() == 0 {
        0
    } else {
        columns(s.drop_last()) + char_columns(s.last())
    }
}

/// The words of `s`, which spaces and control characters end, with one space between any two.
pub open spec fn sanitized(s: Seq<char>) -> Seq<char> {
    text::join(text::words(s, text::Sep::Blank), seq![' '])
}

/// The longest beginning of `s` that takes at most `max` columns.
pub open spec fn fitting(s: Seq<char>, max: nat) -> Seq<char>
    decreases s.len(),
{
    if columns(s) <= max {
        s
    } else {
        fitting(s.drop_last(), max)
    }
}

/// `s` itself where it takes at most `max` columns, else a beginning of it and an ellipsis.
pub open spec fn truncated(s: Seq<char>, max: nat) -> Seq<char> {
    if columns(s) <= max {
        s
    } else if max <= 1 {
        seq!['…']
    } else {
        fitting(s, (max - 1) as nat).push('…')
    }
}

/// `s` and as many spaces as it needs to take `to` columns.
pub open spec fn padded(s: Seq<char>, to: nat) -> Seq<char> {
    if columns(s) >= to {
        s
    } else {
        s + text::spaces((to - columns(s)) as nat)
    }
}

/// `word` cut into pieces of at most `width` columns, each as long as it can be.
pub open spec fn chopped(word: Seq<char>, width: nat) -> Seq<Seq<char>>
    decreases word.len(),
{
    if word.len() == 0 {
        Seq::<Seq<char>>::empty()
    } else {
        let before = chopped(word.drop_last(), width);
        if before.len() > 0 && columns(before.last()) + char_columns(word.last()) <= width {
            before.drop_last().push(before.last().push(word.last()))
        } else {
            before.push(seq![word.last()])
        }
    }
}

/// The words on lines of at most `width` columns: a word that fits on the line behind a space
/// goes there, any other starts a line, and one that is wider than a line is chopped.
pub open spec fn layout(words: Seq<Seq<char>>, width: nat) -> Seq<Seq<char>>
    decreases words.len(),
{
    if words.len() == 0 {
        Seq::<Seq<char>>::empty()
    } else {
        let before = layout(words.drop_last(), width);
        let word = words.last();
        if before.len() > 0 && columns(before.last()) + 1 + columns(word) <= width {
            before.drop_last().push(before.last() + seq![' '] + word)
        } else {
            before + chopped(word, width)
        }
    }
}

/// The narrowest line that text is wrapped to.
pub open spec fn line_width(max_width: nat) -> nat {
    if max_width < 8 {
        8
    } else {
        max_width
    }
}

/// `s` on lines of at most `max_width` columns (and never under eight). Where that takes more
/// than `max_lines` lines, a line with an ellipsis stands for the rest: with a limit of zero it
/// stands alone. An empty text is one empty line.
pub open spec fn wrapped(s: Seq<char>, max_width: nat, max_lines: nat) -> Seq<Seq<char>> {
    let all = layout(text::words(s, text::Sep::Char(' ')), line_width(max_width));
    if all.len() == 0 {
        seq![Seq::<char>::empty()]
    } else if all.len() > max_lines {
        all.take(max_lines as int).push(seq!['…'])
    } else {
        all
    }
}

/// The seconds of a minute, an hour and a day.
pub const MINUTE: u64 = 60;

pub const HOUR: u64 = 3600;

pub const DAY: u64 = 86400;

/// One or two units of time: the larger one, and the smaller one where it is not zero.
pub open spec fn units(large: nat, large_unit: char, small: nat, small_unit: char) -> Seq<char> {
    if small == 0 {
        num::dec(large).push(large_unit)
    } else {
        num::dec(large).push(large_unit).push(' ') + num::dec(small).push(small_unit)
    }
}

/// A span of time in the two largest units that it reaches.
pub open spec fn duration_text(secs: nat) -> Seq<char> {
    if secs < MINUTE {
        num::dec(secs).push('s')
    } else if secs < HOUR {
        units(secs / MINUTE as nat, 'm', secs % MINUTE as nat, 's')
    } else if secs < DAY {
        units(secs / HOUR as nat, 'h', (secs % HOUR as nat) / MINUTE as nat, 'm')
    } else {
        units(secs / DAY as nat, 'd', (secs % DAY as nat) / HOUR as nat, 'h')
    }
}

/// A moment in the local time zone, counted as the C library counts it: years from 1900 and
/// months from zero.
#[derive(Clone, Copy, Debug)]
pub struct CalendarTime {
    pub year: i32,
    pub mon: i32,
    pub mday: i32,
    pub hour: i32,
    pub min: i32,
    pub sec: i32,
}

/// `YYYY-MM-DD HH:MM:SS`.
pub open spec fn calendar_text(t: CalendarTime) -> Seq<char> {
    num::zero_padded(t.year + 1900, 4).push('-') + num::zero_padded(t.mon + 1, 2).push('-')
        + num::zero_padded(t.mday as int, 2).push(' ') + num::zero_padded(t.hour as int, 2).push(':')
        + num::zero_padded(t.min as int, 2).push(':') + num::zero_padded(t.sec as int, 2)
}

/// A moment as a calendar time, or as a count of seconds where the calendar has no place for it.
pub open spec fn local_time_text(unix: nat, t: Option<CalendarTime>) -> Seq<char> {
    match t {
        Some(t) => calendar_text(t),
        None => num::dec(unix),
    }
}

/// Whether the counts of a calendar time can be shown: its year and its month fit once they are
/// counted as people count them.
pub open spec fn showable(t: Option<CalendarTime>) -> bool {
    match t {
        Some(t) => t.year + 1900 <= i32::MAX && t.mon < i32::MAX,
        None => true,
    }
}

/// Two texts side by side take the columns of both.
pub proof fn lemma_columns_add(a: Seq<char>, b: Seq<char>)
    ensures
        columns(a + b) == columns(a) + columns(b),
    decreases b.len(),
{
    if b.len() == 0 {
        assert(a + b =~= a);
    } else {
        lemma_columns_add(a, b.drop_last());
        assert((a + b).drop_last() =~= a + b.drop_last());
    }
}

/// One more character.
pub proof fn lemma_columns_push(a: Seq<char>, c: char)
    ensures
        columns(a.push(c)) == columns(a) + char_columns(c),
{
    assert(a.push(c).drop_last() =~= a);
}

/// A beginning of a text takes no more columns than the text.
pub proof fn lemma_columns_take(s: Seq<char>, i: int)
    requires
        0 <= i <= s.len(),
    ensures
        columns(s.take(i)) <= columns(s),
{
    assert(s =~= s.take(i) + s.skip(i));
    lemma_columns_add(s.take(i), s.skip(i));
}

/// Spaces take one column each.
pub proof fn lemma_columns_spaces(n: nat)
    ensures
        columns(text::spaces(n)) == n,
    decreases n,
{
    if n > 0 {
        assert(text::spaces(n).drop_last() =~= text::spaces((n - 1) as nat));
        lemma_columns_spaces((n - 1) as nat);
    }
}

/// A text takes no more columns than its UTF-8 encoding has bytes.
proof fn lemma_columns_within_bytes(s: Seq<char>)
    ensures
        columns(s) <= vstd::utf8::encode_utf8(s).len(),
    decreases s.len(),
{
    if s.len() > 0 {
        let rest = s.drop_first();
        lemma_columns_within_bytes(rest);
        assert(s =~= seq![s[0]] + rest);
        lemma_columns_add(seq![s[0]], rest);
        assert(seq![s[0]].drop_last() =~= Seq::<char>::empty());
        assert(columns(seq![s[0]]) == char_columns(s[0])) by {
            reveal_with_fuel(columns, 2);
        }
    }
}

/// What fits is a beginning of the text and takes at most `max` columns.
pub proof fn lemma_fitting(s: Seq<char>, max: nat)
    ensures
        columns(fitting(s, max)) <= max,
        fitting(s, max).len() <= s.len(),
        fitting(s, max) == s.take(fitting(s, max).len() as int),
    decreases s.len(),
{
    if columns(s) <= max {
        assert(s.take(s.len() as int) =~= s);
    } else {
        lemma_fitting(s.drop_last(), max);
        let n = fitting(s, max).len() as int;
        assert(s.drop_last().take(n) =~= s.take(n));
    }
}

/// A beginning that fits and cannot be one character longer is the longest that fits.
proof fn lemma_fitting_is(s: Seq<char>, i: int, max: nat)
    requires
        0 <= i < s.len(),
        columns(s.take(i)) <= max,
        columns(s.take(i + 1)) > max,
    ensures
        fitting(s, max) == s.take(i),
    decreases s.len(),
{
    lemma_columns_take(s, i + 1);
    if i + 1 < s.len() {
        assert(s.drop_last().take(i) =~= s.take(i));
        assert(s.drop_last().take(i + 1) =~= s.take(i + 1));
        lemma_fitting_is(s.drop_last(), i, max);
    } else {
        assert(s.drop_last() =~= s.take(i));
        assert(fitting(s.take(i), max) == s.take(i));
    }
}

/// How many columns a character takes.
pub fn char_width(c: char) -> (r: usize)
    ensures
        r == char_columns(c),
{
    let n: u32 = c as u32;
    let wide = (0x1100 <= n && n <= 0x115f) || (0x2e80 <= n && n <= 0x303e) || (0x3041 <= n && n
        <= 0x33ff) || (0x3400 <= n && n <= 0x4dbf) || (0x4e00 <= n && n <= 0x9fff) || (0xa000 <= n
        && n <= 0xa4cf) || (0xac00 <= n && n <= 0xd7a3) || (0xf900 <= n && n <= 0xfaff) || (0xfe30
        <= n && n <= 0xfe6f) || (0xff00 <= n && n <= 0xff60) || (0xffe0 <= n && n <= 0xffe6) || (
    0x1f300 <= n && n <= 0x1f9ff) || (0x20000 <= n && n <= 0x3fffd);
    if wide {
        2
    } else {
        1
    }
}

/// How many columns a text takes in a terminal. Wide characters count twice, so that tables
/// stay aligned.
pub fn width(s: &str) -> (r: usize)
    ensures
        r == columns(s@),
{
    let bytes: usize = s.as_bytes().len();
    proof {
        lemma_columns_within_bytes(s@);
    }
    match measure(text::chars_of(s).as_slice(), bytes) {
        Some(w) => w,
        None => 0,
    }
}

/// How many columns the characters take, where that is at most `max`.
pub fn measure(s: &[char], max: usize) -> (r: Option<usize>)
    ensures
        match r {
            Some(w) => w == columns(s@) && w <= max,
            None => columns(s@) > max,
        },
{
    let mut w: usize = 0;
    for i in 0..s.len()
        invariant
            w == columns(s@.take(i as int)),
            w <= max,
    {
        let cw: usize = char_width(s[i]);
        assert(s@.take(i + 1).drop_last() =~= s@.take(i as int));
        if cw > max - w {
            proof {
                lemma_columns_take(s@, i + 1);
            }
            return None;
        }
        w = w + cw;
    }
    assert(s@.take(s.len() as int) =~= s@);
    Some(w)
}

/// Replaces control characters by spaces, folds runs of spaces into one and drops those at
/// either end, so that a text stays on its line and cannot drive the terminal.
pub fn sanitize(s: &str) -> (r: String)
    ensures
        r@ == sanitized(s@),
{
    let words = text::words_of(text::chars_of(s).as_slice(), text::Sep::Blank);
    join_words(&words)
}

/// The words with one space between any two.
pub fn join_words(words: &Vec<Vec<char>>) -> (r: String)
    ensures
        r@ == text::join(text::char_views(words@), seq![' ']),
{
    let ghost all = text::char_views(words@);
    let mut r = String::new();
    for i in 0..words.len()
        invariant
            all == text::char_views(words@),
            r@ == text::join(all.take(i as int), seq![' ']),
    {
        assert(all.take(i + 1).drop_last() =~= all.take(i as int));
        assert(all.take(i + 1).last() == words@[i as int]@);
        if i > 0 {
            r.push(' ');
        }
        text::push_chars(&mut r, words[i].as_slice());
        assert(r@ =~= text::join(all.take(i + 1), seq![' ']));
    }
    assert(all.take(all.len() as int) =~= all);
    r
}

/// Cuts a text down to `max` columns; an ellipsis stands for what is cut off.
pub fn truncate(s: &str, max: usize) -> (r: String)
    ensures
        r@ == truncated(s@, max as nat),
{
    let v = text::chars_of(s);
    if measure(v.as_slice(), max).is_some() {
        return text::string_of(v.as_slice());
    }
    let mut out = String::new();
    if max <= 1 {
        out.push('…');
        assert(out@ =~= seq!['…']);
        return out;
    }
    let room: usize = max - 1;
    let mut w: usize = 0;
    let mut i: usize = 0;
    while i < v.len() && char_width(v[i]) <= room - w
        invariant
            i <= v@.len(),
            w == columns(v@.take(i as int)),
            w <= room,
            out@ == v@.take(i as int),
        decreases v@.len() - i,
    {
        assert(v@.take(i + 1).drop_last() =~= v@.take(i as int));
        w = w + char_width(v[i]);
        out.push(v[i]);
        assert(out@ =~= v@.take(i + 1));
        i = i + 1;
    }
    proof {
        if i == v@.len() {
            assert(v@.take(i as int) =~= v@);
        } else {
            assert(v@.take(i + 1).drop_last() =~= v@.take(i as int));
            lemma_fitting_is(v@, i as int, room as nat);
        }
    }
    out.push('…');
    out
}

/// Wraps a text to lines of `max_width` columns, at spaces where it can, and cuts it off after
/// `max_lines` lines.
pub fn wrap(s: &str, max_width: usize, max_lines: usize) -> (r: Vec<String>)
    ensures
        text::views(r@) == wrapped(s@, max_width as nat, max_lines as nat),
{
    let limit: usize = if max_width < 8 {
        8
    } else {
        max_width
    };
    let words = text::words_of(text::chars_of(s).as_slice(), text::Sep::Char(' '));
    let all = lay_out(&words, limit);
    let ghost lines = text::char_views(all@);
    let mut r: Vec<String> = Vec::new();
    if all.len() == 0 {
        r.push(String::new());
        assert(text::views(r@) =~= seq![Seq::<char>::empty()]);
        return r;
    }
    let cut = all.len() > max_lines;
    let n: usize = if cut {
        max_lines
    } else {
        all.len()
    };
    for i in 0..n
        invariant
            n <= all@.len(),
            lines == text::char_views(all@),
            text::views(r@) == lines.take(i as int),
    {
        let line = text::string_of(all[i].as_slice());
        let ghost was = r@;
        r.push(line);
        assert(text::views(r@) =~= text::views(was).push(line@));
        assert(text::views(r@) =~= lines.take(i + 1));
    }
    if cut {
        let mut dots = String::new();
        dots.push('…');
        let ghost was = r@;
        r.push(dots);
        assert(dots@ =~= seq!['…']);
        assert(text::views(r@) =~= text::views(was).push(dots@));
    } else {
        assert(lines.take(n as int) =~= lines);
    }
    r
}

/// Every line of a layout takes at most the width it was made for.
pub proof fn lemma_chopped_widths(word: Seq<char>, width: nat)
    requires
        width >= 2,
    ensures
        word.len() > 0 ==> chopped(word, width).len() > 0,
        forall|i: int|
            0 <= i < chopped(word, width).len() ==> 0 < columns(#[trigger] chopped(word, width)[i])
                <= width,
        columns(word) <= width && word.len() > 0 ==> chopped(word, width) == seq![word],
    decreases word.len(),
{
    if word.len() > 0 {
        let front = word.drop_last();
        lemma_chopped_widths(front, width);
        let before = chopped(front, width);
        let c = word.last();
        if before.len() > 0 {
            lemma_columns_push(before.last(), c);
        }
        lemma_columns_push(Seq::<char>::empty(), c);
        assert(Seq::<char>::empty().push(c) =~= seq![c]);
        assert(front.push(c) =~= word);
        if columns(word) <= width {
            if front.len() > 0 {
                assert(before =~= seq![front]);
                assert(before.last().push(c) =~= word);
                assert(before.drop_last() =~= Seq::<Seq<char>>::empty());
                assert(chopped(word, width) =~= seq![word]);
            } else {
                assert(before =~= Seq::<Seq<char>>::empty());
                assert(word =~= seq![c]);
                assert(chopped(word, width) =~= seq![word]);
            }
        }
    }
}

/// The pieces of `word` of at most `width` columns.
fn chop(word: &[char], width: usize) -> (r: Vec<Vec<char>>)
    requires
        width >= 2,
    ensures
        text::char_views(r@) == chopped(word@, width as nat),
{
    let mut done: Vec<Vec<char>> = Vec::new();
    let mut cur: Vec<char> = Vec::new();
    let mut w: usize = 0;
    assert(text::char_views(done@) =~= chopped(word@.take(0), width as nat));
    for i in 0..word.len()
        invariant
            width >= 2,
            w == columns(cur@),
            w <= width,
            (cur@.len() == 0) == (i == 0),
            i == 0 ==> done@.len() == 0,
            chopped(word@.take(i as int), width as nat) == (if i == 0 {
                Seq::<Seq<char>>::empty()
            } else {
                text::char_views(done@).push(cur@)
            }),
    {
        let ghost before = chopped(word@.take(i as int), width as nat);
        assert(word@.take(i + 1).drop_last() =~= word@.take(i as int));
        let c = word[i];
        let cw: usize = char_width(c);
        proof {
            lemma_columns_push(cur@, c);
            lemma_columns_push(Seq::<char>::empty(), c);
            assert(Seq::<char>::empty().push(c) =~= seq![c]);
        }
        if i > 0 && cw <= width - w {
            assert(before.last() == cur@);
            assert(before.drop_last() =~= text::char_views(done@));
            cur.push(c);
            w = w + cw;
        } else {
            if i > 0 {
                let ghost was = done@;
                let ghost last = cur;
                done.push(cur);
                assert(text::char_views(done@) =~= text::char_views(was).push(last@));
            }
            cur = Vec::new();
            cur.push(c);
            assert(cur@ =~= seq![c]);
            w = cw;
            assert(text::char_views(done@) =~= before);
        }
    }
    assert(word@.take(word.len() as int) =~= word@);
    if word.len() > 0 {
        let ghost was = done@;
        let ghost last = cur;
        done.push(cur);
        assert(text::char_views(done@) =~= text::char_views(was).push(last@));
    } else {
        assert(text::char_views(done@) =~= Seq::<Seq<char>>::empty());
    }
    done
}

/// Appends the pieces.
fn extend(lines: &mut Vec<Vec<char>>, mut more: Vec<Vec<char>>)
    ensures
        text::char_views(final(lines)@) == text::char_views(old(lines)@) + text::char_views(more@),
{
    let ghost was = lines@;
    let ghost add = more@;
    lines.append(&mut more);
    assert(text::char_views(lines@) =~= text::char_views(was) + text::char_views(add));
}

/// The words on lines of at most `width` columns.
fn lay_out(words: &Vec<Vec<char>>, width: usize) -> (r: Vec<Vec<char>>)
    requires
        width >= 8,
    ensures
        text::char_views(r@) == layout(text::char_views(words@), width as nat),
{
    let ghost all = text::char_views(words@);
    let mut lines: Vec<Vec<char>> = Vec::new();
    assert(text::char_views(lines@) =~= layout(all.take(0), width as nat));
    for i in 0..words.len()
        invariant
            width >= 8,
            all == text::char_views(words@),
            text::char_views(lines@) == layout(all.take(i as int), width as nat),
    {
        let ghost before = text::char_views(lines@);
        let ghost word = words@[i as int]@;
        assert(all.take(i + 1).drop_last() =~= all.take(i as int));
        assert(all.take(i + 1).last() == word);
        let mut fits = false;
        if lines.len() > 0 {
            let last: usize = lines.len() - 1;
            assert(before.last() == lines@[last as int]@);
            match (measure(lines[last].as_slice(), width), measure(words[i].as_slice(), width)) {
                (Some(lw), Some(tw)) => {
                    fits = tw < width && lw <= width - 1 - tw;
                },
                _ => {},
            }
        }
        if fits {
            match lines.pop() {
                Some(mut line) => {
                    let ghost open = line@;
                    line.push(' ');
                    let mut word_copy = text::copy_chars(words[i].as_slice());
                    line.append(&mut word_copy);
                    assert(line@ =~= open + seq![' '] + word);
                    let ghost was = lines@;
                    lines.push(line);
                    assert(text::char_views(was) =~= before.drop_last());
                    assert(text::char_views(lines@) =~= text::char_views(was).push(line@));
                },
                None => {},
            }
        } else {
            extend(&mut lines, chop(words[i].as_slice(), width));
        }
    }
    assert(all.take(all.len() as int) =~= all);
    lines
}

/// A text that spaces fill up to `to` columns.
pub fn pad(s: &str, to: usize) -> (r: String)
    ensures
        r@ == padded(s@, to as nat),
{
    let v = text::chars_of(s);
    let mut r = text::string_of(v.as_slice());
    if let Some(w) = measure(v.as_slice(), to) {
        text::push_spaces(&mut r, to - w);
    }
    assert(r@ =~= padded(s@, to as nat));
    r
}

/// Appends one unit of time, or two.
fn push_units(out: &mut String, large: u64, large_unit: char, small: u64, small_unit: char)
    ensures
        final(out)@ == old(out)@ + units(large as nat, large_unit, small as nat, small_unit),
{
    num::push_dec(out, large);
    out.push(large_unit);
    if small != 0 {
        out.push(' ');
        num::push_dec(out, small);
        out.push(small_unit);
    }
    assert(out@ =~= old(out)@ + units(large as nat, large_unit, small as nat, small_unit));
}

/// A span of seconds as people read it, in at most two units, such as `3d 5h`.
pub fn duration(secs: u64) -> (r: String)
    ensures
        r@ == duration_text(secs as nat),
{
    let mut r = String::new();
    if secs < MINUTE {
        num::push_dec(&mut r, secs);
        r.push('s');
    } else if secs < HOUR {
        push_units(&mut r, secs / MINUTE, 'm', secs % MINUTE, 's');
    } else if secs < DAY {
        push_units(&mut r, secs / HOUR, 'h', (secs % HOUR) / MINUTE, 'm');
    } else {
        push_units(&mut r, secs / DAY, 'd', (secs % DAY) / HOUR, 'h');
    }
    assert(r@ =~= duration_text(secs as nat));
    r
}

/// A moment in local time as `YYYY-MM-DD HH:MM:SS`; the seconds themselves where the calendar
/// has no place for them.
pub fn local_time(unix: u64, t: Option<CalendarTime>) -> (r: String)
    requires
        showable(t),
    ensures
        r@ == local_time_text(unix as nat, t),
{
    match t {
        None => num::to_dec(unix),
        Some(t) => {
            let mut r = String::new();
            num::push_zero_padded(&mut r, t.year + 1900, 4);
            r.push('-');
            num::push_zero_padded(&mut r, t.mon + 1, 2);
            r.push('-');
            num::push_zero_padded(&mut r, t.mday, 2);
            r.push(' ');
            num::push_zero_padded(&mut r, t.hour, 2);
            r.push(':');
            num::push_zero_padded(&mut r, t.min, 2);
            r.push(':');
            num::push_zero_padded(&mut r, t.sec, 2);
            assert(r@ =~= calendar_text(t));
            r
        },
    }
}

/// `SystemTime::elapsed` of the Unix epoch, in whole seconds: how long ago the epoch was, or
/// nothing where the clock is set before it. It reads the clock, so nothing is claimed of it.
#[verifier::external_body]
fn since_epoch() -> (r: Option<u64>) {
    match std::time::UNIX_EPOCH.elapsed() {
        Ok(d) => Some(d.as_secs()),
        Err(_) => None,
    }
}

/// The current time that a reading of the clock stands for: zero where the clock is set before
/// the epoch.
pub fn clock_seconds(elapsed: Option<u64>) -> (r: u64)
    ensures
        r == (match elapsed {
            Some(s) => s,
            None => 0,
        }),
{
    match elapsed {
        Some(s) => s,
        None => 0,
    }
}

/// Whether the clock was read so: the seconds since the Unix epoch, or nothing where it was set
/// before it.
pub closed spec fn clock_read(e: Option<u64>) -> bool {
    call_ensures(since_epoch, (), e)
}

/// Whether a time is what a reading of the clock gave: the seconds since the Unix epoch, or zero
/// where the clock was set before it.
pub closed spec fn clock_gave(t: u64) -> bool {
    exists|e: Option<u64>| #[trigger]
        clock_read(e) && t == (match e {
            Some(s) => s,
            None => 0,
        })
}

/// The time is what the clock shows, no earlier and no later.
pub proof fn law_the_clock_is_taken_as_it_is(t: u64)
    ensures
        clock_gave(t) ==> clock_read(Some(t)) || (t == 0 && clock_read(None)),
        clock_read(Some(t)) ==> clock_gave(t),
        clock_read(None) ==> clock_gave(0),
{
}

/// The current time, in seconds since the Unix epoch.
pub fn now() -> (r: u64)
    ensures
        clock_gave(r),
{
    let elapsed = since_epoch();
    assert(clock_read(elapsed));
    clock_seconds(elapsed)
}

/// The columns of the terminal, from what the window size query returned: its status and the
/// columns it reported. Where the query fails or reports none, 120.
pub fn term_width(status: i32, columns: u16) -> (r: usize)
    ensures
        r == (if status == 0 && columns > 0 {
            columns as int
        } else {
            120
        }),
{
    if status == 0 && columns > 0 {
        columns as usize
    } else {
        120
    }
}

/// Whether a descriptor is a terminal, from what `isatty` returned for it.
pub fn is_tty(answer: i32) -> (r: bool)
    ensures
        r == (answer == 1),
{
    answer == 1
}

/// Whether output is coloured.
#[derive(Clone, Copy)]
pub struct Style {
    on: bool,
}

/// `s` between the escape sequence with the given code and the one that resets it, or bare.
pub open spec fn painted(on: bool, code: Seq<char>, s: Seq<char>) -> Seq<char> {
    if on {
        "\x1b["@ + code + "m"@ + s + "\x1b[0m"@
    } else {
        s
    }
}

/// Bold, dim and the colours in use.
pub open spec fn bold(on: bool, s: Seq<char>) -> Seq<char> {
    painted(on, "1"@, s)
}

pub open spec fn dim(on: bool, s: Seq<char>) -> Seq<char> {
    painted(on, "2"@, s)
}

pub open spec fn cyan(on: bool, s: Seq<char>) -> Seq<char> {
    painted(on, "36"@, s)
}

pub open spec fn green(on: bool, s: Seq<char>) -> Seq<char> {
    painted(on, "32"@, s)
}

pub open spec fn yellow(on: bool, s: Seq<char>) -> Seq<char> {
    painted(on, "33"@, s)
}

pub open spec fn red(on: bool, s: Seq<char>) -> Seq<char> {
    painted(on, "31"@, s)
}

impl Style {
    /// Whether this style emits colours.
    pub closed spec fn colored(self) -> bool {
        self.on
    }

    /// The style for an output: coloured on a terminal, unless `NO_COLOR` is set.
    pub fn detect(no_color: bool, tty: bool) -> (r: Self)
        ensures
            r.colored() == (!no_color && tty),
    {
        Style { on: !no_color && tty }
    }

    /// No colours.
    pub fn plain() -> (r: Self)
        ensures
            !r.colored(),
    {
        Style { on: false }
    }

    fn wrap(self, code: &str, s: &str) -> (r: String)
        ensures
            r@ == painted(self.colored(), code@, s@),
    {
        let mut r = String::new();
        if self.on {
            r.append("\x1b[");
            r.append(code);
            r.append("m");
            r.append(s);
            r.append("\x1b[0m");
        } else {
            r.append(s);
        }
        assert(r@ =~= painted(self.colored(), code@, s@));
        r
    }

    pub fn bold(self, s: &str) -> (r: String)
        ensures
            r@ == bold(self.colored(), s@),
    {
        self.wrap("1", s)
    }

    pub fn dim(self, s: &str) -> (r: String)
        ensures
            r@ == dim(self.colored(), s@),
    {
        self.wrap("2", s)
    }

    pub fn cyan(self, s: &str) -> (r: String)
        ensures
            r@ == cyan(self.colored(), s@),
    {
        self.wrap("36", s)
    }

    pub fn green(self, s: &str) -> (r: String)
        ensures
            r@ == green(self.colored(), s@),
    {
        self.wrap("32", s)
    }

    pub fn yellow(self, s: &str) -> (r: String)
        ensures
            r@ == yellow(self.colored(), s@),
    {
        self.wrap("33", s)
    }

    pub fn red(self, s: &str) -> (r: String)
        ensures
            r@ == red(self.colored(), s@),
    {
        self.wrap("31", s)
    }
}

} // verus!
