//! Laws of the JSON output: it is JSON, and reading it gives back every entry.

use crate::model;
use crate::model::{EntryView, Proto, TcpState};
use crate::num;
use crate::render::json;
use crate::render::json::{JsonView, MemberView};
use crate::text;
use vstd::prelude::*;

verus! {

/// The white space of JSON.
pub open spec fn is_space(c: char) -> bool {
    c == ' ' || c == '\t' || c == '\n' || c == '\r'
}

/// What stands behind the white space that `s` starts with.
pub open spec fn skip_space(s: Seq<char>) -> Seq<char>
    decreases s.len(),
{
    if s.len() > 0 && is_space(s[0]) {
        skip_space(s.drop_first())
    } else {
        s
    }
}

/// What a backslash and a character stand for.
pub open spec fn unescape(c: char) -> Option<char> {
    if c == '"' || c == '\\' || c == '/' {
        Some(c)
    } else if c == 'b' {
        Some('\u{8}')
    } else if c == 'f' {
        Some('\u{c}')
    } else if c == 'n' {
        Some('\n')
    } else if c == 'r' {
        Some('\r')
    } else if c == 't' {
        Some('\t')
    } else {
        None
    }
}

/// A character in front of what was read behind it.
pub open spec fn with_first(c: char, rest: Option<(Seq<char>, Seq<char>)>) -> Option<
    (Seq<char>, Seq<char>),
> {
    match rest {
        Some((t, tail)) => Some((seq![c] + t, tail)),
        None => None,
    }
}

/// The text of a string whose opening quote was read, and what stands behind the closing one.
/// A bare control character is an error.
pub open spec fn read_text(s: Seq<char>) -> Option<(Seq<char>, Seq<char>)>
    decreases s.len(),
{
    if s.len() == 0 {
        None
    } else if s[0] == '"' {
        Some((Seq::<char>::empty(), s.skip(1)))
    } else if s[0] == '\\' {
        if s.len() < 2 {
            None
        } else if s[1] == 'u' {
            if s.len() < 6 {
                None
            } else {
                match num::run_value(s.subrange(2, 6), 16) {
                    Some(v) => if 0xd800 <= v <= 0xdfff {
                        None
                    } else {
                        with_first(v as char, read_text(s.skip(6)))
                    },
                    None => None,
                }
            }
        } else {
            match unescape(s[1]) {
                Some(c) => with_first(c, read_text(s.skip(2))),
                None => None,
            }
        }
    } else if (s[0] as u32) < 0x20 {
        None
    } else {
        with_first(s[0], read_text(s.skip(1)))
    }
}

/// Whether a character is a decimal digit.
pub open spec fn is_digit(c: char) -> bool {
    num::digit_value(c, 10) is Some
}

/// How many digits `s` starts with.
pub open spec fn digit_run(s: Seq<char>) -> nat
    decreases s.len(),
{
    if s.len() > 0 && is_digit(s[0]) {
        1 + digit_run(s.drop_first())
    } else {
        0
    }
}

/// A number without a sign: at least one digit, and no zero in front of others.
pub open spec fn read_digits(s: Seq<char>) -> Option<(nat, Seq<char>)> {
    let n = digit_run(s);
    if n == 0 || (n > 1 && s[0] == '0') {
        None
    } else {
        match num::run_value(s.take(n as int), 10) {
            Some(v) => Some((v, s.skip(n as int))),
            None => None,
        }
    }
}

/// An integer.
pub open spec fn read_number(s: Seq<char>) -> Option<(int, Seq<char>)> {
    if s.len() > 0 && s[0] == '-' {
        match read_digits(s.skip(1)) {
            Some((v, tail)) => Some((-v, tail)),
            None => None,
        }
    } else {
        match read_digits(s) {
            Some((v, tail)) => Some((v as int, tail)),
            None => None,
        }
    }
}

/// A string, `null` or an integer.
pub open spec fn read_value(s: Seq<char>) -> Option<(JsonView, Seq<char>)> {
    if s.len() > 0 && s[0] == '"' {
        match read_text(s.skip(1)) {
            Some((t, tail)) => Some((JsonView::Text(t), tail)),
            None => None,
        }
    } else if text::starts_with(s, seq!['n', 'u', 'l', 'l']) {
        Some((JsonView::Null, s.skip(4)))
    } else {
        match read_number(s) {
            Some((n, tail)) => Some((JsonView::Number(n), tail)),
            None => None,
        }
    }
}

/// A member of an object: a string, a colon and a value.
pub open spec fn read_member(s: Seq<char>) -> Option<(MemberView, Seq<char>)> {
    if s.len() == 0 || s[0] != '"' {
        None
    } else {
        match read_text(s.skip(1)) {
            Some((name, behind)) => {
                let colon = skip_space(behind);
                if colon.len() == 0 || colon[0] != ':' {
                    None
                } else {
                    match read_value(skip_space(colon.skip(1))) {
                        Some((value, tail)) => Some((MemberView { name, value }, tail)),
                        None => None,
                    }
                }
            },
            None => None,
        }
    }
}

/// Members with a comma between any two, up to the brace that ends them.
pub open spec fn read_members(s: Seq<char>) -> Option<(Seq<MemberView>, Seq<char>)>
    decreases s.len(),
{
    match read_member(s) {
        Some((m, behind)) => {
            let next = skip_space(behind);
            let more = skip_space(next.skip(1));
            if next.len() > 0 && next[0] == '}' {
                Some((seq![m], next.skip(1)))
            } else if next.len() > 0 && next[0] == ',' && more.len() < s.len() {
                match read_members(more) {
                    Some((others, tail)) => Some((seq![m] + others, tail)),
                    None => None,
                }
            } else {
                None
            }
        },
        None => None,
    }
}

/// An object.
pub open spec fn read_object(s: Seq<char>) -> Option<(Seq<MemberView>, Seq<char>)> {
    if s.len() == 0 || s[0] != '{' {
        None
    } else {
        let first = skip_space(s.skip(1));
        if first.len() > 0 && first[0] == '}' {
            Some((Seq::<MemberView>::empty(), first.skip(1)))
        } else {
            read_members(first)
        }
    }
}

/// Objects with a comma between any two, up to the bracket that ends them.
pub open spec fn read_objects(s: Seq<char>) -> Option<(Seq<Seq<MemberView>>, Seq<char>)>
    decreases s.len(),
{
    match read_object(s) {
        Some((o, behind)) => {
            let next = skip_space(behind);
            let more = skip_space(next.skip(1));
            if next.len() > 0 && next[0] == ']' {
                Some((seq![o], next.skip(1)))
            } else if next.len() > 0 && next[0] == ',' && more.len() < s.len() {
                match read_objects(more) {
                    Some((others, tail)) => Some((seq![o] + others, tail)),
                    None => None,
                }
            } else {
                None
            }
        },
        None => None,
    }
}

/// A document that is an array of objects whose values are strings, integers and `null`.
pub open spec fn read_document(s: Seq<char>) -> Option<Seq<Seq<MemberView>>> {
    let open = skip_space(s);
    if open.len() == 0 || open[0] != '[' {
        None
    } else {
        let first = skip_space(open.skip(1));
        let read = if first.len() > 0 && first[0] == ']' {
            Some((Seq::<Seq<MemberView>>::empty(), first.skip(1)))
        } else {
            read_objects(first)
        };
        match read {
            Some((objects, tail)) => if skip_space(tail).len() == 0 {
                Some(objects)
            } else {
                None
            },
            None => None,
        }
    }
}

proof fn lemma_escaped_first(c: char, t: Seq<char>)
    ensures
        json::escaped(seq![c] + t) == json::escape(c) + json::escaped(t),
    decreases t.len(),
{
    let s = seq![c] + t;
    if t.len() == 0 {
        assert(s.drop_last() =~= Seq::<char>::empty());
        assert(json::escaped(s.drop_last()) =~= Seq::<char>::empty());
        assert(json::escaped(s) =~= json::escape(c) + json::escaped(t));
    } else {
        lemma_escaped_first(c, t.drop_last());
        assert(s.drop_last() =~= seq![c] + t.drop_last());
        assert(json::escaped(s) =~= json::escape(c) + json::escaped(t));
    }
}

/// Four hexadecimal digits of which the first two are zeros.
proof fn lemma_two_digits(n: nat)
    requires
        n < 0x100,
    ensures
        num::run_value(
            seq!['0', '0', num::digit_char(n / 16), num::digit_char(n % 16)],
            16,
        ) == Some(n),
{
    let four = seq!['0', '0', num::digit_char(n / 16), num::digit_char(n % 16)];
    num::lemma_digit_back(0, 16);
    num::lemma_digit_back(n / 16, 16);
    num::lemma_digit_back(n % 16, 16);
    assert(four.drop_last() =~= seq!['0', '0', num::digit_char(n / 16)]);
    assert(four.drop_last().drop_last() =~= seq!['0', '0']);
    assert(four.drop_last().drop_last().drop_last() =~= seq!['0']);
    assert(four.drop_last().drop_last().drop_last().drop_last() =~= Seq::<char>::empty());
    reveal_with_fuel(num::run_value, 5);
}

/// Reading one escaped character gives that character and goes on behind it.
proof fn lemma_read_escape(c: char, tail: Seq<char>)
    ensures
        read_text(json::escape(c) + tail) == with_first(c, read_text(tail)),
{
    let e = json::escape(c);
    let s = e + tail;
    assert(s.skip(e.len() as int) =~= tail);
    if c != '"' && c != '\\' && c != '\n' && c != '\r' && c != '\t' && (c as u32) < 0x20 {
        let n = c as u32 as nat;
        let four = s.subrange(2, 6);
        assert(four =~= seq!['0', '0', num::digit_char(n / 16), num::digit_char(n % 16)]);
        lemma_two_digits(n);
        assert(num::run_value(four, 16) == Some(n));
        assert(n as char == c);
    }
}

/// A string reads back as the text that it was written for.
pub proof fn law_strings_read_back(t: Seq<char>, tail: Seq<char>)
    ensures
        read_text(json::escaped(t) + seq!['"'] + tail) == Some((t, tail)),
    decreases t.len(),
{
    let s = json::escaped(t) + seq!['"'] + tail;
    if t.len() == 0 {
        assert(s.skip(1) =~= tail);
        assert(t =~= Seq::<char>::empty());
    } else {
        let rest = t.drop_first();
        assert(t =~= seq![t[0]] + rest);
        lemma_escaped_first(t[0], rest);
        let behind = json::escaped(rest) + seq!['"'] + tail;
        assert(s =~= json::escape(t[0]) + behind);
        lemma_read_escape(t[0], behind);
        law_strings_read_back(rest, tail);
    }
}

/// No string of the output holds a bare control character.
pub proof fn law_strings_hold_no_control(t: Seq<char>)
    ensures
        forall|i: int|
            0 <= i < json::quoted(t).len() ==> (#[trigger] json::quoted(t)[i]) as u32 >= 0x20,
{
    lemma_escaped_visible(t);
    assert forall|i: int| 0 <= i < json::quoted(t).len() implies (#[trigger] json::quoted(
        t,
    )[i]) as u32 >= 0x20 by {
        if 0 < i < json::quoted(t).len() - 1 {
            assert(json::quoted(t)[i] == json::escaped(t)[i - 1]);
        }
    }
}

proof fn lemma_escape_visible(c: char)
    ensures
        forall|i: int|
            0 <= i < json::escape(c).len() ==> (#[trigger] json::escape(c)[i]) as u32 >= 0x20,
{
    let n = c as u32 as nat;
    if n < 0x20 {
        num::lemma_digit_plain(n / 16);
        num::lemma_digit_plain(n % 16);
    }
}

proof fn lemma_escaped_visible(t: Seq<char>)
    ensures
        forall|i: int|
            0 <= i < json::escaped(t).len() ==> (#[trigger] json::escaped(t)[i]) as u32 >= 0x20,
    decreases t.len(),
{
    if t.len() > 0 {
        let front = json::escaped(t.drop_last());
        lemma_escaped_visible(t.drop_last());
        lemma_escape_visible(t.last());
        assert forall|i: int| 0 <= i < json::escaped(t).len() implies (#[trigger] json::escaped(
            t,
        )[i]) as u32 >= 0x20 by {
            if i < front.len() {
                assert(json::escaped(t)[i] == front[i]);
            } else {
                assert(json::escaped(t)[i] == json::escape(t.last())[i - front.len()]);
            }
        }
    }
}

proof fn lemma_digit_run(s: Seq<char>, n: nat)
    requires
        n <= s.len(),
        forall|i: int| 0 <= i < n ==> is_digit(#[trigger] s[i]),
        n < s.len() ==> !is_digit(s[n as int]),
    ensures
        digit_run(s) == n,
    decreases n,
{
    if n > 0 {
        assert(is_digit(s[0]));
        let rest = s.drop_first();
        assert forall|i: int| 0 <= i < n - 1 implies is_digit(#[trigger] rest[i]) by {
            assert(is_digit(s[i + 1]));
        }
        if n < s.len() {
            assert(rest[n - 1] == s[n as int]);
        }
        lemma_digit_run(rest, (n - 1) as nat);
    }
}

/// A numeral of more than one digit does not start with a zero.
proof fn lemma_no_leading_zero(n: nat)
    ensures
        num::dec(n).len() > 0,
        num::dec(n).len() > 1 ==> num::dec(n)[0] != '0',
    decreases n,
{
    if n >= 10 {
        lemma_no_leading_zero(n / 10);
        let front = num::dec(n / 10);
        assert(num::dec(n)[0] == front[0]);
        if n / 10 < 10 {
            num::lemma_digit_back(n / 10, 10);
            num::lemma_digit_back(0, 10);
            assert(front[0] == num::digit_char(n / 10));
        } else {
            assert(front.len() > 1) by {
                lemma_no_leading_zero(n / 100);
                assert(n / 10 / 10 == n / 100);
            }
        }
    }
}

/// Whether what follows a number ends it.
spec fn ends_number(tail: Seq<char>) -> bool {
    tail.len() > 0 && !is_digit(tail[0])
}

proof fn lemma_read_digits(n: nat, tail: Seq<char>)
    requires
        ends_number(tail),
    ensures
        read_digits(num::dec(n) + tail) == Some((n, tail)),
        (num::dec(n) + tail)[0] != '-',
        (num::dec(n) + tail)[0] != '"',
        (num::dec(n) + tail)[0] != 'n',
{
    let d = num::dec(n);
    let s = d + tail;
    num::lemma_digits_plain(n, 10);
    num::lemma_digits_back(n, 10);
    lemma_no_leading_zero(n);
    assert forall|i: int| 0 <= i < d.len() implies is_digit(#[trigger] s[i]) by {
        assert(s[i] == num::digits(n, 10)[i]);
    }
    assert(s[d.len() as int] == tail[0]);
    lemma_digit_run(s, d.len());
    assert(s.take(d.len() as int) =~= d);
    assert(s.skip(d.len() as int) =~= tail);
    assert(s[0] == num::digits(n, 10)[0]);
    assert(is_digit(s[0]));
    lemma_digit_is_digit(s[0]);
}

proof fn lemma_digit_is_digit(c: char)
    requires
        is_digit(c),
    ensures
        c != '-',
        c != '"',
        c != 'n',
{
}

proof fn lemma_read_number(n: int, tail: Seq<char>)
    requires
        ends_number(tail),
    ensures
        read_number(num::signed(n) + tail) == Some((n, tail)),
        (num::signed(n) + tail).len() > 0,
        (num::signed(n) + tail)[0] != '"',
        (num::signed(n) + tail)[0] != 'n',
{
    let s = num::signed(n) + tail;
    if n < 0 {
        lemma_read_digits((-n) as nat, tail);
        assert(s.skip(1) =~= num::dec((-n) as nat) + tail);
        assert(s[0] == '-');
    } else {
        lemma_read_digits(n as nat, tail);
    }
}

/// A value reads back where what follows ends a number.
proof fn lemma_read_value(v: JsonView, tail: Seq<char>)
    requires
        ends_number(tail),
    ensures
        read_value(json::value_text(v) + tail) == Some((v, tail)),
        (json::value_text(v) + tail).len() > 0,
        !is_space((json::value_text(v) + tail)[0]),
{
    let s = json::value_text(v) + tail;
    match v {
        JsonView::Null => {
            reveal_strlit("null");
            assert(s.take(4) =~= seq!['n', 'u', 'l', 'l']);
            assert(s.skip(4) =~= tail);
        },
        JsonView::Number(n) => {
            lemma_read_number(n, tail);
            assert(!text::starts_with(s, seq!['n', 'u', 'l', 'l'])) by {
                if text::starts_with(s, seq!['n', 'u', 'l', 'l']) {
                    assert(s.take(4)[0] == s[0]);
                }
            }
            lemma_number_starts_no_space(n, tail);
        },
        JsonView::Text(t) => {
            law_strings_read_back(t, tail);
            assert(s.skip(1) =~= json::escaped(t) + seq!['"'] + tail);
        },
    }
}

proof fn lemma_number_starts_no_space(n: int, tail: Seq<char>)
    ensures
        !is_space((num::signed(n) + tail)[0]),
{
    if n >= 0 {
        num::lemma_digits_plain(n as nat, 10);
        assert((num::signed(n) + tail)[0] == num::digits(n as nat, 10)[0]);
    } else {
        assert((num::signed(n) + tail)[0] == '-');
    }
}

/// Whether a name stands in a string as it is.
spec fn plain(name: Seq<char>) -> bool {
    json::escaped(name) == name
}

proof fn lemma_plain(name: Seq<char>)
    requires
        forall|i: int|
            0 <= i < name.len() ==> (#[trigger] name[i]) != '"' && name[i] != '\\' && name[i] as u32
                >= 0x20,
    ensures
        plain(name),
    decreases name.len(),
{
    if name.len() > 0 {
        let front = name.drop_last();
        assert forall|i: int| 0 <= i < front.len() implies (#[trigger] front[i]) != '"' && front[i]
            != '\\' && front[i] as u32 >= 0x20 by {
            assert(front[i] == name[i]);
        }
        lemma_plain(front);
        lemma_plain_char(name[name.len() - 1]);
        assert(json::escaped(name) =~= front.push(name.last()));
        assert(front.push(name.last()) =~= name);
    } else {
        assert(json::escaped(name) =~= name);
    }
}

proof fn lemma_plain_char(c: char)
    requires
        c != '"',
        c != '\\',
        c as u32 >= 0x20,
    ensures
        json::escape(c) == seq![c],
{
}

proof fn lemma_read_member(m: MemberView, tail: Seq<char>)
    requires
        plain(m.name),
        ends_number(tail),
    ensures
        read_member(json::member_text(m) + tail) == Some((m, tail)),
        json::member_text(m).len() > 0,
        json::member_text(m)[0] == '"',
{
    let s = json::member_text(m) + tail;
    let behind = seq![':'] + json::value_text(m.value) + tail;
    law_strings_read_back(m.name, behind);
    assert(s.skip(1) =~= json::escaped(m.name) + seq!['"'] + behind);
    assert(skip_space(behind) == behind);
    let value = json::value_text(m.value) + tail;
    assert(behind.skip(1) =~= value);
    lemma_read_value(m.value, tail);
    assert(skip_space(value) == value);
}

/// The first text and the others, joined.
proof fn lemma_join_first(parts: Seq<Seq<char>>, glue: Seq<char>)
    requires
        parts.len() > 1,
    ensures
        text::join(parts, glue) == parts[0] + glue + text::join(parts.drop_first(), glue),
    decreases parts.len(),
{
    let rest = parts.drop_first();
    if parts.len() == 2 {
        assert(parts.drop_last() =~= seq![parts[0]]);
        assert(text::join(parts.drop_last(), glue) == parts[0]);
        assert(text::join(rest, glue) == parts[1]);
    } else {
        let front = parts.drop_last();
        lemma_join_first(front, glue);
        assert(front.drop_first() =~= rest.drop_last());
        assert(text::join(parts, glue) =~= parts[0] + glue + text::join(rest, glue));
    }
}

/// The last member reads back.
proof fn lemma_read_last_member(m: MemberView, tail: Seq<char>)
    requires
        plain(m.name),
    ensures
        read_members(json::member_text(m) + seq!['}'] + tail) == Some((seq![m], tail)),
{
    let behind = seq!['}'] + tail;
    lemma_read_member(m, behind);
    assert(json::member_text(m) + seq!['}'] + tail =~= json::member_text(m) + behind);
    assert(skip_space(behind) == behind);
    assert(behind.skip(1) =~= tail);
}

/// A member in front of others that read back reads back with them.
proof fn lemma_read_first_member(
    m: MemberView,
    more: Seq<char>,
    rest: Seq<MemberView>,
    tail: Seq<char>,
)
    requires
        plain(m.name),
        more.len() > 0,
        more[0] == '"',
        read_members(more) == Some((rest, tail)),
    ensures
        read_members(json::member_text(m) + seq![','] + more) == Some((seq![m] + rest, tail)),
{
    let behind = seq![','] + more;
    lemma_read_member(m, behind);
    assert(json::member_text(m) + seq![','] + more =~= json::member_text(m) + behind);
    assert(skip_space(behind) == behind);
    assert(behind.skip(1) =~= more);
    assert(skip_space(more) == more);
}

proof fn lemma_read_members(ms: Seq<MemberView>, tail: Seq<char>)
    requires
        ms.len() > 0,
        forall|i: int| 0 <= i < ms.len() ==> plain((#[trigger] ms[i]).name),
    ensures
        read_members(json::members_text(ms) + seq!['}'] + tail) == Some((ms, tail)),
        json::members_text(ms).len() > 0,
        json::members_text(ms)[0] == '"',
    decreases ms.len(),
{
    let texts = ms.map_values(|m: MemberView| json::member_text(m));
    assert(plain(ms[0].name));
    assert(texts[0] == json::member_text(ms[0]));
    assert(json::member_text(ms[0])[0] == '"');
    if ms.len() == 1 {
        lemma_read_last_member(ms[0], tail);
        assert(json::members_text(ms) == json::member_text(ms[0]));
        assert(seq![ms[0]] =~= ms);
    } else {
        let rest = ms.drop_first();
        assert forall|i: int| 0 <= i < rest.len() implies plain((#[trigger] rest[i]).name) by {
            assert(plain(ms[i + 1].name));
        }
        lemma_read_members(rest, tail);
        lemma_join_first(texts, seq![',']);
        assert(texts.drop_first() =~= rest.map_values(|m: MemberView| json::member_text(m)));
        let more = json::members_text(rest) + seq!['}'] + tail;
        lemma_read_first_member(ms[0], more, rest, tail);
        let first = json::member_text(ms[0]);
        assert(json::members_text(ms) == first + seq![','] + json::members_text(rest));
        assert(first + seq![','] + json::members_text(rest) + seq!['}'] + tail =~= first + seq![',']
            + more);
        assert(seq![ms[0]] + rest =~= ms);
    }
}

/// The names of members need no escapes.
proof fn lemma_names_plain(e: EntryView, now: nat)
    ensures
        forall|i: int|
            0 <= i < json::members(e, now).len() ==> plain(
                (#[trigger] json::members(e, now)[i]).name,
            ),
{
    reveal_strlit("port");
    reveal_strlit("proto");
    reveal_strlit("state");
    reveal_strlit("address");
    reveal_strlit("peer");
    reveal_strlit("peer_port");
    reveal_strlit("pid");
    reveal_strlit("process");
    reveal_strlit("user");
    reveal_strlit("uid");
    reveal_strlit("ppid");
    reveal_strlit("started");
    reveal_strlit("uptime_secs");
    reveal_strlit("exe");
    reveal_strlit("command");
    lemma_plain("port"@);
    lemma_plain("proto"@);
    lemma_plain("state"@);
    lemma_plain("address"@);
    lemma_plain("peer"@);
    lemma_plain("peer_port"@);
    lemma_plain("pid"@);
    lemma_plain("process"@);
    lemma_plain("user"@);
    lemma_plain("uid"@);
    lemma_plain("ppid"@);
    lemma_plain("started"@);
    lemma_plain("uptime_secs"@);
    lemma_plain("exe"@);
    lemma_plain("command"@);
}

/// Whether an object has members, and no name of them needs an escape.
spec fn plain_object(ms: Seq<MemberView>) -> bool {
    &&& ms.len() > 0
    &&& forall|i: int| 0 <= i < ms.len() ==> plain((#[trigger] ms[i]).name)
}

/// The lines of objects, with a comma behind each but the last.
spec fn objects_text(objs: Seq<Seq<MemberView>>) -> Seq<char> {
    text::join(objs.map_values(|ms: Seq<MemberView>| json::object_text(ms)), seq![',', '\n'])
}

/// An object reads back behind the spaces in front of it.
proof fn lemma_read_object(ms: Seq<MemberView>, tail: Seq<char>)
    requires
        plain_object(ms),
    ensures
        ({
            let s = json::object_text(ms) + tail;
            &&& skip_space(s) == s.skip(2)
            &&& s.len() > 2
            &&& s.skip(2)[0] == '{'
            &&& read_object(s.skip(2)) == Some((ms, tail))
        }),
{
    let s = json::object_text(ms) + tail;
    lemma_read_members(ms, tail);
    let inner = json::members_text(ms) + seq!['}'] + tail;
    assert(s =~= seq![' ', ' ', '{'] + inner);
    assert(s.drop_first() =~= seq![' ', '{'] + inner);
    assert(s.drop_first().drop_first() =~= seq!['{'] + inner);
    assert(s.skip(2) =~= seq!['{'] + inner);
    reveal_with_fuel(skip_space, 3);
    assert(s.skip(2).skip(1) =~= inner);
    assert(skip_space(inner) == inner);
}

/// The last object reads back.
proof fn lemma_read_last_object(ms: Seq<MemberView>, tail: Seq<char>)
    requires
        plain_object(ms),
    ensures
        ({
            let s = json::object_text(ms) + seq!['\n', ']'] + tail;
            &&& skip_space(s) == s.skip(2)
            &&& s.len() > 2
            &&& s.skip(2)[0] == '{'
            &&& read_objects(s.skip(2)) == Some((seq![ms], tail))
        }),
{
    let behind = seq!['\n', ']'] + tail;
    let next = seq![']'] + tail;
    let s = json::object_text(ms) + seq!['\n', ']'] + tail;
    assert(s =~= json::object_text(ms) + behind);
    lemma_read_object(ms, behind);
    assert(behind.drop_first() =~= next);
    assert(skip_space(next) == next);
    assert(skip_space(behind) == next);
    assert(next.skip(1) =~= tail);
}

/// An object in front of others that read back reads back with them.
proof fn lemma_read_first_object(
    ms: Seq<MemberView>,
    more: Seq<char>,
    rest: Seq<Seq<MemberView>>,
    tail: Seq<char>,
)
    requires
        plain_object(ms),
        more.len() > 2,
        skip_space(more) == more.skip(2),
        read_objects(more.skip(2)) == Some((rest, tail)),
    ensures
        ({
            let s = json::object_text(ms) + seq![',', '\n'] + more;
            &&& skip_space(s) == s.skip(2)
            &&& s.len() > 2
            &&& s.skip(2)[0] == '{'
            &&& read_objects(s.skip(2)) == Some((seq![ms] + rest, tail))
        }),
{
    let behind = seq![',', '\n'] + more;
    let line = seq!['\n'] + more;
    let s = json::object_text(ms) + seq![',', '\n'] + more;
    assert(s =~= json::object_text(ms) + behind);
    lemma_read_object(ms, behind);
    assert(skip_space(behind) == behind);
    assert(behind.skip(1) =~= line);
    assert(line.drop_first() =~= more);
    assert(skip_space(line) == skip_space(more));
}

proof fn lemma_read_objects(objs: Seq<Seq<MemberView>>, tail: Seq<char>)
    requires
        objs.len() > 0,
        forall|i: int| 0 <= i < objs.len() ==> plain_object(#[trigger] objs[i]),
    ensures
        ({
            let s = objects_text(objs) + seq!['\n', ']'] + tail;
            &&& skip_space(s) == s.skip(2)
            &&& s.len() > 2
            &&& s.skip(2)[0] == '{'
            &&& read_objects(s.skip(2)) == Some((objs, tail))
        }),
    decreases objs.len(),
{
    let texts = objs.map_values(|ms: Seq<MemberView>| json::object_text(ms));
    assert(plain_object(objs[0]));
    assert(texts[0] == json::object_text(objs[0]));
    if objs.len() == 1 {
        lemma_read_last_object(objs[0], tail);
        assert(objects_text(objs) == json::object_text(objs[0]));
        assert(seq![objs[0]] =~= objs);
    } else {
        let rest = objs.drop_first();
        assert forall|i: int| 0 <= i < rest.len() implies plain_object(#[trigger] rest[i]) by {
            assert(plain_object(objs[i + 1]));
        }
        lemma_read_objects(rest, tail);
        lemma_join_first(texts, seq![',', '\n']);
        assert(texts.drop_first() =~= rest.map_values(
            |ms: Seq<MemberView>| json::object_text(ms),
        ));
        let more = objects_text(rest) + seq!['\n', ']'] + tail;
        lemma_read_first_object(objs[0], more, rest, tail);
        let first = json::object_text(objs[0]);
        assert(objects_text(objs) == first + seq![',', '\n'] + objects_text(rest));
        assert(first + seq![',', '\n'] + objects_text(rest) + seq!['\n', ']'] + tail =~= first
            + seq![',', '\n'] + more);
        assert(seq![objs[0]] + rest =~= objs);
    }
}

/// The output is a JSON document. Reading it gives the members of every entry, in order.
pub proof fn law_json_reads_back(rows: Seq<EntryView>, now: nat)
    ensures
        read_document(json::json_text(rows, now)) == Some(
            rows.map_values(|e: EntryView| json::members(e, now)),
        ),
{
    let s = json::json_text(rows, now);
    let all = rows.map_values(|e: EntryView| json::members(e, now));
    assert(skip_space(s) == s);
    let body = s.skip(1);
    let tail = seq!['\n'];
    assert(tail.drop_first() =~= Seq::<char>::empty());
    assert(skip_space(tail.drop_first()) =~= Seq::<char>::empty());
    assert(skip_space(tail).len() == 0);
    if rows.len() == 0 {
        assert(json::objects_text(rows, now) =~= Seq::<char>::empty());
        assert(body =~= seq!['\n', '\n', ']', '\n']);
        assert(body.drop_first() =~= seq!['\n', ']', '\n']);
        assert(body.drop_first().drop_first() =~= seq![']', '\n']);
        reveal_with_fuel(skip_space, 3);
        assert(skip_space(body) =~= seq![']', '\n']);
        assert(skip_space(body).skip(1) =~= tail);
        assert(all =~= Seq::<Seq<MemberView>>::empty());
    } else {
        assert forall|i: int| 0 <= i < all.len() implies plain_object(#[trigger] all[i]) by {
            lemma_names_plain(rows[i], now);
        }
        assert(rows.map_values(|e: EntryView| json::object_text(json::members(e, now)))
            =~= all.map_values(|ms: Seq<MemberView>| json::object_text(ms)));
        assert(json::objects_text(rows, now) == objects_text(all));
        let inner = objects_text(all) + seq!['\n', ']'] + tail;
        assert(body =~= seq!['\n'] + inner);
        assert(body.drop_first() =~= inner);
        lemma_read_objects(all, tail);
        assert(skip_space(body) == inner.skip(2));
    }
}

/// The value of the member of that name, where an object has one.
pub open spec fn value_in(object: Seq<MemberView>, name: Seq<char>) -> Option<JsonView>
    decreases object.len(),
{
    if object.len() == 0 {
        None
    } else if object[0].name == name {
        Some(object[0].value)
    } else {
        value_in(object.drop_first(), name)
    }
}

/// The member of a name that no member in front of it has is the one that is found.
proof fn lemma_value_in(object: Seq<MemberView>, i: int)
    requires
        0 <= i < object.len(),
        forall|k: int| 0 <= k < i ==> (#[trigger] object[k]).name != object[i].name,
    ensures
        value_in(object, object[i].name) == Some(object[i].value),
    decreases object.len(),
{
    if i > 0 {
        let rest = object.drop_first();
        assert(object[0].name != object[i].name);
        assert forall|k: int| 0 <= k < i - 1 implies (#[trigger] rest[k]).name != rest[i - 1].name by {
            assert(object[k + 1].name != object[i].name);
        }
        lemma_value_in(rest, i - 1);
    }
}

/// Which member has the name, by its length and first characters.
spec fn rank(name: Seq<char>) -> int {
    if name.len() == 4 && name[0] == 'p' && name[1] == 'o' {
        0
    } else if name.len() == 5 && name[0] == 'p' && name[1] == 'r' {
        1
    } else if name.len() == 5 && name[0] == 's' && name[1] == 't' {
        2
    } else if name.len() == 7 && name[0] == 'a' && name[1] == 'd' {
        3
    } else if name.len() == 4 && name[0] == 'p' && name[1] == 'e' {
        4
    } else if name.len() == 9 && name[0] == 'p' && name[1] == 'e' {
        5
    } else if name.len() == 3 && name[0] == 'p' && name[1] == 'i' {
        6
    } else if name.len() == 7 && name[0] == 'p' && name[1] == 'r' {
        7
    } else if name.len() == 4 && name[0] == 'u' && name[1] == 's' {
        8
    } else if name.len() == 3 && name[0] == 'u' && name[1] == 'i' {
        9
    } else if name.len() == 4 && name[0] == 'p' && name[1] == 'p' {
        10
    } else if name.len() == 7 && name[0] == 's' && name[1] == 't' {
        11
    } else if name.len() == 11 && name[0] == 'u' && name[1] == 'p' {
        12
    } else if name.len() == 3 && name[0] == 'e' && name[1] == 'x' {
        13
    } else if name.len() == 7 && name[0] == 'c' && name[1] == 'o' {
        14
    } else {
        15
    }
}

proof fn lemma_rank(e: EntryView, now: nat, k: int)
    requires
        0 <= k < 15,
    ensures
        rank(json::members(e, now)[k].name) == k,
{
    reveal_strlit("port");
    reveal_strlit("proto");
    reveal_strlit("state");
    reveal_strlit("address");
    reveal_strlit("peer");
    reveal_strlit("peer_port");
    reveal_strlit("pid");
    reveal_strlit("process");
    reveal_strlit("user");
    reveal_strlit("uid");
    reveal_strlit("ppid");
    reveal_strlit("started");
    reveal_strlit("uptime_secs");
    reveal_strlit("exe");
    reveal_strlit("command");
    let ms = json::members(e, now);
    assert(rank("port"@) == 0);
    assert(rank("proto"@) == 1);
    assert(rank("state"@) == 2);
    assert(rank("address"@) == 3);
    assert(rank("peer"@) == 4);
    assert(rank("peer_port"@) == 5);
    assert(rank("pid"@) == 6);
    assert(rank("process"@) == 7);
    assert(rank("user"@) == 8);
    assert(rank("uid"@) == 9);
    assert(rank("ppid"@) == 10);
    assert(rank("started"@) == 11);
    assert(rank("uptime_secs"@) == 12);
    assert(rank("exe"@) == 13);
    assert(rank("command"@) == 14);
    if k == 0 {
        assert(ms[0].name == "port"@);
    } else if k == 1 {
        assert(ms[1].name == "proto"@);
    } else if k == 2 {
        assert(ms[2].name == "state"@);
    } else if k == 3 {
        assert(ms[3].name == "address"@);
    } else if k == 4 {
        assert(ms[4].name == "peer"@);
    } else if k == 5 {
        assert(ms[5].name == "peer_port"@);
    } else if k == 6 {
        assert(ms[6].name == "pid"@);
    } else if k == 7 {
        assert(ms[7].name == "process"@);
    } else if k == 8 {
        assert(ms[8].name == "user"@);
    } else if k == 9 {
        assert(ms[9].name == "uid"@);
    } else if k == 10 {
        assert(ms[10].name == "ppid"@);
    } else if k == 11 {
        assert(ms[11].name == "started"@);
    } else if k == 12 {
        assert(ms[12].name == "uptime_secs"@);
    } else if k == 13 {
        assert(ms[13].name == "exe"@);
    } else {
        assert(ms[14].name == "command"@);
    }
}

/// The word for a state.
pub open spec fn state_word(s: TcpState) -> Seq<char> {
    match s {
        TcpState::Closed => "CLOSED"@,
        TcpState::Listen => "LISTEN"@,
        TcpState::SynSent => "SYN_SENT"@,
        TcpState::SynRecv => "SYN_RECV"@,
        TcpState::Established => "ESTABLISHED"@,
        TcpState::CloseWait => "CLOSE_WAIT"@,
        TcpState::FinWait1 => "FIN_WAIT_1"@,
        TcpState::Closing => "CLOSING"@,
        TcpState::LastAck => "LAST_ACK"@,
        TcpState::FinWait2 => "FIN_WAIT_2"@,
        TcpState::TimeWait => "TIME_WAIT"@,
        TcpState::Unknown => "UNKNOWN"@,
    }
}

/// Whether an object tells of the socket of an entry.
pub open spec fn tells_socket(o: Seq<MemberView>, e: EntryView) -> bool {
    &&& value_in(o, "port"@) == Some(JsonView::Number(e.local_port as int))
    &&& e.proto == Proto::Tcp ==> value_in(o, "proto"@) == Some(JsonView::Text("tcp"@))
    &&& e.proto == Proto::Udp ==> value_in(o, "proto"@) == Some(JsonView::Text("udp"@))
    &&& e.state is None ==> value_in(o, "state"@) == Some(JsonView::Null)
    &&& e.state matches Some(s) ==> value_in(o, "state"@) == Some(JsonView::Text(state_word(s)))
    &&& value_in(o, "address"@) == Some(JsonView::Text(e.local_addr))
    &&& e.remote_addr is None ==> value_in(o, "peer"@) == Some(JsonView::Null) && value_in(
        o,
        "peer_port"@,
    ) == Some(JsonView::Null)
    &&& e.remote_addr matches Some(p) ==> value_in(o, "peer"@) == Some(JsonView::Text(p))
        && value_in(o, "peer_port"@) == Some(JsonView::Number(e.remote_port as int))
}

/// Whether an object tells of the process of an entry.
pub open spec fn tells_process(o: Seq<MemberView>, e: EntryView, now: nat) -> bool {
    &&& value_in(o, "pid"@) == Some(JsonView::Number(e.pid as int))
    &&& value_in(o, "process"@) == Some(JsonView::Text(e.proc_name))
    &&& value_in(o, "user"@) == Some(JsonView::Text(e.user))
    &&& value_in(o, "uid"@) == Some(JsonView::Number(e.uid as int))
    &&& value_in(o, "ppid"@) == Some(JsonView::Number(e.ppid as int))
    &&& value_in(o, "started"@) == Some(JsonView::Number(e.start_time as int))
    &&& now >= e.start_time ==> value_in(o, "uptime_secs"@) == Some(
        JsonView::Number(now - e.start_time),
    )
    &&& now < e.start_time ==> value_in(o, "uptime_secs"@) == Some(JsonView::Number(0))
    &&& e.exe is None ==> value_in(o, "exe"@) == Some(JsonView::Null)
    &&& e.exe matches Some(x) ==> value_in(o, "exe"@) == Some(JsonView::Text(x))
    &&& e.cmdline is None ==> value_in(o, "command"@) == Some(JsonView::Null)
    &&& e.cmdline matches Some(c) ==> value_in(o, "command"@) == Some(JsonView::Text(c))
}

proof fn lemma_members_found(e: EntryView, now: nat)
    ensures
        json::members(e, now).len() == 15,
        forall|i: int|
            0 <= i < 15 ==> value_in(
                json::members(e, now),
                (#[trigger] json::members(e, now)[i]).name,
            ) == Some(json::members(e, now)[i].value),
{
    let ms = json::members(e, now);
    assert forall|i: int| 0 <= i < 15 implies value_in(ms, (#[trigger] ms[i]).name) == Some(
        ms[i].value,
    ) by {
        lemma_rank(e, now, i);
        assert forall|k: int| 0 <= k < i implies (#[trigger] ms[k]).name != ms[i].name by {
            lemma_rank(e, now, k);
        }
        lemma_value_in(ms, i);
    }
}

proof fn lemma_members_tell(e: EntryView, now: nat)
    ensures
        json::members(e, now).len() == 15,
        tells_socket(json::members(e, now), e),
        tells_process(json::members(e, now), e, now),
{
    let ms = json::members(e, now);
    lemma_members_found(e, now);
    assert(value_in(ms, ms[0].name) == Some(ms[0].value));
    assert(value_in(ms, ms[1].name) == Some(ms[1].value));
    assert(value_in(ms, ms[2].name) == Some(ms[2].value));
    assert(value_in(ms, ms[3].name) == Some(ms[3].value));
    assert(value_in(ms, ms[4].name) == Some(ms[4].value));
    assert(value_in(ms, ms[5].name) == Some(ms[5].value));
    assert(value_in(ms, ms[6].name) == Some(ms[6].value));
    assert(value_in(ms, ms[7].name) == Some(ms[7].value));
    assert(value_in(ms, ms[8].name) == Some(ms[8].value));
    assert(value_in(ms, ms[9].name) == Some(ms[9].value));
    assert(value_in(ms, ms[10].name) == Some(ms[10].value));
    assert(value_in(ms, ms[11].name) == Some(ms[11].value));
    assert(value_in(ms, ms[12].name) == Some(ms[12].value));
    assert(value_in(ms, ms[13].name) == Some(ms[13].value));
    assert(value_in(ms, ms[14].name) == Some(ms[14].value));
}

/// What a reader finds in the output: one object for each entry, in order, of which each member
/// has its own value, under its own name. A state is given by its word whatever it is, and what
/// an entry does not have is null.
pub proof fn law_json_tells_all_of_an_entry(rows: Seq<EntryView>, now: nat, i: int)
    requires
        0 <= i < rows.len(),
    ensures
        read_document(json::json_text(rows, now)) matches Some(objects) && {
            &&& objects.len() == rows.len()
            &&& objects[i].len() == 15
            &&& tells_socket(objects[i], rows[i])
            &&& tells_process(objects[i], rows[i], now)
        },
{
    law_json_reads_back(rows, now);
    lemma_members_tell(rows[i], now);
}

/// Whether two entries are told apart by nothing but the port of a peer that is not there.
pub open spec fn same_told(d: EntryView, e: EntryView) -> bool {
    &&& d.proto == e.proto && d.state == e.state
    &&& d.local_addr == e.local_addr && d.local_port == e.local_port
    &&& d.remote_addr == e.remote_addr
    &&& d.remote_addr is Some ==> d.remote_port == e.remote_port
    &&& d.pid == e.pid && d.proc_name == e.proc_name
    &&& d.exe == e.exe && d.cmdline == e.cmdline
    &&& d.user == e.user && d.uid == e.uid
    &&& d.ppid == e.ppid && d.start_time == e.start_time
}

proof fn lemma_words_differ(a: TcpState, b: TcpState)
    requires
        state_word(a) == state_word(b),
    ensures
        a == b,
{
    assert(state_word(a) == model::state_name(a) && state_word(b) == model::state_name(b));
    model::lemma_state_names();
    assert(model::state_name(a) == model::state_name(b));
}

/// Entries that differ in anything that is told give different output: one state, address or
/// process cannot be taken for another.
pub proof fn law_json_tells_entries_apart(
    rows: Seq<EntryView>,
    others: Seq<EntryView>,
    now: nat,
    i: int,
)
    requires
        json::json_text(rows, now) == json::json_text(others, now),
        0 <= i < rows.len(),
    ensures
        rows.len() == others.len(),
        same_told(rows[i], others[i]),
{
    law_json_reads_back(rows, now);
    law_json_reads_back(others, now);
    let a = rows.map_values(|e: EntryView| json::members(e, now));
    let b = others.map_values(|e: EntryView| json::members(e, now));
    assert(a == b);
    assert(a.len() == rows.len() && b.len() == others.len());
    let d = rows[i];
    let e = others[i];
    assert(a[i] == json::members(d, now));
    assert(b[i] == json::members(e, now));
    lemma_members_tell(d, now);
    lemma_members_tell(e, now);
    reveal_strlit("tcp");
    reveal_strlit("udp");
    assert("tcp"@[0] != "udp"@[0]);
    match (d.state, e.state) {
        (Some(x), Some(y)) => lemma_words_differ(x, y),
        _ => {},
    }
}

} // verus!
