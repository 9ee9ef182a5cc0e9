//! Entries as JSON.

use crate::fmt;
use crate::model;
use crate::model::{Entry, EntryView};
use crate::num;
use crate::render::table;
use crate::text;
use vstd::prelude::*;

verus! {

/// The value of a member.
#[verifier::ext_equal]
pub enum JsonView {
    Null,
    Number(int),
    Text(Seq<char>),
}

/// A member of an object: its name and its value.
#[verifier::ext_equal]
pub struct MemberView {
    pub name: Seq<char>,
    pub value: JsonView,
}

/// How a character stands in a string: quotes and backslashes behind a backslash, control
/// characters by their escapes, all others as they are.
pub open spec fn escape(c: char) -> Seq<char> {
    if c == '"' {
        seq!['\\', '"']
    } else if c == '\\' {
        seq!['\\', '\\']
    } else if c == '\n' {
        seq!['\\', 'n']
    } else if c == '\r' {
        seq!['\\', 'r']
    } else if c == '\t' {
        seq!['\\', 't']
    } else if (c as u32) < 0x20 {
        let n = c as u32 as nat;
        seq!['\\', 'u', '0', '0', num::digit_char(n / 16), num::digit_char(n % 16)]
    } else {
        seq![c]
    }
}

/// All characters of a text as they stand in a string.
pub open spec fn escaped(s: Seq<char>) -> Seq<char>
    decreases s.len(),
{
    if s.len() == 0 {
        Seq::<char>::empty()
    } else {
        escaped(s.drop_last()) + escape(s.last())
    }
}

/// A text as a string.
pub open spec fn quoted(s: Seq<char>) -> Seq<char> {
    seq!['"'] + escaped(s) + seq!['"']
}

/// A value as it is written.
pub open spec fn value_text(v: JsonView) -> Seq<char> {
    match v {
        JsonView::Null => "null"@,
        JsonView::Number(n) => num::signed(n),
        JsonView::Text(s) => quoted(s),
    }
}

/// A member as it is written. The names in use need no escapes.
pub open spec fn member_text(m: MemberView) -> Seq<char> {
    seq!['"'] + m.name + seq!['"', ':'] + value_text(m.value)
}

/// An optional text as a value.
pub open spec fn optional(s: Option<Seq<char>>) -> JsonView {
    match s {
        Some(t) => JsonView::Text(t),
        None => JsonView::Null,
    }
}

/// The members of an entry at the given time.
pub open spec fn members(e: EntryView, now: nat) -> Seq<MemberView> {
    seq![
        MemberView { name: "port"@, value: JsonView::Number(e.local_port as int) },
        MemberView { name: "proto"@, value: JsonView::Text(model::proto_name(e.proto)) },
        MemberView {
            name: "state"@,
            value: match e.state {
                Some(s) => JsonView::Text(model::state_name(s)),
                None => JsonView::Null,
            },
        },
        MemberView { name: "address"@, value: JsonView::Text(e.local_addr) },
        MemberView { name: "peer"@, value: optional(e.remote_addr) },
        MemberView {
            name: "peer_port"@,
            value: match e.remote_addr {
                Some(_) => JsonView::Number(e.remote_port as int),
                None => JsonView::Null,
            },
        },
        MemberView { name: "pid"@, value: JsonView::Number(e.pid as int) },
        MemberView { name: "process"@, value: JsonView::Text(e.proc_name) },
        MemberView { name: "user"@, value: JsonView::Text(e.user) },
        MemberView { name: "uid"@, value: JsonView::Number(e.uid as int) },
        MemberView { name: "ppid"@, value: JsonView::Number(e.ppid as int) },
        MemberView { name: "started"@, value: JsonView::Number(e.start_time as int) },
        MemberView {
            name: "uptime_secs"@,
            value: JsonView::Number(table::uptime(e, now) as int),
        },
        MemberView { name: "exe"@, value: optional(e.exe) },
        MemberView { name: "command"@, value: optional(e.cmdline) },
    ]
}

/// Members as they are written, with a comma between any two.
pub open spec fn members_text(ms: Seq<MemberView>) -> Seq<char> {
    text::join(ms.map_values(|m: MemberView| member_text(m)), seq![','])
}

/// The line of an object, without what ends it.
pub open spec fn object_text(ms: Seq<MemberView>) -> Seq<char> {
    seq![' ', ' ', '{'] + members_text(ms) + seq!['}']
}

/// The lines of the objects, with a comma behind each but the last.
pub open spec fn objects_text(rows: Seq<EntryView>, now: nat) -> Seq<char> {
    text::join(rows.map_values(|e: EntryView| object_text(members(e, now))), seq![',', '\n'])
}

/// The entries as an array of objects, one to a line.
pub open spec fn json_text(rows: Seq<EntryView>, now: nat) -> Seq<char> {
    seq!['[', '\n'] + objects_text(rows, now) + seq!['\n', ']', '\n']
}

/// The value of a member.
enum Json {
    Null,
    Unsigned(u64),
    Signed(i32),
    Text(String),
}

/// A member of an object.
struct Member {
    name: &'static str,
    value: Json,
}

spec fn value_view(v: Json) -> JsonView {
    match v {
        Json::Null => JsonView::Null,
        Json::Unsigned(n) => JsonView::Number(n as int),
        Json::Signed(n) => JsonView::Number(n as int),
        Json::Text(s) => JsonView::Text(s@),
    }
}

spec fn member_view(m: Member) -> MemberView {
    MemberView { name: m.name@, value: value_view(m.value) }
}

spec fn member_views(ms: Seq<Member>) -> Seq<MemberView> {
    ms.map_values(|m: Member| member_view(m))
}

/// Appends a character as it stands in a string.
fn push_escaped(out: &mut String, c: char)
    ensures
        final(out)@ == old(out)@ + escape(c),
{
    if c == '"' {
        out.push('\\');
        out.push('"');
    } else if c == '\\' {
        out.push('\\');
        out.push('\\');
    } else if c == '\n' {
        out.push('\\');
        out.push('n');
    } else if c == '\r' {
        out.push('\\');
        out.push('r');
    } else if c == '\t' {
        out.push('\\');
        out.push('t');
    } else if (c as u32) < 0x20 {
        let n: u64 = c as u64;
        out.push('\\');
        out.push('u');
        out.push('0');
        out.push('0');
        num::push_digits(out, n / 16, 16);
        num::push_digits(out, n % 16, 16);
    } else {
        out.push(c);
    }
    assert(out@ =~= old(out)@ + escape(c));
}

/// A text as a string. Control characters have to be escaped for the output to be JSON.
pub fn jstr(s: &str) -> (r: String)
    ensures
        r@ == quoted(s@),
{
    let v = text::chars_of(s);
    let mut r = String::new();
    r.push('"');
    assert(r@ =~= seq!['"'] + escaped(v@.take(0)));
    for i in 0..v.len()
        invariant
            r@ == seq!['"'] + escaped(v@.take(i as int)),
    {
        assert(v@.take(i + 1).drop_last() =~= v@.take(i as int));
        push_escaped(&mut r, v[i]);
        assert(r@ =~= seq!['"'] + escaped(v@.take(i + 1)));
    }
    assert(v@.take(v.len() as int) =~= v@);
    r.push('"');
    assert(r@ =~= quoted(s@));
    r
}

/// An optional text as a value.
fn optional_value(s: &Option<String>) -> (r: Json)
    ensures
        value_view(r) == optional(text::opt_view(*s)),
{
    match s {
        Some(t) => Json::Text(t.clone()),
        None => Json::Null,
    }
}

/// The members of an entry at the given time.
fn members_of(e: &Entry, now: u64) -> (r: Vec<Member>)
    ensures
        member_views(r@) == members(e@, now as nat),
{
    let state = match e.state {
        Some(s) => Json::Text(s.as_str().to_string()),
        None => Json::Null,
    };
    let peer_port = match &e.remote_addr {
        Some(_) => Json::Unsigned(e.remote_port as u64),
        None => Json::Null,
    };
    let mut r: Vec<Member> = Vec::new();
    r.push(Member { name: "port", value: Json::Unsigned(e.local_port as u64) });
    r.push(Member { name: "proto", value: Json::Text(e.proto.as_str().to_string()) });
    r.push(Member { name: "state", value: state });
    r.push(Member { name: "address", value: Json::Text(e.local_addr.clone()) });
    r.push(Member { name: "peer", value: optional_value(&e.remote_addr) });
    r.push(Member { name: "peer_port", value: peer_port });
    r.push(Member { name: "pid", value: Json::Signed(e.pid) });
    r.push(Member { name: "process", value: Json::Text(e.proc_name.clone()) });
    r.push(Member { name: "user", value: Json::Text(e.user.clone()) });
    r.push(Member { name: "uid", value: Json::Unsigned(e.uid as u64) });
    r.push(Member { name: "ppid", value: Json::Signed(e.ppid) });
    r.push(Member { name: "started", value: Json::Unsigned(e.start_time) });
    r.push(Member { name: "uptime_secs", value: Json::Unsigned(table::uptime_of(e, now)) });
    r.push(Member { name: "exe", value: optional_value(&e.exe) });
    r.push(Member { name: "command", value: optional_value(&e.cmdline) });
    assert(member_views(r@) =~= members(e@, now as nat));
    r
}

/// Appends a member.
fn push_member(out: &mut String, m: &Member)
    ensures
        final(out)@ == old(out)@ + member_text(member_view(*m)),
{
    out.push('"');
    out.append(m.name);
    out.push('"');
    out.push(':');
    let ghost before = out@;
    match &m.value {
        Json::Null => out.append("null"),
        Json::Unsigned(n) => num::push_dec(out, *n),
        Json::Signed(n) => num::push_signed(out, *n),
        Json::Text(s) => out.append(jstr(s.as_str()).as_str()),
    }
    assert(out@ =~= before + value_text(value_view(m.value)));
    assert(out@ =~= old(out)@ + member_text(member_view(*m)));
}

/// Appends the line of an object.
fn push_object(out: &mut String, ms: &Vec<Member>)
    ensures
        final(out)@ == old(out)@ + object_text(member_views(ms@)),
{
    let ghost texts = member_views(ms@).map_values(|m: MemberView| member_text(m));
    out.push(' ');
    out.push(' ');
    out.push('{');
    let ghost start = out@;
    assert(out@ =~= start + text::join(texts.take(0), seq![',']));
    for i in 0..ms.len()
        invariant
            texts == member_views(ms@).map_values(|m: MemberView| member_text(m)),
            out@ == start + text::join(texts.take(i as int), seq![',']),
    {
        assert(texts.take(i + 1).drop_last() =~= texts.take(i as int));
        assert(texts.take(i + 1).last() == member_text(member_view(ms@[i as int])));
        if i > 0 {
            out.push(',');
        }
        push_member(out, &ms[i]);
        assert(out@ =~= start + text::join(texts.take(i + 1), seq![',']));
    }
    assert(texts.take(texts.len() as int) =~= texts);
    out.push('}');
    assert(out@ =~= old(out)@ + object_text(member_views(ms@)));
}

/// The entries as JSON at the given time.
pub fn json_at(entries: &[Entry], now: u64) -> (r: String)
    ensures
        r@ == json_text(model::entry_views(entries@), now as nat),
{
    let ghost rows = model::entry_views(entries@);
    let ghost texts = rows.map_values(|e: EntryView| object_text(members(e, now as nat)));
    let ghost glue = seq![',', '\n'];
    let mut out = String::new();
    out.push('[');
    out.push('\n');
    assert(out@ =~= seq!['[', '\n'] + text::join(texts.take(0), glue));
    for i in 0..entries.len()
        invariant
            rows == model::entry_views(entries@),
            texts == rows.map_values(|e: EntryView| object_text(members(e, now as nat))),
            glue == seq![',', '\n'],
            out@ == seq!['[', '\n'] + text::join(texts.take(i as int), glue),
    {
        assert(texts.take(i + 1).drop_last() =~= texts.take(i as int));
        assert(rows[i as int] == entries@[i as int]@);
        if i > 0 {
            out.push(',');
            out.push('\n');
        }
        push_object(&mut out, &members_of(&entries[i], now));
        assert(out@ =~= seq!['[', '\n'] + text::join(texts.take(i + 1), glue));
    }
    assert(texts.take(texts.len() as int) =~= texts);
    out.push('\n');
    out.push(']');
    out.push('\n');
    assert(out@ =~= json_text(rows, now as nat));
    out
}

/// The entries as JSON at the time that the clock shows.
pub fn json(entries: &[Entry]) -> (r: String)
    ensures
        exists|now: u64|
            fmt::clock_gave(now) && r@ == #[trigger] json_text(
                model::entry_views(entries@),
                now as nat,
            ),
{
    let now: u64 = fmt::now();
    json_at(entries, now)
}

} // verus!
