//! Laws of the table: its columns are aligned, its lines fit the terminal, each row has one line
//! of its own, and colours change none of that.

use crate::fmt;
use crate::laws;
use crate::laws::colour;
use crate::model;
use crate::model::{EntryView, Proto, TcpState};
use crate::num;
use crate::render::table;
use crate::render::table::Column;
use crate::text;
use crate::text::Sep;
use vstd::prelude::*;

verus! {

/// Without colours, the columns of a row take as much room as those of the header and of any
/// other row, so that each column starts at the same place on every line.
pub proof fn law_columns_align(rows: Seq<EntryView>, i: int, cols: Seq<Column>, now: nat)
    requires
        0 <= i < rows.len(),
    ensures
        fmt::columns(table::cells(rows, rows[i], cols, false, now)) == table::taken(
            rows,
            cols,
            now,
        ),
        fmt::columns(table::head(rows, cols, now)) == table::taken(rows, cols, now),
    decreases cols.len(),
{
    if cols.len() > 0 {
        let front = cols.drop_last();
        let c = cols.last();
        law_columns_align(rows, i, front, now);
        table::lemma_column_width(rows, c, now);
        let w = table::column_width(rows, c, now);
        let own = table::cell(rows[i], c, now);
        let fill = text::spaces((w + table::GAP - fmt::columns(own)) as nat);
        let before = table::cells(rows, rows[i], front, false, now);
        fmt::lemma_columns_spaces((w + table::GAP - fmt::columns(own)) as nat);
        fmt::lemma_columns_add(before, own);
        fmt::lemma_columns_add(before + own, fill);
        let title = fmt::padded(table::header(c), w + table::GAP as nat);
        laws::fmt::law_padded_takes_the_columns(table::header(c), w + table::GAP as nat);
        fmt::lemma_columns_add(table::head(rows, front, now), title);
    }
}

/// Without colours, no line is wider than the terminal, unless the columns in front of the
/// command leave less than the least room for it.
pub proof fn law_table_fits(
    rows: Seq<EntryView>,
    i: int,
    show_state: bool,
    term_width: nat,
    now: nat,
)
    requires
        0 <= i < rows.len(),
        table::taken(rows, table::leading(show_state), now) + table::MIN_COMMAND <= term_width,
    ensures
        fmt::columns(table::row_text(rows, rows[i], show_state, false, term_width, now))
            <= term_width,
        fmt::columns(table::head_text(rows, show_state, false, now)) <= term_width,
{
    let cols = table::leading(show_state);
    law_columns_align(rows, i, cols, now);
    let room = table::command_room(rows, show_state, term_width, now);
    let command = fmt::truncated(table::cell(rows[i], Column::Command, now), room);
    laws::fmt::law_truncated_fits(table::cell(rows[i], Column::Command, now), room);
    fmt::lemma_columns_add(table::cells(rows, rows[i], cols, false, now), command);
    reveal_strlit("COMMAND");
    fmt::lemma_columns_add(table::head(rows, cols, now), "COMMAND"@);
    lemma_columns_at_most("COMMAND"@);
}

proof fn lemma_columns_at_most(s: Seq<char>)
    requires
        forall|i: int| 0 <= i < s.len() ==> (#[trigger] s[i]) as u32 <= 0x7f,
    ensures
        fmt::columns(s) == s.len(),
    decreases s.len(),
{
    if s.len() > 0 {
        let front = s.drop_last();
        assert forall|i: int| 0 <= i < front.len() implies (#[trigger] front[i]) as u32 <= 0x7f by {
            assert(front[i] == s[i]);
        }
        lemma_columns_at_most(front);
        assert(s[s.len() - 1] as u32 <= 0x7f);
    }
}

/// The characters that may stand on a line: no control character, but for the one that starts
/// an escape sequence where output is coloured.
pub open spec fn allowed(on: bool, c: char) -> bool {
    !text::is_control(c) || (on && c == '\u{1b}')
}

/// Whether all characters of a text may stand on a line.
pub open spec fn tidy(on: bool, s: Seq<char>) -> bool {
    forall|i: int| 0 <= i < s.len() ==> allowed(on, #[trigger] s[i])
}

pub proof fn lemma_tidy_add(on: bool, a: Seq<char>, b: Seq<char>)
    requires
        tidy(on, a),
        tidy(on, b),
    ensures
        tidy(on, a + b),
{
    assert forall|i: int| 0 <= i < (a + b).len() implies allowed(on, #[trigger] (a + b)[i]) by {
        if i < a.len() {
            assert((a + b)[i] == a[i]);
        } else {
            assert((a + b)[i] == b[i - a.len()]);
        }
    }
}

pub proof fn lemma_tidy_dec(on: bool, n: nat)
    ensures
        tidy(on, num::dec(n)),
{
    num::lemma_digits_plain(n, 10);
    assert forall|i: int| 0 <= i < num::dec(n).len() implies allowed(
        on,
        #[trigger] num::dec(n)[i],
    ) by {
        assert(num::dec(n)[i] == num::digits(n, 10)[i]);
    }
}

pub proof fn lemma_tidy_signed(on: bool, n: int)
    ensures
        tidy(on, num::signed(n)),
{
    if n < 0 {
        lemma_tidy_dec(on, (-n) as nat);
        assert(tidy(on, seq!['-']));
        lemma_tidy_add(on, seq!['-'], num::dec((-n) as nat));
    } else {
        lemma_tidy_dec(on, n as nat);
    }
}

pub proof fn lemma_tidy_truncated(on: bool, s: Seq<char>, max: nat)
    requires
        tidy(on, s),
    ensures
        tidy(on, fmt::truncated(s, max)),
{
    if fmt::columns(s) > max && max > 1 {
        let head = fmt::fitting(s, (max - 1) as nat);
        fmt::lemma_fitting(s, (max - 1) as nat);
        assert forall|i: int| 0 <= i < head.len() implies allowed(on, #[trigger] head[i]) by {
            assert(head[i] == s[i]);
        }
        assert(tidy(on, seq!['…']));
        lemma_tidy_add(on, head, seq!['…']);
        assert(head + seq!['…'] =~= head.push('…'));
    }
}

pub proof fn lemma_tidy_sanitized(on: bool, s: Seq<char>)
    ensures
        tidy(on, fmt::sanitized(s)),
{
    laws::fmt::law_sanitized_is_clean(s);
}

proof fn lemma_tidy_units(on: bool, large: nat, large_unit: char, small: nat, small_unit: char)
    requires
        allowed(on, large_unit),
        allowed(on, small_unit),
    ensures
        tidy(on, fmt::units(large, large_unit, small, small_unit)),
{
    lemma_tidy_dec(on, large);
    lemma_tidy_dec(on, small);
    lemma_tidy_add(on, num::dec(large), seq![large_unit]);
    assert(num::dec(large) + seq![large_unit] =~= num::dec(large).push(large_unit));
    lemma_tidy_add(on, num::dec(large).push(large_unit), seq![' ']);
    lemma_tidy_add(on, num::dec(large).push(large_unit) + seq![' '], num::dec(small));
    lemma_tidy_add(
        on,
        num::dec(large).push(large_unit) + seq![' '] + num::dec(small),
        seq![small_unit],
    );
    assert(num::dec(large).push(large_unit) + seq![' '] + num::dec(small) + seq![small_unit]
        =~= num::dec(large).push(large_unit).push(' ') + num::dec(small).push(small_unit));
}

pub proof fn lemma_tidy_duration(on: bool, secs: nat)
    ensures
        tidy(on, fmt::duration_text(secs)),
{
    if secs < fmt::MINUTE {
        lemma_tidy_dec(on, secs);
        lemma_tidy_add(on, num::dec(secs), seq!['s']);
        assert(num::dec(secs) + seq!['s'] =~= num::dec(secs).push('s'));
    } else {
        lemma_tidy_units(on, secs / 60, 'm', secs % 60, 's');
        lemma_tidy_units(on, secs / 3600, 'h', (secs % 3600) / 60, 'm');
        lemma_tidy_units(on, secs / 86400, 'd', (secs % 86400) / 3600, 'h');
    }
}

pub proof fn lemma_tidy_names(on: bool, p: Proto, s: TcpState)
    ensures
        tidy(on, model::proto_name(p)),
        tidy(on, model::state_name(s)),
        tidy(on, "-"@),
{
    reveal_strlit("tcp");
    reveal_strlit("udp");
    reveal_strlit("-");
    reveal_strlit("CLOSED");
    reveal_strlit("LISTEN");
    reveal_strlit("SYN_SENT");
    reveal_strlit("SYN_RECV");
    reveal_strlit("ESTABLISHED");
    reveal_strlit("CLOSE_WAIT");
    reveal_strlit("FIN_WAIT_1");
    reveal_strlit("CLOSING");
    reveal_strlit("LAST_ACK");
    reveal_strlit("FIN_WAIT_2");
    reveal_strlit("TIME_WAIT");
    reveal_strlit("UNKNOWN");
}

proof fn lemma_tidy_header(on: bool, c: Column)
    ensures
        tidy(on, table::header(c)),
{
    reveal_strlit("PORT");
    reveal_strlit("PROTO");
    reveal_strlit("STATE");
    reveal_strlit("PID");
    reveal_strlit("PROCESS");
    reveal_strlit("USER");
    reveal_strlit("UPTIME");
    reveal_strlit("ADDRESS");
    reveal_strlit("COMMAND");
}

proof fn lemma_tidy_cell(on: bool, e: EntryView, c: Column, now: nat)
    requires
        tidy(on, e.local_addr),
    ensures
        tidy(on, table::cell(e, c, now)),
{
    lemma_tidy_dec(on, e.local_port as nat);
    lemma_tidy_signed(on, e.pid as int);
    lemma_tidy_duration(on, table::uptime(e, now));
    lemma_tidy_sanitized(on, e.proc_name);
    lemma_tidy_truncated(on, fmt::sanitized(e.proc_name), table::MAX_PROCESS as nat);
    lemma_tidy_sanitized(on, e.user);
    lemma_tidy_truncated(on, e.local_addr, table::MAX_ADDRESS as nat);
    lemma_tidy_sanitized(on, model::command(e));
    match e.state {
        Some(s) => lemma_tidy_names(on, e.proto, s),
        None => lemma_tidy_names(on, e.proto, TcpState::Closed),
    }
}

pub proof fn lemma_tidy_painted(on: bool, code: Seq<char>, s: Seq<char>)
    requires
        tidy(on, code),
        tidy(on, s),
    ensures
        tidy(on, fmt::painted(on, code, s)),
{
    if on {
        reveal_strlit("\x1b[");
        reveal_strlit("m");
        reveal_strlit("\x1b[0m");
        lemma_tidy_add(on, "\x1b["@, code);
        lemma_tidy_add(on, "\x1b["@ + code, "m"@);
        lemma_tidy_add(on, "\x1b["@ + code + "m"@, s);
        lemma_tidy_add(on, "\x1b["@ + code + "m"@ + s, "\x1b[0m"@);
    }
}

proof fn lemma_tidy_shaded(on: bool, c: Column, s: Seq<char>)
    requires
        tidy(on, s),
    ensures
        tidy(on, table::shaded(on, c, s)),
        tidy(on, fmt::dim(on, s)),
{
    reveal_strlit("1");
    reveal_strlit("2");
    reveal_strlit("36");
    reveal_strlit("33");
    reveal_strlit("32");
    lemma_tidy_painted(on, "2"@, s);
    lemma_tidy_painted(on, "36"@, s);
    lemma_tidy_painted(on, "33"@, s);
    lemma_tidy_painted(on, "32"@, s);
    lemma_tidy_painted(on, "1"@, fmt::cyan(on, s));
}

proof fn lemma_tidy_cells(on: bool, rows: Seq<EntryView>, e: EntryView, cols: Seq<Column>, now: nat)
    requires
        tidy(on, e.local_addr),
    ensures
        tidy(on, table::cells(rows, e, cols, on, now)),
        tidy(on, table::head(rows, cols, now)),
    decreases cols.len(),
{
    if cols.len() > 0 {
        let front = cols.drop_last();
        let c = cols.last();
        lemma_tidy_cells(on, rows, e, front, now);
        lemma_tidy_cell(on, e, c, now);
        let own = table::cell(e, c, now);
        lemma_tidy_shaded(on, c, own);
        let fill = text::spaces(
            (table::column_width(rows, c, now) + table::GAP - fmt::columns(own)) as nat,
        );
        assert(tidy(on, fill));
        let before = table::cells(rows, e, front, on, now);
        lemma_tidy_add(on, before, table::shaded(on, c, own));
        lemma_tidy_add(on, before + table::shaded(on, c, own), fill);
        let to = table::column_width(rows, c, now) + table::GAP as nat;
        let title = table::header(c);
        lemma_tidy_header(on, c);
        let blank = text::spaces((to - fmt::columns(title)) as nat);
        assert(tidy(on, blank));
        lemma_tidy_add(on, title, blank);
        lemma_tidy_add(on, table::head(rows, front, now), fmt::padded(title, to));
    }
}

/// What a row shows stays on its line and cannot drive the terminal: no control character of a
/// process name, a user or a command gets through, as long as addresses hold none.
pub proof fn law_rows_hold_no_control(
    rows: Seq<EntryView>,
    e: EntryView,
    show_state: bool,
    on: bool,
    term_width: nat,
    now: nat,
)
    requires
        tidy(on, e.local_addr),
    ensures
        tidy(on, table::row_text(rows, e, show_state, on, term_width, now)),
{
    let cols = table::leading(show_state);
    lemma_tidy_cells(on, rows, e, cols, now);
    lemma_tidy_cell(on, e, Column::Command, now);
    let room = table::command_room(rows, show_state, term_width, now);
    let cut = fmt::truncated(table::cell(e, Column::Command, now), room);
    lemma_tidy_truncated(on, table::cell(e, Column::Command, now), room);
    lemma_tidy_shaded(on, Column::Command, cut);
    lemma_tidy_add(
        on,
        table::cells(rows, e, cols, on, now),
        table::shaded(on, Column::Command, cut),
    );
}

proof fn lemma_tidy_head(rows: Seq<EntryView>, show_state: bool, on: bool, now: nat)
    ensures
        tidy(on, table::head_text(rows, show_state, on, now)),
{
    let cols = table::leading(show_state);
    let e = EntryView {
        proto: Proto::Tcp,
        state: None,
        local_addr: Seq::<char>::empty(),
        local_port: 0,
        remote_addr: None,
        remote_port: 0,
        pid: 0,
        proc_name: Seq::<char>::empty(),
        exe: None,
        cmdline: None,
        user: Seq::<char>::empty(),
        uid: 0,
        ppid: 0,
        start_time: 0,
    };
    lemma_tidy_cells(on, rows, e, cols, now);
    lemma_tidy_header(on, Column::Command);
    let line = table::head(rows, cols, now) + table::header(Column::Command);
    lemma_tidy_add(on, table::head(rows, cols, now), table::header(Column::Command));
    lemma_tidy_shaded(on, Column::Command, line);
}

/// The lines of the table: the headers, and one line for each of the first `n` rows.
pub open spec fn table_lines(
    rows: Seq<EntryView>,
    n: nat,
    show_state: bool,
    on: bool,
    term_width: nat,
    now: nat,
) -> Seq<Seq<char>> {
    seq![table::head_text(rows, show_state, on, now)] + Seq::new(
        n,
        |i: int| table::row_text(rows, rows[i], show_state, on, term_width, now),
    )
}

/// No line feed stands on a tidy line.
proof fn lemma_tidy_is_one_line(on: bool, s: Seq<char>)
    requires
        tidy(on, s),
    ensures
        forall|j: int| 0 <= j < s.len() ==> !text::separates(Sep::Char('\n'), #[trigger] s[j]),
{
    assert forall|j: int| 0 <= j < s.len() implies !text::separates(
        Sep::Char('\n'),
        #[trigger] s[j],
    ) by {
        assert(allowed(on, s[j]));
    }
}

/// Lines one below the other, with a line feed behind each.
spec fn stacked(lines: Seq<Seq<char>>) -> Seq<char>
    decreases lines.len(),
{
    if lines.len() == 0 {
        Seq::<char>::empty()
    } else {
        stacked(lines.drop_last()) + lines.last().push('\n')
    }
}

/// Stacked lines are the pieces between line feeds, with an empty one behind the last.
proof fn lemma_stacked(on: bool, lines: Seq<Seq<char>>)
    requires
        forall|i: int| 0 <= i < lines.len() ==> tidy(on, #[trigger] lines[i]),
    ensures
        text::split(stacked(lines), Sep::Char('\n')) == lines.push(Seq::<char>::empty()),
        lines.len() > 0 ==> stacked(lines).len() > 0 && stacked(lines).last() == '\n',
    decreases lines.len(),
{
    let feed = Sep::Char('\n');
    let none = Seq::<char>::empty();
    if lines.len() == 0 {
        assert(text::split(none, feed) =~= lines.push(none));
    } else {
        let front = lines.drop_last();
        let line = lines[lines.len() - 1];
        assert forall|i: int| 0 <= i < front.len() implies tidy(on, #[trigger] front[i]) by {
            assert(front[i] == lines[i]);
        }
        lemma_stacked(on, front);
        lemma_tidy_is_one_line(on, line);
        let before = stacked(front);
        let whole = stacked(lines);
        assert(whole =~= (before + line).push('\n') + none);
        text::lemma_split_behind(before + line, '\n', none, feed);
        if front.len() == 0 {
            assert(before + line =~= line);
            text::lemma_split_solid(line, feed);
        } else {
            let open = before.drop_last();
            assert(before =~= open.push('\n'));
            text::lemma_split_behind(open, '\n', line, feed);
            text::lemma_split_behind(open, '\n', none, feed);
            assert(open.push('\n') + none =~= before);
            assert(text::split(open, feed).push(none).drop_last() =~= text::split(open, feed));
            assert(front.push(none).drop_last() =~= front);
        }
        assert(front.push(line) =~= lines);
    }
}

/// The table is its lines one below the other.
proof fn lemma_table_is_stacked(
    rows: Seq<EntryView>,
    n: nat,
    show_state: bool,
    on: bool,
    term_width: nat,
    now: nat,
)
    ensures
        table::head_text(rows, show_state, on, now).push('\n') + table::body_text(
            rows,
            n,
            show_state,
            on,
            term_width,
            now,
        ) == stacked(table_lines(rows, n, show_state, on, term_width, now)),
    decreases n,
{
    let head = table::head_text(rows, show_state, on, now);
    let body = table::body_text(rows, n, show_state, on, term_width, now);
    let lines = table_lines(rows, n, show_state, on, term_width, now);
    if n == 0 {
        assert(lines =~= seq![head]);
        assert(lines.drop_last() =~= Seq::<Seq<char>>::empty());
        assert(stacked(lines.drop_last()) =~= Seq::<char>::empty());
        assert(head.push('\n') + body =~= stacked(lines));
    } else {
        let m = (n - 1) as nat;
        lemma_table_is_stacked(rows, m, show_state, on, term_width, now);
        let before = table::body_text(rows, m, show_state, on, term_width, now);
        let line = table::row_text(rows, rows[n - 1], show_state, on, term_width, now);
        assert(lines.drop_last() =~= table_lines(rows, m, show_state, on, term_width, now));
        assert(lines.last() == line);
        assert(body == before + line.push('\n'));
        assert(head.push('\n') + (before + line.push('\n')) =~= (head.push('\n') + before)
            + line.push('\n'));
    }
}

/// The table is a line of headers and exactly one line for each row, in order, as long as no
/// address holds a control character.
pub proof fn law_table_has_a_line_per_row(
    rows: Seq<EntryView>,
    show_state: bool,
    on: bool,
    term_width: nat,
    now: nat,
)
    requires
        forall|i: int| 0 <= i < rows.len() ==> tidy(on, (#[trigger] rows[i]).local_addr),
    ensures
        text::split(
            table::table_text(rows, show_state, on, term_width, now),
            Sep::Char('\n'),
        ) == table_lines(rows, rows.len(), show_state, on, term_width, now).push(
            Seq::<char>::empty(),
        ),
{
    let lines = table_lines(rows, rows.len(), show_state, on, term_width, now);
    lemma_table_is_stacked(rows, rows.len(), show_state, on, term_width, now);
    assert forall|i: int| 0 <= i < lines.len() implies tidy(on, #[trigger] lines[i]) by {
        if i == 0 {
            lemma_tidy_head(rows, show_state, on, now);
        } else {
            assert(tidy(on, rows[i - 1].local_addr));
            law_rows_hold_no_control(rows, rows[i - 1], show_state, on, term_width, now);
        }
    }
    lemma_stacked(on, lines);
}

/// A tidy line without colours holds no escape character.
pub proof fn lemma_tidy_is_bare(s: Seq<char>)
    requires
        tidy(false, s),
    ensures
        colour::bare(s),
{
    assert forall|i: int| 0 <= i < s.len() implies #[trigger] s[i] != '\u{1b}' by {
        assert(allowed(false, s[i]));
    }
}

pub proof fn lemma_bare_truncated(s: Seq<char>, max: nat)
    requires
        colour::bare(s),
    ensures
        colour::bare(fmt::truncated(s, max)),
{
    if fmt::columns(s) > max && max > 1 {
        let head = fmt::fitting(s, (max - 1) as nat);
        fmt::lemma_fitting(s, (max - 1) as nat);
        assert forall|i: int| 0 <= i < head.push('…').len() implies #[trigger] head.push('…')[i]
            != '\u{1b}' by {
            if i < head.len() {
                assert(head.push('…')[i] == s[i]);
            }
        }
    }
}

proof fn lemma_bare_cell(e: EntryView, c: Column, now: nat)
    requires
        colour::bare(e.local_addr),
    ensures
        colour::bare(table::cell(e, c, now)),
{
    if c == Column::Address {
        lemma_bare_truncated(e.local_addr, table::MAX_ADDRESS as nat);
    } else {
        let other = EntryView { local_addr: Seq::<char>::empty(), ..e };
        lemma_tidy_cell(false, other, c, now);
        assert(table::cell(other, c, now) == table::cell(e, c, now));
        lemma_tidy_is_bare(table::cell(e, c, now));
    }
}

proof fn lemma_shaded_paints(c: Column, s: Seq<char>)
    requires
        colour::bare(s),
    ensures
        colour::paints(table::shaded(true, c, s), table::shaded(false, c, s)),
        colour::paints(fmt::dim(true, s), s),
{
    colour::lemma_bare_paints(s);
    colour::lemma_colours_paint(s, s);
    colour::lemma_colours_paint(fmt::cyan(true, s), s);
}

proof fn lemma_cells_paint(rows: Seq<EntryView>, e: EntryView, cols: Seq<Column>, now: nat)
    requires
        colour::bare(e.local_addr),
    ensures
        colour::paints(
            table::cells(rows, e, cols, true, now),
            table::cells(rows, e, cols, false, now),
        ),
    decreases cols.len(),
{
    if cols.len() == 0 {
        colour::lemma_bare_paints(Seq::<char>::empty());
    } else {
        let front = cols.drop_last();
        let c = cols.last();
        let own = table::cell(e, c, now);
        let fill = text::spaces(
            (table::column_width(rows, c, now) + table::GAP - fmt::columns(own)) as nat,
        );
        lemma_cells_paint(rows, e, front, now);
        lemma_bare_cell(e, c, now);
        lemma_shaded_paints(c, own);
        colour::lemma_bare_paints(fill);
        let x = table::cells(rows, e, front, true, now);
        let y = table::cells(rows, e, front, false, now);
        let u = table::shaded(true, c, own);
        let v = table::shaded(false, c, own);
        colour::lemma_paints_three(x, u, fill, y, v, fill);
    }
}

proof fn lemma_row_paints(
    rows: Seq<EntryView>,
    e: EntryView,
    show_state: bool,
    term_width: nat,
    now: nat,
)
    requires
        colour::bare(e.local_addr),
    ensures
        colour::paints(
            table::row_text(rows, e, show_state, true, term_width, now),
            table::row_text(rows, e, show_state, false, term_width, now),
        ),
{
    let cols = table::leading(show_state);
    let room = table::command_room(rows, show_state, term_width, now);
    let own = table::cell(e, Column::Command, now);
    lemma_cells_paint(rows, e, cols, now);
    lemma_bare_cell(e, Column::Command, now);
    lemma_bare_truncated(own, room);
    lemma_shaded_paints(Column::Command, fmt::truncated(own, room));
    colour::lemma_paints_add(
        table::cells(rows, e, cols, true, now),
        table::cells(rows, e, cols, false, now),
        table::shaded(true, Column::Command, fmt::truncated(own, room)),
        table::shaded(false, Column::Command, fmt::truncated(own, room)),
    );
}

/// A line feed behind a painted line.
proof fn lemma_paints_line(x: Seq<char>, y: Seq<char>)
    requires
        colour::paints(x, y),
    ensures
        colour::paints(x.push('\n'), y.push('\n')),
{
    let feed = seq!['\n'];
    colour::lemma_bare_paints(feed);
    colour::lemma_paints_add(x, y, feed, feed);
    assert(x + feed =~= x.push('\n'));
    assert(y + feed =~= y.push('\n'));
}

proof fn lemma_body_paints(
    rows: Seq<EntryView>,
    n: nat,
    show_state: bool,
    term_width: nat,
    now: nat,
)
    requires
        n <= rows.len(),
        forall|i: int| 0 <= i < rows.len() ==> colour::bare((#[trigger] rows[i]).local_addr),
    ensures
        colour::paints(
            table::body_text(rows, n, show_state, true, term_width, now),
            table::body_text(rows, n, show_state, false, term_width, now),
        ),
    decreases n,
{
    if n == 0 {
        colour::lemma_bare_paints(Seq::<char>::empty());
    } else {
        let m = (n - 1) as nat;
        let e = rows[n - 1];
        lemma_body_paints(rows, m, show_state, term_width, now);
        lemma_row_paints(rows, e, show_state, term_width, now);
        let x = table::row_text(rows, e, show_state, true, term_width, now);
        let y = table::row_text(rows, e, show_state, false, term_width, now);
        lemma_paints_line(x, y);
        colour::lemma_paints_add(
            table::body_text(rows, m, show_state, true, term_width, now),
            table::body_text(rows, m, show_state, false, term_width, now),
            x.push('\n'),
            y.push('\n'),
        );
    }
}

/// Colours change nothing but the escape sequences: with those taken out, the coloured table is
/// the plain one, so that its columns align and its lines fit as they do there. No address may
/// hold an escape character of its own.
pub proof fn law_colours_keep_the_table(
    rows: Seq<EntryView>,
    show_state: bool,
    term_width: nat,
    now: nat,
)
    requires
        forall|i: int| 0 <= i < rows.len() ==> colour::bare((#[trigger] rows[i]).local_addr),
    ensures
        colour::without_colours(table::table_text(rows, show_state, true, term_width, now))
            == table::table_text(rows, show_state, false, term_width, now),
{
    let title = table::head_text(rows, show_state, false, now);
    lemma_tidy_head(rows, show_state, false, now);
    lemma_tidy_is_bare(title);
    lemma_shaded_paints(Column::Command, title);
    let x = table::head_text(rows, show_state, true, now);
    lemma_paints_line(x, title);
    lemma_body_paints(rows, rows.len(), show_state, term_width, now);
    let lines = table::body_text(rows, rows.len(), show_state, true, term_width, now);
    let plain = table::body_text(rows, rows.len(), show_state, false, term_width, now);
    colour::lemma_paints_add(x.push('\n'), title.push('\n'), lines, plain);
    colour::lemma_paints_alone(x.push('\n') + lines, title.push('\n') + plain);
}

/// What a row shows in front of the command, cell by cell: the port, the protocol, the state where
/// it is asked for, the process, its name and user, how long it runs, and the address.
pub open spec fn shown_cells(e: EntryView, show_state: bool, now: nat) -> Seq<Seq<char>> {
    let proto = if e.proto == Proto::Tcp {
        "tcp"@
    } else {
        "udp"@
    };
    let state = match e.state {
        Some(s) => seq![laws::json::state_word(s)],
        None => seq!["-"@],
    };
    let up = if now >= e.start_time {
        (now - e.start_time) as nat
    } else {
        0
    };
    seq![num::dec(e.local_port as nat), proto] + (if show_state {
        state
    } else {
        Seq::<Seq<char>>::empty()
    }) + seq![
        num::signed(e.pid as int),
        fmt::truncated(fmt::sanitized(e.proc_name), 22),
        fmt::sanitized(e.user),
        fmt::duration_text(up),
        fmt::truncated(e.local_addr, 21),
    ]
}

/// What a row shows of its command: the command line, else the path of the executable, else the
/// name of the process.
pub open spec fn shown_command(e: EntryView) -> Seq<char> {
    fmt::sanitized(
        if e.cmdline is Some {
            e.cmdline->0
        } else if e.exe is Some {
            e.exe->0
        } else {
            e.proc_name
        },
    )
}

/// What stands above the cells.
pub open spec fn shown_heads(show_state: bool) -> Seq<Seq<char>> {
    if show_state {
        seq!["PORT"@, "PROTO"@, "STATE"@, "PID"@, "PROCESS"@, "USER"@, "UPTIME"@, "ADDRESS"@]
    } else {
        seq!["PORT"@, "PROTO"@, "PID"@, "PROCESS"@, "USER"@, "UPTIME"@, "ADDRESS"@]
    }
}

/// Cells one behind the other, each filled up with spaces to its width.
pub open spec fn laid(cells: Seq<Seq<char>>, widths: Seq<nat>) -> Seq<char>
    decreases cells.len(),
{
    if cells.len() == 0 {
        Seq::<char>::empty()
    } else {
        laid(cells.drop_last(), widths) + cells.last() + text::spaces(
            (widths[cells.len() - 1] - fmt::columns(cells.last())) as nat,
        )
    }
}

/// What widths come to.
pub open spec fn total(widths: Seq<nat>) -> nat
    decreases widths.len(),
{
    if widths.len() == 0 {
        0
    } else {
        total(widths.drop_last()) + widths.last()
    }
}

/// Whether a column of the given index is two columns wider than what it holds needs, and no more.
pub open spec fn as_wide_as_needed(
    rows: Seq<EntryView>,
    show_state: bool,
    now: nat,
    k: int,
    w: nat,
) -> bool {
    &&& fmt::columns(shown_heads(show_state)[k]) + 2 <= w
    &&& forall|i: int|
        0 <= i < rows.len() ==> fmt::columns(shown_cells(#[trigger] rows[i], show_state, now)[k])
            + 2 <= w
    &&& w == fmt::columns(shown_heads(show_state)[k]) + 2 || exists|i: int|
        0 <= i < rows.len() && fmt::columns(
            shown_cells(#[trigger] rows[i], show_state, now)[k],
        ) + 2 == w
}

proof fn lemma_tight_width(rows: Seq<EntryView>, c: Column, now: nat)
    ensures
        table::column_width(rows, c, now) == fmt::columns(table::header(c)) || exists|i: int|
            0 <= i < rows.len() && fmt::columns(table::cell(#[trigger] rows[i], c, now))
                == table::column_width(rows, c, now),
    decreases rows.len(),
{
    if rows.len() > 0 {
        let front = rows.drop_last();
        lemma_tight_width(front, c, now);
        let before = table::column_width(front, c, now);
        if table::column_width(rows, c, now) == before {
            if before != fmt::columns(table::header(c)) {
                let i = choose|i: int|
                    0 <= i < front.len() && fmt::columns(table::cell(#[trigger] front[i], c, now))
                        == before;
                assert(rows[i] == front[i]);
            }
        } else {
            assert(fmt::columns(table::cell(rows[rows.len() - 1], c, now)) == table::column_width(
                rows,
                c,
                now,
            ));
        }
    }
}

/// The widths of the columns in front of the command.
spec fn widths(rows: Seq<EntryView>, show_state: bool, now: nat) -> Seq<nat> {
    let cols = table::leading(show_state);
    Seq::new(cols.len(), |k: int| table::column_width(rows, cols[k], now) + table::GAP as nat)
}

proof fn lemma_cell_of_column(e: EntryView, show_state: bool, now: nat, k: int)
    requires
        0 <= k < table::leading(show_state).len(),
    ensures
        shown_cells(e, show_state, now).len() == table::leading(show_state).len(),
        shown_heads(show_state).len() == table::leading(show_state).len(),
        table::cell(e, table::leading(show_state)[k], now) == shown_cells(e, show_state, now)[k],
        table::header(table::leading(show_state)[k]) == shown_heads(show_state)[k],
{
    let cells = shown_cells(e, show_state, now);
    let cols = table::leading(show_state);
    if show_state {
        assert(cells.len() == 8);
        if k == 0 {
        } else if k == 1 {
        } else if k == 2 {
        } else if k == 3 {
        } else if k == 4 {
        } else if k == 5 {
        } else if k == 6 {
        } else {
            assert(k == 7);
        }
    } else {
        assert(cells.len() == 7);
        if k == 0 {
        } else if k == 1 {
        } else if k == 2 {
        } else if k == 3 {
        } else if k == 4 {
        } else if k == 5 {
        } else {
            assert(k == 6);
        }
    }
}

proof fn lemma_cells_laid(rows: Seq<EntryView>, i: int, show_state: bool, now: nat, n: nat)
    requires
        0 <= i < rows.len(),
        n <= table::leading(show_state).len(),
    ensures
        table::cells(rows, rows[i], table::leading(show_state).take(n as int), false, now) == laid(
            shown_cells(rows[i], show_state, now).take(n as int),
            widths(rows, show_state, now),
        ),
    decreases n,
{
    let cols = table::leading(show_state);
    let cells = shown_cells(rows[i], show_state, now);
    if n > 0 {
        let m = (n - 1) as nat;
        lemma_cells_laid(rows, i, show_state, now, m);
        lemma_cell_of_column(rows[i], show_state, now, m as int);
        assert(cols.take(n as int).drop_last() =~= cols.take(m as int));
        assert(cells.take(n as int).drop_last() =~= cells.take(m as int));
        assert(cols.take(n as int).last() == cols[m as int]);
        assert(cells.take(n as int).last() == cells[m as int]);
    } else {
        lemma_cell_of_column(rows[i], show_state, now, 0);
        assert(cols.take(0) =~= Seq::<Column>::empty());
        assert(cells.take(0) =~= Seq::<Seq<char>>::empty());
    }
}

proof fn lemma_heads_laid(rows: Seq<EntryView>, show_state: bool, now: nat, n: nat)
    requires
        n <= table::leading(show_state).len(),
    ensures
        table::head(rows, table::leading(show_state).take(n as int), now) == laid(
            shown_heads(show_state).take(n as int),
            widths(rows, show_state, now),
        ),
    decreases n,
{
    let cols = table::leading(show_state);
    let heads = shown_heads(show_state);
    if n > 0 {
        let m = (n - 1) as nat;
        lemma_heads_laid(rows, show_state, now, m);
        let c = cols[m as int];
        let any = EntryView {
            proto: Proto::Tcp,
            state: None,
            local_addr: Seq::<char>::empty(),
            local_port: 0,
            remote_addr: None,
            remote_port: 0,
            pid: 0,
            proc_name: Seq::<char>::empty(),
            exe: None,
            cmdline: None,
            user: Seq::<char>::empty(),
            uid: 0,
            ppid: 0,
            start_time: 0,
        };
        lemma_cell_of_column(any, show_state, now, m as int);
        table::lemma_column_width(rows, c, now);
        assert(cols.take(n as int).drop_last() =~= cols.take(m as int));
        assert(heads.take(n as int).drop_last() =~= heads.take(m as int));
        assert(cols.take(n as int).last() == c);
        assert(heads.take(n as int).last() == heads[m as int]);
        let before = table::head(rows, cols.take(m as int), now);
        let title = heads[m as int];
        let w = table::column_width(rows, c, now) + table::GAP as nat;
        assert(before + (title + text::spaces((w - fmt::columns(title)) as nat)) =~= before + title
            + text::spaces((w - fmt::columns(title)) as nat));
    } else {
        assert(cols.take(0) =~= Seq::<Column>::empty());
        assert(heads.take(0) =~= Seq::<Seq<char>>::empty());
    }
}

proof fn lemma_taken_total(rows: Seq<EntryView>, show_state: bool, now: nat, n: nat)
    requires
        n <= table::leading(show_state).len(),
    ensures
        table::taken(rows, table::leading(show_state).take(n as int), now) == total(
            widths(rows, show_state, now).take(n as int),
        ),
    decreases n,
{
    let cols = table::leading(show_state);
    let w = widths(rows, show_state, now);
    if n > 0 {
        let m = (n - 1) as nat;
        lemma_taken_total(rows, show_state, now, m);
        assert(cols.take(n as int).drop_last() =~= cols.take(m as int));
        assert(w.take(n as int).drop_last() =~= w.take(m as int));
        assert(cols.take(n as int).last() == cols[m as int]);
        assert(w.take(n as int).last() == w[m as int]);
    } else {
        assert(cols.take(0) =~= Seq::<Column>::empty());
        assert(w.take(0) =~= Seq::<nat>::empty());
    }
}

/// Whether the lines of a table are laid out with the given widths: what each row shows stands
/// below what stands above it, and the command takes what is left of the terminal, but never less
/// than twelve columns.
pub open spec fn laid_out(
    rows: Seq<EntryView>,
    show_state: bool,
    term_width: nat,
    now: nat,
    w: Seq<nat>,
) -> bool {
    let room = if total(w) + 12 <= term_width {
        (term_width - total(w)) as nat
    } else {
        12
    };
    &&& w.len() == shown_heads(show_state).len()
    &&& forall|k: int|
        0 <= k < w.len() ==> as_wide_as_needed(rows, show_state, now, k, #[trigger] w[k])
    &&& table::head_text(rows, show_state, false, now) == laid(shown_heads(show_state), w)
        + "COMMAND"@
    &&& forall|i: int|
        0 <= i < rows.len() ==> table::row_text(
            rows,
            #[trigger] rows[i],
            show_state,
            false,
            term_width,
            now,
        ) == laid(shown_cells(rows[i], show_state, now), w) + fmt::truncated(
            shown_command(rows[i]),
            room,
        )
}

/// What the table shows of each row, and where. Every cell stands in the column of its header, and
/// a column is as wide as what it holds needs, with two columns between any two.
pub proof fn law_what_the_table_shows(
    rows: Seq<EntryView>,
    show_state: bool,
    term_width: nat,
    now: nat,
)
    ensures
        exists|w: Seq<nat>| #[trigger] laid_out(rows, show_state, term_width, now, w),
{
    let cols = table::leading(show_state);
    let n = cols.len();
    let w = widths(rows, show_state, now);
    let heads = shown_heads(show_state);
    assert(cols.take(n as int) =~= cols);
    lemma_heads_laid(rows, show_state, now, n);
    assert(heads.len() == n);
    assert(heads.take(n as int) =~= heads);
    lemma_taken_total(rows, show_state, now, n);
    assert(w.take(n as int) =~= w);
    assert forall|k: int| 0 <= k < w.len() implies as_wide_as_needed(
        rows,
        show_state,
        now,
        k,
        #[trigger] w[k],
    ) by {
        lemma_wide(rows, show_state, now, k);
    }
    assert forall|i: int| 0 <= i < rows.len() implies table::row_text(
        rows,
        #[trigger] rows[i],
        show_state,
        false,
        term_width,
        now,
    ) == laid(shown_cells(rows[i], show_state, now), w) + fmt::truncated(
        shown_command(rows[i]),
        table::command_room(rows, show_state, term_width, now),
    ) by {
        lemma_cells_laid(rows, i, show_state, now, n);
        lemma_cell_of_column(rows[i], show_state, now, 0);
        assert(shown_cells(rows[i], show_state, now).take(n as int) =~= shown_cells(
            rows[i],
            show_state,
            now,
        ));
    }
    assert(laid_out(rows, show_state, term_width, now, w));
}

proof fn lemma_wide(rows: Seq<EntryView>, show_state: bool, now: nat, k: int)
    requires
        0 <= k < table::leading(show_state).len(),
    ensures
        as_wide_as_needed(rows, show_state, now, k, widths(rows, show_state, now)[k]),
{
    let c = table::leading(show_state)[k];
    table::lemma_column_width(rows, c, now);
    lemma_tight_width(rows, c, now);
    assert(table::header(c) == shown_heads(show_state)[k]);
    let w = widths(rows, show_state, now)[k];
    assert forall|i: int| 0 <= i < rows.len() implies fmt::columns(
        shown_cells(#[trigger] rows[i], show_state, now)[k],
    ) + 2 <= w by {
        lemma_cell_of_column(rows[i], show_state, now, k);
    }
    if w != fmt::columns(shown_heads(show_state)[k]) + 2 {
        let i = choose|i: int|
            0 <= i < rows.len() && fmt::columns(table::cell(#[trigger] rows[i], c, now))
                == table::column_width(rows, c, now);
        lemma_cell_of_column(rows[i], show_state, now, k);
        assert(fmt::columns(shown_cells(rows[i], show_state, now)[k]) + 2 == w);
    }
}

/// What is coloured, and how: ports are bold and cyan, processes yellow, the state green where it
/// listens and dim where not, commands and headers dim; all else is plain.
pub proof fn law_what_is_coloured(s: Seq<char>, rows: Seq<EntryView>, show_state: bool, now: nat)
    ensures
        table::shaded(true, Column::Port, s) == fmt::painted(true, "1"@, fmt::painted(true, "36"@, s)),
        table::shaded(true, Column::Pid, s) == fmt::painted(true, "33"@, s),
        table::shaded(true, Column::State, "LISTEN"@) == fmt::painted(true, "32"@, "LISTEN"@),
        s != "LISTEN"@ ==> table::shaded(true, Column::State, s) == fmt::painted(true, "2"@, s),
        table::shaded(true, Column::Command, s) == fmt::painted(true, "2"@, s),
        table::shaded(true, Column::Proto, s) == s,
        table::shaded(true, Column::Process, s) == s,
        table::shaded(true, Column::User, s) == s,
        table::shaded(true, Column::Uptime, s) == s,
        table::shaded(true, Column::Address, s) == s,
        table::head_text(rows, show_state, true, now) == fmt::painted(
            true,
            "2"@,
            table::head_text(rows, show_state, false, now),
        ),
{
}

} // verus!
