//! What `procfs` says of a process.

use crate::num;
use crate::sys::bytes;
use crate::sys::meta;
use crate::sys::meta::{ProcMeta, ProcMetaView};
use crate::text;
use crate::text::Sep;
use vstd::prelude::*;

verus! {

/// What was read of a process under `/proc/<pid>`, as far as it could be read.
pub struct ProcFiles {
    /// The file `stat`.
    pub stat: Option<String>,
    /// The owner of the directory.
    pub uid: Option<u32>,
    /// The file `comm`.
    pub comm: Option<String>,
    /// Where the link `exe` leads.
    pub exe: Option<Vec<u8>>,
    /// The file `cmdline`.
    pub cmdline: Option<Vec<u8>>,
}

/// What was read of a process, with texts and bytes as sequences.
#[verifier::ext_equal]
pub struct ProcFilesView {
    pub stat: Option<Seq<char>>,
    pub uid: Option<u32>,
    pub comm: Option<Seq<char>>,
    pub exe: Option<Seq<u8>>,
    pub cmdline: Option<Seq<u8>>,
}

impl View for ProcFiles {
    type V = ProcFilesView;

    open spec fn view(&self) -> ProcFilesView {
        ProcFilesView {
            stat: text::opt_view(self.stat),
            uid: self.uid,
            comm: text::opt_view(self.comm),
            exe: bytes::opt_bytes(self.exe),
            cmdline: bytes::opt_bytes(self.cmdline),
        }
    }
}

/// The parent of the process and when it started, in ticks since the system did. The second
/// field of `stat` is the name of the process in parentheses. It may hold spaces and
/// parentheses, so fields are counted from behind the last closing one.
pub open spec fn stat_fields(stat: Seq<char>) -> Option<(int, nat)> {
    match text::rfind(stat, ')') {
        Some(i) => {
            let f = text::words(stat.skip(i + 1), Sep::White);
            if f.len() < 20 {
                None
            } else {
                match (num::parse_signed(f[1]), num::parse_unsigned(f[19], 10, 0xffff_ffff_ffff_ffff)) {
                    (Some(ppid), Some(ticks)) => Some((ppid, ticks)),
                    _ => None,
                }
            }
        },
        None => None,
    }
}

/// When a process started, from when the system did: `ticks` later, of which a second has `hz`.
pub open spec fn started_at(btime: nat, ticks: nat, hz: nat) -> nat {
    btime + ticks / (if hz < 1 {
        1
    } else {
        hz
    })
}

/// The name in the file `comm`: without white space around it, and none where that leaves
/// nothing.
pub open spec fn comm_name(comm: Option<Seq<char>>) -> Option<Seq<char>> {
    match comm {
        Some(c) => if text::trim(c).len() == 0 {
            None
        } else {
            Some(text::trim(c))
        },
        None => None,
    }
}

/// The path of the executable.
pub open spec fn exe_text(exe: Option<Seq<u8>>) -> Option<Seq<char>> {
    match exe {
        Some(b) => Some(bytes::utf8_lossy(b)),
        None => None,
    }
}

/// The command line. Zero bytes end its arguments; threads of the kernel have none.
pub open spec fn cmdline_text(cmdline: Option<Seq<u8>>) -> Option<Seq<char>> {
    match cmdline {
        Some(b) => bytes::command_line_text(bytes::texts(bytes::runs(b))),
        None => None,
    }
}

/// What is known of a process, where its parent, its start and its owner are.
pub open spec fn meta_of(f: ProcFilesView, btime: nat, hz: nat) -> Option<ProcMetaView> {
    match (f.stat, f.uid) {
        (Some(stat), Some(uid)) => match stat_fields(stat) {
            Some((ppid, ticks)) => Some(
                ProcMetaView {
                    name: meta::process_name(comm_name(f.comm), exe_text(f.exe)),
                    exe: exe_text(f.exe),
                    cmdline: cmdline_text(f.cmdline),
                    uid,
                    ppid: ppid as i32,
                    start_time: started_at(btime, ticks, hz),
                },
            ),
            None => None,
        },
        _ => None,
    }
}

/// Whether the moment at which a process started can be counted in 64 bits.
pub open spec fn countable(f: ProcFilesView, btime: nat, hz: nat) -> bool {
    meta_of(f, btime, hz) matches Some(m) ==> m.start_time <= u64::MAX
}

/// When the system started, from the file `/proc/stat`: what its first line that begins with
/// `btime` says, and zero where there is none or it says nothing.
pub open spec fn boot_time_in(lines: Seq<Seq<char>>) -> nat
    decreases lines.len(),
{
    if lines.len() == 0 {
        0
    } else if text::starts_with(lines[0], "btime "@) {
        match num::parse_unsigned(
            text::trim(lines[0].skip("btime "@.len() as int)),
            10,
            0xffff_ffff_ffff_ffff,
        ) {
            Some(t) => t,
            None => 0,
        }
    } else {
        boot_time_in(lines.drop_first())
    }
}

/// When the system started, from the file `/proc/stat` where it could be read.
pub open spec fn boot_time_of(stat: Option<Seq<char>>) -> nat {
    match stat {
        Some(s) => boot_time_in(text::lines(s)),
        None => 0,
    }
}

/// What `stat_fields` says, as a value.
pub open spec fn stat_view(r: Option<(i32, u64)>) -> Option<(int, nat)> {
    match r {
        Some((p, t)) => Some((p as int, t as nat)),
        None => None,
    }
}

/// The parent of the process and when it started, in ticks since the system did.
pub fn parse_stat(stat: &str) -> (r: Option<(i32, u64)>)
    ensures
        stat_view(r) == stat_fields(stat@),
{
    let v = text::chars_of(stat);
    let n: usize = v.len();
    match text::rfind_char(v.as_slice(), ')') {
        Some(i) => {
            let tail = text::copy_range(v.as_slice(), i + 1, n);
            assert(tail@ =~= stat@.skip(i + 1));
            let f = text::words_of(tail.as_slice(), Sep::White);
            if f.len() < 20 {
                return None;
            }
            let ghost words = text::char_views(f@);
            assert(words[1] == f@[1]@ && words[19] == f@[19]@);
            match (
                num::read_signed(f[1].as_slice()),
                num::read_unsigned(f[19].as_slice(), 10, 0xffff_ffff_ffff_ffff),
            ) {
                (Some(ppid), Some(ticks)) => Some((ppid, ticks)),
                _ => None,
            }
        },
        None => None,
    }
}

/// What a process is called, from the file `comm` and the path of its executable.
pub fn name_of(comm: &Option<String>, exe: &Option<String>) -> (r: String)
    ensures
        r@ == meta::process_name(comm_name(text::opt_view(*comm)), text::opt_view(*exe)),
{
    if let Some(c) = comm {
        let own = text::trim_chars(text::chars_of(c.as_str()).as_slice());
        if own.len() > 0 {
            return text::string_of(own.as_slice());
        }
    }
    meta::fallback_name(exe)
}

/// How many seconds the given number of ticks takes.
fn seconds(ticks: u64, hz: u64) -> (r: u64)
    ensures
        r == started_at(0, ticks as nat, hz as nat),
{
    let per: u64 = if hz < 1 {
        1
    } else {
        hz
    };
    ticks / per
}

/// Whether the moment at which a process started can be counted in 64 bits.
pub fn start_fits(f: &ProcFiles, btime: u64, hz: u64) -> (r: bool)
    ensures
        r == countable(f@, btime as nat, hz as nat),
{
    match (&f.stat, f.uid) {
        (Some(stat), Some(_)) => match parse_stat(stat.as_str()) {
            Some((_, ticks)) => seconds(ticks, hz) <= 0xffff_ffff_ffff_ffff - btime,
            None => true,
        },
        _ => true,
    }
}

/// What is known of a process, from what was read of it, when the system started, and how many
/// ticks a second has.
pub fn proc_meta(f: &ProcFiles, btime: u64, hz: u64) -> (r: Option<ProcMeta>)
    requires
        countable(f@, btime as nat, hz as nat),
    ensures
        meta::meta_view(r) == meta_of(f@, btime as nat, hz as nat),
{
    match (&f.stat, f.uid) {
        (Some(stat), Some(uid)) => match parse_stat(stat.as_str()) {
            Some((ppid, ticks)) => {
                let exe = match &f.exe {
                    Some(b) => Some(bytes::lossy(b.as_slice())),
                    None => None,
                };
                let cmdline = match &f.cmdline {
                    Some(b) => {
                        let args = bytes::lossy_all(&bytes::runs_of(b.as_slice()));
                        bytes::command_line(&args)
                    },
                    None => None,
                };
                let name = name_of(&f.comm, &exe);
                assert(meta_of(f@, btime as nat, hz as nat)->0.start_time <= u64::MAX);
                let start_time: u64 = btime + seconds(ticks, hz);
                Some(ProcMeta { name, exe, cmdline, uid, ppid, start_time })
            },
            None => None,
        },
        _ => None,
    }
}

/// When the system started, in seconds since the Unix epoch.
pub fn boot_time(stat: &Option<String>) -> (r: u64)
    ensures
        r == boot_time_of(text::opt_view(*stat)),
{
    match stat {
        None => 0,
        Some(s) => {
            let lines = text::lines_of(text::chars_of(s.as_str()).as_slice());
            let ghost all = text::char_views(lines@);
            assert(all.skip(0) =~= all);
            for i in 0..lines.len()
                invariant
                    text::opt_view(*stat) == Some(s@),
                    all == text::char_views(lines@),
                    all == text::lines(s@),
                    boot_time_in(all) == boot_time_in(all.skip(i as int)),
            {
                let ghost rest = all.skip(i as int);
                assert(rest[0] == lines@[i as int]@);
                assert(rest.drop_first() =~= all.skip(i + 1));
                proof {
                    reveal_strlit("btime ");
                }
                if text::begins(lines[i].as_slice(), "btime ") {
                    let n: usize = lines[i].len();
                    let v = text::copy_range(lines[i].as_slice(), 6, n);
                    assert(v@ =~= rest[0].skip(6));
                    let t = num::read_unsigned(
                        text::trim_chars(v.as_slice()).as_slice(),
                        10,
                        0xffff_ffff_ffff_ffff,
                    );
                    return match t {
                        Some(t) => t,
                        None => 0,
                    };
                }
            }
            0
        },
    }
}

/// How many ticks a second has, from what the system says: a hundred where it says nothing.
pub fn clock_ticks(v: i64) -> (r: u64)
    ensures
        r == (if v > 0 {
            v as int
        } else {
            100
        }),
{
    if v > 0 {
        v as u64
    } else {
        100
    }
}

} // verus!
