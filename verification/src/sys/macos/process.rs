//! What the kernel says of a process.

use crate::sys::bytes;
use crate::sys::macos::layout;
use crate::sys::meta;
use crate::sys::meta::{ProcMeta, ProcMetaView};
use crate::text;
use vstd::prelude::*;

verus! {

/// What the kernel was asked about a process: what it wrote, and what it returned.
pub struct ProcReplies {
    /// The `struct proc_bsdinfo`.
    pub bsd: Vec<u8>,
    /// How many bytes of it the kernel says it filled.
    pub bsd_got: i32,
    /// The path of the executable.
    pub path: Vec<u8>,
    /// How many bytes of it the kernel says it filled.
    pub path_got: i32,
    /// The arguments.
    pub args: Vec<u8>,
    /// What the query for them returned.
    pub args_rc: i32,
    /// How many bytes of them there are.
    pub args_len: usize,
}

/// What the kernel was asked about a process, with bytes as sequences.
#[verifier::ext_equal]
pub struct ProcRepliesView {
    pub bsd: Seq<u8>,
    pub bsd_got: i32,
    pub path: Seq<u8>,
    pub path_got: i32,
    pub args: Seq<u8>,
    pub args_rc: i32,
    pub args_len: nat,
}

impl View for ProcReplies {
    type V = ProcRepliesView;

    open spec fn view(&self) -> ProcRepliesView {
        ProcRepliesView {
            bsd: self.bsd@,
            bsd_got: self.bsd_got,
            path: self.path@,
            path_got: self.path_got,
            args: self.args@,
            args_rc: self.args_rc,
            args_len: self.args_len as nat,
        }
    }
}

/// The text of a field that a zero byte ends.
pub open spec fn field_text(b: Seq<u8>) -> Seq<char> {
    bytes::utf8_lossy(bytes::up_to_zero(b))
}

/// The path of the executable, from `got` bytes: none where the query failed or they are not
/// UTF-8.
pub open spec fn path_text(b: Seq<u8>, got: i32) -> Option<Seq<char>> {
    if got <= 0 {
        None
    } else {
        let used = if got < b.len() {
            b.take(got as int)
        } else {
            b
        };
        if vstd::utf8::valid_utf8(used) {
            Some(vstd::utf8::decode_utf8(used))
        } else {
            None
        }
    }
}

/// The first place from `p` on that holds no zero byte.
pub open spec fn past_zeros(b: Seq<u8>, p: int) -> int
    decreases b.len() - p,
{
    if 0 <= p < b.len() && b[p] == 0 {
        past_zeros(b, p + 1)
    } else {
        p
    }
}

/// At most `n` arguments from `p` on, each of which a zero byte ends. One that is not ended is an
/// error; the end of the bytes is not.
pub open spec fn arguments(b: Seq<u8>, p: int, n: nat) -> Option<Seq<Seq<u8>>>
    decreases n,
{
    if n == 0 || p >= b.len() {
        Some(Seq::<Seq<u8>>::empty())
    } else {
        match bytes::zero_at(b, p) {
            Some(end) => match arguments(b, end + 1, (n - 1) as nat) {
                Some(more) => Some(seq![b.subrange(p, end)] + more),
                None => None,
            },
            None => None,
        }
    }
}

/// The command line: the number of arguments, the path of the executable, zero bytes, and the
/// arguments, each of which a zero byte ends. What follows is the environment.
pub open spec fn args_text(b: Seq<u8>, big: bool) -> Option<Seq<char>> {
    let rest = b.skip(4);
    match bytes::zero_at(rest, 0) {
        Some(end) => match arguments(
            rest,
            past_zeros(rest, end),
            layout::u32_at(b, 0, big) as nat,
        ) {
            Some(args) => bytes::command_line_text(bytes::texts(args)),
            None => None,
        },
        None => None,
    }
}

/// The command line, where the query for it succeeded.
pub open spec fn cmdline_text(f: ProcRepliesView, big: bool) -> Option<Seq<char>> {
    if f.args_rc != 0 || f.args_len < 4 {
        None
    } else {
        args_text(f.args.take(f.args_len as int), big)
    }
}

/// What a process calls itself: none where that is empty.
pub open spec fn own_name(bsd: Seq<u8>) -> Option<Seq<char>> {
    let name = field_text(
        bsd.subrange(
            layout::BSD_INFO_NAME as int,
            layout::BSD_INFO_NAME + layout::BSD_INFO_NAME_LEN,
        ),
    );
    if name.len() == 0 {
        None
    } else {
        Some(name)
    }
}

/// What is known of a process, where the kernel filled the whole of the `struct proc_bsdinfo`.
pub open spec fn meta_of(f: ProcRepliesView, big: bool) -> Option<ProcMetaView> {
    if f.bsd_got != layout::BSD_INFO_SIZE || f.bsd.len() != layout::BSD_INFO_SIZE {
        None
    } else {
        let exe = path_text(f.path, f.path_got);
        Some(
            ProcMetaView {
                name: meta::process_name(own_name(f.bsd), exe),
                exe,
                cmdline: cmdline_text(f, big),
                uid: layout::u32_at(f.bsd, layout::BSD_INFO_UID as int, big),
                ppid: layout::u32_at(f.bsd, layout::BSD_INFO_PPID as int, big) as i32,
                start_time: layout::u64_at(f.bsd, layout::BSD_INFO_START as int, big) as nat,
            },
        )
    }
}

/// Whether the arguments are no longer than what was written of them.
pub open spec fn within(f: ProcRepliesView) -> bool {
    f.args_len <= f.args.len()
}

/// The text of a field that a zero byte ends.
pub fn cstr_field(b: &[u8]) -> (r: String)
    ensures
        r@ == field_text(b@),
{
    match bytes::find_zero(b, 0) {
        Some(end) => {
            let used = bytes::copy_bytes(b, 0, end);
            assert(used@ =~= b@.take(end as int));
            bytes::lossy(used.as_slice())
        },
        None => bytes::lossy(b),
    }
}

/// The path of the executable, of which the kernel says it filled `got` bytes.
pub fn proc_path(b: &[u8], got: i32) -> (r: Option<String>)
    ensures
        text::opt_view(r) == path_text(b@, got),
{
    if got <= 0 {
        return None;
    }
    let len: usize = b.len();
    let n: usize = if (got as usize) < len {
        got as usize
    } else {
        len
    };
    let used = bytes::copy_bytes(b, 0, n);
    assert(used@ =~= (if got < b@.len() {
        b@.take(got as int)
    } else {
        b@
    }));
    bytes::strict(used)
}

/// What was read, with what was read before it in front.
spec fn behind(done: Seq<Seq<u8>>, more: Option<Seq<Seq<u8>>>) -> Option<Seq<Seq<u8>>> {
    match more {
        Some(m) => Some(done + m),
        None => None,
    }
}

/// At most `n` arguments from `from` on.
fn read_arguments(b: &[u8], from: usize, n: u32) -> (r: Option<Vec<Vec<u8>>>)
    requires
        from <= b@.len(),
    ensures
        match r {
            Some(args) => arguments(b@, from as int, n as nat) == Some(bytes::byte_views(args@)),
            None => arguments(b@, from as int, n as nat) is None,
        },
{
    let len: usize = b.len();
    let mut args: Vec<Vec<u8>> = Vec::new();
    let mut p: usize = from;
    let mut left: u32 = n;
    let ghost all = arguments(b@, from as int, n as nat);
    proof {
        if let Some(m) = all {
            assert(Seq::<Seq<u8>>::empty() + m =~= m);
        }
        assert(bytes::byte_views(args@) =~= Seq::<Seq<u8>>::empty());
    }
    while left > 0 && p < len
        invariant
            len == b@.len(),
            p <= len,
            all == arguments(b@, from as int, n as nat),
            all == behind(bytes::byte_views(args@), arguments(b@, p as int, left as nat)),
        decreases left,
    {
        let ghost done = bytes::byte_views(args@);
        match bytes::find_zero(b, p) {
            Some(end) => {
                let arg = bytes::copy_bytes(b, p, end);
                let ghost one = arg@;
                let ghost rest = arguments(b@, end + 1, (left - 1) as nat);
                args.push(arg);
                assert(bytes::byte_views(args@) =~= done.push(one));
                proof {
                    if let Some(m) = rest {
                        assert(done + (seq![one] + m) =~= done.push(one) + m);
                    }
                }
                p = end + 1;
                left = left - 1;
            },
            None => {
                return None;
            },
        }
    }
    assert(bytes::byte_views(args@) + Seq::<Seq<u8>>::empty() =~= bytes::byte_views(args@));
    Some(args)
}

/// The command line of a process, from what the kernel wrote of its arguments: `len` bytes of
/// `b`, where the query returned zero.
pub fn proc_cmdline(b: &[u8], rc: i32, len: usize, big: bool) -> (r: Option<String>)
    requires
        len <= b@.len(),
    ensures
        text::opt_view(r) == if rc != 0 || len < 4 {
            None
        } else {
            args_text(b@.take(len as int), big)
        },
{
    if rc != 0 || len < 4 {
        return None;
    }
    let ghost used = b@.take(len as int);
    let argc: u32 = layout::read_u32(b, 0, big);
    assert(argc == layout::u32_at(used, 0, big));
    let rest = bytes::copy_bytes(b, 4, len);
    assert(rest@ =~= used.skip(4));
    let n: usize = rest.len();
    match bytes::find_zero(rest.as_slice(), 0) {
        Some(end) => {
            let mut p: usize = end;
            while p < n && rest[p] == 0
                invariant
                    n == rest@.len(),
                    p <= n,
                    past_zeros(rest@, end as int) == past_zeros(rest@, p as int),
                decreases n - p,
            {
                p = p + 1;
            }
            match read_arguments(rest.as_slice(), p, argc) {
                Some(args) => bytes::command_line(&bytes::lossy_all(&args)),
                None => None,
            }
        },
        None => None,
    }
}

/// What is known of a process, from what the kernel says of it.
pub fn proc_meta(f: &ProcReplies, big: bool) -> (r: Option<ProcMeta>)
    requires
        within(f@),
    ensures
        meta::meta_view(r) == meta_of(f@, big),
{
    if f.bsd_got as i64 != layout::BSD_INFO_SIZE as i64 || f.bsd.len() != layout::BSD_INFO_SIZE {
        return None;
    }
    let b = f.bsd.as_slice();
    let name = cstr_field(
        bytes::copy_bytes(
            b,
            layout::BSD_INFO_NAME,
            layout::BSD_INFO_NAME + layout::BSD_INFO_NAME_LEN,
        ).as_slice(),
    );
    let exe = proc_path(f.path.as_slice(), f.path_got);
    let cmdline = proc_cmdline(f.args.as_slice(), f.args_rc, f.args_len, big);
    let chars = text::chars_of(name.as_str());
    let shown = if chars.len() == 0 {
        meta::fallback_name(&exe)
    } else {
        name
    };
    Some(
        ProcMeta {
            name: shown,
            exe,
            cmdline,
            uid: layout::read_u32(b, layout::BSD_INFO_UID, big),
            ppid: layout::read_i32(b, layout::BSD_INFO_PPID, big),
            start_time: layout::read_u64(b, layout::BSD_INFO_START, big),
        },
    )
}

/// How large the arguments of a process can be, from what the query for that returned; nothing
/// is read where it failed.
pub fn kern_argmax(rc: i32, val: i32) -> (r: usize)
    ensures
        r == (if rc != 0 || val <= 0 {
            0
        } else {
            val as int
        }),
{
    if rc != 0 || val <= 0 {
        0
    } else {
        val as usize
    }
}

} // verus!
