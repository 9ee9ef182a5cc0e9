//! What is known of a process, on any platform.

use crate::sys::bytes;
use crate::text;
use vstd::prelude::*;

verus! {

/// What is known of a process.
pub struct ProcMeta {
    pub name: String,
    pub exe: Option<String>,
    pub cmdline: Option<String>,
    pub uid: u32,
    pub ppid: i32,
    /// In seconds since the Unix epoch.
    pub start_time: u64,
}

/// What is known of a process, with texts as sequences.
#[verifier::ext_equal]
pub struct ProcMetaView {
    pub name: Seq<char>,
    pub exe: Option<Seq<char>>,
    pub cmdline: Option<Seq<char>>,
    pub uid: u32,
    pub ppid: i32,
    pub start_time: nat,
}

impl View for ProcMeta {
    type V = ProcMetaView;

    open spec fn view(&self) -> ProcMetaView {
        ProcMetaView {
            name: self.name@,
            exe: text::opt_view(self.exe),
            cmdline: text::opt_view(self.cmdline),
            uid: self.uid,
            ppid: self.ppid,
            start_time: self.start_time as nat,
        }
    }
}

/// What a process is called: what it calls itself, else the last part of the path of its
/// executable, else a question mark.
pub open spec fn process_name(own: Option<Seq<char>>, exe: Option<Seq<char>>) -> Seq<char> {
    match (own, exe) {
        (Some(n), _) => n,
        (None, Some(x)) => bytes::base_name(x),
        (None, None) => "?"@,
    }
}

/// What is known, as a value.
pub open spec fn meta_view(r: Option<ProcMeta>) -> Option<ProcMetaView> {
    match r {
        Some(m) => Some(m@),
        None => None,
    }
}

/// What a process that does not say what it is called is called: the last part of the path of its
/// executable, else a question mark.
pub fn fallback_name(exe: &Option<String>) -> (r: String)
    ensures
        r@ == process_name(None, text::opt_view(*exe)),
{
    match exe {
        Some(x) => bytes::base_name_of(x.as_str()),
        None => "?".to_string(),
    }
}

} // verus!
