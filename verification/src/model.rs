//! What a scan finds, on any platform.

use crate::text;
use vstd::prelude::*;

verus! {

/// The transport protocol of a socket.
#[derive(Clone, Copy, PartialEq, Eq, Debug, Structural)]
pub enum Proto {
    Tcp,
    Udp,
}

/// The state of a TCP socket. UDP sockets have none.
#[derive(Clone, Copy, PartialEq, Eq, Debug, Structural)]
pub enum TcpState {
    Closed,
    Listen,
    SynSent,
    SynRecv,
    Established,
    CloseWait,
    FinWait1,
    Closing,
    LastAck,
    FinWait2,
    TimeWait,
    Unknown,
}

/// The name that a protocol is shown by.
pub open spec fn proto_name(p: Proto) -> Seq<char> {
    match p {
        Proto::Tcp => "tcp"@,
        Proto::Udp => "udp"@,
    }
}

/// The name that a state is shown by.
pub open spec fn state_name(s: TcpState) -> Seq<char> {
    match s {
        TcpState::Closed => "CLOSED"@,
        TcpState::Listen => "LISTEN"@,
        TcpState::SynSent => "SYN_SENT"@,
        TcpState::SynRecv => "SYN_RECV"@,
        TcpState::Established => "ESTABLISHED"@,
        TcpState::CloseWait => "CLOSE_WAIT"@,
        TcpState::FinWait1 => "FIN_WAIT_1"@,
        TcpState::Closing => "CLOSING"@,
        TcpState::LastAck => "LAST_ACK"@,
        TcpState::FinWait2 => "FIN_WAIT_2"@,
        TcpState::TimeWait => "TIME_WAIT"@,
        TcpState::Unknown => "UNKNOWN"@,
    }
}

impl Proto {
    /// The name that the protocol is shown by.
    pub fn as_str(self) -> (r: &'static str)
        ensures
            r@ == proto_name(self),
    {
        match self {
            Proto::Tcp => "tcp",
            Proto::Udp => "udp",
        }
    }
}

impl TcpState {
    /// The name that the state is shown by.
    pub fn as_str(self) -> (r: &'static str)
        ensures
            r@ == state_name(self),
    {
        match self {
            TcpState::Closed => "CLOSED",
            TcpState::Listen => "LISTEN",
            TcpState::SynSent => "SYN_SENT",
            TcpState::SynRecv => "SYN_RECV",
            TcpState::Established => "ESTABLISHED",
            TcpState::CloseWait => "CLOSE_WAIT",
            TcpState::FinWait1 => "FIN_WAIT_1",
            TcpState::Closing => "CLOSING",
            TcpState::LastAck => "LAST_ACK",
            TcpState::FinWait2 => "FIN_WAIT_2",
            TcpState::TimeWait => "TIME_WAIT",
            TcpState::Unknown => "UNKNOWN",
        }
    }
}

/// A connection or a listening socket, and the process that holds it.
#[derive(Debug)]
pub struct Entry {
    pub proto: Proto,
    pub state: Option<TcpState>,
    pub local_addr: String,
    pub local_port: u16,
    pub remote_addr: Option<String>,
    pub remote_port: u16,
    pub pid: i32,
    pub proc_name: String,
    /// The path of the executable, where it can be read.
    pub exe: Option<String>,
    /// The whole command line, where it can be read.
    pub cmdline: Option<String>,
    pub user: String,
    pub uid: u32,
    pub ppid: i32,
    /// When the process started, in seconds since the Unix epoch.
    pub start_time: u64,
}

/// What an entry says, with its strings as sequences of characters.
#[verifier::ext_equal]
pub struct EntryView {
    pub proto: Proto,
    pub state: Option<TcpState>,
    pub local_addr: Seq<char>,
    pub local_port: u16,
    pub remote_addr: Option<Seq<char>>,
    pub remote_port: u16,
    pub pid: i32,
    pub proc_name: Seq<char>,
    pub exe: Option<Seq<char>>,
    pub cmdline: Option<Seq<char>>,
    pub user: Seq<char>,
    pub uid: u32,
    pub ppid: i32,
    pub start_time: u64,
}

impl View for Entry {
    type V = EntryView;

    open spec fn view(&self) -> EntryView {
        EntryView {
            proto: self.proto,
            state: self.state,
            local_addr: self.local_addr@,
            local_port: self.local_port,
            remote_addr: text::opt_view(self.remote_addr),
            remote_port: self.remote_port,
            pid: self.pid,
            proc_name: self.proc_name@,
            exe: text::opt_view(self.exe),
            cmdline: text::opt_view(self.cmdline),
            user: self.user@,
            uid: self.uid,
            ppid: self.ppid,
            start_time: self.start_time,
        }
    }
}

/// What the entries of a sequence say.
pub open spec fn entry_views(s: Seq<Entry>) -> Seq<EntryView> {
    s.map_values(|e: Entry| e@)
}

/// A UDP socket listens once it is bound; a TCP socket in the state for it.
pub open spec fn listening(e: EntryView) -> bool {
    match e.proto {
        Proto::Udp => true,
        Proto::Tcp => e.state == Some(TcpState::Listen),
    }
}

/// The command line, else the path of the executable, else the name of the process.
pub open spec fn command(e: EntryView) -> Seq<char> {
    match (e.cmdline, e.exe) {
        (Some(c), _) => c,
        (None, Some(x)) => x,
        (None, None) => e.proc_name,
    }
}

/// A copy of an optional string.
pub fn copy_opt(s: &Option<String>) -> (r: Option<String>)
    ensures
        text::opt_view(r) == text::opt_view(*s),
{
    match s {
        Some(t) => Some(t.clone()),
        None => None,
    }
}

impl Entry {
    /// Whether the entry is a socket that waits for peers.
    pub fn is_listening(&self) -> (r: bool)
        ensures
            r == listening(self@),
    {
        match self.proto {
            Proto::Udp => true,
            Proto::Tcp => match self.state {
                Some(s) => s == TcpState::Listen,
                None => false,
            },
        }
    }

    /// What the process is shown as: its command line, else the path of its executable, else
    /// its name.
    pub fn display_command(&self) -> (r: &str)
        ensures
            r@ == command(self@),
    {
        match &self.cmdline {
            Some(c) => c.as_str(),
            None => match &self.exe {
                Some(x) => x.as_str(),
                None => self.proc_name.as_str(),
            },
        }
    }
}

impl Clone for Entry {
    fn clone(&self) -> (r: Self)
        ensures
            r@ == self@,
    {
        Entry {
            proto: self.proto,
            state: self.state,
            local_addr: self.local_addr.clone(),
            local_port: self.local_port,
            remote_addr: copy_opt(&self.remote_addr),
            remote_port: self.remote_port,
            pid: self.pid,
            proc_name: self.proc_name.clone(),
            exe: copy_opt(&self.exe),
            cmdline: copy_opt(&self.cmdline),
            user: self.user.clone(),
            uid: self.uid,
            ppid: self.ppid,
            start_time: self.start_time,
        }
    }
}

/// What a scan of the system found.
pub struct Scan {
    pub entries: Vec<Entry>,
    /// How many processes could not be looked into.
    pub skipped: usize,
}

/// The names of different states differ, and none is empty.
pub proof fn lemma_state_names()
    ensures
        forall|a: TcpState, b: TcpState|
            #![trigger state_name(a), state_name(b)]
            state_name(a) == state_name(b) ==> a == b,
        forall|a: TcpState| (#[trigger] state_name(a)).len() > 0,
{
    reveal_strlit("CLOSED");
    reveal_strlit("LISTEN");
    reveal_strlit("SYN_SENT");
    reveal_strlit("SYN_RECV");
    reveal_strlit("ESTABLISHED");
    reveal_strlit("CLOSE_WAIT");
    reveal_strlit("FIN_WAIT_1");
    reveal_strlit("CLOSING");
    reveal_strlit("LAST_ACK");
    reveal_strlit("FIN_WAIT_2");
    reveal_strlit("TIME_WAIT");
    reveal_strlit("UNKNOWN");
    assert forall|a: TcpState, b: TcpState|
        #![trigger state_name(a), state_name(b)]
        state_name(a) == state_name(b) implies a == b by {
        let x = state_name(a);
        let y = state_name(b);
        if a != b {
            assert(x.len() == y.len());
            assert(x[0] == y[0]);
            assert(x[1] == y[1]);
            assert(x[4] == y[4]);
            assert(x[5] == y[5]);
            if x.len() > 9 {
                assert(x[9] == y[9]);
            }
        }
    }
}

} // verus!
