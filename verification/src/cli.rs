//! The command line.

use crate::num;
use crate::text;
use crate::text::Sep;
use vstd::prelude::*;

verus! {

/// The version of the program.
pub const VERSION: &'static str = "0.1.0";

/// What `--help` shows.
pub const HELP: &'static str = "ports

用法:
    ports [选项] [端口...]

端口:
    3000            单个端口
    3000 8080       多个端口
    3000-3010       端口区间
    (省略)          列出所有监听中的端口

选项:
    -a, --all       包含所有连接状态（默认仅显示 LISTEN 状态）
    -k, --kill      终止占用端口的进程（默认发送 SIGTERM，会请求确认）
    -9              与 -k 配合使用，直接发送 SIGKILL 信号
    -f, --force     使用 -k 时强制终止，不再请求确认
    -j, --json      输出 JSON
        --no-color  不上色
    -h, --help      帮助
    -V, --version   版本

退出码:
    0  成功找到匹配的进程
    1  未找到匹配的进程（可用于条件判断，如 `ports 3000 || echo \"端口未被占用\"`）
    2  命令行参数错误或系统调用失败

示例:
    ports                 # 列出所有监听中的端口
    ports 3000            # 查询占用 3000 端口的进程
    ports 3000 -k         # 终止占用 3000 端口的进程
    ports -a --json       # 输出所有连接状态的 JSON 格式数据
";

/// What the command line asks for.
pub struct Args {
    /// The ports to show, in ascending order; none stands for all.
    pub ports: Vec<u16>,
    pub all: bool,
    pub kill: bool,
    pub sigkill: bool,
    pub force: bool,
    pub json: bool,
    pub no_color: bool,
}

/// What the command line asks for, with the ports as a sequence.
#[verifier::ext_equal]
pub struct ArgsView {
    pub ports: Seq<u16>,
    pub all: bool,
    pub kill: bool,
    pub sigkill: bool,
    pub force: bool,
    pub json: bool,
    pub no_color: bool,
}

impl View for Args {
    type V = ArgsView;

    open spec fn view(&self) -> ArgsView {
        ArgsView {
            ports: self.ports@,
            all: self.all,
            kill: self.kill,
            sigkill: self.sigkill,
            force: self.force,
            json: self.json,
            no_color: self.no_color,
        }
    }
}

/// What the program is to do.
pub enum Request {
    Help,
    Version,
    Run(Args),
}

/// What arguments come to.
#[verifier::ext_equal]
pub enum Parsed {
    Help,
    Version,
    Run(ArgsView),
    /// They are wrong, and what is said of it.
    Wrong(Seq<char>),
}

/// Whether ports are in ascending order and none occurs twice.
pub open spec fn ascending(ports: Seq<u16>) -> bool {
    forall|i: int, j: int|
        #![trigger ports[i], ports[j]]
        0 <= i < j < ports.len() ==> ports[i] < ports[j]
}

/// What holds of all arguments that were accepted: ports are in ascending order, `-9` kills, and
/// killing names ports.
pub open spec fn valid(a: ArgsView) -> bool {
    &&& ascending(a.ports)
    &&& a.sigkill ==> a.kill
    &&& a.kill ==> a.ports.len() > 0
}

/// The ports of `ports` below `n`, in ascending order.
pub open spec fn below(ports: Seq<u16>, n: nat) -> Seq<u16>
    decreases n,
{
    if n == 0 {
        Seq::<u16>::empty()
    } else {
        let before = below(ports, (n - 1) as nat);
        if ports.contains((n - 1) as u16) {
            before.push((n - 1) as u16)
        } else {
            before
        }
    }
}

/// The ports of `ports`, in ascending order and each once.
pub open spec fn in_order(ports: Seq<u16>) -> Seq<u16> {
    below(ports, 0x10000)
}

/// The port that a text stands for.
pub open spec fn port(s: Seq<char>) -> Option<u16> {
    match num::parse_unsigned(s, 10, 0xffff) {
        Some(n) => Some(n as u16),
        None => None,
    }
}

/// The ports from `lo` to `hi`, both of them too.
pub open spec fn range(lo: u16, hi: u16) -> Seq<u16> {
    Seq::new((hi - lo + 1) as nat, |i: int| (lo + i) as u16)
}

/// What is said of a text that is no port.
pub open spec fn bad_text(s: Seq<char>) -> Seq<char> {
    "无法解析的端口格式 `"@ + s + "`（有效示例：1-65535，或 3000-3010）"@
}

/// What is said of a range that ends before it starts.
pub open spec fn backwards_text(s: Seq<char>) -> Seq<char> {
    "端口区间 "@ + s + " 的起点比终点大"@
}

/// What is said of an option that does not exist.
pub open spec fn unknown_text(s: Seq<char>) -> Seq<char> {
    "未知选项 "@ + s
}

/// What is said of an order to kill that names no port.
pub open spec fn no_target_text() -> Seq<char> {
    "使用 -k 选项时必须指定目标端口，以防意外终止所有监听进程"@
}

/// The ports that a part of a list stands for, or what is wrong with it. A part is a port or a
/// range; one of white space alone stands for none.
pub open spec fn part_ports(piece: Seq<char>) -> Result<Seq<u16>, Seq<char>> {
    let part = text::trim(piece);
    if part.len() == 0 {
        Ok(Seq::<u16>::empty())
    } else {
        match text::split_once(part, '-') {
            Some((lo, hi)) => match (port(text::trim(lo)), port(text::trim(hi))) {
                (Some(l), Some(h)) => if l > h {
                    Err(backwards_text(part))
                } else {
                    Ok(range(l, h))
                },
                _ => Err(bad_text(part)),
            },
            None => match port(part) {
                Some(p) => Ok(seq![p]),
                None => Err(bad_text(part)),
            },
        }
    }
}

/// The ports of the parts in front of the first one that is wrong, and what is wrong with it.
pub open spec fn parts_ports(pieces: Seq<Seq<char>>) -> (Seq<u16>, Option<Seq<char>>)
    decreases pieces.len(),
{
    if pieces.len() == 0 {
        (Seq::<u16>::empty(), None)
    } else {
        let (ports, wrong) = parts_ports(pieces.drop_last());
        match wrong {
            Some(_) => (ports, wrong),
            None => match part_ports(pieces.last()) {
                Ok(more) => (ports + more, None),
                Err(e) => (ports, Some(e)),
            },
        }
    }
}

/// The ports that a list with commas stands for.
pub open spec fn list_ports(s: Seq<char>) -> (Seq<u16>, Option<Seq<char>>) {
    parts_ports(text::split(s, Sep::Char(',')))
}

/// Whether a text starts like an option: with a dash and no digit behind it.
pub open spec fn like_option(s: Seq<char>) -> bool {
    s.len() > 1 && s[0] == '-' && !('0' <= s[1] && s[1] <= '9')
}

/// What comes of one more argument.
pub open spec fn step(a: ArgsView, arg: Seq<char>) -> Parsed {
    if arg == "-h"@ || arg == "--help"@ {
        Parsed::Help
    } else if arg == "-V"@ || arg == "--version"@ {
        Parsed::Version
    } else if arg == "-a"@ || arg == "--all"@ {
        Parsed::Run(ArgsView { all: true, ..a })
    } else if arg == "-k"@ || arg == "--kill"@ {
        Parsed::Run(ArgsView { kill: true, ..a })
    } else if arg == "-9"@ {
        Parsed::Run(ArgsView { sigkill: true, kill: true, ..a })
    } else if arg == "-f"@ || arg == "--force"@ {
        Parsed::Run(ArgsView { force: true, ..a })
    } else if arg == "-j"@ || arg == "--json"@ {
        Parsed::Run(ArgsView { json: true, ..a })
    } else if arg == "--no-color"@ {
        Parsed::Run(ArgsView { no_color: true, ..a })
    } else if like_option(arg) {
        Parsed::Wrong(unknown_text(arg))
    } else {
        let (ports, wrong) = list_ports(arg);
        match wrong {
            Some(e) => Parsed::Wrong(e),
            None => Parsed::Run(ArgsView { ports: a.ports + ports, ..a }),
        }
    }
}

/// No arguments at all.
pub open spec fn nothing_asked() -> ArgsView {
    ArgsView {
        ports: Seq::<u16>::empty(),
        all: false,
        kill: false,
        sigkill: false,
        force: false,
        json: false,
        no_color: false,
    }
}

/// What the arguments come to one by one; the first that ends it decides.
pub open spec fn steps(args: Seq<Seq<char>>) -> Parsed
    decreases args.len(),
{
    if args.len() == 0 {
        Parsed::Run(nothing_asked())
    } else {
        match steps(args.drop_last()) {
            Parsed::Run(a) => step(a, args.last()),
            ended => ended,
        }
    }
}

/// What the arguments come to.
pub open spec fn parsed(args: Seq<Seq<char>>) -> Parsed {
    match steps(args) {
        Parsed::Run(a) => if a.kill && a.ports.len() == 0 {
            Parsed::Wrong(no_target_text())
        } else {
            Parsed::Run(ArgsView { ports: in_order(a.ports), ..a })
        },
        ended => ended,
    }
}

/// What was asked for, or what is wrong, as what the arguments come to.
pub open spec fn outcome(r: Result<Request, String>) -> Parsed {
    match r {
        Ok(Request::Help) => Parsed::Help,
        Ok(Request::Version) => Parsed::Version,
        Ok(Request::Run(a)) => Parsed::Run(a@),
        Err(e) => Parsed::Wrong(e@),
    }
}

/// The ports in order are those below, each once and in ascending order.
pub proof fn lemma_below(ports: Seq<u16>, n: nat)
    requires
        n <= 0x10000,
    ensures
        ascending(below(ports, n)),
        forall|p: u16| #[trigger]
            below(ports, n).contains(p) == (p < n && ports.contains(p)),
        forall|i: int| 0 <= i < below(ports, n).len() ==> (#[trigger] below(ports, n)[i]) < n,
    decreases n,
{
    if n > 0 {
        let m = (n - 1) as nat;
        let before = below(ports, m);
        let all = below(ports, n);
        lemma_below(ports, m);
        assert forall|p: u16| #[trigger] all.contains(p) == (p < n && ports.contains(p)) by {
            assert(before.contains(p) == (p < m && ports.contains(p)));
            if before.contains(p) {
                let k = choose|k: int| 0 <= k < before.len() && before[k] == p;
                assert(all[k] == p);
            }
            if p == m as u16 && ports.contains(p) {
                assert(all[before.len() as int] == p);
            }
            if all.contains(p) {
                let k = choose|k: int| 0 <= k < all.len() && all[k] == p;
                if k < before.len() {
                    assert(before[k] == p);
                }
            }
        }
        assert forall|i: int, j: int|
            #![trigger all[i], all[j]]
            0 <= i < j < all.len() implies all[i] < all[j] by {
            assert(all[i] == before[i]);
            if j < before.len() {
                assert(all[j] == before[j]);
            } else {
                assert(before[i] < m);
            }
        }
        assert forall|i: int| 0 <= i < all.len() implies (#[trigger] all[i]) < n by {
            if i < before.len() {
                assert(all[i] == before[i]);
            }
        }
    }
}

/// What is said of a text that is no port.
fn bad(s: &[char]) -> (r: String)
    ensures
        r@ == bad_text(s@),
{
    let mut r = String::new();
    r.append("无法解析的端口格式 `");
    text::push_chars(&mut r, s);
    r.append("`（有效示例：1-65535，或 3000-3010）");
    assert(r@ =~= bad_text(s@));
    r
}

/// The port that a text stands for.
fn read_port(s: &[char]) -> (r: Option<u16>)
    ensures
        r == port(s@),
{
    match num::read_unsigned(s, 10, 0xffff) {
        Some(n) => Some(n as u16),
        None => None,
    }
}

/// Adds the ports of one part of a list.
fn push_part(piece: &[char], out: &mut Vec<u16>) -> (r: Result<(), String>)
    ensures
        match part_ports(piece@) {
            Ok(more) => r is Ok && final(out)@ == old(out)@ + more,
            Err(e) => r matches Err(m) && m@ == e && final(out)@ == old(out)@,
        },
{
    let part = text::trim_chars(piece);
    if part.len() == 0 {
        assert(out@ =~= old(out)@ + Seq::<u16>::empty());
        return Ok(());
    }
    match text::split_once_chars(part.as_slice(), '-') {
        Some((lo, hi)) => {
            let l = read_port(text::trim_chars(lo.as_slice()).as_slice());
            let h = read_port(text::trim_chars(hi.as_slice()).as_slice());
            match (l, h) {
                (Some(l), Some(h)) => {
                    if l > h {
                        let mut r = String::new();
                        r.append("端口区间 ");
                        text::push_chars(&mut r, part.as_slice());
                        r.append(" 的起点比终点大");
                        assert(r@ =~= backwards_text(part@));
                        return Err(r);
                    }
                    let n: u32 = h as u32 - l as u32 + 1;
                    assert(out@ =~= old(out)@ + range(l, h).take(0));
                    for i in 0..n
                        invariant
                            l <= h,
                            n == h - l + 1,
                            out@ == old(out)@ + range(l, h).take(i as int),
                    {
                        out.push((l as u32 + i) as u16);
                        assert(out@ =~= old(out)@ + range(l, h).take(i + 1));
                    }
                    assert(range(l, h).take(n as int) =~= range(l, h));
                    Ok(())
                },
                _ => Err(bad(part.as_slice())),
            }
        },
        None => match read_port(part.as_slice()) {
            Some(p) => {
                out.push(p);
                assert(out@ =~= old(out)@ + seq![p]);
                Ok(())
            },
            None => Err(bad(part.as_slice())),
        },
    }
}

/// Adds the ports that a text stands for: single ports, ranges with a dash, and lists with
/// commas.
pub fn parse_port_spec(s: &str, out: &mut Vec<u16>) -> (r: Result<(), String>)
    ensures
        final(out)@ == old(out)@ + list_ports(s@).0,
        match list_ports(s@).1 {
            None => r is Ok,
            Some(e) => r matches Err(m) && m@ == e,
        },
{
    let pieces = text::split_chars(text::chars_of(s).as_slice(), Sep::Char(','));
    let ghost all = text::char_views(pieces@);
    assert(out@ =~= old(out)@ + parts_ports(all.take(0)).0);
    for i in 0..pieces.len()
        invariant
            all == text::char_views(pieces@),
            all == text::split(s@, Sep::Char(',')),
            parts_ports(all.take(i as int)).1 is None,
            out@ == old(out)@ + parts_ports(all.take(i as int)).0,
    {
        assert(all.take(i + 1).drop_last() =~= all.take(i as int));
        assert(all.take(i + 1).last() == pieces@[i as int]@);
        let r = push_part(pieces[i].as_slice(), out);
        if r.is_err() {
            proof {
                lemma_wrong_stays(all, i + 1);
            }
            return r;
        }
        assert(out@ =~= old(out)@ + parts_ports(all.take(i + 1)).0);
    }
    assert(all.take(all.len() as int) =~= all);
    Ok(())
}

/// What is wrong with the first parts of a list is wrong with the list.
proof fn lemma_wrong_stays(pieces: Seq<Seq<char>>, n: int)
    requires
        0 <= n <= pieces.len(),
        parts_ports(pieces.take(n)).1 is Some,
    ensures
        parts_ports(pieces) == parts_ports(pieces.take(n)),
    decreases pieces.len(),
{
    if n == pieces.len() {
        assert(pieces.take(n) =~= pieces);
    } else {
        assert(pieces.drop_last().take(n) =~= pieces.take(n));
        lemma_wrong_stays(pieces.drop_last(), n);
    }
}

/// What ends the reading of arguments is what they come to.
proof fn lemma_ended_stays(args: Seq<Seq<char>>, n: int)
    requires
        0 <= n <= args.len(),
        !(steps(args.take(n)) is Run),
    ensures
        steps(args) == steps(args.take(n)),
    decreases args.len(),
{
    if n == args.len() {
        assert(args.take(n) =~= args);
    } else {
        assert(args.drop_last().take(n) =~= args.take(n));
        lemma_ended_stays(args.drop_last(), n);
    }
}

/// The ports in ascending order, each once.
fn sort_ports(ports: &Vec<u16>) -> (r: Vec<u16>)
    ensures
        r@ == in_order(ports@),
{
    let mut seen: Vec<bool> = Vec::new();
    for i in 0..0x10000usize
        invariant
            seen@.len() == i,
            forall|k: int| 0 <= k < i ==> !(#[trigger] seen@[k]),
    {
        seen.push(false);
    }
    for i in 0..ports.len()
        invariant
            seen@.len() == 0x10000,
            forall|k: int|
                0 <= k < 0x10000 ==> #[trigger] seen@[k] == ports@.take(i as int).contains(
                    k as u16,
                ),
    {
        let p: u16 = ports[i];
        let ghost before = ports@.take(i as int);
        let ghost after = ports@.take(i + 1);
        assert(after =~= before.push(p));
        let ghost was = seen@;
        seen.set(p as usize, true);
        assert forall|k: int| 0 <= k < 0x10000 implies #[trigger] seen@[k] == after.contains(
            k as u16,
        ) by {
            assert(was[k] == before.contains(k as u16));
            if k == p {
                assert(after[i as int] == p);
            } else {
                if before.contains(k as u16) {
                    let m = choose|m: int| 0 <= m < before.len() && before[m] == k as u16;
                    assert(after[m] == k as u16);
                }
                if after.contains(k as u16) {
                    let m = choose|m: int| 0 <= m < after.len() && after[m] == k as u16;
                    assert(before[m] == k as u16);
                }
            }
        }
    }
    assert(ports@.take(ports@.len() as int) =~= ports@);
    let mut r: Vec<u16> = Vec::new();
    for i in 0..0x10000usize
        invariant
            seen@.len() == 0x10000,
            forall|k: int|
                0 <= k < 0x10000 ==> #[trigger] seen@[k] == ports@.contains(k as u16),
            r@ == below(ports@, i as nat),
    {
        if seen[i] {
            r.push(i as u16);
        }
    }
    r
}

/// Whether a text starts like an option.
fn starts_like_option(s: &[char]) -> (r: bool)
    ensures
        r == like_option(s@),
{
    s.len() > 1 && s[0] == '-' && !('0' <= s[1] && s[1] <= '9')
}

/// Reads the arguments.
pub fn parse_args(args: &[String]) -> (r: Result<Request, String>)
    ensures
        outcome(r) == parsed(text::views(args@)),
        r matches Ok(Request::Run(a)) ==> valid(a@),
{
    let ghost all = text::views(args@);
    let mut a = Args {
        ports: Vec::new(),
        all: false,
        kill: false,
        sigkill: false,
        force: false,
        json: false,
        no_color: false,
    };
    assert(a@ =~= nothing_asked());
    for i in 0..args.len()
        invariant
            all == text::views(args@),
            steps(all.take(i as int)) == Parsed::Run(a@),
            a.sigkill ==> a.kill,
    {
        let ghost was = a@;
        let ghost arg = args@[i as int]@;
        assert(all.take(i + 1).drop_last() =~= all.take(i as int));
        assert(all.take(i + 1).last() == arg);
        assert(steps(all.take(i + 1)) == step(was, arg));
        let s = args[i].as_str();
        if text::same(s, "-h") || text::same(s, "--help") {
            proof {
                lemma_ended_stays(all, i + 1);
            }
            return Ok(Request::Help);
        } else if text::same(s, "-V") || text::same(s, "--version") {
            proof {
                lemma_ended_stays(all, i + 1);
            }
            return Ok(Request::Version);
        } else if text::same(s, "-a") || text::same(s, "--all") {
            a.all = true;
        } else if text::same(s, "-k") || text::same(s, "--kill") {
            a.kill = true;
        } else if text::same(s, "-9") {
            a.sigkill = true;
            a.kill = true;
        } else if text::same(s, "-f") || text::same(s, "--force") {
            a.force = true;
        } else if text::same(s, "-j") || text::same(s, "--json") {
            a.json = true;
        } else if text::same(s, "--no-color") {
            a.no_color = true;
        } else if starts_like_option(text::chars_of(s).as_slice()) {
            let mut e = String::new();
            e.append("未知选项 ");
            e.append(s);
            assert(e@ =~= unknown_text(arg));
            proof {
                lemma_ended_stays(all, i + 1);
            }
            return Err(e);
        } else {
            let mut ports: Vec<u16> = Vec::new();
            match parse_port_spec(s, &mut ports) {
                Ok(()) => {
                    assert(ports@ =~= list_ports(arg).0);
                    a.ports.append(&mut ports);
                },
                Err(e) => {
                    proof {
                        lemma_ended_stays(all, i + 1);
                    }
                    return Err(e);
                },
            }
        }
        assert(Parsed::Run(a@) =~= step(was, arg));
    }
    assert(all.take(all.len() as int) =~= all);
    if a.kill && a.ports.len() == 0 {
        let mut e = String::new();
        e.append("使用 -k 选项时必须指定目标端口，以防意外终止所有监听进程");
        assert(e@ =~= no_target_text());
        return Err(e);
    }
    let sorted = sort_ports(&a.ports);
    proof {
        lemma_below(a.ports@, 0x10000);
        if a.ports@.len() > 0 {
            assert(a.ports@.contains(a.ports@[0]));
            assert(sorted@.contains(a.ports@[0]));
        }
    }
    a.ports = sorted;
    Ok(Request::Run(a))
}

/// Whether `p` is one of the ports, which are in ascending order.
pub fn lists(ports: &[u16], p: u16) -> (r: bool)
    requires
        ascending(ports@),
    ensures
        r == ports@.contains(p),
{
    let mut lo: usize = 0;
    let mut hi: usize = ports.len();
    while lo < hi
        invariant
            lo <= hi <= ports@.len(),
            ascending(ports@),
            forall|k: int| 0 <= k < lo ==> (#[trigger] ports@[k]) < p,
            forall|k: int| hi <= k < ports@.len() ==> (#[trigger] ports@[k]) > p,
        decreases hi - lo,
    {
        let mid: usize = lo + (hi - lo) / 2;
        let q: u16 = ports[mid];
        if q == p {
            assert(ports@[mid as int] == p);
            return true;
        }
        if q < p {
            lo = mid + 1;
        } else {
            hi = mid;
        }
    }
    assert(!ports@.contains(p)) by {
        if ports@.contains(p) {
            let k = choose|k: int| 0 <= k < ports@.len() && ports@[k] == p;
            assert(k < lo || hi <= k);
        }
    }
    false
}

/// What is said of arguments that are wrong.
pub open spec fn usage_text(e: Seq<char>) -> Seq<char> {
    "ports: "@ + e + "\n试试 `ports --help`\n"@
}

/// What is said of arguments that are wrong.
pub fn usage_error(e: &str) -> (r: String)
    ensures
        r@ == usage_text(e@),
{
    let mut r = String::new();
    r.append("ports: ");
    r.append(e);
    r.append("\n试试 `ports --help`\n");
    assert(r@ =~= usage_text(e@));
    r
}

/// What is said of a failure of the system.
pub open spec fn failure_text(e: Seq<char>) -> Seq<char> {
    "ports: "@ + e + "\n"@
}

/// What is said of a failure of the system.
pub fn failure(e: &str) -> (r: String)
    ensures
        r@ == failure_text(e@),
{
    let mut r = String::new();
    r.append("ports: ");
    r.append(e);
    r.append("\n");
    assert(r@ =~= failure_text(e@));
    r
}

/// What `--version` shows.
pub fn version() -> (r: String)
    ensures
        r@ == "ports "@ + VERSION@ + "\n"@,
{
    let mut r = String::new();
    r.append("ports ");
    r.append(VERSION);
    r.append("\n");
    assert(r@ =~= "ports "@ + VERSION@ + "\n"@);
    r
}

} // verus!
