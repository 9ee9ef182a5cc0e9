use ports::cli::{failure, lists, parse_args, parse_port_spec, usage_error, version, Args, Request, HELP};

fn args(v: &[&str]) -> Result<Option<Args>, String> {
    let owned: Vec<String> = v.iter().map(|s| s.to_string()).collect();
    parse_args(&owned).map(|r| match r {
        Request::Run(a) => Some(a),
        Request::Help | Request::Version => None,
    })
}

fn wrong(v: &[&str]) -> String {
    match args(v) {
        Err(e) => e,
        Ok(_) => panic!("accepted: {v:?}"),
    }
}

#[test]
fn parses_single_and_multiple_ports() {
    let a = args(&["3000"]).unwrap().unwrap();
    assert_eq!(a.ports, vec![3000]);
    let a = args(&["3000", "8080"]).unwrap().unwrap();
    assert_eq!(a.ports, vec![3000, 8080]);
}

#[test]
fn parses_range_and_comma_list() {
    let a = args(&["3000-3003"]).unwrap().unwrap();
    assert_eq!(a.ports, vec![3000, 3001, 3002, 3003]);
    let a = args(&["80,443"]).unwrap().unwrap();
    assert_eq!(a.ports, vec![80, 443]);
}

#[test]
fn dash_nine_implies_kill() {
    let a = args(&["3000", "-9"]).unwrap().unwrap();
    assert!(a.kill && a.sigkill);
}

#[test]
fn kill_without_port_is_rejected() {
    assert!(args(&["-k"]).is_err());
}

#[test]
fn rejects_unknown_flags_and_bad_ports() {
    assert!(args(&["--nope"]).is_err());
    assert!(args(&["http"]).is_err());
    assert!(args(&["99999"]).is_err());
    assert!(args(&["3010-3000"]).is_err());
}

#[test]
fn ports_are_sorted_and_deduped_for_binary_search() {
    let a = args(&["8080", "80", "8080", "443"]).unwrap().unwrap();
    assert_eq!(a.ports, vec![80, 443, 8080]);
    let a = args(&["3000-3002", "3001-3003"]).unwrap().unwrap();
    assert_eq!(a.ports, vec![3000, 3001, 3002, 3003]);
}

#[test]
fn full_range_is_accepted() {
    let a = args(&["1-65535"]).unwrap().unwrap();
    assert_eq!(a.ports.len(), 65535);
}

#[test]
fn flags_and_ports_can_interleave() {
    let a = args(&["-a", "3000", "--json", "8080"]).unwrap().unwrap();
    assert!(a.all && a.json);
    assert_eq!(a.ports, vec![3000, 8080]);
}

#[test]
fn the_order_of_arguments_is_free() {
    let a = args(&["443", "-k", "80", "-f"]).unwrap().unwrap();
    let b = args(&["-f", "80", "443", "-k"]).unwrap().unwrap();
    assert_eq!(a.ports, b.ports);
    assert!(a.kill && b.kill && a.force && b.force);
    assert!(!a.sigkill && !a.all && !a.json && !a.no_color);
}

#[test]
fn long_options_are_the_short_ones() {
    let a = args(&["--all", "--kill", "--force", "--json", "--no-color", "1"]).unwrap().unwrap();
    assert!(a.all && a.kill && a.force && a.json && a.no_color && !a.sigkill);
}

#[test]
fn what_is_wrong_is_said() {
    assert_eq!(wrong(&["--nope"]), "未知选项 --nope");
    assert_eq!(wrong(&["-x"]), "未知选项 -x");
    assert_eq!(wrong(&["http"]), "无法解析的端口格式 `http`（有效示例：1-65535，或 3000-3010）");
    assert_eq!(wrong(&["65536"]), "无法解析的端口格式 `65536`（有效示例：1-65535，或 3000-3010）");
    assert_eq!(wrong(&["3010-3000"]), "端口区间 3010-3000 的起点比终点大");
    assert_eq!(
        wrong(&["-k"]),
        "使用 -k 选项时必须指定目标端口，以防意外终止所有监听进程"
    );
    assert_eq!(wrong(&["-"]), "无法解析的端口格式 `-`（有效示例：1-65535，或 3000-3010）");
    assert_eq!(wrong(&["-5"]), "无法解析的端口格式 `-5`（有效示例：1-65535，或 3000-3010）");
    assert_eq!(wrong(&["1-"]), "无法解析的端口格式 `1-`（有效示例：1-65535，或 3000-3010）");
}

#[test]
fn the_first_argument_that_ends_it_decides() {
    let owned = |v: &[&str]| -> Vec<String> { v.iter().map(|s| s.to_string()).collect() };
    assert!(matches!(parse_args(&owned(&["-h", "--nope"])), Ok(Request::Help)));
    assert!(matches!(parse_args(&owned(&["80", "--help"])), Ok(Request::Help)));
    assert!(matches!(parse_args(&owned(&["-V"])), Ok(Request::Version)));
    assert!(matches!(parse_args(&owned(&["--version"])), Ok(Request::Version)));
    assert!(parse_args(&owned(&["--nope", "-h"])).is_err());
}

#[test]
fn parts_of_a_list_may_have_space_around_them() {
    let mut out = vec![1];
    assert!(parse_port_spec(" 80 ,, 3000 - 3001 , +7", &mut out).is_ok());
    assert_eq!(out, vec![1, 80, 3000, 3001, 7]);
    let mut out = Vec::new();
    assert!(parse_port_spec("80,x,90", &mut out).is_err());
    assert_eq!(out, vec![80]);
    let mut out = Vec::new();
    assert!(parse_port_spec("", &mut out).is_ok());
    assert!(out.is_empty());
}

#[test]
fn a_sorted_list_is_searched() {
    let ports = [1u16, 80, 443, 65535];
    for p in [1u16, 80, 443, 65535] {
        assert!(lists(&ports, p));
    }
    for p in [0u16, 2, 81, 444, 65534] {
        assert!(!lists(&ports, p));
    }
    assert!(!lists(&[], 1));
}

#[test]
fn texts_for_the_user() {
    assert_eq!(usage_error("x"), "ports: x\n试试 `ports --help`\n");
    assert_eq!(failure("x"), "ports: x\n");
    assert_eq!(version(), "ports 0.1.0\n");
    assert!(HELP.starts_with("ports\n\n用法:\n"));
    assert!(HELP.contains("`ports 3000 || echo \"端口未被占用\"`"));
    assert!(HELP.ends_with("格式数据\n"));
}
