use dsh_desktop::dsh::{dsh_from_which, newest_version, parse_port_from_line, ui_url};
use dsh_desktop::dsh::{
    dsh_from_env, dsh_search_step, first_dsh_source, watch_output, DshSearch, DshSource,
    HarnessError, OutputEvent, PortWatch,
};

#[test]
fn port_from_the_dsh_banner() {
    assert_eq!(parse_port_from_line("dsh web: http://127.0.0.1:49473"), Some(49473));
    assert_eq!(parse_port_from_line("dsh web: http://127.0.0.1:49473  \r"), Some(49473));
    assert_eq!(parse_port_from_line("listening on :8080"), Some(8080));
}

#[test]
fn lines_without_a_port() {
    assert_eq!(parse_port_from_line("starting dsh"), None);
    assert_eq!(parse_port_from_line("dsh web: http://127.0.0.1:"), None);
    assert_eq!(parse_port_from_line("http://127.0.0.1:99999"), None);
    assert_eq!(parse_port_from_line("time 12:30:xx"), None);
    assert_eq!(parse_port_from_line(""), None);
}

#[test]
fn which_output() {
    assert_eq!(dsh_from_which("/usr/local/bin/dsh\n"), Some("/usr/local/bin/dsh".to_string()));
    assert_eq!(dsh_from_which(" \n"), None);
    assert_eq!(dsh_from_which(""), None);
}

#[test]
fn newest_version_sorts_last() {
    let names: Vec<String> =
        ["v20.1.0", "v22.19.0", "v22.2.0", "v18.0.0"].iter().map(|s| s.to_string()).collect();
    assert_eq!(newest_version(&names), Some(2));
    let mut sorted = names.clone();
    sorted.sort();
    assert_eq!(names[newest_version(&names).unwrap()], *sorted.last().unwrap());
    assert_eq!(newest_version(&Vec::new()), None);
}

#[test]
fn ui_url_reads_back_as_its_port() {
    assert_eq!(ui_url(49473), "http://127.0.0.1:49473");
    for port in [0u16, 1, 9, 10, 80, 8080, 49473, 65535] {
        assert_eq!(ui_url(port), format!("http://127.0.0.1:{}", port));
        assert_eq!(parse_port_from_line(&ui_url(port)), Some(port));
        assert_eq!(parse_port_from_line(&format!("dsh web: {}", ui_url(port))), Some(port));
    }
}

#[test]
fn the_search_for_dsh_goes_env_then_path_then_managed_node() {
    let mut source = first_dsh_source();
    assert_eq!(source, DshSource::EnvVar);
    let mut seen = vec![source];
    loop {
        match dsh_search_step(source, None) {
            DshSearch::Look(next) => {
                source = next;
                seen.push(next);
            }
            DshSearch::NotFound => break,
            DshSearch::Found(_) => panic!("nothing was found"),
        }
    }
    assert_eq!(seen, vec![DshSource::EnvVar, DshSource::OnPath, DshSource::ManagedNode]);
    match dsh_search_step(DshSource::OnPath, Some("/usr/bin/dsh".to_string())) {
        DshSearch::Found(p) => assert_eq!(p, "/usr/bin/dsh"),
        other => panic!("unexpected {other:?}"),
    }
}

#[test]
fn dsh_bin_counts_when_set_and_present() {
    assert_eq!(dsh_from_env("/opt/dsh", true), Some("/opt/dsh".to_string()));
    assert_eq!(dsh_from_env("/opt/dsh", false), None);
    assert_eq!(dsh_from_env("", true), None);
}

#[test]
fn waiting_for_the_port() {
    let line = OutputEvent::Line("dsh web: http://127.0.0.1:49473".to_string());
    assert_eq!(watch_output(&line), PortWatch::Announced(49473));
    assert_eq!(watch_output(&OutputEvent::Line("starting".to_string())), PortWatch::Waiting);
    assert_eq!(watch_output(&OutputEvent::Quiet), PortWatch::Waiting);
    assert_eq!(watch_output(&OutputEvent::Closed), PortWatch::GaveUp);
    assert_eq!(watch_output(&OutputEvent::TimedOut), PortWatch::GaveUp);
}

#[test]
fn harness_error_messages() {
    assert_eq!(HarnessError::CannotStart("no such file".to_string()).message(), "启动 dsh 失败: no such file");
    assert_eq!(HarnessError::NoOutput.message(), "无法读取 dsh 输出");
    assert_eq!(HarnessError::NoPort.message(), "无法从 dsh 输出解析端口（可能启动失败）");
    assert_eq!(HarnessError::NotReady(8080).message(), "dsh 服务在端口 8080 30 秒内未就绪");
}
