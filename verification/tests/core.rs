use focus::audio::get_audio_runtime_path;
use focus::codec::{build_blocked_content, contains_bytes, is_present, strip};
use focus::config::{add_urls, remove_urls, resolve_config, Args, Config};
use focus::lifecycle::{block_sites, check_status, stop_daemon, watcher_tick, Coordinator, Engine, FocusError};
use focus::session::{begin_outcome, parse_pid, pid_file_path, BeginOutcome};

fn mk_config(ip: &str, sites: &[&str]) -> Config {
    Config {
        hosts_path: String::from("/etc/hosts"),
        block_ip: String::from(ip),
        blocked_sites: sites.iter().map(|s| String::from(*s)).collect(),
        duration: 1,
        data_directory: String::from("/usr/local/share/focus"),
        log_directory: String::from("/var/log/focus"),
        start_audio: String::from("start.mp3"),
        end_audio: String::from("end.mp3"),
    }
}

fn bytes(s: &str) -> Vec<u8> {
    s.as_bytes().to_vec()
}

const BLOCKED_REGION: &str =
    "\n# BEGIN FOCUS BLOCK\n0.0.0.0\texample.com\n0.0.0.0\ttest.com\n# END FOCUS BLOCK";

#[test]
fn render_exact_output() {
    let config = mk_config("0.0.0.0", &["example.com", "test.com"]);
    let region = build_blocked_content(&config);
    assert_eq!(region, bytes(BLOCKED_REGION));
}

#[test]
fn render_no_hosts() {
    let config = mk_config("127.0.0.1", &[]);
    let region = build_blocked_content(&config);
    assert_eq!(region, bytes("\n# BEGIN FOCUS BLOCK\n# END FOCUS BLOCK"));
}

#[test]
fn render_is_deterministic() {
    let config = mk_config("0.0.0.0", &["example.com", "test.com"]);
    assert_eq!(build_blocked_content(&config), build_blocked_content(&config));
}

#[test]
fn rendered_region_is_present() {
    let config = mk_config("0.0.0.0", &["example.com", "test.com"]);
    let region = build_blocked_content(&config);
    assert!(is_present(&region));
}

#[test]
fn empty_text_is_not_present() {
    assert!(!is_present(&Vec::new()));
}

#[test]
fn present_needs_open_before_close() {
    assert!(!is_present(&bytes("# END FOCUS BLOCK then # BEGIN FOCUS BLOCK")));
    assert!(is_present(&bytes("# BEGIN FOCUS BLOCK then # END FOCUS BLOCK")));
    assert!(!is_present(&bytes("# BEGIN FOCUS BLOCK alone")));
    assert!(!is_present(&bytes("# END FOCUS BLOCK alone")));
}

#[test]
fn strip_restores_appended_region() {
    let config = mk_config("0.0.0.0", &["example.com", "test.com"]);
    let original = bytes("127.0.0.1 localhost\n");
    let mut text = original.clone();
    text.extend_from_slice(&build_blocked_content(&config));
    assert_eq!(strip(&text), original);
}

#[test]
fn strip_without_markers_is_noop() {
    let text = bytes("127.0.0.1 localhost\n::1 localhost\n");
    assert_eq!(strip(&text), text);
}

#[test]
fn strip_partial_marker_is_noop() {
    let text = bytes("127.0.0.1 localhost\n# BEGIN FOCUS BLOCK\n0.0.0.0\tx.com\n");
    assert_eq!(strip(&text), text);
    let text2 = bytes("# BEGIN FOCUS\n# END FOCUS BLOCK\n");
    assert_eq!(strip(&text2), text2);
}

#[test]
fn strip_region_at_start() {
    let text = bytes("# BEGIN FOCUS BLOCK\n0.0.0.0\tx.com\n# END FOCUS BLOCKrest");
    assert_eq!(strip(&text), bytes("rest"));
}

#[test]
fn strip_removes_both_generations() {
    let config = mk_config("0.0.0.0", &["example.com", "test.com"]);
    let region = build_blocked_content(&config);
    let t1 = bytes("127.0.0.1 localhost\n");
    let t2 = bytes("\nuser edit\n");
    let mut text = t1.clone();
    text.extend_from_slice(&region);
    text.extend_from_slice(&t2);
    text.extend_from_slice(&region);
    let mut expected = t1.clone();
    expected.extend_from_slice(&t2);
    let stripped = strip(&text);
    assert_eq!(stripped, expected);
    assert!(!contains_bytes(&stripped, &bytes("# BEGIN FOCUS BLOCK")));
    assert!(!contains_bytes(&stripped, &bytes("# END FOCUS BLOCK")));
}

#[test]
fn block_insertion_is_idempotent() {
    let config = mk_config("0.0.0.0", &["example.com", "test.com"]);
    let original = bytes("127.0.0.1 localhost\n");
    let (once, was_present) = block_sites(&original, &config);
    assert!(!was_present);
    let (twice, was_present_again) = block_sites(&once, &config);
    assert!(was_present_again);
    assert_eq!(once, twice);
}

#[test]
fn session_scenario_blocked_then_restored() {
    let config = mk_config("0.0.0.0", &["example.com", "test.com"]);
    let original = bytes("127.0.0.1 localhost\n");
    let (engine, blocked) = Engine::start(config, original.clone(), false, false).unwrap();
    let mut expected = original.clone();
    expected.extend_from_slice(&bytes(BLOCKED_REGION));
    assert_eq!(blocked, expected);
    assert_eq!(engine.on_expiry(), &original);
}

#[test]
fn engine_region_matches_render() {
    let config = mk_config("0.0.0.0", &["example.com", "test.com"]);
    let (engine, _) = Engine::start(config.clone(), bytes("x\n"), false, false).unwrap();
    assert_eq!(engine.expected_region(), build_blocked_content(&config));
}

#[test]
fn session_start_rejected_while_active() {
    let config = mk_config("0.0.0.0", &["example.com"]);
    let r = Engine::start(config, bytes("x\n"), true, true);
    assert_eq!(r.unwrap_err(), FocusError::AlreadyActive);
}

#[test]
fn session_start_with_stale_marker_proceeds() {
    let config = mk_config("0.0.0.0", &["example.com"]);
    assert!(Engine::start(config, bytes("x\n"), true, false).is_ok());
}

#[test]
fn watcher_repairs_missing_region() {
    let config = mk_config("0.0.0.0", &["example.com", "test.com"]);
    let region = build_blocked_content(&config);
    let tampered = bytes("127.0.0.1 localhost\n");
    let repaired = watcher_tick(&tampered, &region).expect("tampering must be repaired");
    assert!(contains_bytes(&repaired, &region));
    let mut expected = tampered.clone();
    expected.extend_from_slice(&region);
    assert_eq!(repaired, expected);
}

#[test]
fn watcher_leaves_intact_region_alone() {
    let config = mk_config("0.0.0.0", &["example.com", "test.com"]);
    let region = build_blocked_content(&config);
    let mut content = bytes("127.0.0.1 localhost\n");
    content.extend_from_slice(&region);
    assert!(watcher_tick(&content, &region).is_none());
}

#[test]
fn stop_strips_and_nothing_else() {
    let config = mk_config("0.0.0.0", &["example.com", "test.com"]);
    let original = bytes("127.0.0.1 localhost\n");
    let mut blocked = original.clone();
    blocked.extend_from_slice(&build_blocked_content(&config));
    let plan = stop_daemon(None, &blocked);
    assert!(!plan.had_session);
    assert_eq!(plan.signal_pid, None);
    assert_eq!(plan.new_content, original);
}

#[test]
fn stop_reads_marker_pid() {
    let marker = bytes("4242\n");
    let plan = stop_daemon(Some(&marker), &bytes("no region here\n"));
    assert!(plan.had_session);
    assert_eq!(plan.signal_pid, Some(4242));
    assert_eq!(plan.new_content, bytes("no region here\n"));
}

#[test]
fn coordinator_tears_down_once() {
    let config = mk_config("0.0.0.0", &["example.com"]);
    let original = bytes("127.0.0.1 localhost\n");
    let mut blocked = original.clone();
    blocked.extend_from_slice(&build_blocked_content(&config));
    let mut coordinator = Coordinator::new();
    let first = coordinator.terminate(&blocked).expect("first teardown must strip");
    assert_eq!(first, original);
    assert!(coordinator.terminate(&blocked).is_none());
}

#[test]
fn status_with_stale_marker_reports_not_running() {
    let marker_exists = true;
    let process_alive = false;
    let outcome = begin_outcome(marker_exists, process_alive);
    assert_eq!(outcome, BeginOutcome::StaleMarker);
    // the stale marker is discarded, so the status check no longer sees one
    let status = check_status(false, &bytes("127.0.0.1 localhost\n"));
    assert!(!status.running);
    assert!(!status.blocked);
}

#[test]
fn status_reports_marker_and_region() {
    let config = mk_config("0.0.0.0", &["example.com"]);
    let mut blocked = bytes("127.0.0.1 localhost\n");
    blocked.extend_from_slice(&build_blocked_content(&config));
    let status = check_status(true, &blocked);
    assert!(status.running);
    assert!(status.blocked);
}

#[test]
fn begin_outcome_cases() {
    assert_eq!(begin_outcome(true, true), BeginOutcome::AlreadyActive);
    assert_eq!(begin_outcome(true, false), BeginOutcome::StaleMarker);
    assert_eq!(begin_outcome(false, false), BeginOutcome::Fresh);
    assert_eq!(begin_outcome(false, true), BeginOutcome::Fresh);
}

#[test]
fn pid_path_is_under_log_directory() {
    assert_eq!(pid_file_path("/var/log/focus"), String::from("/var/log/focus/focus.pid"));
}

#[test]
fn parse_pid_plain_and_trimmed() {
    assert_eq!(parse_pid(&bytes("1234")), Some(1234));
    assert_eq!(parse_pid(&bytes("  4242\n")), Some(4242));
    assert_eq!(parse_pid(&bytes("\t7 \r\n")), Some(7));
    assert_eq!(parse_pid(&bytes("0")), Some(0));
}

#[test]
fn parse_pid_rejects_garbage() {
    assert_eq!(parse_pid(&bytes("")), None);
    assert_eq!(parse_pid(&bytes("   \n")), None);
    assert_eq!(parse_pid(&bytes("12a4")), None);
    assert_eq!(parse_pid(&bytes("-5")), None);
    assert_eq!(parse_pid(&bytes("12 34")), None);
}

#[test]
fn parse_pid_range() {
    assert_eq!(parse_pid(&bytes("2147483647")), Some(2147483647));
    assert_eq!(parse_pid(&bytes("2147483648")), None);
    assert_eq!(parse_pid(&bytes("99999999999999999999")), None);
}

#[test]
fn add_urls_appends_in_order() {
    let config = mk_config("0.0.0.0", &["a.com"]);
    let urls = vec![String::from("b.com"), String::from("c.com")];
    let updated = add_urls(&urls, config).unwrap();
    assert_eq!(updated.blocked_sites, vec!["a.com", "b.com", "c.com"]);
    assert_eq!(updated.block_ip, "0.0.0.0");
}

#[test]
fn add_urls_rejects_empty_list() {
    let config = mk_config("0.0.0.0", &["a.com"]);
    let unchanged = add_urls(&Vec::new(), config).unwrap_err();
    assert_eq!(unchanged.blocked_sites, vec!["a.com"]);
}

#[test]
fn remove_urls_filters_all_matches() {
    let config = mk_config("0.0.0.0", &["a.com", "b.com", "a.com", "c.com"]);
    let urls = vec![String::from("a.com")];
    let updated = remove_urls(&urls, config).unwrap();
    assert_eq!(updated.blocked_sites, vec!["b.com", "c.com"]);
}

#[test]
fn remove_urls_rejects_empty_list() {
    let config = mk_config("0.0.0.0", &["a.com"]);
    let unchanged = remove_urls(&Vec::new(), config).unwrap_err();
    assert_eq!(unchanged.blocked_sites, vec!["a.com"]);
}

#[test]
fn resolve_config_applies_overrides() {
    let config = mk_config("0.0.0.0", &["a.com"]);
    let args = Args {
        command: None,
        duration: Some(25),
        background: false,
        path: Some(String::from("/tmp/hosts")),
        config: None,
    };
    let resolved = resolve_config(config, &args);
    assert_eq!(resolved.hosts_path, "/tmp/hosts");
    assert_eq!(resolved.duration, 25);
    assert_eq!(resolved.block_ip, "0.0.0.0");
}

#[test]
fn resolve_config_keeps_defaults() {
    let config = mk_config("0.0.0.0", &["a.com"]);
    let args = Args { command: None, duration: None, background: true, path: None, config: None };
    let resolved = resolve_config(config, &args);
    assert_eq!(resolved.hosts_path, "/etc/hosts");
    assert_eq!(resolved.duration, 1);
}

#[test]
fn audio_runtime_path_cases() {
    assert_eq!(
        get_audio_runtime_path(Some(String::from("1000")), Some(String::from("/run/user/7"))),
        "/run/user/1000"
    );
    assert_eq!(get_audio_runtime_path(None, Some(String::from("/run/user/7"))), "/run/user/7");
    assert_eq!(get_audio_runtime_path(None, None), "/run/user/1000");
}

#[test]
fn error_messages_name_the_failure() {
    assert_eq!(FocusError::AlreadyActive.message(), "a blocking session is already active");
    assert_eq!(FocusError::NoActiveSession.message(), "no active blocking session found");
}
