use switchboard::app_config::{AppKind, ImportSummary};
use switchboard::engine::AppView;
use switchboard::frontend::{
    choose_selection, draft_from_form, env_vars_text, import_detail, is_new_failure, kind_at, kind_label_text,
    kind_to_index, log_text_for, log_text_matching, parse_env_vars, settle_selection, status_css_class,
    sync_selected_logs, MAX_DISPLAYED_LOG_LINES,
};

fn view(id: u128, label: &'static str, logs: Vec<&str>, base: u64, replace: bool) -> AppView {
    AppView {
        id,
        name: "n".to_string(),
        working_dir: "/w".to_string(),
        kind: AppKind::Npm,
        command: "start".to_string(),
        url: None,
        env_vars: vec![],
        auto_restart: false,
        start_order: 0,
        status_label: label,
        error: None,
        active: false,
        logs: logs.into_iter().map(String::from).collect(),
        logs_base_seq: base,
        logs_replace: replace,
        healthy: None,
    }
}

fn strings(v: &[&str]) -> Vec<String> {
    v.iter().map(|s| s.to_string()).collect()
}

#[test]
fn sync_replaces_appends_and_reports_the_patch() {
    let mut buffer = strings(&["old"]);
    let (patch, since) = sync_selected_logs(&mut buffer, &view(1, "running", vec!["a", "b"], 4, true));
    assert_eq!(buffer, strings(&["a", "b"]));
    assert!(patch.is_none());
    assert_eq!(since, 6);

    let (patch, since) = sync_selected_logs(&mut buffer, &view(1, "running", vec!["c"], 6, false));
    assert_eq!(buffer, strings(&["a", "b", "c"]));
    assert_eq!(patch, Some((0, strings(&["c"]))));
    assert_eq!(since, 7);

    let (patch, since) = sync_selected_logs(&mut buffer, &view(1, "running", vec![], 7, false));
    assert_eq!(buffer, strings(&["a", "b", "c"]));
    assert!(patch.is_none());
    assert_eq!(since, 7);

    let mut empty: Vec<String> = Vec::new();
    let (patch, _) = sync_selected_logs(&mut empty, &view(1, "running", vec!["x"], 0, false));
    assert_eq!(empty, strings(&["x"]));
    assert!(patch.is_none(), "a buffer that was empty is redrawn, not patched");
}

#[test]
fn sync_cuts_the_buffer_back_to_the_display_limit() {
    let mut buffer: Vec<String> = (0..MAX_DISPLAYED_LOG_LINES).map(|i| format!("l{i}")).collect();
    let (patch, _) = sync_selected_logs(&mut buffer, &view(1, "running", vec!["new1", "new2"], 0, false));
    assert_eq!(buffer.len(), MAX_DISPLAYED_LOG_LINES);
    assert_eq!(buffer[0], "l2");
    assert_eq!(buffer.last().unwrap(), "new2");
    assert_eq!(patch, Some((2, strings(&["new1", "new2"]))));
}

#[test]
fn log_text_for_filters_case_insensitively() {
    let logs = strings(&["Server STARTED", "error: boom", "Ready"]);
    assert_eq!(log_text_for(&logs, ""), "Server STARTED\nerror: boom\nReady");
    assert_eq!(log_text_for(&logs, "started"), "Server STARTED");
    assert_eq!(log_text_for(&logs, "R"), "Server STARTED\nerror: boom\nReady");
    assert_eq!(log_text_for(&logs, "zzz"), "");
    assert_eq!(log_text_for(&strings(&["ÉTAT ok"]), "état"), "ÉTAT ok");
}

#[test]
fn row_styling_and_labels() {
    assert_eq!(status_css_class("running"), "status-running");
    assert_eq!(status_css_class("building"), "status-building");
    assert_eq!(status_css_class("failed"), "status-failed");
    assert_eq!(status_css_class("stopped"), "status-stopped");
    assert_eq!(status_css_class("anything else"), "status-stopped");
    assert_eq!(kind_label_text(AppKind::Dotnet), "DOTNET");
    assert_eq!(kind_label_text(AppKind::Go), "GO");
}

#[test]
fn crash_notifications_fire_once_per_failure() {
    assert!(is_new_failure(None, "failed"));
    assert!(is_new_failure(Some("running"), "failed"));
    assert!(!is_new_failure(Some("failed"), "failed"));
    assert!(!is_new_failure(Some("failed"), "stopped"));
    assert!(!is_new_failure(None, "running"));
}

#[test]
fn kind_positions_in_the_form() {
    assert_eq!(kind_to_index(None), 0);
    assert_eq!(kind_to_index(Some(AppKind::Raw)), 6);
    for (i, kind) in AppKind::all().iter().enumerate() {
        assert_eq!(kind_to_index(Some(*kind)), i as u32);
        assert_eq!(kind_at(i as u32), *kind);
    }
    assert_eq!(kind_at(7), AppKind::Cargo);
    assert_eq!(kind_at(u32::MAX), AppKind::Cargo);
}

#[test]
fn env_vars_parse_one_pair_per_line() {
    let parsed = parse_env_vars(" A = 1 \nnoequals\n=skipped\r\nB=x=y\r\n\nC=\n");
    assert_eq!(parsed, vec![
        ("A".to_string(), "1".to_string()),
        ("B".to_string(), "x=y".to_string()),
        ("C".to_string(), "".to_string()),
    ]);
    assert!(parse_env_vars("").is_empty());
    let round = env_vars_text(&parsed);
    assert_eq!(round, "A=1\nB=x=y\nC=");
    assert_eq!(parse_env_vars(&round), parsed);
}

#[test]
fn form_fields_become_a_draft() {
    let d = draft_from_form(" api ", " /srv/api ", 1, " start ", "  ", "PORT=3000", true, 4);
    assert_eq!(d.name, "api");
    assert_eq!(d.working_dir, "/srv/api");
    assert_eq!(d.kind, AppKind::Npm);
    assert_eq!(d.command, "start");
    assert_eq!(d.url, None);
    assert_eq!(d.env_vars, vec![("PORT".to_string(), "3000".to_string())]);
    assert!(d.auto_restart);
    assert_eq!(d.start_order, 4);
    let d = draft_from_form("x", "/", 9, "", " http://localhost:3000 ", "", false, 0);
    assert_eq!(d.kind, AppKind::Cargo);
    assert_eq!(d.url, Some("http://localhost:3000".to_string()));
}

#[test]
fn selection_falls_back_to_the_first_listed_app() {
    let apps = vec![view(1, "stopped", vec![], 0, false), view(2, "stopped", vec![], 0, false)];
    assert_eq!(choose_selection(Some(2), &apps), (Some(2), false));
    assert_eq!(choose_selection(Some(3), &apps), (Some(1), true));
    assert_eq!(choose_selection(None, &apps), (Some(1), true));
    assert_eq!(choose_selection(Some(3), &vec![]), (Some(3), false));
    assert_eq!(choose_selection(None, &vec![]), (None, false));
}

#[test]
fn log_text_matching_keeps_lines_by_their_given_lowered_text() {
    let logs = strings(&["Alpha", "beta", "Gamma"]);
    let lowered = strings(&["xx", "yx", "zz"]);
    assert_eq!(log_text_matching(&logs, &lowered, "x"), "Alpha\nbeta");
    assert_eq!(log_text_matching(&logs, &lowered, "q"), "");
    assert_eq!(log_text_matching(&logs, &lowered, ""), "Alpha\nbeta\nGamma");
}

#[test]
fn settle_selection_resets_only_on_a_fresh_fallback() {
    let apps = vec![view(1, "stopped", vec![], 0, false), view(2, "running", vec![], 0, false)];
    let mut logs = strings(&["a", "b"]);
    assert_eq!(settle_selection(Some(2), 7, &mut logs, &apps), (Some(2), 7, false));
    assert_eq!(logs, strings(&["a", "b"]));
    assert_eq!(settle_selection(Some(9), 7, &mut logs, &apps), (Some(1), 0, true));
    assert!(logs.is_empty());
    let mut logs = strings(&["c"]);
    assert_eq!(settle_selection(None, 3, &mut logs, &vec![]), (None, 3, false));
    assert_eq!(logs, strings(&["c"]));
}

#[test]
fn import_detail_lists_additions_then_replacements() {
    let both = ImportSummary { to_add: strings(&["A", "B"]), to_replace: strings(&["C"]), invalid: 1 };
    assert_eq!(import_detail(&both), "2 app(s) seront ajoutées : A, B\n1 app(s) seront remplacées : C");
    let add_only = ImportSummary { to_add: strings(&["A"]), to_replace: vec![], invalid: 0 };
    assert_eq!(import_detail(&add_only), "1 app(s) seront ajoutées : A\n");
    let none = ImportSummary { to_add: vec![], to_replace: vec![], invalid: 3 };
    assert_eq!(import_detail(&none), "");
}
