use std::time::{Duration, Instant};
use switchboard::app_config::{AppConfigList, AppKind};
use switchboard::engine::{AppDraft, AppView, Engine, EventEffect, MAX_LOG_LINES};
use switchboard::log_stream::Event;
use switchboard::process_manager::AppStatus;

fn temp_engine() -> Engine {
    Engine::new(AppConfigList::default())
}

fn base_draft() -> AppDraft {
    AppDraft {
        name: "X".to_string(),
        working_dir: "/tmp".to_string(),
        kind: AppKind::Raw,
        command: "".to_string(),
        url: None,
        env_vars: vec![],
        auto_restart: false,
        start_order: 0,
    }
}

/// Launches an application the way the desktop shell does: look its
/// configuration up, check its directory, record the outcome.
fn launch(engine: &mut Engine, id: u128) {
    if let Some(config) = engine.launch_config(id) {
        let exists = std::path::Path::new(&config.working_dir).is_dir();
        engine.record_launch(&config, exists);
    }
}

/// Hands pending events to the engine the way the desktop shell drains its channel.
fn drain(engine: &mut Engine, pending: &mut Vec<Event>) {
    let events: Vec<Event> = pending.drain(..).collect();
    let count = events.len();
    for event in events {
        if let EventEffect::StartWanted(id) = engine.apply_event(event) {
            launch(engine, id);
        }
    }
    engine.finish_drain(count);
}

fn find(apps: &[AppView], id: u128) -> &AppView {
    apps.iter().find(|a| a.id == id).expect("app present")
}

#[test]
fn add_app_persists_new_fields() {
    let mut engine = temp_engine();
    let id = engine.add_app(AppDraft {
        name: "Custom".to_string(),
        url: Some("http://localhost:9999".to_string()),
        env_vars: vec![("FOO".to_string(), "bar".to_string())],
        auto_restart: true,
        start_order: 2,
        ..base_draft()
    });
    let apps = engine.list_apps(None);
    let app = find(&apps, id);
    assert_eq!(app.url, Some("http://localhost:9999".to_string()));
    assert_eq!(app.env_vars, vec![("FOO".to_string(), "bar".to_string())]);
    assert!(app.auto_restart);
    assert_eq!(app.start_order, 2);
    assert_eq!(app.healthy, None);
}

#[test]
fn update_app_overwrites_fields() {
    let mut engine = temp_engine();
    let id = engine.add_app(base_draft());
    engine.update_app(id, AppDraft {
        name: "Y".to_string(),
        kind: AppKind::Npm,
        command: "start".to_string(),
        url: Some("http://localhost:1234".to_string()),
        env_vars: vec![("A".to_string(), "B".to_string())],
        auto_restart: true,
        start_order: 3,
        ..base_draft()
    });
    let apps = engine.list_apps(None);
    let app = find(&apps, id);
    assert_eq!(app.name, "Y");
    assert_eq!(app.url, Some("http://localhost:1234".to_string()));
    assert!(app.auto_restart);
    assert_eq!(app.start_order, 3);
}

#[test]
fn clear_logs_empties_log_buffer() {
    let mut engine = temp_engine();
    let id = engine.add_app(base_draft());
    engine.clear_logs(id);
    let apps = engine.list_apps(None);
    assert!(find(&apps, id).logs.is_empty());
}

#[test]
fn start_all_returns_without_blocking_the_calling_thread() {
    let mut engine = temp_engine();
    engine.add_app(AppDraft { start_order: 0, working_dir: "/nonexistent-a".to_string(), ..base_draft() });
    engine.add_app(AppDraft { start_order: 1, working_dir: "/nonexistent-b".to_string(), ..base_draft() });

    let started = Instant::now();
    let plan = engine.start_all();
    assert!(
        started.elapsed() < Duration::from_millis(100),
        "start_all must not block the calling thread on the inter-tier delay"
    );
    assert_eq!(plan.len(), 2);
    assert!(!plan[0].pause_before);
    assert!(plan[1].pause_before);
}

#[test]
fn start_all_skips_already_running_apps() {
    let mut engine = temp_engine();
    engine.add_app(AppDraft { working_dir: "/nonexistent".to_string(), ..base_draft() });
    let plan = engine.start_all();
    let mut pending: Vec<Event> = plan.iter().map(|s| Event::StartRequested(s.id)).collect();
    drain(&mut engine, &mut pending);
    let apps = engine.list_apps(None);
    assert_eq!(apps.len(), 1);
    assert_eq!(apps[0].status_label, "failed");
    assert_eq!(apps[0].error, Some("dossier introuvable: /nonexistent".to_string()));
}

#[test]
fn start_all_orders_by_tier_keeps_config_order_within_a_tier_and_skips_running() {
    let mut engine = temp_engine();
    let a = engine.add_app(AppDraft { start_order: 2, ..base_draft() });
    let b = engine.add_app(AppDraft { start_order: 1, ..base_draft() });
    let c = engine.add_app(AppDraft { start_order: 2, ..base_draft() });
    let d = engine.add_app(AppDraft { start_order: -5, ..base_draft() });
    let e = engine.add_app(AppDraft { start_order: 1, ..base_draft() });
    launch(&mut engine, e); // "/tmp" exists: e now has a live supervisor
    assert!(engine.is_running(e));
    let plan = engine.start_all();
    let ids: Vec<u128> = plan.iter().map(|s| s.id).collect();
    assert_eq!(ids, vec![d, b, a, c]);
    let pauses: Vec<bool> = plan.iter().map(|s| s.pause_before).collect();
    assert_eq!(pauses, vec![false, true, true, false]);
}

#[test]
fn log_text_joins_the_buffer_for_export() {
    let mut engine = temp_engine();
    let id = engine.add_app(base_draft());
    assert_eq!(engine.log_text(id), Some(String::new()));
    let mut pending = vec![Event::Log(id, "one".to_string()), Event::Log(id, "two".to_string())];
    drain(&mut engine, &mut pending);
    assert_eq!(engine.log_text(id), Some("one\ntwo".to_string()));
    assert_eq!(engine.log_text(id ^ 1), None);
}

#[test]
fn revision_bumps_only_when_an_event_is_actually_drained() {
    let mut engine = temp_engine();
    let id = engine.add_app(base_draft());
    let mut pending: Vec<Event> = Vec::new();
    drain(&mut engine, &mut pending);
    let before = engine.revision();
    drain(&mut engine, &mut pending);
    assert_eq!(before, engine.revision(), "no events pending, revision must stay flat");

    pending.push(Event::Log(id, "hello".to_string()));
    drain(&mut engine, &mut pending);
    let after = engine.revision();
    assert!(after > before, "a drained log event must bump the revision");
}

#[test]
fn list_apps_only_includes_logs_for_the_requested_id() {
    let mut engine = temp_engine();
    let id_a = engine.add_app(base_draft());
    let id_b = engine.add_app(base_draft());
    let mut pending = vec![Event::Log(id_a, "from a".to_string()), Event::Log(id_b, "from b".to_string())];
    drain(&mut engine, &mut pending);

    let apps = engine.list_apps(Some((id_a, 0)));
    let a = find(&apps, id_a);
    let b = find(&apps, id_b);
    assert_eq!(a.logs, vec!["from a".to_string()]);
    assert!(b.logs.is_empty(), "non-selected app must not ship its logs");
}

#[test]
fn list_apps_delta_returns_only_new_lines_when_client_is_caught_up() {
    let mut engine = temp_engine();
    let id = engine.add_app(base_draft());
    let mut pending = vec![Event::Log(id, "line 1".to_string()), Event::Log(id, "line 2".to_string())];
    drain(&mut engine, &mut pending);
    let first = engine.list_apps(Some((id, 0)));
    let entry = find(&first, id);
    assert_eq!(entry.logs, vec!["line 1".to_string(), "line 2".to_string()]);
    assert!(!entry.logs_replace);
    assert_eq!(entry.logs_base_seq, 0);

    pending.push(Event::Log(id, "line 3".to_string()));
    drain(&mut engine, &mut pending);
    let since = entry.logs_base_seq + entry.logs.len() as u64;
    let second = engine.list_apps(Some((id, since)));
    let entry2 = find(&second, id);
    assert_eq!(entry2.logs, vec!["line 3".to_string()]);
    assert!(!entry2.logs_replace);
    assert_eq!(entry2.logs_base_seq, since);
}

#[test]
fn list_apps_treats_a_since_seq_ahead_of_reality_as_caught_up_not_a_replace() {
    let mut engine = temp_engine();
    let id = engine.add_app(base_draft());
    let apps = engine.list_apps(Some((id, 100)));
    let entry = find(&apps, id);
    assert!(entry.logs.is_empty());
    assert!(!entry.logs_replace);
}

#[test]
fn list_apps_forces_full_replace_when_client_is_behind_evicted_lines() {
    let mut engine = temp_engine();
    let id = engine.add_app(base_draft());
    let mut pending: Vec<Event> = (0..(MAX_LOG_LINES + 1)).map(|i| Event::Log(id, format!("line {i}"))).collect();
    drain(&mut engine, &mut pending);

    let apps = engine.list_apps(Some((id, 0)));
    let entry = find(&apps, id);
    assert!(entry.logs_replace);
    assert_eq!(entry.logs.len(), MAX_LOG_LINES);
    assert_eq!(entry.logs.first(), Some(&"line 1".to_string()));
    assert_eq!(entry.logs.last(), Some(&format!("line {MAX_LOG_LINES}")));
    assert_eq!(entry.logs_base_seq, 1);
}

#[test]
fn clear_logs_advances_base_seq_so_a_stale_client_gets_a_replace() {
    let mut engine = temp_engine();
    let id = engine.add_app(base_draft());
    let mut pending = vec![Event::Log(id, "a".to_string()), Event::Log(id, "b".to_string())];
    drain(&mut engine, &mut pending);
    let first = engine.list_apps(Some((id, 0)));
    let entry = find(&first, id);
    let caught_up_since = entry.logs_base_seq + entry.logs.len() as u64;

    engine.clear_logs(id);

    let after_clear = engine.list_apps(Some((id, caught_up_since)));
    let entry2 = find(&after_clear, id);
    assert!(entry2.logs.is_empty());
    assert!(!entry2.logs_replace);

    pending.push(Event::Log(id, "c".to_string()));
    drain(&mut engine, &mut pending);
    let stale_client = engine.list_apps(Some((id, 0)));
    let entry3 = find(&stale_client, id);
    assert!(entry3.logs_replace);
    assert_eq!(entry3.logs, vec!["c".to_string()]);
}

#[test]
fn list_apps_with_no_selection_ships_no_logs_at_all() {
    let mut engine = temp_engine();
    let id = engine.add_app(base_draft());
    let mut pending = vec![Event::Log(id, "hello".to_string())];
    drain(&mut engine, &mut pending);

    let apps = engine.list_apps(None);
    assert!(find(&apps, id).logs.is_empty());
}

#[test]
fn handles_entry_is_removed_once_a_process_stops_so_start_all_can_restart_it() {
    let mut engine = temp_engine();
    let id = engine.add_app(base_draft());

    launch(&mut engine, id);
    assert!(engine.is_running(id), "sanity: handles has the entry before the stop event");

    let mut pending = vec![Event::StatusChanged(id, AppStatus::Stopped)];
    drain(&mut engine, &mut pending);
    assert!(
        !engine.is_running(id),
        "a stopped app must be removed from handles or start_all will refuse to restart it"
    );
}

#[test]
fn start_requested_is_a_no_op_if_the_app_is_already_in_handles() {
    let mut engine = temp_engine();
    let id = engine.add_app(AppDraft { working_dir: "/nonexistent-for-guard-test".to_string(), ..base_draft() });

    let config = engine.launch_config(id).unwrap();
    engine.record_launch(&config, true);

    let mut pending = vec![Event::StartRequested(id)];
    drain(&mut engine, &mut pending);

    let apps = engine.list_apps(None);
    let app = find(&apps, id);
    assert_ne!(
        app.status_label, "failed",
        "guarded StartRequested must not re-run start_app_now for an id already in handles"
    );
}

#[test]
fn status_and_health_events_drive_the_view() {
    let mut engine = temp_engine();
    let id = engine.add_app(base_draft());
    let mut pending = vec![Event::StatusChanged(id, AppStatus::Building), Event::HealthChanged(id, true)];
    drain(&mut engine, &mut pending);
    let apps = engine.list_apps(None);
    assert_eq!(find(&apps, id).status_label, "building");
    assert!(find(&apps, id).active);
    assert_eq!(find(&apps, id).healthy, Some(true));

    pending.push(Event::StatusChanged(id, AppStatus::Failed("exit code 3".to_string())));
    drain(&mut engine, &mut pending);
    let apps = engine.list_apps(None);
    let app = find(&apps, id);
    assert_eq!(app.status_label, "failed");
    assert_eq!(app.error, Some("exit code 3".to_string()));
    assert!(!app.active);
    assert_eq!(app.healthy, None, "a terminal status clears the health");
}

#[test]
fn terminal_status_reports_the_end_of_supervision() {
    let mut engine = temp_engine();
    let id = engine.add_app(base_draft());
    assert_eq!(engine.apply_event(Event::StatusChanged(id, AppStatus::Running)), EventEffect::Nothing);
    assert_eq!(engine.apply_event(Event::StatusChanged(id, AppStatus::Stopped)), EventEffect::Ended(id));
    assert_eq!(engine.apply_event(Event::StartRequested(id)), EventEffect::StartWanted(id));
    assert_eq!(engine.apply_event(Event::Log(id, "x".to_string())), EventEffect::Nothing);
}

#[test]
fn remove_app_forgets_configuration_state_and_supervision() {
    let mut engine = temp_engine();
    let keep = engine.add_app(base_draft());
    let id = engine.add_app(base_draft());
    launch(&mut engine, id);
    assert!(engine.is_running(id));
    engine.remove_app(id);
    assert!(!engine.is_running(id));
    assert_eq!(engine.log_text(id), None);
    let apps = engine.list_apps(None);
    assert_eq!(apps.len(), 1);
    assert_eq!(apps[0].id, keep);
    assert!(engine.launch_config(id).is_none());
    assert_eq!(engine.running_ids(), Vec::<u128>::new());
}

#[test]
fn engine_over_an_existing_configuration_starts_stopped() {
    let mut list = AppConfigList::default();
    list.add(switchboard::app_config::AppConfig { id: 9, name: "A".to_string(), ..Default::default() });
    let engine = Engine::new(list);
    let apps = engine.list_apps(Some((9, 0)));
    assert_eq!(apps.len(), 1);
    assert_eq!(apps[0].status_label, "stopped");
    assert!(!apps[0].active);
    assert!(apps[0].logs.is_empty());
    assert_eq!(engine.revision(), 0);
    assert!(engine.accepts_log(9));
}

#[test]
fn import_apps_gives_new_apps_a_fresh_runtime() {
    let mut engine = temp_engine();
    let existing = engine.add_app(AppDraft { name: "API".to_string(), ..base_draft() });
    let mut pending = vec![Event::Log(existing, "kept".to_string())];
    drain(&mut engine, &mut pending);
    let mut incoming = AppConfigList::default();
    incoming.add(switchboard::app_config::AppConfig { name: "api".to_string(), command: "new".to_string(), ..Default::default() });
    incoming.add(switchboard::app_config::AppConfig { name: "Web".to_string(), ..Default::default() });
    let summary = engine.import_apps(incoming);
    assert_eq!(summary.to_replace, vec!["api".to_string()]);
    assert_eq!(summary.to_add, vec!["Web".to_string()]);
    let apps = engine.list_apps(None);
    assert_eq!(apps.len(), 2);
    assert_eq!(apps[0].id, existing);
    assert_eq!(apps[0].command, "new");
    assert_eq!(engine.log_text(existing), Some("kept".to_string()));
    assert_eq!(engine.log_text(apps[1].id), Some(String::new()));
    assert_eq!(engine.config().apps.len(), 2);
}
