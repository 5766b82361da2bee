use switchboard::app_config::{AppConfig, AppConfigList, AppKind};
use uuid::Uuid;

fn fresh_id() -> u128 {
    Uuid::new_v4().as_u128()
}

#[test]
fn add_appends_a_new_app() {
    let mut list = AppConfigList::default();
    assert_eq!(list.apps.len(), 0);
    list.add(AppConfig {
        id: fresh_id(),
        name: "Custom".to_string(),
        working_dir: "/repo/custom".to_string(),
        command: "run".to_string(),
        kind: AppKind::Raw,
        url: None,
        env_vars: Vec::new(),
        auto_restart: false,
        start_order: 0,
    });
    assert_eq!(list.apps.len(), 1);
    assert_eq!(list.apps[0].name, "Custom");
}

#[test]
fn remove_drops_app_by_id() {
    let mut list = AppConfigList::default();
    let app = AppConfig { name: "X".to_string(), ..Default::default() };
    let id = app.id;
    list.add(app);
    list.remove(id);
    assert!(list.apps.is_empty());
}

#[test]
fn update_mutates_matching_app() {
    let mut list = AppConfigList::default();
    let app = AppConfig { name: "X".to_string(), ..Default::default() };
    let id = app.id;
    list.add(app);
    list.update(id, |mut app| {
        app.auto_restart = true;
        app.env_vars.push(("FOO".to_string(), "bar".to_string()));
        app
    });
    assert!(list.apps[0].auto_restart);
    assert_eq!(list.apps[0].env_vars, vec![("FOO".to_string(), "bar".to_string())]);
}

#[test]
fn update_only_touches_the_first_match() {
    let mut list = AppConfigList::default();
    list.add(AppConfig { id: 7, name: "A".to_string(), ..Default::default() });
    list.add(AppConfig { id: 7, name: "B".to_string(), ..Default::default() });
    list.add(AppConfig { id: 8, name: "C".to_string(), ..Default::default() });
    list.update(7, |mut app| {
        app.command = "changed".to_string();
        app
    });
    assert_eq!(list.apps[0].command, "changed");
    assert_eq!(list.apps[1].command, "");
    assert_eq!(list.apps[2].command, "");
    list.update(99, |mut app| {
        app.command = "never".to_string();
        app
    });
    assert!(list.apps.iter().all(|a| a.command != "never"));
}

#[test]
fn remove_drops_every_app_with_the_id_and_keeps_order() {
    let mut list = AppConfigList::default();
    list.add(AppConfig { id: 1, name: "A".to_string(), ..Default::default() });
    list.add(AppConfig { id: 2, name: "B".to_string(), ..Default::default() });
    list.add(AppConfig { id: 1, name: "C".to_string(), ..Default::default() });
    list.add(AppConfig { id: 3, name: "D".to_string(), ..Default::default() });
    list.remove(1);
    let names: Vec<&str> = list.apps.iter().map(|a| a.name.as_str()).collect();
    assert_eq!(names, vec!["B", "D"]);
}

#[test]
fn export_subset_filters_by_id_and_strips_env_vars_when_excluded() {
    let mut list = AppConfigList::default();
    let a = AppConfig {
        id: fresh_id(),
        name: "A".to_string(),
        env_vars: vec![("K".to_string(), "V".to_string())],
        ..Default::default()
    };
    let a_id = a.id;
    let b = AppConfig { id: fresh_id(), name: "B".to_string(), ..Default::default() };
    list.add(a);
    list.add(b);

    let subset = list.export_subset(&[a_id], false);
    assert_eq!(subset.apps.len(), 1);
    assert_eq!(subset.apps[0].name, "A");
    assert!(subset.apps[0].env_vars.is_empty());
}

#[test]
fn export_subset_keeps_env_vars_when_included() {
    let mut list = AppConfigList::default();
    let a = AppConfig {
        name: "A".to_string(),
        env_vars: vec![("K".to_string(), "V".to_string())],
        ..Default::default()
    };
    let a_id = a.id;
    list.add(a);

    let subset = list.export_subset(&[a_id], true);
    assert_eq!(subset.apps[0].env_vars, vec![("K".to_string(), "V".to_string())]);
}

#[test]
fn export_subset_of_unknown_ids_is_empty_and_leaves_the_list_alone() {
    let mut list = AppConfigList::default();
    list.add(AppConfig { id: 1, name: "A".to_string(), ..Default::default() });
    let subset = list.export_subset(&[2, 3], true);
    assert!(subset.apps.is_empty());
    assert_eq!(list.apps.len(), 1);
}

#[test]
fn merge_import_replaces_existing_app_by_name_case_insensitive_and_keeps_its_id() {
    let mut list = AppConfigList::default();
    let existing = AppConfig {
        id: fresh_id(),
        name: "Alume API".to_string(),
        command: "old".to_string(),
        ..Default::default()
    };
    let existing_id = existing.id;
    list.add(existing);

    let mut incoming = AppConfigList::default();
    incoming.add(AppConfig {
        id: fresh_id(),
        name: " alume api ".to_string(),
        command: "new".to_string(),
        ..Default::default()
    });

    let summary = list.merge_import(incoming);

    assert_eq!(summary.to_replace, vec!["alume api".to_string()]);
    assert!(summary.to_add.is_empty());
    assert_eq!(list.apps.len(), 1);
    assert_eq!(list.apps[0].id, existing_id);
    assert_eq!(list.apps[0].command, "new");
}

#[test]
fn merge_import_adds_new_app_with_a_fresh_id() {
    let mut list = AppConfigList::default();
    let mut incoming = AppConfigList::default();
    let incoming_app = AppConfig { name: "Brand New".to_string(), ..Default::default() };
    let incoming_id = incoming_app.id;
    incoming.add(incoming_app);

    let summary = list.merge_import(incoming);

    assert_eq!(summary.to_add, vec!["Brand New".to_string()]);
    assert!(summary.to_replace.is_empty());
    assert_eq!(list.apps.len(), 1);
    assert_ne!(list.apps[0].id, incoming_id);
}

#[test]
fn merge_import_counts_blank_name_as_invalid() {
    let mut list = AppConfigList::default();
    let mut incoming = AppConfigList::default();
    incoming.add(AppConfig { name: "   ".to_string(), ..Default::default() });

    let summary = list.merge_import(incoming);

    assert_eq!(summary.invalid, 1);
    assert!(list.apps.is_empty());
}

#[test]
fn merge_import_matches_names_using_unicode_case_folding() {
    let mut list = AppConfigList::default();
    let existing = AppConfig {
        id: fresh_id(),
        name: "Éditeur".to_string(),
        command: "old".to_string(),
        ..Default::default()
    };
    let existing_id = existing.id;
    list.add(existing);

    let mut incoming = AppConfigList::default();
    incoming.add(AppConfig {
        id: fresh_id(),
        name: "éditeur".to_string(),
        command: "new".to_string(),
        ..Default::default()
    });

    let summary = list.merge_import(incoming);

    assert_eq!(summary.to_replace, vec!["éditeur".to_string()]);
    assert!(summary.to_add.is_empty());
    assert_eq!(list.apps.len(), 1);
    assert_eq!(list.apps[0].id, existing_id);
    assert_eq!(list.apps[0].command, "new");
}

#[test]
fn merge_import_accounts_for_every_incoming_app_and_matches_its_own_additions() {
    let mut list = AppConfigList::default();
    list.add(AppConfig { id: 5, name: "API".to_string(), ..Default::default() });
    let mut incoming = AppConfigList::default();
    incoming.add(AppConfig { name: "web".to_string(), command: "first".to_string(), ..Default::default() });
    incoming.add(AppConfig { name: "\t".to_string(), ..Default::default() });
    incoming.add(AppConfig { name: "api".to_string(), ..Default::default() });
    incoming.add(AppConfig { name: " WEB".to_string(), command: "second".to_string(), ..Default::default() });

    let summary = list.merge_import(incoming);

    assert_eq!(summary.to_add, vec!["web".to_string()]);
    assert_eq!(summary.to_replace, vec!["api".to_string(), "WEB".to_string()]);
    assert_eq!(summary.invalid, 1);
    assert_eq!(summary.to_add.len() + summary.to_replace.len() + summary.invalid, 4);
    assert_eq!(list.apps.len(), 2);
    assert_eq!(list.apps[0].id, 5);
    assert_eq!(list.apps[0].name, "api");
    assert_eq!(list.apps[1].name, "WEB");
    assert_eq!(list.apps[1].command, "second");
    // A fresh id carries the version 4 bits, so it is never the nil id.
    assert_ne!(list.apps[1].id, 0);
    assert_eq!((list.apps[1].id >> 76) & 0xF, 4);
}

#[test]
fn wire_names_round_trip() {
    for kind in AppKind::all() {
        assert_eq!(AppKind::from_ffi_str(kind.ffi_str()), Some(kind));
    }
    assert_eq!(AppKind::from_ffi_str("Cargo"), None);
    assert_eq!(AppKind::from_ffi_str(""), None);
    assert_eq!(AppKind::Dotnet.display_name(), "Dotnet");
    assert_eq!(AppKind::Go.ffi_str(), "go");
    assert_eq!(AppKind::default(), AppKind::Raw);
}

#[test]
fn duplicate_copies_every_field() {
    let app = AppConfig {
        id: 42,
        name: "n".to_string(),
        working_dir: "/w".to_string(),
        command: "c".to_string(),
        kind: AppKind::Go,
        url: Some("http://localhost:1".to_string()),
        env_vars: vec![("A".to_string(), "1".to_string())],
        auto_restart: true,
        start_order: -3,
    };
    let copy = app.duplicate();
    assert_eq!(copy.id, 42);
    assert_eq!(copy.name, "n");
    assert_eq!(copy.working_dir, "/w");
    assert_eq!(copy.url, app.url);
    assert_eq!(copy.env_vars, app.env_vars);
    assert_eq!(copy.start_order, -3);
}

#[test]
fn wire_names_are_the_lowercased_display_names() {
    let kinds = AppKind::all();
    for kind in kinds {
        assert_eq!(kind.ffi_str(), kind.display_name().to_lowercase());
    }
    for a in kinds {
        for b in kinds {
            assert_eq!(a == b, a.display_name() == b.display_name());
            assert_eq!(a == b, a.ffi_str() == b.ffi_str());
        }
    }
}

#[test]
fn merge_import_keyed_matches_by_the_given_keys_and_uses_the_given_ids() {
    let mut list = AppConfigList::default();
    list.add(AppConfig { id: 10, name: "Api".to_string(), command: "old".to_string(), ..Default::default() });
    let mut keys = vec!["k-api".to_string()];
    let mut incoming = AppConfigList::default();
    incoming.add(AppConfig { id: 1, name: " Web ".to_string(), ..Default::default() });
    incoming.add(AppConfig { id: 2, name: "whatever".to_string(), command: "new".to_string(), ..Default::default() });
    incoming.add(AppConfig { id: 3, name: "  ".to_string(), ..Default::default() });
    incoming.add(AppConfig { id: 4, name: "Web again".to_string(), command: "again".to_string(), ..Default::default() });
    let incoming_keys = vec!["k-web".to_string(), "k-api".to_string(), "k-blank".to_string(), "k-web".to_string()];
    let fresh = vec![100u128, 200, 300, 400];
    let summary = list.merge_import_keyed(incoming, &mut keys, &incoming_keys, &fresh);
    assert_eq!(summary.to_add, vec!["Web".to_string()]);
    assert_eq!(summary.to_replace, vec!["whatever".to_string(), "Web again".to_string()]);
    assert_eq!(summary.invalid, 1);
    assert_eq!(list.apps.len(), 2);
    assert_eq!(list.apps[0].id, 10);
    assert_eq!(list.apps[0].name, "whatever");
    assert_eq!(list.apps[0].command, "new");
    assert_eq!(list.apps[1].id, 100);
    assert_eq!(list.apps[1].name, "Web again");
    assert_eq!(list.apps[1].command, "again");
    assert_eq!(keys, vec!["k-api".to_string(), "k-web".to_string()]);
}
