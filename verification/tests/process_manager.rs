use switchboard::app_config::{AppConfig, AppKind};
use switchboard::process_manager::{
    after_command, after_restart_delay, build_commands, command_echo, first_step, is_crash,
    plain_command_line, resolve_final_status, shell_command_line, shell_quote, AppStatus, CommandSpec,
    RunStep,
};

fn config_with(kind: AppKind, command: &str) -> AppConfig {
    AppConfig {
        id: uuid::Uuid::new_v4().as_u128(),
        name: "test".to_string(),
        working_dir: "/repo/test".to_string(),
        command: command.to_string(),
        kind,
        url: None,
        env_vars: Vec::new(),
        auto_restart: false,
        start_order: 0,
    }
}

#[test]
fn cargo_builds_then_runs() {
    let config = config_with(AppKind::Cargo, "");
    let commands = build_commands(&config);
    assert_eq!(commands, vec![
        CommandSpec { program: "cargo".to_string(), args: vec!["build".to_string()] },
        CommandSpec { program: "cargo".to_string(), args: vec!["run".to_string()] },
    ]);
}

#[test]
fn npm_runs_configured_command() {
    let config = config_with(AppKind::Npm, "start");
    let commands = build_commands(&config);
    assert_eq!(commands, vec![CommandSpec { program: "npm".to_string(), args: vec!["start".to_string()] }]);
}

#[test]
fn dotnet_runs_with_extra_args() {
    let config = config_with(AppKind::Dotnet, "--project Api.csproj");
    let commands = build_commands(&config);
    assert_eq!(commands, vec![CommandSpec {
        program: "dotnet".to_string(),
        args: vec!["run".to_string(), "--project".to_string(), "Api.csproj".to_string()],
    }]);
}

#[test]
fn dotnet_defaults_to_plain_run() {
    let config = config_with(AppKind::Dotnet, "");
    let commands = build_commands(&config);
    assert_eq!(commands, vec![CommandSpec { program: "dotnet".to_string(), args: vec!["run".to_string()] }]);
}

#[test]
fn maven_defaults_to_spring_boot_run() {
    let config = config_with(AppKind::Maven, "");
    let commands = build_commands(&config);
    assert_eq!(commands, vec![CommandSpec {
        program: "mvn".to_string(),
        args: vec!["spring-boot:run".to_string()],
    }]);
}

#[test]
fn maven_runs_configured_goal() {
    let config = config_with(AppKind::Maven, "quarkus:dev");
    let commands = build_commands(&config);
    assert_eq!(commands, vec![CommandSpec { program: "mvn".to_string(), args: vec!["quarkus:dev".to_string()] }]);
}

#[test]
fn python_defaults_to_main_py() {
    let config = config_with(AppKind::Python, "");
    let commands = build_commands(&config);
    assert_eq!(commands, vec![CommandSpec { program: "python3".to_string(), args: vec!["main.py".to_string()] }]);
}

#[test]
fn python_runs_configured_module() {
    let config = config_with(AppKind::Python, "-m flask run");
    let commands = build_commands(&config);
    assert_eq!(commands, vec![CommandSpec {
        program: "python3".to_string(),
        args: vec!["-m".to_string(), "flask".to_string(), "run".to_string()],
    }]);
}

#[test]
fn go_defaults_to_run_dot() {
    let config = config_with(AppKind::Go, "");
    let commands = build_commands(&config);
    assert_eq!(commands, vec![CommandSpec {
        program: "go".to_string(),
        args: vec!["run".to_string(), ".".to_string()],
    }]);
}

#[test]
fn go_runs_configured_target() {
    let config = config_with(AppKind::Go, "./cmd/server");
    let commands = build_commands(&config);
    assert_eq!(commands, vec![CommandSpec {
        program: "go".to_string(),
        args: vec!["run".to_string(), "./cmd/server".to_string()],
    }]);
}

#[test]
fn raw_runs_via_shell() {
    let config = config_with(AppKind::Raw, "./run.sh --flag");
    let commands = build_commands(&config);
    assert_eq!(commands, vec![CommandSpec {
        program: "sh".to_string(),
        args: vec!["-c".to_string(), "./run.sh --flag".to_string()],
    }]);
}

#[test]
fn blank_commands_fall_back_and_words_split_on_unicode_white_space() {
    let config = config_with(AppKind::Python, " \t\n ");
    assert_eq!(build_commands(&config)[0].args, vec!["main.py".to_string()]);
    let config = config_with(AppKind::Npm, "  run\u{00A0}dev\u{3000} ");
    assert_eq!(build_commands(&config)[0].args, vec!["run".to_string(), "dev".to_string()]);
    let config = config_with(AppKind::Npm, "   ");
    assert!(build_commands(&config)[0].args.is_empty());
}

#[test]
fn resolve_status_stopped_on_clean_exit() {
    let status = resolve_final_status(&Ok(0), false);
    assert_eq!(status, AppStatus::Stopped);
}

#[test]
fn resolve_status_stopped_when_stop_was_requested_even_with_nonzero_exit() {
    let status = resolve_final_status(&Ok(15), true);
    assert_eq!(status, AppStatus::Stopped);
}

#[test]
fn resolve_status_failed_on_nonzero_exit_without_stop_request() {
    let status = resolve_final_status(&Ok(1), false);
    assert_eq!(status, AppStatus::Failed("exit code 1".to_string()));
}

#[test]
fn resolve_status_failed_on_spawn_error() {
    let err = std::io::Error::new(std::io::ErrorKind::NotFound, "no such file");
    let status = resolve_final_status(&Err(err), false);
    assert!(matches!(status, AppStatus::Failed(msg) if msg.contains("no such file")));
}

#[test]
fn process_error_message_is_the_prefix_then_the_error_text() {
    let err = std::io::Error::new(std::io::ErrorKind::NotFound, "no such file");
    let expected = format!("process error: {}", err);
    assert_eq!(resolve_final_status(&Err(err), true), AppStatus::Failed(expected));
}

#[test]
fn resolve_status_renders_negative_and_extreme_exit_codes() {
    assert_eq!(resolve_final_status(&Ok(-1), false), AppStatus::Failed("exit code -1".to_string()));
    assert_eq!(resolve_final_status(&Ok(i32::MIN), false), AppStatus::Failed("exit code -2147483648".to_string()));
    assert_eq!(resolve_final_status(&Ok(1234567890), false), AppStatus::Failed("exit code 1234567890".to_string()));
    let err = std::io::Error::new(std::io::ErrorKind::Other, "boom");
    assert_eq!(resolve_final_status(&Err(err), false), AppStatus::Failed("process error: boom".to_string()));
}

#[test]
fn crash_detected_on_nonzero_exit_without_stop() {
    assert!(is_crash(&Ok(1), false));
}

#[test]
fn crash_not_detected_on_clean_exit() {
    assert!(!is_crash(&Ok(0), false));
}

#[test]
fn crash_not_detected_when_stop_was_requested() {
    assert!(!is_crash(&Ok(1), true));
}

#[test]
fn a_process_error_is_a_crash_unless_stopped() {
    let err = || Err(std::io::Error::new(std::io::ErrorKind::Other, "x"));
    assert!(is_crash(&err(), false));
    assert!(!is_crash(&err(), true));
}

#[test]
fn shell_quote_wraps_and_escapes_single_quotes() {
    assert_eq!(shell_quote("plain"), "'plain'");
    assert_eq!(shell_quote(""), "''");
    assert_eq!(shell_quote("it's"), "'it'\\''s'");
    assert_eq!(shell_quote("a b$c"), "'a b$c'");
}

#[test]
fn command_lines_and_echo() {
    let spec = CommandSpec { program: "npm".to_string(), args: vec!["run".to_string(), "it's".to_string()] };
    assert_eq!(shell_command_line(&spec), "'npm' 'run' 'it'\\''s'");
    assert_eq!(plain_command_line(&spec), "npm run it's");
    assert_eq!(command_echo(&spec), "[devtool] $ npm run it's");
    let bare = CommandSpec { program: "go".to_string(), args: vec![] };
    assert_eq!(command_echo(&bare), "[devtool] $ go ");
    assert_eq!(shell_command_line(&bare), "'go'");
}

fn is_finish(step: &RunStep, expected: &AppStatus) -> bool {
    matches!(step, RunStep::Finish { status } if status == expected)
}

#[test]
fn supervision_steps_for_cargo() {
    assert!(matches!(first_step(AppKind::Cargo), RunStep::Launch { command: 0, status: AppStatus::Building }));
    // A successful build goes on to the run.
    assert!(matches!(
        after_command(AppKind::Cargo, true, 0, &Ok(0), false),
        RunStep::Launch { command: 1, status: AppStatus::Running }
    ));
    // A failed build ends the supervision, even with automatic restart.
    assert!(is_finish(&after_command(AppKind::Cargo, true, 0, &Ok(101), false), &AppStatus::Failed("exit code 101".to_string())));
    // A build interrupted by a stop ends stopped.
    assert!(is_finish(&after_command(AppKind::Cargo, true, 0, &Ok(0), true), &AppStatus::Stopped));
    // A crash of the run restarts it.
    assert!(matches!(after_command(AppKind::Cargo, true, 1, &Ok(1), false), RunStep::RestartAfterDelay { command: 1 }));
}

#[test]
fn supervision_steps_for_other_kinds() {
    assert!(matches!(first_step(AppKind::Npm), RunStep::Launch { command: 0, status: AppStatus::Running }));
    assert!(matches!(after_command(AppKind::Npm, true, 0, &Ok(2), false), RunStep::RestartAfterDelay { command: 0 }));
    assert!(is_finish(&after_command(AppKind::Npm, false, 0, &Ok(2), false), &AppStatus::Failed("exit code 2".to_string())));
    assert!(is_finish(&after_command(AppKind::Npm, true, 0, &Ok(2), true), &AppStatus::Stopped));
    assert!(is_finish(&after_command(AppKind::Npm, true, 0, &Ok(0), false), &AppStatus::Stopped));
    assert!(is_finish(&after_restart_delay(0, true), &AppStatus::Stopped));
    assert!(matches!(after_restart_delay(0, false), RunStep::Launch { command: 0, status: AppStatus::Running }));
}
