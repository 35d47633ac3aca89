use std::cell::RefCell;

use game_mon::logger::{escape_single_quotes, syslog_priority, LogLevel, Logger};
use game_mon::runner::run_commands;
use game_mon::util::CustomIcon;

#[test]
fn failing_command_does_not_stop_the_batch() {
    // start_commands = ["false", "echo hello"]: the failure of "false" must
    // not keep "echo hello" from being executed
    let commands = vec!["false".to_string(), "echo hello".to_string()];
    let executed: RefCell<Vec<String>> = RefCell::new(Vec::new());
    let executor = |cmd: &String| {
        executed.borrow_mut().push(cmd.clone());
        cmd.as_str() != "false"
    };
    let (report, outcomes) = run_commands(&commands, &executor);
    assert_eq!(executed.borrow().clone(), vec!["false".to_string(), "echo hello".to_string()]);
    assert_eq!(outcomes, vec![false, true]);
    assert_eq!(report.attempted, 2);
    assert_eq!(report.failures, 1);
    assert!(!report.ok());
}

#[test]
fn commands_run_in_order_regardless_of_outcomes() {
    let commands: Vec<String> = (0..5).map(|i| format!("cmd{}", i)).collect();
    let executed: RefCell<Vec<String>> = RefCell::new(Vec::new());
    let executor = |cmd: &String| {
        executed.borrow_mut().push(cmd.clone());
        false // every command fails; all must still be attempted
    };
    let (report, outcomes) = run_commands(&commands, &executor);
    assert_eq!(executed.borrow().clone(), commands);
    assert_eq!(outcomes, vec![false; 5]);
    assert_eq!(report.attempted, 5);
    assert_eq!(report.failures, 5);
}

#[test]
fn blank_commands_fail_without_executing() {
    let commands = vec!["".to_string(), "  \t".to_string(), "echo ok".to_string()];
    let calls: RefCell<usize> = RefCell::new(0);
    let executor = |_cmd: &String| {
        *calls.borrow_mut() += 1;
        true
    };
    let (report, outcomes) = run_commands(&commands, &executor);
    assert_eq!(*calls.borrow(), 1); // only "echo ok" reached the executor
    assert_eq!(outcomes, vec![false, false, true]);
    assert_eq!(report.failures, 2);
}

#[test]
fn empty_batch_is_clean() {
    let commands: Vec<String> = Vec::new();
    let executor = |_cmd: &String| true;
    let (report, outcomes) = run_commands(&commands, &executor);
    assert_eq!(report.attempted, 0);
    assert_eq!(report.failures, 0);
    assert!(outcomes.is_empty());
    assert!(report.ok());
}

#[test]
fn logger_levels() {
    let logger = Logger::init();
    assert_eq!(logger.tag(), "GameMon");
    assert!(logger.enabled(LogLevel::Error));
    assert!(logger.enabled(LogLevel::Warn));
    assert!(logger.enabled(LogLevel::Info));
    assert!(!logger.enabled(LogLevel::Debug));
    assert!(!logger.enabled(LogLevel::Trace));
}

#[test]
fn logger_priorities() {
    assert_eq!(syslog_priority(LogLevel::Error), "err");
    assert_eq!(syslog_priority(LogLevel::Warn), "warning");
    assert_eq!(syslog_priority(LogLevel::Info), "info");
    assert_eq!(syslog_priority(LogLevel::Debug), "debug");
    assert_eq!(syslog_priority(LogLevel::Trace), "debug");
}

#[test]
fn escaping_single_quotes() {
    assert_eq!(escape_single_quotes("no quotes"), "no quotes");
    assert_eq!(escape_single_quotes("it's"), "it'\\''s");
    assert_eq!(escape_single_quotes("''"), "'\\'''\\''");
    assert_eq!(escape_single_quotes(""), "");
}

#[test]
fn logger_shell_command() {
    let logger = Logger::init_with_target("mytag");
    let cmd = logger.shell_command(LogLevel::Error, "it's done");
    assert_eq!(cmd, "logger -p user.err -t mytag 'it'\\''s done'");
}

#[test]
fn custom_icon_keeps_path() {
    let icon = CustomIcon::new("/tmp/icon.png");
    assert_eq!(icon.path(), "/tmp/icon.png");
}
