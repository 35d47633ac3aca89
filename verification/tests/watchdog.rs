use game_mon::config::{Config, Entry};
use game_mon::monitor::{CycleAction, MonitorPhase, MonitorState, MonitorTable, MonitorTask, poll_cycle};

fn entry(name: &str, exe: &str, start: &[&str], end: &[&str]) -> Entry {
    Entry {
        game_name: name.to_string(),
        executable: exe.to_string(),
        start_commands: start.iter().map(|s| s.to_string()).collect(),
        end_commands: end.iter().map(|s| s.to_string()).collect(),
    }
}

#[test]
fn scenario_detect_then_stop() {
    // one entry; the process appears, then disappears
    let entries = vec![entry("Game", "game.bin", &["echo start"], &["echo end"])];
    let mut table = MonitorTable::new();
    let exe = "game.bin".to_string();

    // absent: nothing happens
    let actions = poll_cycle(&entries, Some("init 1\n"), &mut table);
    assert!(actions.is_empty());
    assert_eq!(table.state_of(&exe), None);

    // appears: one start action, entry is now monitored (armed)
    let actions = poll_cycle(&entries, Some("init 1\n./game.bin 7\n"), &mut table);
    assert_eq!(actions, vec![CycleAction::Start { entry: 0 }]);
    assert_eq!(table.state_of(&exe), Some(MonitorState::Armed));

    // disappears: one stop signal, the key stays until the monitor removes it
    let actions = poll_cycle(&entries, Some("init 1\n"), &mut table);
    assert_eq!(actions, vec![CycleAction::SignalStop { entry: 0 }]);
    assert_eq!(table.state_of(&exe), Some(MonitorState::Signaled));

    // the monitor finished its end commands and unregisters
    table.remove(&exe);
    assert_eq!(table.state_of(&exe), None);
}

#[test]
fn idempotent_polling() {
    // repeated cycles with unchanged presence fire nothing new
    let entries = vec![entry("Game", "game.bin", &[], &[])];
    let mut table = MonitorTable::new();
    let running = "./game.bin\n";

    let first = poll_cycle(&entries, Some(running), &mut table);
    assert_eq!(first.len(), 1);
    for _ in 0..3 {
        let again = poll_cycle(&entries, Some(running), &mut table);
        assert!(again.is_empty());
        assert_eq!(table.state_of(&"game.bin".to_string()), Some(MonitorState::Armed));
    }

    let gone = "init\n";
    let stop = poll_cycle(&entries, Some(gone), &mut table);
    assert_eq!(stop.len(), 1);
    for _ in 0..3 {
        let again = poll_cycle(&entries, Some(gone), &mut table);
        assert!(again.is_empty());
        assert_eq!(table.state_of(&"game.bin".to_string()), Some(MonitorState::Signaled));
    }
}

#[test]
fn redetection_after_episode() {
    let entries = vec![entry("Game", "game.bin", &[], &[])];
    let mut table = MonitorTable::new();
    let running = "./game.bin\n";

    let a1 = poll_cycle(&entries, Some(running), &mut table);
    assert_eq!(a1, vec![CycleAction::Start { entry: 0 }]);
    let a2 = poll_cycle(&entries, Some("idle\n"), &mut table);
    assert_eq!(a2, vec![CycleAction::SignalStop { entry: 0 }]);
    table.remove(&"game.bin".to_string());

    // a fresh appearance is detected as a new episode
    let a3 = poll_cycle(&entries, Some(running), &mut table);
    assert_eq!(a3, vec![CycleAction::Start { entry: 0 }]);
    assert_eq!(table.state_of(&"game.bin".to_string()), Some(MonitorState::Armed));
}

#[test]
fn shared_executable_single_monitor() {
    // two entries share an executable: only the first wins, only one monitor
    let entries = vec![
        entry("First", "shared.bin", &["echo first-start"], &["echo first-end"]),
        entry("Second", "shared.bin", &["echo second-start"], &["echo second-end"]),
    ];
    let mut table = MonitorTable::new();

    let actions = poll_cycle(&entries, Some("shared.bin\n"), &mut table);
    assert_eq!(actions, vec![CycleAction::Start { entry: 0 }]);
    assert_eq!(table.state_of(&"shared.bin".to_string()), Some(MonitorState::Armed));

    let actions = poll_cycle(&entries, Some("nothing\n"), &mut table);
    assert_eq!(actions, vec![CycleAction::SignalStop { entry: 0 }]);
}

#[test]
fn scan_failure_skips_cycle() {
    // a failed process-table refresh must not fire stop signals
    let entries = vec![entry("Game", "game.bin", &[], &[])];
    let mut table = MonitorTable::new();

    let a1 = poll_cycle(&entries, Some("./game.bin\n"), &mut table);
    assert_eq!(a1.len(), 1);

    // transient failure: reconciliation is skipped, the monitor stays armed
    let a2 = poll_cycle(&entries, None, &mut table);
    assert!(a2.is_empty());
    assert_eq!(table.state_of(&"game.bin".to_string()), Some(MonitorState::Armed));

    // next cycle resumes normally
    let a3 = poll_cycle(&entries, Some("idle\n"), &mut table);
    assert_eq!(a3, vec![CycleAction::SignalStop { entry: 0 }]);
}

#[test]
fn table_tracks_states() {
    let mut table = MonitorTable::new();
    let a = "a.bin".to_string();
    let b = "b.bin".to_string();
    assert!(!table.contains(&a));
    table.insert_armed(a.clone());
    assert!(table.contains(&a));
    assert!(!table.contains(&b));
    assert_eq!(table.state_of(&a), Some(MonitorState::Armed));
    table.mark_signaled(&a);
    assert_eq!(table.state_of(&a), Some(MonitorState::Signaled));
    // removing an absent key is a no-op
    table.remove(&b);
    assert_eq!(table.state_of(&a), Some(MonitorState::Signaled));
    table.remove(&a);
    assert!(!table.contains(&a));
}

#[test]
fn monitor_task_lifecycle() {
    let mut task = MonitorTask::new();
    assert_eq!(task.phase(), MonitorPhase::Starting);
    task.start_commands_done();
    assert_eq!(task.phase(), MonitorPhase::Waiting);
    task.stop_received();
    assert_eq!(task.phase(), MonitorPhase::Ending);
    task.end_commands_done();
    assert_eq!(task.phase(), MonitorPhase::Done);
}

#[test]
fn config_defaults_are_empty() {
    let e = Entry::default();
    assert!(e.game_name.is_empty());
    assert!(e.executable.is_empty());
    assert!(e.start_commands.is_empty());
    assert!(e.end_commands.is_empty());
    let c = Config::default();
    assert!(c.entries.is_empty());
}

#[test]
fn find_entry_by_name_takes_first() {
    let config = Config {
        entries: vec![
            entry("A", "a.bin", &[], &[]),
            entry("B", "b.bin", &[], &[]),
            entry("B", "b2.bin", &[], &[]),
        ],
    };
    assert_eq!(config.find_entry_by_name("A"), Some(0));
    assert_eq!(config.find_entry_by_name("B"), Some(1));
    assert_eq!(config.find_entry_by_name("C"), None);
}
