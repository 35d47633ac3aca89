use game_mon::scan::is_executable_running;
use game_mon::text::{contains_sub, is_blank};

#[test]
fn match_is_case_insensitive_substring() {
    let ps = "USER  PID  COMMAND\nroot  123  /opt/Games/Game.BIN --fullscreen\n";
    assert!(is_executable_running("game.bin", ps));
    assert!(is_executable_running("GAME.bin", ps));
    assert!(is_executable_running("Game", ps));
    assert!(!is_executable_running("other.bin", ps));
}

#[test]
fn grep_lines_are_ignored() {
    let ps = "user 10 grep game.bin\n";
    assert!(!is_executable_running("game.bin", ps));
    let ps2 = "user 10 grep game.bin\nuser 11 ./game.bin\n";
    assert!(is_executable_running("game.bin", ps2));
}

#[test]
fn match_does_not_cross_lines() {
    // the needle spans the newline, so no single line contains it
    let ps = "aaa\nbbb\n";
    assert!(!is_executable_running("a\nb", ps));
    assert!(!is_executable_running("aaabbb", ps));
}

#[test]
fn empty_output_has_no_match() {
    assert!(!is_executable_running("game.bin", ""));
}

#[test]
fn empty_needle_matches_any_grepless_line() {
    assert!(is_executable_running("", "anything\n"));
    // every line mentions grep, so even the empty needle finds no line;
    // the trailing segment after the last newline is empty and matches
    assert!(is_executable_running("", "grep a\ngrep b\n"));
}

#[test]
fn contains_sub_basics() {
    let hay: Vec<char> = "hello world".chars().collect();
    let needle: Vec<char> = "lo wo".chars().collect();
    let missing: Vec<char> = "worlds".chars().collect();
    let empty: Vec<char> = Vec::new();
    assert!(contains_sub(&hay, &needle));
    assert!(!contains_sub(&hay, &missing));
    assert!(contains_sub(&hay, &empty));
    assert!(!contains_sub(&empty, &needle));
}

#[test]
fn blankness_is_ascii_whitespace_only() {
    assert!(is_blank(""));
    assert!(is_blank(" \t\r\n  "));
    assert!(!is_blank(" x "));
}
