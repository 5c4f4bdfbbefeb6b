use raft::storage::{LogEntries, LogEntry, LogsInformation};

fn entry(index: u64, term: u64, command: &str) -> LogEntry {
    LogEntry::new(index, term, command.as_bytes().to_vec())
}

#[test]
fn test_previous_log_entry_is_up_to_date_correct() {
    let entries = LogEntries::new(vec![entry(0, 1, "command1"), entry(1, 1, "command2")]);

    let is_up_to_date = entries.previous_log_entry_is_up_to_date(1, 1);
    assert!(is_up_to_date);
}

#[test]
fn test_previous_log_entry_is_up_to_date_no_index() {
    let entries = LogEntries::default();

    let is_up_to_date = entries.previous_log_entry_is_up_to_date(1, 1);
    assert!(!is_up_to_date);
}

#[test]
fn test_previous_log_entry_is_up_to_date_no_term_matching() {
    let entries = LogEntries::new(vec![entry(0, 1, "command1"), entry(1, 1, "command2")]);

    let is_up_to_date = entries.previous_log_entry_is_up_to_date(1, 2);
    assert!(!is_up_to_date);
}

#[test]
fn test_previous_log_entry_is_up_to_date_test_0_empty() {
    let entries = LogEntries::default();

    let is_up_to_date = entries.previous_log_entry_is_up_to_date(0, 1);
    assert!(is_up_to_date);
}

#[test]
fn test_previous_log_entry_is_up_to_date_test_0() {
    let entries = LogEntries::new(vec![entry(0, 1, "command1")]);

    let is_up_to_date = entries.previous_log_entry_is_up_to_date(0, 1);
    assert!(is_up_to_date);
}

#[test]
fn test_previous_log_entry_is_up_to_date_empty_entries() {
    let entries = LogEntries::default();

    let is_up_to_date = entries.previous_log_entry_is_up_to_date(0, 1);
    assert!(is_up_to_date);
}

#[test]
fn test_merge_add_new() {
    let mut entries = LogEntries::new(vec![entry(0, 1, "command1"), entry(1, 1, "command2")]);

    let new_entries = vec![entry(2, 2, "command3")];

    entries.merge(new_entries);

    assert_eq!(entries.len(), 3);
    assert_eq!(entries[0].index(), 0);
    assert_eq!(entries[0].term(), 1);
    assert_eq!(entries[0].command(), "command1".as_bytes());
    assert_eq!(entries[1].index(), 1);
    assert_eq!(entries[1].term(), 1);
    assert_eq!(entries[1].command(), "command2".as_bytes());
    assert_eq!(entries[2].index(), 2);
    assert_eq!(entries[2].term(), 2);
    assert_eq!(entries[2].command(), "command3".as_bytes());
}

#[test]
fn test_merge_ignore_entry() {
    let mut entries = LogEntries::new(vec![entry(0, 1, "command1"), entry(1, 1, "command2")]);

    let new_entries = vec![entry(1, 1, "command2")];

    entries.merge(new_entries);

    assert_eq!(entries.len(), 2);
    assert_eq!(entries[0].index(), 0);
    assert_eq!(entries[0].term(), 1);
    assert_eq!(entries[0].command(), "command1".as_bytes());
    assert_eq!(entries[1].index(), 1);
    assert_eq!(entries[1].term(), 1);
    assert_eq!(entries[1].command(), "command2".as_bytes());
}

#[test]
fn test_merge_change_incorrect_entries() {
    let mut entries = LogEntries::new(vec![
        entry(0, 1, "command1"),
        entry(1, 1, "command2"),
        entry(2, 1, "command3"),
    ]);

    let new_entries = vec![entry(0, 2, "newcommand1"), entry(1, 2, "newcommand2")];

    entries.merge(new_entries);

    assert_eq!(entries.len(), 2);
    assert_eq!(entries[0].index(), 0);
    assert_eq!(entries[0].term(), 2);
    assert_eq!(entries[0].command(), "newcommand1".as_bytes());
    assert_eq!(entries[1].index(), 1);
    assert_eq!(entries[1].term(), 2);
    assert_eq!(entries[1].command(), "newcommand2".as_bytes());
}

#[test]
fn merge_returns_last_entry_information() {
    let mut entries = LogEntries::new(vec![entry(0, 1, "a")]);
    let info = entries.merge(vec![entry(1, 3, "b"), entry(2, 3, "c")]);
    assert_eq!(info.last_log_index(), 2);
    assert_eq!(info.last_log_term(), 3);
}

#[test]
fn merge_keeps_command_of_entry_already_present() {
    let mut entries = LogEntries::new(vec![entry(0, 1, "kept")]);
    entries.merge(vec![entry(0, 1, "other")]);
    assert_eq!(entries.len(), 1);
    assert_eq!(entries[0].command(), "kept".as_bytes());
}

#[test]
fn merge_twice_gives_the_same_log() {
    let mut once = LogEntries::new(vec![entry(0, 1, "a"), entry(1, 1, "b"), entry(2, 1, "c")]);
    once.merge(vec![entry(1, 2, "x"), entry(2, 2, "y")]);
    let mut twice = LogEntries::new(vec![entry(0, 1, "a"), entry(1, 1, "b"), entry(2, 1, "c")]);
    twice.merge(vec![entry(1, 2, "x"), entry(2, 2, "y")]);
    twice.merge(vec![entry(1, 2, "x"), entry(2, 2, "y")]);
    assert_eq!(once.len(), twice.len());
    for i in 0..once.len() {
        assert_eq!(once[i].index(), twice[i].index());
        assert_eq!(once[i].term(), twice[i].term());
        assert_eq!(once[i].command(), twice[i].command());
    }
    assert_eq!(once.len(), 3);
    assert_eq!(once[1].term(), 2);
}

#[test]
fn last_log_info_of_empty_and_non_empty_logs() {
    let empty = LogEntries::default();
    let info = empty.last_log_info();
    assert_eq!((info.last_log_index(), info.last_log_term()), (0, 0));
    let log = LogEntries::new(vec![entry(0, 1, "a"), entry(1, 4, "b")]);
    let info = log.last_log_info();
    assert_eq!((info.last_log_index(), info.last_log_term()), (1, 4));
    let default = LogsInformation::default();
    assert_eq!((default.last_log_index(), default.last_log_term()), (0, 0));
}

#[test]
fn new_entry_takes_the_next_index() {
    let mut log = LogEntries::default();
    log.new_entry(1, b"command1".to_vec());
    log.new_entry(1, b"command2".to_vec());
    assert_eq!(log[0].index(), 0);
    assert_eq!(log[0].term(), 1);
    assert_eq!(log[0].command(), b"command1");
    assert_eq!(log[1].index(), 1);
    assert_eq!(log[1].command(), b"command2");
}

#[test]
fn last_entries_returns_the_tail_or_nothing() {
    let log = LogEntries::new(vec![entry(0, 1, "a"), entry(1, 1, "b"), entry(2, 2, "c")]);
    let tail = log.last_entries::<2>();
    assert_eq!(tail.len(), 2);
    assert_eq!(tail[0].index(), 1);
    assert_eq!(tail[1].index(), 2);
    assert_eq!(tail[1].command(), b"c");
    assert!(log.last_entries::<4>().is_empty());
    assert!(log.last_entries::<0>().is_empty());
}

#[test]
fn entries_equal_by_index_and_term() {
    assert!(entry(1, 2, "a") == entry(1, 2, "b"));
    assert!(entry(1, 2, "a") != entry(1, 3, "a"));
    assert!(entry(1, 2, "a") < entry(2, 1, "a"));
}
