use linux_system_monitor::proc_dir::{is_pid_folder_name, pid_folder_names, status_file_path};

#[test]
fn digit_names_are_pid_folders() {
    assert!(is_pid_folder_name("1234"));
    assert!(is_pid_folder_name("1"));
    assert!(!is_pid_folder_name("self"));
    assert!(!is_pid_folder_name("12a"));
    assert!(!is_pid_folder_name("-1"));
    assert!(is_pid_folder_name(""));
}

#[test]
fn folder_filter_keeps_pids_in_order() {
    let names: Vec<String> = ["1", "acpi", "42", "self", "7", "sys"].iter().map(|s| s.to_string()).collect();
    let pids = pid_folder_names(names);
    assert_eq!(pids, vec!["1".to_string(), "42".to_string(), "7".to_string()]);
}

#[test]
fn folder_filter_is_idempotent() {
    let names: Vec<String> = ["9", "x9", "10"].iter().map(|s| s.to_string()).collect();
    let once = pid_folder_names(names);
    let twice = pid_folder_names(once.clone());
    assert_eq!(once, twice);
    assert_eq!(once, vec!["9".to_string(), "10".to_string()]);
}

#[test]
fn status_path_is_under_proc() {
    assert_eq!(status_file_path("1234"), "/proc/1234/status");
    assert_eq!(status_file_path(""), "/proc//status");
}
