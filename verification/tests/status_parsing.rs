use linux_system_monitor::status::{
    process_data_definer, AttributeAndValue, AttributeType, ProcessStatus, StatusError,
};

const BASH_STATUS: &str = "Name:\tbash\nUmask:\t0022\nState:\tS (sleeping)\nTgid:\t1234\nNgid:\t0\nPid:\t1234\nPPid:\t1\nTracerPid:\t0\nUid:\t1000\t1000\t1000\t1000\nVmPeak:\t    8000 kB\nVmRSS:\t    5120 kB\nThreads:\t1\nvoluntary_ctxt_switches:\t42\n";

fn parse(text: &str) -> ProcessStatus {
    match process_data_definer(text) {
        Ok(p) => p,
        Err(e) => panic!("unexpected error {:?}", e),
    }
}

#[test]
fn parses_a_typical_status_file() {
    let p = parse(BASH_STATUS);
    assert_eq!(p.pid, 1234);
    assert_eq!(p.ppid, 1);
    assert_eq!(p.process_name, "bash");
    assert_eq!(p.state, "S");
    assert_eq!(p.threads_used, 1);
    assert_eq!(p.ram_usage_kb, "5120");
}

#[test]
fn missing_vmrss_gives_zero_memory() {
    let p = parse("Name:\tkthreadd\nState:\tS (sleeping)\nPid:\t2\nPPid:\t0\nThreads:\t1\n");
    assert_eq!(p.ram_usage_kb, "0");
    assert_eq!(p.ppid, 0);
}

#[test]
fn vmrss_without_digits_gives_zero_memory() {
    let p = parse("Name:\tx\nState:\tR\nPid:\t7\nPPid:\t1\nThreads:\t3\nVmRSS:\t kB\n");
    assert_eq!(p.ram_usage_kb, "0");
    assert_eq!(p.threads_used, 3);
}

#[test]
fn missing_name_is_an_error() {
    let r = process_data_definer("State:\tS\nPid:\t5\nPPid:\t1\nThreads:\t1\n");
    assert_eq!(r.err(), Some(StatusError::MissingRequiredField));
}

#[test]
fn missing_threads_is_an_error() {
    let r = process_data_definer("Name:\ta\nState:\tS\nPid:\t5\nPPid:\t1\n");
    assert_eq!(r.err(), Some(StatusError::MissingRequiredField));
}

#[test]
fn unreadable_pid_is_an_error() {
    let r = process_data_definer("Name:\ta\nState:\tS\nPid:\tabc\nPPid:\t1\nThreads:\t1\n");
    assert_eq!(r.err(), Some(StatusError::MissingRequiredField));
}

#[test]
fn empty_text_is_an_error() {
    assert_eq!(process_data_definer("").err(), Some(StatusError::MissingRequiredField));
}

#[test]
fn pid_accepts_a_plus_sign_and_other_whitespace() {
    let p = parse("Name:\ta\nState:\tS\nPid:\t+42\u{a0}\nPPid:\t1\nThreads:\t1\n");
    assert_eq!(p.pid, 42);
}

#[test]
fn pid_too_large_is_an_error() {
    let r = process_data_definer("Name:\ta\nState:\tS\nPid:\t4294967296\nPPid:\t1\nThreads:\t1\n");
    assert_eq!(r.err(), Some(StatusError::MissingRequiredField));
}

#[test]
fn pid_at_the_limit_is_read() {
    let p = parse("Name:\ta\nState:\tS\nPid:\t4294967295\nPPid:\t1\nThreads:\t1\n");
    assert_eq!(p.pid, 4294967295);
}

#[test]
fn ppid_and_threads_keep_only_digits() {
    let p = parse("Name:\ta\nState:\tS\nPid:\t9\nPPid:\tx1y2\nThreads:\t 1 0 \n");
    assert_eq!(p.ppid, 12);
    assert_eq!(p.threads_used, 10);
}

#[test]
fn crlf_line_ends_are_dropped() {
    let p = parse("Name:\tbash\r\nState:\tS\r\nPid:\t3\r\nPPid:\t1\r\nThreads:\t2\r\n");
    assert_eq!(p.process_name, "bash");
    assert_eq!(p.pid, 3);
    assert_eq!(p.threads_used, 2);
}

#[test]
fn a_key_line_without_colon_gives_an_empty_value() {
    let p = parse("Name\nState:\tS\nPid:\t3\nPPid:\t1\nThreads:\t2\n");
    assert_eq!(p.process_name, "");
}

#[test]
fn tabs_in_keys_are_dropped_and_names_keep_their_text() {
    let p = parse("Na\tme:\ta:b c\nState:\tS\nPid:\t3\nPPid:\t1\nThreads:\t2\n");
    assert_eq!(p.process_name, "a:b c");
}

#[test]
fn names_keep_inner_spaces() {
    let p = parse("Name:\tWeb Content\nState:\tS\nPid:\t77\nPPid:\t1\nThreads:\t30\n");
    assert_eq!(p.process_name, "Web Content");
    assert_eq!(p.pid, 77);
    assert_eq!(p.threads_used, 30);
}

#[test]
fn state_is_the_state_code() {
    let p = parse("Name:\tbash\nState:\tS (sleeping)\nPid:\t1234\nPPid:\t1\nThreads:\t1\n");
    assert_eq!(p.state, "S");
    let q = parse("Name:\ta\nState:\t  R (running)  \nPid:\t2\nPPid:\t1\nThreads:\t1\n");
    assert_eq!(q.state, "R");
    let z = parse("Name:\ta\nState:\tZ\nPid:\t2\nPPid:\t1\nThreads:\t1\n");
    assert_eq!(z.state, "Z");
    let e = parse("Name:\ta\nState:\nPid:\t2\nPPid:\t1\nThreads:\t1\n");
    assert_eq!(e.state, "");
}

#[test]
fn last_line_without_newline_counts() {
    let p = parse("Name:\ta\nState:\tS\nPid:\t3\nPPid:\t1\nThreads:\t8");
    assert_eq!(p.threads_used, 8);
}

#[test]
fn unicode_whitespace_is_trimmed_from_name() {
    let p = parse("Name:\t\u{3000}zsh\u{2009}\nState:\tS\nPid:\t3\nPPid:\t1\nThreads:\t2\n");
    assert_eq!(p.process_name, "zsh");
}

#[test]
fn keys_are_case_sensitive() {
    let r = process_data_definer("name:\ta\nState:\tS\nPid:\t3\nPPid:\t1\nThreads:\t2\n");
    assert_eq!(r.err(), Some(StatusError::MissingRequiredField));
}

#[test]
fn an_unknown_line_changes_nothing() {
    let base = "Name:\ta\nState:\tS\nPid:\t3\nPPid:\t1\nThreads:\t2\n";
    let more = format!("{}Cpus_allowed:\tff\n", base);
    let a = parse(base);
    let b = parse(&more);
    assert_eq!(a.pid, b.pid);
    assert_eq!(a.process_name, b.process_name);
    assert_eq!(a.ram_usage_kb, b.ram_usage_kb);
    assert_eq!(a.threads_used, b.threads_used);
}

#[test]
fn lines_for_different_fields_commute() {
    let a = parse("Name:\ta\nState:\tS\nPid:\t3\nPPid:\t1\nThreads:\t2\nVmRSS:\t10 kB\n");
    let b = parse("Threads:\t2\nVmRSS:\t10 kB\nPPid:\t1\nPid:\t3\nState:\tS\nName:\ta\n");
    assert_eq!(a.pid, b.pid);
    assert_eq!(a.ppid, b.ppid);
    assert_eq!(a.process_name, b.process_name);
    assert_eq!(a.state, b.state);
    assert_eq!(a.threads_used, b.threads_used);
    assert_eq!(a.ram_usage_kb, b.ram_usage_kb);
}

#[test]
fn a_later_line_for_a_key_wins() {
    let p = parse("Name:\ta\nState:\tS\nPid:\t3\nPPid:\t1\nThreads:\t2\nName:\tb\nVmRSS:\t7 kB\nVmRSS:\tnone\n");
    assert_eq!(p.process_name, "b");
    assert_eq!(p.ram_usage_kb, "0");
    let r = process_data_definer("Name:\ta\nState:\tS\nPid:\t3\nPid:\tx\nPPid:\t1\nThreads:\t2\n");
    assert_eq!(r.err(), Some(StatusError::MissingRequiredField));
}

#[test]
fn attribute_and_value_keeps_its_parts() {
    let a = AttributeAndValue::new(AttributeType::Threads, String::from("Threads"));
    assert_eq!(a.att_type, AttributeType::Threads);
    assert_eq!(a.att_name, "Threads");
}

#[test]
fn crlf_file_reads_like_lf_file() {
    let lf = BASH_STATUS;
    let crlf = lf.replace('\n', "\r\n");
    let a = parse(lf);
    let b = parse(&crlf);
    assert_eq!(a.pid, b.pid);
    assert_eq!(a.ppid, b.ppid);
    assert_eq!(a.process_name, b.process_name);
    assert_eq!(a.state, b.state);
    assert_eq!(a.threads_used, b.threads_used);
    assert_eq!(a.ram_usage_kb, b.ram_usage_kb);
}

#[test]
fn unknown_lines_anywhere_change_nothing() {
    let base = "Name:\ta\nState:\tS\nPid:\t3\nPPid:\t1\nThreads:\t2\nVmRSS:\t9 kB\n";
    let padded = "TracerPid:\t0\nName:\ta\nState:\tS\nNSpid:\t5\nPid:\t3\nPPid:\t1\nRssAnon:\t12 kB\nThreads:\t2\nVmRSS:\t9 kB\nUmask:\t0022";
    let a = parse(base);
    let b = parse(padded);
    assert_eq!(a.pid, b.pid);
    assert_eq!(a.ppid, b.ppid);
    assert_eq!(a.process_name, b.process_name);
    assert_eq!(a.state, b.state);
    assert_eq!(a.threads_used, b.threads_used);
    assert_eq!(a.ram_usage_kb, b.ram_usage_kb);
    let missing = "TracerPid:\t0\nName:\ta\nState:\tS\nPid:\t3\n";
    assert_eq!(process_data_definer(missing).err(), Some(StatusError::MissingRequiredField));
}

#[test]
fn unknown_line_after_an_unterminated_last_line_changes_nothing() {
    let base = "Name:\ta\nState:\tS\nPid:\t3\nPPid:\t1\nThreads:\t2";
    let more = "Name:\ta\nState:\tS\nPid:\t3\nPPid:\t1\nThreads:\t2\nUmask:\t0022";
    let a = parse(base);
    let b = parse(more);
    assert_eq!(a.pid, b.pid);
    assert_eq!(a.ppid, b.ppid);
    assert_eq!(a.process_name, b.process_name);
    assert_eq!(a.state, b.state);
    assert_eq!(a.threads_used, b.threads_used);
    assert_eq!(a.ram_usage_kb, b.ram_usage_kb);
}
