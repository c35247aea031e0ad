use vibecheat::processes::{
    attach_timeout_message, filter_processes, find_by_comm, pid_of_entry, poll_attach, process_info, sort_processes,
    AttachPoll, ProcessInfo,
};

fn procs(v: &[(&str, i32)]) -> Vec<ProcessInfo> {
    v.iter().map(|(c, p)| ProcessInfo { pid: *p, comm: c.to_string() }).collect()
}

fn pids(v: &[ProcessInfo]) -> Vec<i32> {
    v.iter().map(|p| p.pid).collect()
}

#[test]
fn proc_entries_that_are_processes() {
    assert_eq!(pid_of_entry("123"), Some(123));
    assert_eq!(pid_of_entry("+5"), Some(5));
    assert_eq!(pid_of_entry("self"), None);
    assert_eq!(pid_of_entry("99999999999"), None);
    assert_eq!(pid_of_entry(""), None);
}

#[test]
fn process_name_is_trimmed() {
    let p = process_info(5, "bash\n");
    assert_eq!(p.pid, 5);
    assert_eq!(p.comm, "bash");
}

#[test]
fn processes_sorted_by_lower_case_name_stably() {
    let list = procs(&[("b", 1), ("A", 2), ("a", 3), ("C", 4), ("A", 5)]);
    let sorted = sort_processes(&list);
    assert_eq!(pids(&sorted), vec![2, 3, 5, 1, 4]);
    assert_eq!(sorted[0].comm, "A");
    assert!(sort_processes(&Vec::new()).is_empty());
}

#[test]
fn search_matches_name_or_id() {
    let list = procs(&[("Firefox", 120), ("bash", 7), ("steam", 31), ("kworker", 2)]);
    assert_eq!(filter_processes(&list, "FIRE"), vec![0]);
    assert_eq!(filter_processes(&list, "a"), vec![1, 2]);
    assert_eq!(filter_processes(&list, "2"), vec![0, 3]);
    assert_eq!(filter_processes(&list, ""), vec![0, 1, 2, 3]);
    assert_eq!(filter_processes(&list, "zz"), Vec::<usize>::new());
}

#[test]
fn first_process_with_name() {
    let list = procs(&[("a", 1), ("game.exe", 2), ("game.exe", 3)]);
    assert_eq!(find_by_comm(&list, "game.exe"), Some(2));
    assert_eq!(find_by_comm(&list, "Game.exe"), None);
}

#[test]
fn polling_for_a_starting_game() {
    let list = procs(&[("a", 1), ("game.exe", 2)]);
    assert_eq!(poll_attach(31, &list, "game.exe"), AttachPoll::TimedOut);
    assert_eq!(poll_attach(30, &list, "game.exe"), AttachPoll::Attach(2));
    assert_eq!(poll_attach(0, &list, "other"), AttachPoll::Waiting);
    assert_eq!(attach_timeout_message(), "Timed out waiting for Steam game to start.");
}
