use vibecheat::maps::parse_maps;
use vibecheat::procfs::{
    groups_from_status, is_windows_path, namespaced_pid_from_status, parse_group_list, split_cmdline, split_environ,
};
use vibecheat::scanner::MemoryRegion;

#[test]
fn command_line_arguments() {
    assert_eq!(split_cmdline(b"game\0-x\0\0y\0"), vec!["game", "-x", "y"]);
    assert_eq!(split_cmdline(b"a\0\xff\0b"), vec!["a", "b"]);
    assert_eq!(split_cmdline(b""), Vec::<String>::new());
    assert_eq!(split_cmdline("h\u{e9}llo".as_bytes()), vec!["h\u{e9}llo"]);
}

#[test]
fn environment_entries() {
    assert_eq!(
        split_environ(b"A=1\0NOEQ\0B=x=y\0\0C=\0"),
        vec![
            ("A".to_string(), "1".to_string()),
            ("B".to_string(), "x=y".to_string()),
            ("C".to_string(), String::new())
        ]
    );
    assert_eq!(split_environ(b"=v"), vec![(String::new(), "v".to_string())]);
}

#[test]
fn windows_paths() {
    assert!(is_windows_path("C:\\Games\\x.exe"));
    assert!(is_windows_path("a\\b"));
    assert!(!is_windows_path("/usr/bin/game"));
    assert!(!is_windows_path("C:/x"));
}

#[test]
fn namespaced_pid() {
    assert_eq!(namespaced_pid_from_status("Name:\tx\nNSpid:\t1234\t7\nPid:\t1234\n"), Some(7));
    assert_eq!(namespaced_pid_from_status("NSpid:\t1234\n"), Some(1234));
    assert_eq!(namespaced_pid_from_status("NSpid:\nNSpid:\t9\n"), Some(9));
    assert_eq!(namespaced_pid_from_status("Name:\tx\n"), None);
}

#[test]
fn supplementary_groups() {
    assert_eq!(groups_from_status("Name:\tx\nGroups:\t4 24 27 \nGroups:\t1\n"), vec![4, 24, 27]);
    assert_eq!(groups_from_status("Groups:\n"), Vec::<u32>::new());
    assert_eq!(groups_from_status("Name:\tx\n"), Vec::<u32>::new());
    assert_eq!(parse_group_list("1000 10 x 20\n"), vec![1000, 10, 20]);
    assert_eq!(parse_group_list("4294967296 5"), vec![5]);
}

#[test]
fn scannable_regions() {
    let maps = "\
55e0a0000000-55e0a0001000 r--p 00000000 08:01 123 /usr/bin/game
55e0a0200000-55e0a0210000 rw-p 00000000 08:01 123 /usr/bin/game
7ffd0000-7ffd1000 rw-p 00000000 00:00 0 [stack]
7fff0000-7fff2000 rw-p 00000000 00:00 0 [vvar]
7e000000-7e001000 rw-s 00000000 00:00 0 /dev/shm/x
zz-10 rw-p 0 0 0
7f00-7f80 rw-p 00000000 00:00 0
bad
";
    assert_eq!(
        parse_maps(maps),
        vec![
            MemoryRegion { start: 0x55e0a0200000, end: 0x55e0a0210000 },
            MemoryRegion { start: 0x7ffd0000, end: 0x7ffd1000 },
            MemoryRegion { start: 0, end: 0x10 },
            MemoryRegion { start: 0x7f00, end: 0x7f80 },
        ]
    );
}
