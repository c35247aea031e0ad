use vibecheat::speedhack::{
    acts_for_other_user, build_path, compiler_args, install_targets, owner_uid, source_path, speed_pipe,
    speed_pipe_choice, speed_pipe_in_ns, steam_launch_options,
};

#[test]
fn owner_of_the_speed_library() {
    assert_eq!(owner_uid(0, Some("1000")), 1000);
    assert_eq!(owner_uid(0, None), 0);
    assert_eq!(owner_uid(0, Some("x")), 0);
    assert_eq!(owner_uid(1000, Some("5")), 1000);
    assert!(acts_for_other_user(0, 1000));
    assert!(!acts_for_other_user(0, 0));
    assert!(!acts_for_other_user(1000, 1000));
}

#[test]
fn speed_pipe_paths() {
    assert_eq!(speed_pipe(1234), "/tmp/vibecheat_speed_1234");
    assert_eq!(speed_pipe_in_ns(1234, 7), "/proc/1234/root/tmp/vibecheat_speed_7");
    assert_eq!(speed_pipe_choice(0, true, None, true), None);
    assert_eq!(speed_pipe_choice(12, true, Some(3), true), Some("/tmp/vibecheat_speed_12".to_string()));
    assert_eq!(speed_pipe_choice(12, false, Some(3), true), Some("/proc/12/root/tmp/vibecheat_speed_3".to_string()));
    assert_eq!(speed_pipe_choice(12, false, Some(3), false), None);
    assert_eq!(speed_pipe_choice(12, false, None, true), None);
}

#[test]
fn steam_options_preload_both_builds() {
    assert_eq!(
        steam_launch_options(1000),
        "LD_PRELOAD=/tmp/libvibecheat_speedhack_1000.so:/tmp/libvibecheat_speedhack_1000_32.so %command%"
    );
}

#[test]
fn build_and_install_paths() {
    assert_eq!(source_path(1000), "/tmp/vibecheat_speedhack_1000.c");
    assert_eq!(build_path(0, false), "/tmp/vibecheat_temp_64_0.so");
    assert_eq!(build_path(7, true), "/tmp/vibecheat_temp_32_7.so");
    assert_eq!(install_targets(1000, false, false, true), vec!["/tmp/libvibecheat_speedhack_1000.so".to_string()]);
    assert_eq!(
        install_targets(1000, true, false, false),
        vec!["/tmp/libvibecheat_speedhack_1000.so".to_string(), "/usr/lib/libvibecheat_speedhack.so".to_string()]
    );
    assert_eq!(install_targets(1000, true, true, false), vec!["/tmp/libvibecheat_speedhack_1000_32.so".to_string()]);
    assert_eq!(
        install_targets(0, true, true, true),
        vec!["/tmp/libvibecheat_speedhack_0_32.so".to_string(), "/usr/lib32/libvibecheat_speedhack.so".to_string()]
    );
    assert_eq!(
        compiler_args("o.so", "s.c", true),
        vec!["-m32", "-shared", "-fPIC", "-o", "o.so", "s.c", "-lpthread", "-ldl"]
    );
    assert_eq!(compiler_args("o.so", "s.c", false).len(), 7);
}
