use vibecheat::launcher::{
    after_spawn, attach_target, drop_privileges, file_name_of, final_args, guess_target_name, is_dropped_env, is_real_steam_game,
    is_wine_or_proton, kill_target, launch_target, normalize_envs, plan_launch, preload_env_value, preloads,
    proton_script_candidate, steam_app_id, steam_run_url, strip_host_prefix, target_comm, target_ids,
    to_host_path, user_env, LaunchPlan, PreloadFiles,
};

fn strings(v: &[&str]) -> Vec<String> {
    v.iter().map(|s| s.to_string()).collect()
}

fn envs(v: &[(&str, &str)]) -> Vec<(String, String)> {
    v.iter().map(|(k, x)| (k.to_string(), x.to_string())).collect()
}

#[test]
fn host_prefix_is_taken_off() {
    assert_eq!(strip_host_prefix("/run/host/usr/bin/game"), "/usr/bin/game");
    assert_eq!(strip_host_prefix("/usr/bin/game"), "/usr/bin/game");
    assert_eq!(strip_host_prefix("/run/hostile/x"), "/run/hostile/x");
    assert_eq!(strip_host_prefix("/run/host"), "/run/host");
}

#[test]
fn launch_target_native_program() {
    let t = launch_target("/usr/bin/game", &strings(&["game", "-w", "--fast"]));
    assert_eq!(t.exe_path, "/usr/bin/game");
    assert_eq!(t.args_list, strings(&["-w", "--fast"]));
    assert_eq!(t.args, "-w --fast");
}

#[test]
fn launch_target_falls_back_on_first_argument() {
    let t = launch_target("", &strings(&["/opt/game/run", "a", "b"]));
    assert_eq!(t.exe_path, "/opt/game/run");
    assert_eq!(t.args_list, strings(&["a", "b"]));
    assert_eq!(t.args, "a b");
}

#[test]
fn launch_target_windows_program_keeps_whole_command_line() {
    let t = launch_target("/usr/bin/wine64", &strings(&["C:\\Games\\x.exe", "-x"]));
    assert_eq!(t.exe_path, "/usr/bin/wine64");
    assert_eq!(t.args_list, strings(&["C:\\Games\\x.exe", "-x"]));
    assert_eq!(t.args, "C:\\Games\\x.exe -x");
    let p = launch_target("/opt/proton/files/bin/wine-preloader", &strings(&["game.exe"]));
    assert_eq!(p.args_list, strings(&["game.exe"]));
}

#[test]
fn launch_target_without_command_line() {
    let t = launch_target("/x", &Vec::new());
    assert_eq!(t.exe_path, "/x");
    assert!(t.args_list.is_empty());
    assert_eq!(t.args, "");
}

#[test]
fn steam_app_id_from_environment_then_arguments() {
    let e = envs(&[("A", "1"), ("SteamAppId", "620"), ("STEAM_APP_ID", "7")]);
    assert_eq!(steam_app_id(&e, &strings(&["AppId=440"])), Some("620".to_string()));
    assert_eq!(steam_app_id(&envs(&[("STEAM_APP_ID", "7")]), &Vec::new()), Some("7".to_string()));
    assert_eq!(steam_app_id(&Vec::new(), &strings(&["x", "AppId=440", "AppId=1"])), Some("440".to_string()));
    assert_eq!(steam_app_id(&envs(&[("HOME", "/h")]), &strings(&["appid=3"])), None);
}

#[test]
fn real_steam_game_needs_small_id_and_steamapps() {
    let exe = "/home/u/.steam/steam/steamapps/common/Portal 2/portal2_linux";
    assert!(is_real_steam_game(&Some("620".to_string()), exe, &Vec::new()));
    assert!(is_real_steam_game(&Some("100000000".to_string()), exe, &Vec::new()));
    assert!(!is_real_steam_game(&Some("100000001".to_string()), exe, &Vec::new()));
    assert!(!is_real_steam_game(&Some("3000000000".to_string()), exe, &Vec::new()));
    assert!(!is_real_steam_game(&Some("abc".to_string()), exe, &Vec::new()));
    assert!(!is_real_steam_game(&None, exe, &Vec::new()));
    assert!(!is_real_steam_game(&Some("620".to_string()), "/usr/bin/wine", &Vec::new()));
    assert!(is_real_steam_game(
        &Some("+620".to_string()),
        "/usr/bin/wine",
        &strings(&["x", "Z:\\steamapps/common/g.exe"])
    ));
}

#[test]
fn environment_is_cleaned_for_relaunch() {
    assert!(is_dropped_env("LD_PRELOAD"));
    assert!(is_dropped_env("GST_PLUGIN_PATH"));
    assert!(is_dropped_env("ORIG_PATH"));
    assert!(!is_dropped_env("HOME"));
    let e = envs(&[
        ("LD_PRELOAD", "x"),
        ("GST_PLUGIN", "y"),
        ("HOME", "/run/host/home/u"),
        ("PATH", "/usr/bin:/run/host/usr/local/bin"),
        ("container", "flatpak"),
        ("VK_ICD", "z"),
    ]);
    assert_eq!(
        normalize_envs(&e),
        envs(&[("HOME", "/home/u"), ("PATH", "/usr/bin:/usr/local/bin")])
    );
}

#[test]
fn host_paths_replace_every_occurrence() {
    assert_eq!(to_host_path("/run/host/a:/run/host/b"), "/a:/b");
    assert_eq!(to_host_path("/run/host/run/host/x"), "/run/host/x");
    assert_eq!(to_host_path("plain"), "plain");
}

#[test]
fn relaunch_arguments() {
    assert_eq!(final_args("a b", &strings(&["a", "b"]), false), strings(&["a", "b"]));
    assert_eq!(
        final_args("my file -v", &strings(&["my file", "-v"]), false),
        strings(&["my file", "-v"])
    );
    assert_eq!(
        final_args("  x   /run/host/y ", &strings(&["a"]), true),
        strings(&["run", "x", "/y"])
    );
    assert_eq!(final_args("", &Vec::new(), false), Vec::<String>::new());
}

#[test]
fn proton_script_is_found_beside_files() {
    assert_eq!(
        proton_script_candidate("/s/steamapps/common/Proton 8.0/files/bin/wine64"),
        Some("/s/steamapps/common/Proton 8.0/proton".to_string())
    );
    assert_eq!(
        proton_script_candidate("/p/files/bin/wine"),
        Some("/p/proton".to_string())
    );
    assert_eq!(proton_script_candidate("/usr/bin/wine"), None);
    assert_eq!(proton_script_candidate("/p/files/bin/wineserver/files/bin/x"), Some("/p/proton".to_string()));
}

#[test]
fn wine_or_proton_detection() {
    assert!(is_wine_or_proton(false, "/usr/bin/wine"));
    assert!(is_wine_or_proton(false, "/opt/proton"));
    assert!(is_wine_or_proton(false, "mywine"));
    assert!(is_wine_or_proton(true, "/usr/bin/game"));
    assert!(!is_wine_or_proton(false, "/usr/bin/game"));
}

#[test]
fn plan_refuses_empty_path() {
    match plan_launch("   ", "", &Vec::new(), &Vec::new(), false) {
        Err(e) => assert_eq!(e, "Path cannot be empty."),
        Ok(p) => panic!("unexpected plan {:?}", p),
    }
}

#[test]
fn plan_goes_through_steam_for_store_games() {
    let e = envs(&[("SteamAppId", "620")]);
    let exe = "/h/.steam/steamapps/common/Portal 2/portal2";
    match plan_launch(exe, "", &Vec::new(), &e, false) {
        Ok(LaunchPlan::Steam { app_id }) => assert_eq!(app_id, "620"),
        other => panic!("unexpected plan {:?}", other),
    }
}

#[test]
fn plan_launches_proton_script_with_run() {
    let exe = " /p/files/bin/wine64 ";
    let list = strings(&["C:\\game.exe", "-x"]);
    match plan_launch(exe, "C:\\game.exe -x", &list, &envs(&[("LD_PRELOAD", "a"), ("HOME", "/h")]), true) {
        Ok(LaunchPlan::Direct { program, via_proton, args, clear_env, envs: e }) => {
            assert_eq!(program, "/p/proton");
            assert!(via_proton);
            assert_eq!(args, strings(&["run", "C:\\game.exe", "-x"]));
            assert!(clear_env);
            assert_eq!(e, envs(&[("HOME", "/h")]));
        }
        other => panic!("unexpected plan {:?}", other),
    }
    match plan_launch(exe, "", &Vec::new(), &Vec::new(), false) {
        Ok(LaunchPlan::Direct { program, via_proton, args, clear_env, .. }) => {
            assert_eq!(program, "/p/files/bin/wine64");
            assert!(!via_proton);
            assert!(args.is_empty());
            assert!(!clear_env);
        }
        other => panic!("unexpected plan {:?}", other),
    }
}

#[test]
fn target_user_from_pkexec() {
    assert_eq!(target_ids(None, None, true, Some("1000")), (Some(1000), Some(1000)));
    assert_eq!(target_ids(None, None, false, Some("1000")), (None, None));
    assert_eq!(target_ids(Some(5), Some(6), true, Some("1000")), (Some(5), Some(6)));
    assert_eq!(target_ids(None, Some(6), true, Some("x")), (None, Some(6)));
    assert_eq!(target_ids(None, None, true, None), (None, None));
    assert_eq!(drop_privileges(Some(1000), None, true), Some((1000, 1000)));
    assert_eq!(drop_privileges(Some(1000), Some(100), true), Some((1000, 100)));
    assert_eq!(drop_privileges(Some(1000), Some(100), false), None);
    assert_eq!(drop_privileges(None, Some(100), true), None);
}

#[test]
fn preload_list() {
    let f = PreloadFiles { user64: true, user32: false, own64: true, own32: true, system64: true, system32: true };
    assert_eq!(
        preloads(1000, 0, true, &f),
        strings(&["/tmp/libvibecheat_speedhack_1000.so", "/tmp/libvibecheat_speedhack_0_32.so"])
    );
    let none = PreloadFiles { user64: false, user32: false, own64: false, own32: false, system64: true, system32: true };
    assert_eq!(
        preloads(1000, 0, true, &none),
        strings(&["/usr/lib/libvibecheat_speedhack.so", "/usr/lib32/libvibecheat_speedhack.so"])
    );
    assert!(preloads(1000, 1000, false, &none).is_empty());
    assert_eq!(preload_env_value(&strings(&["a", "b"])), Some("a:b".to_string()));
    assert_eq!(preload_env_value(&Vec::new()), None);
}

#[test]
fn process_to_end_before_relaunch() {
    assert_eq!(kill_target(true, Some(5), Some(0), &vec![9]), Some(5));
    assert_eq!(kill_target(true, None, Some(0), &vec![9]), Some(9));
    assert_eq!(kill_target(true, None, Some(3), &vec![9]), None);
    assert_eq!(kill_target(true, None, None, &vec![9]), None);
    assert_eq!(kill_target(false, Some(5), Some(0), &vec![9]), None);
}

#[test]
fn user_environment_and_steam_url() {
    assert_eq!(user_env("alice\n"), ("alice".to_string(), "/home/alice".to_string()));
    assert_eq!(steam_run_url("620"), "steam://run/620");
}

#[test]
fn guessed_name_uses_file_name_of_exe_argument() {
    assert_eq!(guess_target_name(&strings(&["run", "/games/Hero.EXE", "-x"]), "/p/proton"), "Hero.EXE");
    assert_eq!(guess_target_name(&strings(&["-x"]), "/opt/proton/proton"), "proton");
    assert_eq!(guess_target_name(&strings(&["/games/game.exe"]), "/opt/wine"), "wine");
    assert_eq!(guess_target_name(&strings(&["-x"]), "/"), "game.exe");
    assert_eq!(guess_target_name(&strings(&["/g/..", "/g/b.exe"]), "/w"), "b.exe");
}

#[test]
fn name_to_wait_for() {
    assert_eq!(target_comm(Some(0), &strings(&["Game.exe"]), "x".to_string()), "Game.exe");
    assert_eq!(target_comm(Some(4), &strings(&["Game.exe"]), "x".to_string()), "game.exe");
    assert_eq!(target_comm(None, &strings(&["Game.exe"]), "x".to_string()), "x");
}

#[test]
fn outcome_of_a_spawn() {
    assert_eq!(after_spawn(1234, false, "/usr/bin/game", None, &Vec::new(), &Vec::new(), "/usr/bin/game"), (1234, None));
    assert_eq!(
        after_spawn(1234, false, "/usr/bin/wine", Some(0), &strings(&["Game.exe"]), &Vec::new(), "/usr/bin/wine"),
        (-1, Some("Game.exe".to_string()))
    );
    assert_eq!(
        after_spawn(1234, true, "/p/proton", None, &Vec::new(), &strings(&["run", "/g/Hero.exe"]), "/p/files/bin/wine"),
        (-1, Some("Hero.exe".to_string()))
    );
}

#[test]
fn file_names_of_paths() {
    let cases: [(&str, Option<&str>); 10] = [
        ("/games/Hero.exe", Some("Hero.exe")),
        ("foo.txt/.//", Some("foo.txt")),
        ("./a", Some("a")),
        ("a//b", Some("b")),
        ("...", Some("...")),
        ("/", None),
        ("", None),
        ("..", None),
        ("a/..", None),
        (".", None),
    ];
    for (p, want) in cases {
        assert_eq!(file_name_of(p), want.map(|s| s.to_string()), "{}", p);
        let std_name = std::path::Path::new(p).file_name().map(|n| n.to_string_lossy().into_owned());
        assert_eq!(file_name_of(p), std_name, "{}", p);
    }
}

#[test]
fn process_to_attach_to() {
    assert_eq!(attach_target(Some(5), Some(0), &vec![9]), Some(5));
    assert_eq!(attach_target(None, Some(0), &vec![9]), Some(9));
    assert_eq!(attach_target(None, Some(1), &vec![9]), None);
    assert_eq!(attach_target(None, None, &vec![9]), None);
}
