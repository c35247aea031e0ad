use vibecheat::session::{elevation_command, elevation_failed_message, parse_session, DisplayEnv};

fn strings(v: &[&str]) -> Vec<String> {
    v.iter().map(|s| s.to_string()).collect()
}

fn empty_env() -> DisplayEnv {
    DisplayEnv { display: None, xauthority: None, wayland_display: None, xdg_runtime_dir: None, dbus_session_bus_address: None }
}

#[test]
fn session_flags_are_read_back() {
    let (env, rest) = parse_session(&strings(&["vibecheat", "--display", ":0", "--foo", "--display", ":1", "--xauthority"]));
    assert_eq!(env.display.as_deref(), Some(":1"));
    assert_eq!(env.xauthority, None);
    assert_eq!(rest, strings(&["vibecheat", "--foo", "--xauthority"]));
}

#[test]
fn elevation_by_pkexec_and_sudo() {
    let mut env = empty_env();
    env.display = Some(":1".to_string());
    env.dbus_session_bus_address = Some("unix:path=/run/user/1000/bus".to_string());
    let (prog, args) = elevation_command(true, "/usr/bin/vibecheat", &env, &strings(&["--x"]));
    assert_eq!(prog, "pkexec");
    assert_eq!(
        args,
        strings(&["/usr/bin/vibecheat", "--display", ":1", "--dbus-session-bus-address", "unix:path=/run/user/1000/bus", "--x"])
    );
    let (prog, args) = elevation_command(false, "/usr/bin/vibecheat", &empty_env(), &Vec::new());
    assert_eq!(prog, "sudo");
    assert_eq!(args, strings(&["-E", "/usr/bin/vibecheat"]));
    assert_eq!(elevation_failed_message(), "Elevation failed or was cancelled by the user.");
}

#[test]
fn elevated_instance_gets_the_same_session() {
    let env = DisplayEnv {
        display: Some(":0".to_string()),
        xauthority: Some("/home/u/.Xauthority".to_string()),
        wayland_display: Some("wayland-0".to_string()),
        xdg_runtime_dir: Some("/run/user/1000".to_string()),
        dbus_session_bus_address: None,
    };
    let (_, args) = elevation_command(true, "/usr/bin/vibecheat", &env, &strings(&["-v"]));
    let (back, rest) = parse_session(&args);
    assert_eq!(back.display, env.display);
    assert_eq!(back.xauthority, env.xauthority);
    assert_eq!(back.wayland_display, env.wayland_display);
    assert_eq!(back.xdg_runtime_dir, env.xdg_runtime_dir);
    assert_eq!(back.dbus_session_bus_address, None);
    assert_eq!(rest, strings(&["/usr/bin/vibecheat", "-v"]));
}
