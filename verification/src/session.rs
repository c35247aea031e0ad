use vstd::prelude::*;
use vstd::string::*;
use crate::text::{str_eq, strings_view};
use crate::cheat_table::opt_text;

verus! {

/// The display session settings that an elevated instance needs to open
/// its window: `DISPLAY`, `XAUTHORITY`, `WAYLAND_DISPLAY`,
/// `XDG_RUNTIME_DIR` and `DBUS_SESSION_BUS_ADDRESS`, where set.
#[derive(Debug)]
pub struct DisplayEnv {
    pub display: Option<String>,
    pub xauthority: Option<String>,
    pub wayland_display: Option<String>,
    pub xdg_runtime_dir: Option<String>,
    pub dbus_session_bus_address: Option<String>,
}

/// The number of settings a display session carries.
pub const SESSION_SETTINGS: usize = 5;

impl View for DisplayEnv {
    type V = Seq<Option<Seq<char>>>;

    /// The five settings, in the order of their fields.
    open spec fn view(&self) -> Seq<Option<Seq<char>>> {
        seq![
            opt_text(self.display),
            opt_text(self.xauthority),
            opt_text(self.wayland_display),
            opt_text(self.xdg_runtime_dir),
            opt_text(self.dbus_session_bus_address),
        ]
    }
}

/// The command-line flag that carries setting `k` to the elevated instance.
pub open spec fn flag_name(k: int) -> Seq<char> {
    if k == 0 {
        "--display"@
    } else if k == 1 {
        "--xauthority"@
    } else if k == 2 {
        "--wayland-display"@
    } else if k == 3 {
        "--xdg-runtime-dir"@
    } else {
        "--dbus-session-bus-address"@
    }
}

/// The setting that a flag carries, if the text is one of the flags.
pub open spec fn flag_index(a: Seq<char>) -> Option<int> {
    if a == flag_name(0) {
        Some(0)
    } else if a == flag_name(1) {
        Some(1)
    } else if a == flag_name(2) {
        Some(2)
    } else if a == flag_name(3) {
        Some(3)
    } else if a == flag_name(4) {
        Some(4)
    } else {
        None
    }
}

/// No setting given.
pub open spec fn no_settings() -> Seq<Option<Seq<char>>> {
    Seq::new(5, |k: int| None)
}

/// Setting `f` given as `v`, no other.
pub open spec fn one_setting(f: int, v: Seq<char>) -> Seq<Option<Seq<char>>> {
    Seq::new(5, |k: int| if k == f { Some(v) } else { None })
}

/// The settings of `a`, each replaced by that of `b` where `b` gives one.
pub open spec fn override_settings(a: Seq<Option<Seq<char>>>, b: Seq<Option<Seq<char>>>) -> Seq<Option<Seq<char>>> {
    Seq::new(5, |k: int| if b[k] is Some { b[k] } else { a[k] })
}

/// The flags that carry the settings from `k` on, each followed by its value.
pub open spec fn flags_from(env: Seq<Option<Seq<char>>>, k: int) -> Seq<Seq<char>>
    decreases 5 - k,
{
    if k >= 5 || k < 0 {
        seq![]
    } else {
        let rest = flags_from(env, k + 1);
        match env[k] {
            Some(v) => seq![flag_name(k), v] + rest,
            None => rest,
        }
    }
}

/// The flags that carry a session's settings.
pub open spec fn session_flags(env: Seq<Option<Seq<char>>>) -> Seq<Seq<char>> {
    flags_from(env, 0)
}

/// What the elevated instance reads from its arguments: each flag followed
/// by a value sets its setting (a later one wins); the other arguments are
/// kept, in order.
pub open spec fn parse_session_args(args: Seq<Seq<char>>) -> (Seq<Option<Seq<char>>>, Seq<Seq<char>>)
    decreases args.len(),
{
    if args.len() == 0 {
        (no_settings(), seq![])
    } else if flag_index(args[0]) is Some && args.len() >= 2 {
        let (e, r) = parse_session_args(args.skip(2));
        (override_settings(one_setting(flag_index(args[0]).unwrap(), args[1]), e), r)
    } else {
        let (e, r) = parse_session_args(args.drop_first());
        (e, seq![args[0]] + r)
    }
}

/// What the arguments set is always a full list of settings.
pub proof fn lemma_parse_settings_len(args: Seq<Seq<char>>)
    ensures
        parse_session_args(args).0.len() == 5,
    decreases args.len(),
{
    if args.len() > 0 && !(flag_index(args[0]) is Some && args.len() >= 2) {
        lemma_parse_settings_len(args.drop_first());
    }
}

/// Each flag names its own setting.
pub proof fn lemma_flag_names(k: int)
    requires
        0 <= k < 5,
    ensures
        flag_index(flag_name(k)) == Some(k),
{
    reveal_strlit("--display");
    reveal_strlit("--xauthority");
    reveal_strlit("--wayland-display");
    reveal_strlit("--xdg-runtime-dir");
    reveal_strlit("--dbus-session-bus-address");
    assert(flag_name(0).len() == 9);
    assert(flag_name(1).len() == 12);
    assert(flag_name(2).len() == 17);
    assert(flag_name(3).len() == 17);
    assert(flag_name(4).len() == 26);
    assert(flag_name(2)[2] != flag_name(3)[2]);
}

/// Which flag `a` is, if any.
fn which_flag(a: &str) -> (r: Option<usize>)
    ensures
        r matches Some(k) ==> flag_index(a@) == Some(k as int),
        r is None ==> flag_index(a@) is None,
{
    if str_eq(a, "--display") {
        Some(0)
    } else if str_eq(a, "--xauthority") {
        Some(1)
    } else if str_eq(a, "--wayland-display") {
        Some(2)
    } else if str_eq(a, "--xdg-runtime-dir") {
        Some(3)
    } else if str_eq(a, "--dbus-session-bus-address") {
        Some(4)
    } else {
        None
    }
}

/// The flag text of setting `k`.
fn flag_text(k: usize) -> (r: &'static str)
    requires
        k < 5,
    ensures
        r@ == flag_name(k as int),
{
    if k == 0 {
        "--display"
    } else if k == 1 {
        "--xauthority"
    } else if k == 2 {
        "--wayland-display"
    } else if k == 3 {
        "--xdg-runtime-dir"
    } else {
        "--dbus-session-bus-address"
    }
}

/// Sets setting `k` of a session.
fn set_setting(env: &mut DisplayEnv, k: usize, v: String)
    requires
        k < 5,
    ensures
        final(env)@ == override_settings(old(env)@, one_setting(k as int, v@)),
{
    if k == 0 {
        env.display = Some(v);
    } else if k == 1 {
        env.xauthority = Some(v);
    } else if k == 2 {
        env.wayland_display = Some(v);
    } else if k == 3 {
        env.xdg_runtime_dir = Some(v);
    } else {
        env.dbus_session_bus_address = Some(v);
    }
    assert(env@ =~= override_settings(old(env)@, one_setting(k as int, v@)));
}

/// Setting `k` of a session.
fn get_setting(env: &DisplayEnv, k: usize) -> (r: &Option<String>)
    requires
        k < 5,
    ensures
        opt_text(*r) == env@[k as int],
{
    if k == 0 {
        &env.display
    } else if k == 1 {
        &env.xauthority
    } else if k == 2 {
        &env.wayland_display
    } else if k == 3 {
        &env.xdg_runtime_dir
    } else {
        &env.dbus_session_bus_address
    }
}

/// Reads the session settings passed to an elevated instance out of its
/// arguments (the program's own name first), and the arguments left.
pub fn parse_session(args: &Vec<String>) -> (r: (DisplayEnv, Vec<String>))
    ensures
        (r.0@, strings_view(r.1@)) == parse_session_args(strings_view(args@)),
{
    let ghost av = strings_view(args@);
    let mut env = DisplayEnv {
        display: None,
        xauthority: None,
        wayland_display: None,
        xdg_runtime_dir: None,
        dbus_session_bus_address: None,
    };
    let mut kept: Vec<String> = Vec::new();
    let mut i: usize = 0;
    assert(av.skip(0) =~= av);
    assert(env@ =~= no_settings());
    proof {
        lemma_parse_settings_len(av);
    }
    assert(override_settings(no_settings(), parse_session_args(av).0) =~= parse_session_args(av).0);
    while i < args.len()
        invariant
            i <= args@.len(),
            av == strings_view(args@),
            parse_session_args(av) == (
                override_settings(env@, parse_session_args(av.skip(i as int)).0),
                strings_view(kept@) + parse_session_args(av.skip(i as int)).1,
            ),
        decreases args@.len() - i,
    {
        let ghost s = av.skip(i as int);
        assert(s[0] == av[i as int]);
        let f = which_flag(args[i].as_str());
        match f {
            Some(k) => {
                if i + 1 < args.len() {
                    assert(s[1] == av[i + 1]);
                    assert(s.skip(2) =~= av.skip(i + 2));
                    let ghost old_env = env@;
                    let ghost rest = parse_session_args(av.skip(i + 2));
                    set_setting(&mut env, k, args[i + 1].clone());
                    assert(override_settings(old_env, override_settings(one_setting(k as int, av[i + 1]), rest.0))
                        =~= override_settings(env@, rest.0));
                    i = i + 2;
                    continue;
                }
            },
            None => {},
        }
        assert(s.drop_first() =~= av.skip(i + 1));
        let ghost before = strings_view(kept@);
        kept.push(args[i].clone());
        assert(strings_view(kept@) =~= before.push(av[i as int]));
        assert(strings_view(kept@) + parse_session_args(av.skip(i + 1)).1 =~= before + (seq![av[i as int]]
            + parse_session_args(av.skip(i + 1)).1));
        i = i + 1;
    }
    assert(av.skip(i as int) =~= Seq::<Seq<char>>::empty());
    assert(override_settings(env@, no_settings()) =~= env@);
    assert(strings_view(kept@) + Seq::<Seq<char>>::empty() =~= strings_view(kept@));
    (env, kept)
}

/// The settings from `k` on, the others left out.
pub open spec fn settings_from(env: Seq<Option<Seq<char>>>, k: int) -> Seq<Option<Seq<char>>> {
    Seq::new(5, |j: int| if j >= k { env[j] } else { None })
}

/// Arguments that hold none of the flags are kept as they are, setting nothing.
pub proof fn lemma_parse_plain(args: Seq<Seq<char>>)
    requires
        forall|i: int| 0 <= i < args.len() ==> flag_index(#[trigger] args[i]) is None,
    ensures
        parse_session_args(args) == (no_settings(), args),
    decreases args.len(),
{
    if args.len() > 0 {
        let rest = args.drop_first();
        assert forall|i: int| 0 <= i < rest.len() implies flag_index(#[trigger] rest[i]) is None by {
            assert(rest[i] == args[i + 1]);
        }
        lemma_parse_plain(rest);
        assert(args =~= seq![args[0]] + rest);
    }
}

/// Reading the flags of the settings from `k` on, followed by plain
/// arguments, gives those settings and the plain arguments.
pub proof fn lemma_parse_flags_from(env: Seq<Option<Seq<char>>>, k: int, rest: Seq<Seq<char>>)
    requires
        env.len() == 5,
        0 <= k <= 5,
        forall|i: int| 0 <= i < rest.len() ==> flag_index(#[trigger] rest[i]) is None,
    ensures
        parse_session_args(flags_from(env, k) + rest) == (settings_from(env, k), rest),
    decreases 5 - k,
{
    if k == 5 {
        assert(flags_from(env, k) + rest =~= rest);
        lemma_parse_plain(rest);
        assert(settings_from(env, k) =~= no_settings());
    } else {
        lemma_parse_flags_from(env, k + 1, rest);
        let tail = flags_from(env, k + 1) + rest;
        match env[k] {
            Some(v) => {
                let all = seq![flag_name(k), v] + tail;
                assert(flags_from(env, k) + rest =~= all);
                assert(all[0] == flag_name(k));
                assert(all[1] == v);
                assert(all.skip(2) =~= tail);
                lemma_flag_names(k);
                assert(override_settings(one_setting(k, v), settings_from(env, k + 1)) =~= settings_from(env, k));
            },
            None => {
                assert(flags_from(env, k) + rest =~= tail);
                assert(settings_from(env, k + 1) =~= settings_from(env, k));
            },
        }
    }
}

/// An elevated instance reads back exactly the session it was given: its
/// arguments are its own name, the session's flags and then the arguments
/// of the first instance; provided that neither its name nor those
/// arguments is one of the flags, it gets the same settings and the same
/// arguments without the flags.
pub proof fn lemma_session_round_trip(env: Seq<Option<Seq<char>>>, exe: Seq<char>, rest: Seq<Seq<char>>)
    requires
        env.len() == 5,
        flag_index(exe) is None,
        forall|i: int| 0 <= i < rest.len() ==> flag_index(#[trigger] rest[i]) is None,
    ensures
        parse_session_args(seq![exe] + session_flags(env) + rest) == (env, seq![exe] + rest),
{
    let all = seq![exe] + session_flags(env) + rest;
    lemma_parse_flags_from(env, 0, rest);
    assert(all[0] == exe);
    assert(all.drop_first() =~= flags_from(env, 0) + rest);
    assert(settings_from(env, 0) =~= env);
}

/// The program that elevates this one and its arguments: `pkexec` where it
/// is installed, else `sudo -E`; then this program, the flags that carry
/// the display session, and the arguments this instance was given.
pub open spec fn spec_elevation_command(
    has_pkexec: bool,
    exe: Seq<char>,
    env: Seq<Option<Seq<char>>>,
    args: Seq<Seq<char>>,
) -> (Seq<char>, Seq<Seq<char>>) {
    if has_pkexec {
        ("pkexec"@, seq![exe] + session_flags(env) + args)
    } else {
        ("sudo"@, seq!["-E"@, exe] + session_flags(env) + args)
    }
}

/// Builds the command that starts this program again as root.
pub fn elevation_command(has_pkexec: bool, exe: &str, env: &DisplayEnv, args: &Vec<String>) -> (r: (String, Vec<String>))
    ensures
        (r.0@, strings_view(r.1@)) == spec_elevation_command(has_pkexec, exe@, env@, strings_view(args@)),
{
    let program = if has_pkexec {
        String::from_str("pkexec")
    } else {
        String::from_str("sudo")
    };
    let mut argv: Vec<String> = Vec::new();
    if !has_pkexec {
        argv.push(String::from_str("-E"));
    }
    argv.push(String::from_str(exe));
    let ghost head = strings_view(argv@);
    let mut k: usize = 5;
    assert(flags_from(env@, 5) =~= Seq::<Seq<char>>::empty());
    // Gather the flags from the last setting back to the first.
    let mut flags_rev: Vec<String> = Vec::new();
    while k > 0
        invariant
            k <= 5,
            flags_rev@.len() == flags_from(env@, k as int).len(),
            forall|j: int|
                0 <= j < flags_rev@.len() ==> (#[trigger] flags_rev@[j])@ == flags_from(env@, k as int)[flags_rev@.len()
                    - 1 - j],
        decreases k,
    {
        k = k - 1;
        let ghost before = flags_from(env@, k + 1);
        match get_setting(env, k) {
            Some(v) => {
                flags_rev.push(v.clone());
                flags_rev.push(String::from_str(flag_text(k)));
                assert(flags_from(env@, k as int) =~= seq![flag_name(k as int), v@] + before);
            },
            None => {
                assert(flags_from(env@, k as int) =~= before);
            },
        }
    }
    let ghost fl = flags_from(env@, 0);
    let ghost n = fl.len();
    while flags_rev.len() > 0
        invariant
            n == fl.len(),
            flags_rev@.len() <= n,
            forall|j: int| 0 <= j < flags_rev@.len() ==> (#[trigger] flags_rev@[j])@ == fl[n - 1 - j],
            strings_view(argv@) == head + fl.take(n - flags_rev@.len()),
        decreases flags_rev@.len(),
    {
        let ghost m = n - flags_rev@.len();
        let x = flags_rev.pop().unwrap();
        let ghost before = strings_view(argv@);
        argv.push(x);
        assert(strings_view(argv@) =~= before.push(fl[m]));
        assert(fl.take(m + 1) =~= fl.take(m).push(fl[m]));
    }
    assert(fl.take(n as int) =~= fl);
    let mut i: usize = 0;
    let ghost mid = strings_view(argv@);
    while i < args.len()
        invariant
            i <= args@.len(),
            strings_view(argv@) == mid + strings_view(args@).take(i as int),
        decreases args@.len() - i,
    {
        let ghost before = strings_view(argv@);
        argv.push(args[i].clone());
        assert(strings_view(argv@) =~= before.push(args@[i as int]@));
        assert(strings_view(args@).take(i + 1) =~= strings_view(args@).take(i as int).push(args@[i as int]@));
        i = i + 1;
    }
    assert(strings_view(args@).take(args@.len() as int) =~= strings_view(args@));
    proof {
        if has_pkexec {
            assert(head =~= seq![exe@]);
        } else {
            assert(head =~= seq!["-E"@, exe@]);
        }
    }
    (program, argv)
}

/// The error given when elevation failed or the user cancelled it.
pub fn elevation_failed_message() -> (r: &'static str)
    ensures
        r@ == "Elevation failed or was cancelled by the user."@,
{
    "Elevation failed or was cancelled by the user."
}

} // verus!
