use vstd::prelude::*;
use vstd::string::*;
use crate::text::{
    seq_contains, seq_starts_with, seq_ends_with, str_contains, str_starts_with, str_ends_with, str_eq,
    strings_view, join_with, join_strings, spec_trim, trim, split_ws, split_whitespace_strings,
    spec_parse_int, parse_int, first_match, lemma_first_match_from, find_str, replace_all, replace_str,
};
use crate::procfs::{spec_is_windows_path, is_windows_path};
use crate::cheat_table::opt_text;
use crate::text::{decimal_string, push_nat_digits, lowercase, to_lowercase, split_char, split_char_range, ranges_text,
    ranges_within, chars_vec};

verus! {

/// The strings of `v` in the index range `lo..hi`, copied.
pub fn copy_strings(v: &Vec<String>, lo: usize, hi: usize) -> (r: Vec<String>)
    requires
        lo <= hi <= v@.len(),
    ensures
        strings_view(r@) == strings_view(v@).subrange(lo as int, hi as int),
{
    let mut out: Vec<String> = Vec::new();
    let mut k: usize = lo;
    while k < hi
        invariant
            lo <= k <= hi <= v@.len(),
            strings_view(out@) == strings_view(v@).subrange(lo as int, k as int),
        decreases hi - k,
    {
        let ghost before = strings_view(out@);
        out.push(v[k].clone());
        assert(strings_view(out@) =~= before.push(v@[k as int]@));
        assert(strings_view(v@).subrange(lo as int, k + 1) =~= strings_view(v@).subrange(lo as int, k as int).push(
            v@[k as int]@,
        ));
        k = k + 1;
    }
    out
}

/// A path seen from inside a container, with the host's mount
/// point `/run/host` taken off its front.
pub open spec fn spec_strip_host_prefix(path: Seq<char>) -> Seq<char> {
    if seq_starts_with(path, "/run/host/"@) {
        path.skip(9)
    } else {
        path
    }
}

/// Takes `/run/host` off the front of a path that lies under `/run/host/`.
pub fn strip_host_prefix(path: &str) -> (r: String)
    ensures
        r@ == spec_strip_host_prefix(path@),
{
    if str_starts_with(path, "/run/host/") {
        proof {
            reveal_strlit("/run/host/");
        }
        let n = path.unicode_len();
        String::from_str(path.substring_char(9, n))
    } else {
        String::from_str(path)
    }
}

/// What the launcher is filled with for a running process.
#[derive(Debug)]
pub struct LaunchTarget {
    pub exe_path: String,
    pub args_list: Vec<String>,
    pub args: String,
}

/// The executable path and argument list that relaunching a process uses,
/// from the resolved target of its `exe` link and its command line: a
/// Windows program, or one run through Wine or Proton, keeps its whole
/// command line as arguments of the resolved executable; another one drops
/// its first argument, which names the program, and falls back on it when
/// the `exe` link could not be read.
pub open spec fn spec_launch_target(exe: Seq<char>, cmdline: Seq<Seq<char>>) -> (Seq<char>, Seq<Seq<char>>) {
    if cmdline.len() == 0 {
        (exe, seq![])
    } else if spec_is_windows_path(cmdline[0]) || seq_contains(exe, "wine"@) || seq_contains(exe, "proton"@) {
        (exe, cmdline)
    } else {
        (if exe.len() == 0 { cmdline[0] } else { exe }, cmdline.drop_first())
    }
}

/// Fills the launcher from a process: `exe_resolved` is the target of its
/// `exe` link (empty where it could not be read), `cmdline` its arguments
/// (empty where they could not be read).
pub fn launch_target(exe_resolved: &str, cmdline: &Vec<String>) -> (r: LaunchTarget)
    ensures
        (r.exe_path@, strings_view(r.args_list@)) == spec_launch_target(exe_resolved@, strings_view(cmdline@)),
        r.args@ == join_with(strings_view(r.args_list@), " "@),
{
    let ghost cv = strings_view(cmdline@);
    let (exe_path, args_list) = if cmdline.len() == 0 {
        (String::from_str(exe_resolved), Vec::new())
    } else if is_windows_path(cmdline[0].as_str()) || str_contains(exe_resolved, "wine") || str_contains(
        exe_resolved,
        "proton",
    ) {
        let all = copy_strings(cmdline, 0, cmdline.len());
        assert(cv.subrange(0, cv.len() as int) =~= cv);
        (String::from_str(exe_resolved), all)
    } else {
        let rest = copy_strings(cmdline, 1, cmdline.len());
        assert(cv.subrange(1, cv.len() as int) =~= cv.drop_first());
        let exe = if exe_resolved.unicode_len() == 0 {
            cmdline[0].clone()
        } else {
            String::from_str(exe_resolved)
        };
        (exe, rest)
    };
    proof {
        if cmdline@.len() == 0 {
            assert(strings_view(args_list@) =~= Seq::<Seq<char>>::empty());
        }
    }
    let args = join_strings(&args_list, " ");
    LaunchTarget { exe_path, args_list, args }
}

/// The key names under which a Steam game finds its application id.
pub open spec fn is_app_id_key(k: Seq<char>) -> bool {
    k == "SteamAppId"@ || k == "STEAM_APP_ID"@
}

/// The value of the first environment entry that holds a Steam application id.
pub open spec fn env_app_id(envs: Seq<(Seq<char>, Seq<char>)>) -> Option<Seq<char>>
    decreases envs.len(),
{
    if envs.len() == 0 {
        None
    } else if is_app_id_key(envs[0].0) {
        Some(envs[0].1)
    } else {
        env_app_id(envs.drop_first())
    }
}

/// What follows `AppId=` in the first argument that begins with it.
pub open spec fn arg_app_id(args: Seq<Seq<char>>) -> Option<Seq<char>>
    decreases args.len(),
{
    if args.len() == 0 {
        None
    } else if seq_starts_with(args[0], "AppId="@) {
        Some(args[0].skip(6))
    } else {
        arg_app_id(args.drop_first())
    }
}

/// The Steam application id of a process: from its environment, else from
/// its arguments.
pub open spec fn spec_steam_app_id(envs: Seq<(Seq<char>, Seq<char>)>, args: Seq<Seq<char>>) -> Option<Seq<char>> {
    match env_app_id(envs) {
        Some(id) => Some(id),
        None => arg_app_id(args),
    }
}

/// The texts of environment entries.
pub open spec fn envs_view(envs: Seq<(String, String)>) -> Seq<(Seq<char>, Seq<char>)> {
    envs.map_values(|e: (String, String)| (e.0@, e.1@))
}

/// Finds the Steam application id among a process's environment and arguments.
pub fn steam_app_id(envs: &Vec<(String, String)>, args: &Vec<String>) -> (r: Option<String>)
    ensures
        r matches Some(s) ==> spec_steam_app_id(envs_view(envs@), strings_view(args@)) == Some(s@),
        r is None ==> spec_steam_app_id(envs_view(envs@), strings_view(args@)) is None,
{
    let ghost ev = envs_view(envs@);
    let ghost av = strings_view(args@);
    let mut k: usize = 0;
    assert(ev.skip(0) =~= ev);
    while k < envs.len()
        invariant
            k <= envs@.len(),
            ev == envs_view(envs@),
            env_app_id(ev) == env_app_id(ev.skip(k as int)),
        decreases envs@.len() - k,
    {
        assert(ev.skip(k as int)[0] == ev[k as int]);
        assert(ev.skip(k as int).drop_first() =~= ev.skip(k + 1));
        if str_eq(envs[k].0.as_str(), "SteamAppId") || str_eq(envs[k].0.as_str(), "STEAM_APP_ID") {
            return Some(envs[k].1.clone());
        }
        k = k + 1;
    }
    assert(ev.skip(k as int) =~= Seq::<(Seq<char>, Seq<char>)>::empty());
    let mut j: usize = 0;
    assert(av.skip(0) =~= av);
    while j < args.len()
        invariant
            j <= args@.len(),
            av == strings_view(args@),
            ev == envs_view(envs@),
            env_app_id(ev) is None,
            arg_app_id(av) == arg_app_id(av.skip(j as int)),
        decreases args@.len() - j,
    {
        assert(av.skip(j as int)[0] == av[j as int]);
        assert(av.skip(j as int).drop_first() =~= av.skip(j + 1));
        if str_starts_with(args[j].as_str(), "AppId=") {
            proof {
                reveal_strlit("AppId=");
            }
            let n = args[j].as_str().unicode_len();
            assert(args@[j as int]@.subrange(6, n as int) =~= av[j as int].skip(6));
            return Some(String::from_str(args[j].as_str().substring_char(6, n)));
        }
        j = j + 1;
    }
    assert(av.skip(j as int) =~= Seq::<Seq<char>>::empty());
    None
}

/// A Steam application id is one of Steam's own when it reads as a `u64`
/// of at most 100,000,000 (larger ones are given to shortcuts of non-Steam
/// games).
pub open spec fn is_store_app_id(id: Seq<char>) -> bool {
    match spec_parse_int(id, 10, false, 0, 0xffff_ffff_ffff_ffff) {
        Some(v) => v <= 100_000_000,
        None => false,
    }
}

/// A process is a real Steam game when it has a store application id and
/// its executable or one of its arguments lies under `steamapps/common`.
pub open spec fn spec_is_real_steam_game(app_id: Option<Seq<char>>, exe: Seq<char>, args: Seq<Seq<char>>) -> bool {
    match app_id {
        Some(id) => is_store_app_id(id) && (seq_contains(exe, "steamapps/common"@) || exists|i: int|
            0 <= i < args.len() && seq_contains(#[trigger] args[i], "steamapps/common"@)),
        None => false,
    }
}

/// Whether a process found with this application id, executable path and
/// arguments is to be started again through Steam.
pub fn is_real_steam_game(app_id: &Option<String>, exe_path: &str, args: &Vec<String>) -> (r: bool)
    ensures
        r == spec_is_real_steam_game(
            match app_id { Some(s) => Some(s@), None => None },
            exe_path@,
            strings_view(args@),
        ),
{
    match app_id {
        None => false,
        Some(id) => {
            let small = match parse_int(id.as_str(), 10, false, 0, 0xffff_ffff_ffff_ffff) {
                Some(v) => v <= 100_000_000,
                None => false,
            };
            if !small {
                return false;
            }
            if str_contains(exe_path, "steamapps/common") {
                return true;
            }
            let ghost av = strings_view(args@);
            let mut k: usize = 0;
            while k < args.len()
                invariant
                    k <= args@.len(),
                    av == strings_view(args@),
                    is_store_app_id(id@),
                    *app_id matches Some(x) && x@ == id@,
                    !seq_contains(exe_path@, "steamapps/common"@),
                    forall|i: int| 0 <= i < k ==> !seq_contains(#[trigger] av[i], "steamapps/common"@),
                decreases args@.len() - k,
            {
                if str_contains(args[k].as_str(), "steamapps/common") {
                    assert(seq_contains(av[k as int], "steamapps/common"@));
                    return true;
                }
                k = k + 1;
            }
            false
        },
    }
}


/// Environment entries that a relaunched process does not get back: the
/// Wine server's handles, the loader's paths and the container's own
/// settings and graphics-stack overrides.
pub open spec fn is_dropped_env_key(k: Seq<char>) -> bool {
    ||| k == "WINESERVER_SOCKET"@
    ||| k == "WINESERVERSOCKET"@
    ||| k == "WINESERVER_FD"@
    ||| k == "LD_LIBRARY_PATH"@
    ||| k == "LD_PRELOAD"@
    ||| k == "container"@
    ||| k == "AT_SPI_BUS_ADDRESS"@
    ||| k == "LOCPATH"@
    ||| seq_starts_with(k, "GST_"@)
    ||| seq_starts_with(k, "VK_"@)
    ||| seq_starts_with(k, "__EGL_"@)
    ||| seq_starts_with(k, "GBM_"@)
    ||| seq_starts_with(k, "LIBGL_"@)
    ||| seq_starts_with(k, "LIBVA_"@)
    ||| seq_starts_with(k, "ORIG_"@)
}

/// Whether an environment entry with this key is left out on relaunch.
pub fn is_dropped_env(k: &str) -> (r: bool)
    ensures
        r == is_dropped_env_key(k@),
{
    str_eq(k, "WINESERVER_SOCKET") || str_eq(k, "WINESERVERSOCKET") || str_eq(k, "WINESERVER_FD") || str_eq(
        k,
        "LD_LIBRARY_PATH",
    ) || str_eq(k, "LD_PRELOAD") || str_eq(k, "container") || str_eq(k, "AT_SPI_BUS_ADDRESS") || str_eq(
        k,
        "LOCPATH",
    ) || str_starts_with(k, "GST_") || str_starts_with(k, "VK_") || str_starts_with(k, "__EGL_")
        || str_starts_with(k, "GBM_") || str_starts_with(k, "LIBGL_") || str_starts_with(k, "LIBVA_")
        || str_starts_with(k, "ORIG_")
}

/// A text with each `/run/host/` read as `/`: the host's paths as the host sees them.
pub open spec fn host_path(v: Seq<char>) -> Seq<char> {
    replace_all(v, "/run/host/"@, "/"@)
}

/// Replaces each `/run/host/` in a text by `/`.
pub fn to_host_path(v: &str) -> (r: String)
    ensures
        r@ == host_path(v@),
{
    proof {
        reveal_strlit("/run/host/");
    }
    replace_str(v, "/run/host/", "/")
}

/// The environment a relaunched process gets: the entries that are kept,
/// in order, with their values read as host paths.
pub open spec fn spec_normalize_envs(envs: Seq<(Seq<char>, Seq<char>)>) -> Seq<(Seq<char>, Seq<char>)>
    decreases envs.len(),
{
    if envs.len() == 0 {
        seq![]
    } else {
        let prev = spec_normalize_envs(envs.drop_last());
        let e = envs.last();
        if is_dropped_env_key(e.0) {
            prev
        } else {
            prev.push((e.0, host_path(e.1)))
        }
    }
}

/// Builds the environment of a relaunched process from the one it had.
pub fn normalize_envs(envs: &Vec<(String, String)>) -> (r: Vec<(String, String)>)
    ensures
        envs_view(r@) == spec_normalize_envs(envs_view(envs@)),
{
    let ghost ev = envs_view(envs@);
    let mut out: Vec<(String, String)> = Vec::new();
    let mut k: usize = 0;
    assert(ev.take(0) =~= Seq::<(Seq<char>, Seq<char>)>::empty());
    while k < envs.len()
        invariant
            k <= envs@.len(),
            ev == envs_view(envs@),
            envs_view(out@) == spec_normalize_envs(ev.take(k as int)),
        decreases envs@.len() - k,
    {
        let ghost next = ev.take(k + 1);
        assert(next.drop_last() =~= ev.take(k as int));
        assert(next.last() == ev[k as int]);
        let key = envs[k].0.as_str();
        if !is_dropped_env(key) {
            let v = to_host_path(envs[k].1.as_str());
            let ghost before = envs_view(out@);
            out.push((envs[k].0.clone(), v));
            assert(envs_view(out@) =~= before.push((ev[k as int].0, host_path(ev[k as int].1))));
        }
        k = k + 1;
    }
    assert(ev.take(envs@.len() as int) =~= ev);
    out
}

/// The arguments a relaunch starts from: the process's own list while the
/// text in the launcher still reads the same (up to white space at its
/// ends), else the words of that text.
pub open spec fn spec_raw_args(launcher_args: Seq<char>, args_list: Seq<Seq<char>>) -> Seq<Seq<char>> {
    if spec_trim(launcher_args) == spec_trim(join_with(args_list, " "@)) {
        args_list
    } else {
        split_ws(launcher_args)
    }
}

/// The arguments a relaunched program is given: `run` first when it is
/// started through Proton's script, then the raw arguments read as host paths.
pub open spec fn spec_final_args(launcher_args: Seq<char>, args_list: Seq<Seq<char>>, via_proton: bool) -> Seq<Seq<char>> {
    let raw = spec_raw_args(launcher_args, args_list).map_values(|a: Seq<char>| host_path(a));
    if via_proton {
        seq!["run"@] + raw
    } else {
        raw
    }
}

/// Builds the arguments of a relaunched program.
pub fn final_args(launcher_args: &str, args_list: &Vec<String>, via_proton: bool) -> (r: Vec<String>)
    ensures
        strings_view(r@) == spec_final_args(launcher_args@, strings_view(args_list@), via_proton),
{
    let joined = join_strings(args_list, " ");
    let raw = if str_eq(trim(launcher_args), trim(joined.as_str())) {
        copy_strings(args_list, 0, args_list.len())
    } else {
        split_whitespace_strings(launcher_args)
    };
    proof {
        assert(strings_view(args_list@).subrange(0, args_list@.len() as int) =~= strings_view(args_list@));
    }
    let ghost rv = strings_view(raw@);
    assert(rv == spec_raw_args(launcher_args@, strings_view(args_list@)));
    let mut out: Vec<String> = Vec::new();
    if via_proton {
        out.push(String::from_str("run"));
    }
    let ghost head = strings_view(out@);
    let mut k: usize = 0;
    assert(head + rv.take(0).map_values(|a: Seq<char>| host_path(a)) =~= head);
    while k < raw.len()
        invariant
            k <= raw@.len(),
            rv == strings_view(raw@),
            strings_view(out@) == head + rv.take(k as int).map_values(|a: Seq<char>| host_path(a)),
        decreases raw@.len() - k,
    {
        let a = to_host_path(raw[k].as_str());
        let ghost before = strings_view(out@);
        out.push(a);
        assert(strings_view(out@) =~= before.push(host_path(rv[k as int])));
        assert(rv.take(k + 1).map_values(|a: Seq<char>| host_path(a)) =~= rv.take(k as int).map_values(
            |a: Seq<char>| host_path(a),
        ).push(host_path(rv[k as int])));
        k = k + 1;
    }
    assert(rv.take(raw@.len() as int) =~= rv);
    proof {
        if via_proton {
            assert(head =~= seq!["run"@]);
        } else {
            assert(head =~= Seq::<Seq<char>>::empty());
        }
    }
    out
}


/// The `proton` script beside the `files` directory of a Proton build, for
/// an executable that is Proton's own Wine.
pub open spec fn spec_proton_script(exe: Seq<char>) -> Option<Seq<char>> {
    if seq_contains(exe, "/files/bin/wine"@) || seq_contains(exe, "/files/bin/wine64"@) {
        match first_match(exe, "/files/bin/"@) {
            Some(i) => Some(exe.take(i) + "/proton"@),
            None => None,
        }
    } else {
        None
    }
}

/// The Proton script to relaunch through, for an executable that is
/// Proton's Wine; whether the script exists is for the caller to check.
pub fn proton_script_candidate(exe: &str) -> (r: Option<String>)
    ensures
        r matches Some(p) ==> spec_proton_script(exe@) == Some(p@),
        r is None ==> spec_proton_script(exe@) is None,
{
    if str_contains(exe, "/files/bin/wine") || str_contains(exe, "/files/bin/wine64") {
        match find_str(exe, "/files/bin/") {
            Some(i) => {
                proof {
                    reveal_strlit("/files/bin/");
                    lemma_first_match_from(exe@, "/files/bin/"@, 0);
                }
                let mut p = String::from_str(exe.substring_char(0, i));
                p.append("/proton");
                Some(p)
            },
            None => None,
        }
    } else {
        None
    }
}

/// A launched program is Wine or Proton when it was started through the
/// Proton script or its path names either.
pub open spec fn spec_is_wine_or_proton(via_proton: bool, exe: Seq<char>) -> bool {
    via_proton || seq_contains(exe, "/wine"@) || seq_contains(exe, "/proton"@) || seq_ends_with(exe, "wine"@)
        || seq_ends_with(exe, "proton"@)
}

/// Whether a launched program runs under Wine or Proton, so that the game
/// is a child process to wait for rather than the launched one.
pub fn is_wine_or_proton(via_proton: bool, exe: &str) -> (r: bool)
    ensures
        r == spec_is_wine_or_proton(via_proton, exe@),
{
    via_proton || str_contains(exe, "/wine") || str_contains(exe, "/proton") || str_ends_with(exe, "wine")
        || str_ends_with(exe, "proton")
}

/// How a program is to be started again.
#[derive(Debug)]
pub enum LaunchPlan {
    /// Through Steam, by its application id.
    Steam { app_id: String },
    /// Directly: `clear_env` says whether the environment is replaced by `envs`.
    Direct { program: String, via_proton: bool, args: Vec<String>, clear_env: bool, envs: Vec<(String, String)> },
}

/// Decides how to launch the program in the launcher. `proton_exists` says
/// whether the script that `proton_script_candidate` names for the trimmed
/// path exists.
pub fn plan_launch(
    exe_path: &str,
    launcher_args: &str,
    args_list: &Vec<String>,
    envs: &Vec<(String, String)>,
    proton_exists: bool,
) -> (r: Result<LaunchPlan, String>)
    ensures
        r is Err <==> spec_trim(exe_path@).len() == 0,
        r matches Err(e) ==> e@ == "Path cannot be empty."@,
        r matches Ok(p) ==> (p is Steam <==> spec_is_real_steam_game(
            spec_steam_app_id(envs_view(envs@), strings_view(args_list@)),
            exe_path@,
            strings_view(args_list@),
        )),
        r matches Ok(LaunchPlan::Steam { app_id }) ==> spec_steam_app_id(envs_view(envs@), strings_view(args_list@))
            == Some(app_id@),
        r matches Ok(LaunchPlan::Direct { program, via_proton, args, clear_env, envs: new_envs }) ==> {
            let exe = spec_trim(exe_path@);
            &&& via_proton == (proton_exists && spec_proton_script(exe) is Some)
            &&& program@ == if via_proton { spec_proton_script(exe).unwrap() } else { exe }
            &&& strings_view(args@) == spec_final_args(launcher_args@, strings_view(args_list@), via_proton)
            &&& clear_env == (envs@.len() > 0)
            &&& envs_view(new_envs@) == spec_normalize_envs(envs_view(envs@))
        },
{
    let exe = trim(exe_path);
    if exe.unicode_len() == 0 {
        return Err(String::from_str("Path cannot be empty."));
    }
    let app_id = steam_app_id(envs, args_list);
    if is_real_steam_game(&app_id, exe_path, args_list) {
        if let Some(id) = app_id {
            return Ok(LaunchPlan::Steam { app_id: id });
        }
    }
    let candidate = proton_script_candidate(exe);
    let (program, via_proton) = match candidate {
        Some(p) => {
            if proton_exists {
                (p, true)
            } else {
                (String::from_str(exe), false)
            }
        },
        None => (String::from_str(exe), false),
    };
    let args = final_args(launcher_args, args_list, via_proton);
    let new_envs = normalize_envs(envs);
    Ok(LaunchPlan::Direct { program, via_proton, args, clear_env: envs.len() > 0, envs: new_envs })
}


/// The user and group a launch runs as. Running as root with no user known
/// for the program, the user that `pkexec` elevated from (its `PKEXEC_UID`,
/// when that reads as a `u32`) is taken, with the group of the same number.
pub open spec fn spec_target_ids(
    launcher_uid: Option<u32>,
    launcher_gid: Option<u32>,
    is_root: bool,
    pkexec_uid: Option<Seq<char>>,
) -> (Option<u32>, Option<u32>) {
    if is_root && launcher_uid is None {
        match pkexec_uid {
            Some(t) => match spec_parse_int(t, 10, false, 0, 0xffff_ffff) {
                Some(v) => (Some(v as u32), Some(v as u32)),
                None => (launcher_uid, launcher_gid),
            },
            None => (launcher_uid, launcher_gid),
        }
    } else {
        (launcher_uid, launcher_gid)
    }
}

/// Picks the user and group a launch runs as.
pub fn target_ids(launcher_uid: Option<u32>, launcher_gid: Option<u32>, is_root: bool, pkexec_uid: Option<&str>) -> (r: (
    Option<u32>,
    Option<u32>,
))
    ensures
        r == spec_target_ids(
            launcher_uid,
            launcher_gid,
            is_root,
            match pkexec_uid { Some(t) => Some(t@), None => None },
        ),
{
    if is_root && launcher_uid.is_none() {
        match pkexec_uid {
            Some(t) => match parse_int(t, 10, false, 0, 0xffff_ffff) {
                Some(v) => (Some(v as u32), Some(v as u32)),
                None => (launcher_uid, launcher_gid),
            },
            None => (launcher_uid, launcher_gid),
        }
    } else {
        (launcher_uid, launcher_gid)
    }
}

/// The user and group to switch to before the program starts: only when
/// running as root and a user is known; the group defaults to the user's number.
pub open spec fn spec_drop_privileges(target_uid: Option<u32>, target_gid: Option<u32>, is_root: bool) -> Option<(u32, u32)> {
    if is_root {
        match target_uid {
            Some(u) => Some((u, match target_gid { Some(g) => g, None => u })),
            None => None,
        }
    } else {
        None
    }
}

/// Decides whether, and to what, a launch drops root.
pub fn drop_privileges(target_uid: Option<u32>, target_gid: Option<u32>, is_root: bool) -> (r: Option<(u32, u32)>)
    ensures
        r == spec_drop_privileges(target_uid, target_gid, is_root),
{
    if is_root {
        match target_uid {
            Some(u) => Some((u, target_gid.unwrap_or(u))),
            None => None,
        }
    } else {
        None
    }
}

/// The user whose speed library is preloaded: the target user, else the
/// user running the launcher.
pub fn preload_uid(target_uid: Option<u32>, real_uid: u32) -> (r: u32)
    ensures
        r == match target_uid { Some(u) => u, None => real_uid },
{
    target_uid.unwrap_or(real_uid)
}

/// The path where the speed library built for a user is kept in `/tmp`.
pub open spec fn spec_speedhack_tmp_path(uid: u32, bits32: bool) -> Seq<char> {
    "/tmp/libvibecheat_speedhack_"@ + decimal_string(uid as int) + if bits32 { "_32.so"@ } else { ".so"@ }
}

/// Builds the `/tmp` path of the 64-bit or 32-bit speed library of a user.
pub fn speedhack_tmp_path(uid: u32, bits32: bool) -> (r: String)
    ensures
        r@ == spec_speedhack_tmp_path(uid, bits32),
{
    let mut p = String::from_str("/tmp/libvibecheat_speedhack_");
    push_nat_digits(&mut p, uid as u64, 10);
    if bits32 {
        p.append("_32.so");
    } else {
        p.append(".so");
    }
    p
}

/// The system-wide paths of the 64-bit and 32-bit speed library.
pub open spec fn spec_system_speedhack_path(bits32: bool) -> Seq<char> {
    if bits32 {
        "/usr/lib32/libvibecheat_speedhack.so"@
    } else {
        "/usr/lib/libvibecheat_speedhack.so"@
    }
}

/// The system-wide path of the 64-bit or 32-bit speed library.
pub fn system_speedhack_path(bits32: bool) -> (r: &'static str)
    ensures
        r@ == spec_system_speedhack_path(bits32),
{
    if bits32 {
        "/usr/lib32/libvibecheat_speedhack.so"
    } else {
        "/usr/lib/libvibecheat_speedhack.so"
    }
}

/// Which of the speed library's candidate files exist: the target user's
/// and the launcher's own under `/tmp`, and the system-wide ones, each in a
/// 64-bit and a 32-bit build.
#[derive(Debug, Clone, Copy)]
pub struct PreloadFiles {
    pub user64: bool,
    pub user32: bool,
    pub own64: bool,
    pub own32: bool,
    pub system64: bool,
    pub system32: bool,
}

/// The libraries to preload, in order: for each build, the target user's
/// file in `/tmp` if it exists, else the launcher's own; only where neither
/// build was found there and the launcher runs as root, the system-wide ones.
pub open spec fn spec_preloads(uid: u32, real_uid: u32, is_root: bool, f: PreloadFiles) -> Seq<Seq<char>> {
    let p64: Seq<Seq<char>> = if f.user64 {
        seq![spec_speedhack_tmp_path(uid, false)]
    } else if f.own64 {
        seq![spec_speedhack_tmp_path(real_uid, false)]
    } else {
        seq![]
    };
    let p32: Seq<Seq<char>> = if f.user32 {
        seq![spec_speedhack_tmp_path(uid, true)]
    } else if f.own32 {
        seq![spec_speedhack_tmp_path(real_uid, true)]
    } else {
        seq![]
    };
    let tmp = p64 + p32;
    if tmp.len() == 0 && is_root {
        (if f.system64 { seq![spec_system_speedhack_path(false)] } else { seq![] }) + (if f.system32 {
            seq![spec_system_speedhack_path(true)]
        } else {
            seq![]
        })
    } else {
        tmp
    }
}

/// Lists the speed libraries to preload.
pub fn preloads(uid: u32, real_uid: u32, is_root: bool, f: &PreloadFiles) -> (r: Vec<String>)
    ensures
        strings_view(r@) == spec_preloads(uid, real_uid, is_root, *f),
{
    let mut out: Vec<String> = Vec::new();
    if f.user64 {
        out.push(speedhack_tmp_path(uid, false));
    } else if f.own64 {
        out.push(speedhack_tmp_path(real_uid, false));
    }
    if f.user32 {
        out.push(speedhack_tmp_path(uid, true));
    } else if f.own32 {
        out.push(speedhack_tmp_path(real_uid, true));
    }
    if out.len() == 0 && is_root {
        if f.system64 {
            out.push(String::from_str(system_speedhack_path(false)));
        }
        if f.system32 {
            out.push(String::from_str(system_speedhack_path(true)));
        }
    }
    assert(strings_view(out@) =~= spec_preloads(uid, real_uid, is_root, *f));
    out
}

/// The value of `LD_PRELOAD` for the libraries, if there are any.
pub fn preload_env_value(libs: &Vec<String>) -> (r: Option<String>)
    ensures
        r matches Some(v) ==> libs@.len() > 0 && v@ == join_with(strings_view(libs@), ":"@),
        r is None ==> libs@.len() == 0,
{
    if libs.len() == 0 {
        None
    } else {
        Some(join_strings(libs, ":"))
    }
}

/// The process to end before relaunching, when asked to: the attached one,
/// else the one selected in the list.
pub open spec fn spec_kill_target(
    close_existing: bool,
    attached_pid: Option<i32>,
    selected: Option<usize>,
    pids: Seq<i32>,
) -> Option<i32> {
    if !close_existing {
        None
    } else {
        match attached_pid {
            Some(p) => Some(p),
            None => match selected {
                Some(i) => if i < pids.len() { Some(pids[i as int]) } else { None },
                None => None,
            },
        }
    }
}

/// Picks the process to end before relaunching.
pub fn kill_target(close_existing: bool, attached_pid: Option<i32>, selected: Option<usize>, pids: &Vec<i32>) -> (r:
    Option<i32>)
    ensures
        r == spec_kill_target(close_existing, attached_pid, selected, pids@),
{
    if !close_existing {
        return None;
    }
    match attached_pid {
        Some(p) => Some(p),
        None => match selected {
            Some(i) => if i < pids.len() {
                Some(pids[i])
            } else {
                None
            },
            None => None,
        },
    }
}

/// The process the scanner attaches to: the one attached already, else the
/// one selected in the list (none when the selection is stale).
pub fn attach_target(attached_pid: Option<i32>, selected: Option<usize>, pids: &Vec<i32>) -> (r: Option<i32>)
    ensures
        r == match attached_pid {
            Some(p) => Some(p),
            None => match selected {
                Some(i) => if i < pids@.len() { Some(pids@[i as int]) } else { None },
                None => None,
            },
        },
{
    match attached_pid {
        Some(p) => Some(p),
        None => match selected {
            Some(i) => if i < pids.len() {
                Some(pids[i])
            } else {
                None
            },
            None => None,
        },
    }
}

/// `USER` and `HOME` for the user that `id -un` printed.
pub fn user_env(id_output: &str) -> (r: (String, String))
    ensures
        r.0@ == spec_trim(id_output@),
        r.1@ == "/home/"@ + spec_trim(id_output@),
{
    let name = trim(id_output);
    let mut home = String::from_str("/home/");
    home.append(name);
    (String::from_str(name), home)
}

/// The URL that asks Steam to run a game.
pub fn steam_run_url(app_id: &str) -> (r: String)
    ensures
        r@ == "steam://run/"@ + app_id@,
{
    let mut u = String::from_str("steam://run/");
    u.append(app_id);
    u
}


/// The file name among the pieces of a path between its `/` separators,
/// looked for from the back: empty and `.` pieces are passed over; the
/// last other piece is the name, unless it is `..`.
pub open spec fn last_name_piece(pieces: Seq<Seq<char>>) -> Option<Seq<char>>
    decreases pieces.len(),
{
    if pieces.len() == 0 {
        None
    } else if pieces.last().len() == 0 || pieces.last() == seq!['.'] {
        last_name_piece(pieces.drop_last())
    } else if pieces.last() == seq!['.', '.'] {
        None
    } else {
        Some(pieces.last())
    }
}

/// What `Path::file_name` gives for a Unix path: its last normal component
/// (empty and `.` components do not count), and nothing when there is none
/// or the path ends in `..`.
pub open spec fn path_file_name(path: Seq<char>) -> Option<Seq<char>> {
    last_name_piece(split_char(path, '/'))
}

/// The file name of a path, as `Path::file_name` gives it on Unix.
pub fn file_name_of(path: &str) -> (r: Option<String>)
    ensures
        opt_text(r) == path_file_name(path@),
{
    let cs = chars_vec(path);
    let pieces = split_char_range(cs.as_slice(), 0, cs.len(), '/');
    assert(cs@.subrange(0, cs@.len() as int) =~= path@);
    let ghost pv = ranges_text(cs@, pieces@);
    let mut k: usize = pieces.len();
    assert(pv.take(k as int) =~= pv);
    while k > 0
        invariant
            k <= pieces@.len(),
            cs@ == path@,
            pv == ranges_text(cs@, pieces@),
            pv == split_char(path@, '/'),
            ranges_within(pieces@, 0, cs@.len() as int),
            last_name_piece(pv) == last_name_piece(pv.take(k as int)),
        decreases k,
    {
        let (lo, hi) = pieces[k - 1];
        let ghost piece = cs@.subrange(lo as int, hi as int);
        assert(pv[k - 1] == piece);
        let ghost pre = pv.take(k as int);
        assert(pre.last() == piece);
        assert(pre.drop_last() =~= pv.take(k - 1));
        let n = hi - lo;
        let dot = n == 1 && cs[lo] == '.';
        if n == 0 || dot {
            proof {
                if dot {
                    assert(piece =~= seq!['.']);
                }
            }
            k = k - 1;
        } else {
            proof {
                if n == 1 {
                    assert(piece != seq!['.']) by {
                        assert(piece[0] == cs@[lo as int]);
                    }
                }
            }
            if n == 2 && cs[lo] == '.' && cs[lo + 1] == '.' {
                assert(piece =~= seq!['.', '.']);
                return None;
            }
            proof {
                if n == 2 {
                    assert(piece != seq!['.', '.']) by {
                        assert(piece[0] == cs@[lo as int]);
                        assert(piece[1] == cs@[lo + 1]);
                    }
                }
                assert(piece != seq!['.']) by {
                    if n != 1 {
                        assert(piece.len() != 1);
                    }
                }
            }
            return Some(String::from_str(path.substring_char(lo, hi)));
        }
    }
    assert(pv.take(0) =~= Seq::<Seq<char>>::empty());
    None
}

/// The file name of the first argument that ends in `.exe` (in any case)
/// and has one.
pub open spec fn first_exe_name(is_exe: Seq<bool>, names: Seq<Option<Seq<char>>>) -> Option<Seq<char>>
    decreases is_exe.len(),
{
    if is_exe.len() == 0 || names.len() == 0 {
        None
    } else if is_exe[0] && names[0] is Some {
        names[0]
    } else {
        first_exe_name(is_exe.drop_first(), names.drop_first())
    }
}

/// The name of the Windows program to wait for: the first `.exe` argument's
/// file name, else the launched path's file name, else `game.exe`.
pub open spec fn spec_guess_name(first: Option<Seq<char>>, exe_name: Option<Seq<char>>) -> Seq<char> {
    let g = match first {
        Some(n) => n,
        None => "game.exe"@,
    };
    if g == "game.exe"@ {
        match exe_name {
            Some(n) => n,
            None => g,
        }
    } else {
        g
    }
}

/// The texts of optional strings.
pub open spec fn opt_strings_view(v: Seq<Option<String>>) -> Seq<Option<Seq<char>>> {
    v.map_values(|o: Option<String>| opt_text(o))
}

/// The file name of the first argument that ends in `.exe` and has one.
fn find_first_exe_name(is_exe: &Vec<bool>, names: &Vec<Option<String>>) -> (r: Option<String>)
    requires
        is_exe@.len() == names@.len(),
    ensures
        opt_text(r) == first_exe_name(is_exe@, opt_strings_view(names@)),
{
    let ghost nv = opt_strings_view(names@);
    let mut k: usize = 0;
    assert(is_exe@.skip(0) =~= is_exe@);
    assert(nv.skip(0) =~= nv);
    while k < is_exe.len()
        invariant
            k <= is_exe@.len(),
            is_exe@.len() == names@.len(),
            nv == opt_strings_view(names@),
            first_exe_name(is_exe@, nv) == first_exe_name(is_exe@.skip(k as int), nv.skip(k as int)),
        decreases is_exe@.len() - k,
    {
        assert(is_exe@.skip(k as int).drop_first() =~= is_exe@.skip(k + 1));
        assert(nv.skip(k as int).drop_first() =~= nv.skip(k + 1));
        assert(nv.skip(k as int)[0] == nv[k as int]);
        assert(is_exe@.skip(k as int)[0] == is_exe@[k as int]);
        if is_exe[k] {
            match &names[k] {
                Some(n) => {
                    return Some(n.clone());
                },
                None => {},
            }
        }
        k = k + 1;
    }
    assert(is_exe@.skip(k as int) =~= Seq::<bool>::empty());
    None
}

/// Picks the name of the Windows program to wait for, given for each
/// argument whether it ends in `.exe` and its file name, and the file name
/// of the launched path.
pub fn choose_guessed_name(is_exe: &Vec<bool>, names: &Vec<Option<String>>, exe_name: Option<String>) -> (r: String)
    requires
        is_exe@.len() == names@.len(),
    ensures
        r@ == spec_guess_name(
            first_exe_name(is_exe@, opt_strings_view(names@)),
            match exe_name { Some(n) => Some(n@), None => None },
        ),
{
    let first = find_first_exe_name(is_exe, names);
    let g = match first {
        Some(n) => n,
        None => String::from_str("game.exe"),
    };
    if str_eq(g.as_str(), "game.exe") {
        match exe_name {
            Some(n) => n,
            None => g,
        }
    } else {
        g
    }
}

/// Whether an argument ends in `.exe`, in any case.
pub open spec fn is_exe_arg(a: Seq<char>) -> bool {
    seq_ends_with(lowercase(a), ".exe"@)
}

/// Guesses the name of the Windows program that a Wine launch starts, from
/// its arguments and the launched path.
pub fn guess_target_name(args: &Vec<String>, launcher_exe_path: &str) -> (r: String)
    ensures
        r@ == spec_guess_name(
            first_exe_name(
                strings_view(args@).map_values(|a: Seq<char>| is_exe_arg(a)),
                strings_view(args@).map_values(|a: Seq<char>| path_file_name(a)),
            ),
            path_file_name(launcher_exe_path@),
        ),
{
    let ghost av = strings_view(args@);
    let mut is_exe: Vec<bool> = Vec::new();
    let mut names: Vec<Option<String>> = Vec::new();
    let mut k: usize = 0;
    while k < args.len()
        invariant
            k <= args@.len(),
            av == strings_view(args@),
            is_exe@ == av.take(k as int).map_values(|a: Seq<char>| is_exe_arg(a)),
            opt_strings_view(names@) == av.take(k as int).map_values(|a: Seq<char>| path_file_name(a)),
        decreases args@.len() - k,
    {
        let lower = to_lowercase(args[k].as_str());
        let e = str_ends_with(lower.as_str(), ".exe");
        let ghost nb = opt_strings_view(names@);
        is_exe.push(e);
        let nm = file_name_of(args[k].as_str());
        names.push(nm);
        assert(opt_strings_view(names@) =~= nb.push(opt_text(nm)));
        assert(av.take(k + 1) =~= av.take(k as int).push(av[k as int]));
        assert(is_exe@ =~= av.take(k + 1).map_values(|a: Seq<char>| is_exe_arg(a)));
        assert(opt_strings_view(names@) =~= av.take(k + 1).map_values(|a: Seq<char>| path_file_name(a)));
        k = k + 1;
    }
    assert(av.take(args@.len() as int) =~= av);
    let exe_name = file_name_of(launcher_exe_path);
    choose_guessed_name(&is_exe, &names, exe_name)
}

/// The name of the process to wait for after a launch: the selected
/// process's name, `game.exe` when the selection is stale, else `fallback`.
pub open spec fn spec_target_comm(selected: Option<usize>, comms: Seq<Seq<char>>, fallback: Seq<char>) -> Seq<char> {
    match selected {
        Some(i) => if i < comms.len() { comms[i as int] } else { "game.exe"@ },
        None => fallback,
    }
}

/// Picks the name of the process to wait for after a launch.
pub fn target_comm(selected: Option<usize>, comms: &Vec<String>, fallback: String) -> (r: String)
    ensures
        r@ == spec_target_comm(selected, strings_view(comms@), fallback@),
{
    match selected {
        Some(i) => if i < comms.len() {
            comms[i].clone()
        } else {
            String::from_str("game.exe")
        },
        None => fallback,
    }
}

/// What a successful spawn leads to: a program under Wine or Proton is
/// waited for by name, and the launch answers `-1`; another one answers
/// its own process id.
pub fn after_spawn(
    pid: i32,
    via_proton: bool,
    program: &str,
    selected: Option<usize>,
    comms: &Vec<String>,
    args: &Vec<String>,
    launcher_exe_path: &str,
) -> (r: (i32, Option<String>))
    ensures
        !spec_is_wine_or_proton(via_proton, program@) ==> r.0 == pid && r.1 is None,
        spec_is_wine_or_proton(via_proton, program@) ==> r.0 == -1 && r.1 is Some,
        spec_is_wine_or_proton(via_proton, program@) && selected is Some ==> r.1.unwrap()@ == spec_target_comm(
            selected,
            strings_view(comms@),
            "game.exe"@,
        ),
        spec_is_wine_or_proton(via_proton, program@) && selected is None ==> r.1.unwrap()@ == spec_guess_name(
            first_exe_name(
                strings_view(args@).map_values(|a: Seq<char>| is_exe_arg(a)),
                strings_view(args@).map_values(|a: Seq<char>| path_file_name(a)),
            ),
            path_file_name(launcher_exe_path@),
        ),
{
    if !is_wine_or_proton(via_proton, program) {
        return (pid, None);
    }
    let name = match selected {
        Some(_) => target_comm(selected, comms, String::from_str("game.exe")),
        None => guess_target_name(args, launcher_exe_path),
    };
    (-1, Some(name))
}


/// The variables of the launcher's own session that a relaunched program
/// gets in place of its own: display, session bus and `PATH`.
pub open spec fn passthrough_names() -> Seq<Seq<char>> {
    seq!["DISPLAY"@, "XAUTHORITY"@, "WAYLAND_DISPLAY"@, "XDG_RUNTIME_DIR"@, "DBUS_SESSION_BUS_ADDRESS"@, "PATH"@]
}

/// Lists the variables of the launcher's session that a relaunch passes on.
pub fn passthrough_env_names() -> (r: Vec<&'static str>)
    ensures
        r@.map_values(|s: &str| s@) == passthrough_names(),
{
    let v = vec!["DISPLAY", "XAUTHORITY", "WAYLAND_DISPLAY", "XDG_RUNTIME_DIR", "DBUS_SESSION_BUS_ADDRESS", "PATH"];
    assert(v@.map_values(|s: &str| s@) =~= passthrough_names());
    v
}

} // verus!
