use vstd::prelude::*;
use vstd::string::*;
use crate::text::{decimal_string, push_nat_digits, spec_parse_int, parse_int, strings_view};
use crate::launcher::{spec_speedhack_tmp_path, speedhack_tmp_path, spec_system_speedhack_path, system_speedhack_path};

verus! {

/// The user who owns the speed library and its control pipe: when running
/// as root, the user that `pkexec` elevated from (root itself when
/// `PKEXEC_UID` is missing or not a `u32`); otherwise the user running.
pub open spec fn spec_owner_uid(real_uid: u32, pkexec_uid: Option<Seq<char>>) -> u32 {
    if real_uid == 0 {
        match pkexec_uid {
            Some(t) => match spec_parse_int(t, 10, false, 0, 0xffff_ffff) {
                Some(v) => v as u32,
                None => 0,
            },
            None => 0,
        }
    } else {
        real_uid
    }
}

/// Finds the user who owns the speed library and its control pipe.
pub fn owner_uid(real_uid: u32, pkexec_uid: Option<&str>) -> (r: u32)
    ensures
        r == spec_owner_uid(real_uid, match pkexec_uid { Some(t) => Some(t@), None => None }),
{
    if real_uid == 0 {
        match pkexec_uid {
            Some(t) => match parse_int(t, 10, false, 0, 0xffff_ffff) {
                Some(v) => v as u32,
                None => 0,
            },
            None => 0,
        }
    } else {
        real_uid
    }
}

/// Whether files made for the owner are handed over to them, and writes to
/// the pipe are made as them: only root running on behalf of another user does so.
pub fn acts_for_other_user(real_uid: u32, owner: u32) -> (r: bool)
    ensures
        r == (real_uid == 0 && owner != 0),
{
    real_uid == 0 && owner != 0
}

/// The control pipe that the speed library of process `pid` opens, seen
/// from the host.
pub open spec fn spec_speed_pipe(pid: i32) -> Seq<char> {
    "/tmp/vibecheat_speed_"@ + decimal_string(pid as int)
}

/// The same pipe seen through the root of the process, for a process in its
/// own namespace where it has the id `ns_pid`.
pub open spec fn spec_speed_pipe_in_ns(pid: i32, ns_pid: i32) -> Seq<char> {
    "/proc/"@ + decimal_string(pid as int) + "/root/tmp/vibecheat_speed_"@ + decimal_string(ns_pid as int)
}

/// Appends the decimal text of an `i32`.
fn push_i32(out: &mut String, v: i32)
    ensures
        final(out)@ == old(out)@ + decimal_string(v as int),
{
    if v < 0 {
        proof {
            reveal_strlit("-");
        }
        out.append("-");
        let mag: u64 = if v == i32::MIN { 0x8000_0000u64 } else { (0 - v) as u64 };
        push_nat_digits(out, mag, 10);
    } else {
        push_nat_digits(out, v as u64, 10);
    }
}

/// Builds the host path of the speed pipe of a process.
pub fn speed_pipe(pid: i32) -> (r: String)
    ensures
        r@ == spec_speed_pipe(pid),
{
    let mut p = String::from_str("/tmp/vibecheat_speed_");
    push_i32(&mut p, pid);
    p
}

/// Builds the path of the speed pipe of a namespaced process, through its root.
pub fn speed_pipe_in_ns(pid: i32, ns_pid: i32) -> (r: String)
    ensures
        r@ == spec_speed_pipe_in_ns(pid, ns_pid),
{
    let mut p = String::from_str("/proc/");
    push_i32(&mut p, pid);
    p.append("/root/tmp/vibecheat_speed_");
    push_i32(&mut p, ns_pid);
    p
}

/// Which speed pipe to use for a process: none without a process
/// (`pid == 0`); the host path if it exists; else, when the process has a
/// namespaced id, the path through its root if that exists.
pub open spec fn spec_speed_pipe_choice(pid: i32, host_exists: bool, ns_pid: Option<i32>, ns_exists: bool) -> Option<Seq<char>> {
    if pid == 0 {
        None
    } else if host_exists {
        Some(spec_speed_pipe(pid))
    } else {
        match ns_pid {
            Some(n) => if ns_exists { Some(spec_speed_pipe_in_ns(pid, n)) } else { None },
            None => None,
        }
    }
}

/// Picks the speed pipe of a process, given which candidate paths exist.
pub fn speed_pipe_choice(pid: i32, host_exists: bool, ns_pid: Option<i32>, ns_exists: bool) -> (r: Option<String>)
    ensures
        r matches Some(p) ==> spec_speed_pipe_choice(pid, host_exists, ns_pid, ns_exists) == Some(p@),
        r is None ==> spec_speed_pipe_choice(pid, host_exists, ns_pid, ns_exists) is None,
{
    if pid == 0 {
        None
    } else if host_exists {
        Some(speed_pipe(pid))
    } else {
        match ns_pid {
            Some(n) => if ns_exists {
                Some(speed_pipe_in_ns(pid, n))
            } else {
                None
            },
            None => None,
        }
    }
}

/// The Steam launch options that preload both builds of a user's speed library.
pub open spec fn spec_steam_launch_options(uid: u32) -> Seq<char> {
    "LD_PRELOAD="@ + spec_speedhack_tmp_path(uid, false) + ":"@ + spec_speedhack_tmp_path(uid, true) + " %command%"@
}

/// Builds the Steam launch options that preload a user's speed library.
pub fn steam_launch_options(uid: u32) -> (r: String)
    ensures
        r@ == spec_steam_launch_options(uid),
{
    let mut s = String::from_str("LD_PRELOAD=");
    let p64 = speedhack_tmp_path(uid, false);
    let p32 = speedhack_tmp_path(uid, true);
    s.append(p64.as_str());
    s.append(":");
    s.append(p32.as_str());
    s.append(" %command%");
    s
}

/// Where the speed library's C source is written for building, per user.
pub open spec fn spec_source_path(uid: u32) -> Seq<char> {
    "/tmp/vibecheat_speedhack_"@ + decimal_string(uid as int) + ".c"@
}

/// Builds the path of the speed library's C source.
pub fn source_path(uid: u32) -> (r: String)
    ensures
        r@ == spec_source_path(uid),
{
    let mut p = String::from_str("/tmp/vibecheat_speedhack_");
    push_nat_digits(&mut p, uid as u64, 10);
    p.append(".c");
    p
}

/// Where a build of the speed library is first made, per user.
pub open spec fn spec_build_path(uid: u32, bits32: bool) -> Seq<char> {
    (if bits32 { "/tmp/vibecheat_temp_32_"@ } else { "/tmp/vibecheat_temp_64_"@ }) + decimal_string(uid as int) + ".so"@
}

/// Builds the path where a build of the speed library is first made.
pub fn build_path(uid: u32, bits32: bool) -> (r: String)
    ensures
        r@ == spec_build_path(uid, bits32),
{
    let mut p = if bits32 {
        String::from_str("/tmp/vibecheat_temp_32_")
    } else {
        String::from_str("/tmp/vibecheat_temp_64_")
    };
    push_nat_digits(&mut p, uid as u64, 10);
    p.append(".so");
    p
}

/// Where each build of the speed library is installed: always the owner's
/// copy in `/tmp`; running as root, also the system-wide one (the 32-bit
/// one only where `/usr/lib32` exists).
pub open spec fn spec_install_targets(owner: u32, is_root: bool, bits32: bool, lib32_exists: bool) -> Seq<Seq<char>> {
    let own = seq![spec_speedhack_tmp_path(owner, bits32)];
    if is_root && (!bits32 || lib32_exists) {
        own.push(spec_system_speedhack_path(bits32))
    } else {
        own
    }
}

/// Lists where a build of the speed library is installed.
pub fn install_targets(owner: u32, is_root: bool, bits32: bool, lib32_exists: bool) -> (r: Vec<String>)
    ensures
        strings_view(r@) == spec_install_targets(owner, is_root, bits32, lib32_exists),
{
    let mut v: Vec<String> = Vec::new();
    v.push(speedhack_tmp_path(owner, bits32));
    if is_root && (!bits32 || lib32_exists) {
        v.push(String::from_str(system_speedhack_path(bits32)));
    }
    assert(strings_view(v@) =~= spec_install_targets(owner, is_root, bits32, lib32_exists));
    v
}

/// The compiler arguments that build the speed library from `source` into `output`.
pub open spec fn spec_compiler_args(output: Seq<char>, source: Seq<char>, bits32: bool) -> Seq<Seq<char>> {
    let common = seq!["-shared"@, "-fPIC"@, "-o"@, output, source, "-lpthread"@, "-ldl"@];
    if bits32 {
        seq!["-m32"@] + common
    } else {
        common
    }
}

/// Builds the compiler arguments for one build of the speed library.
pub fn compiler_args(output: &str, source: &str, bits32: bool) -> (r: Vec<String>)
    ensures
        strings_view(r@) == spec_compiler_args(output@, source@, bits32),
{
    let mut v: Vec<String> = Vec::new();
    if bits32 {
        v.push(String::from_str("-m32"));
    }
    v.push(String::from_str("-shared"));
    v.push(String::from_str("-fPIC"));
    v.push(String::from_str("-o"));
    v.push(String::from_str(output));
    v.push(String::from_str(source));
    v.push(String::from_str("-lpthread"));
    v.push(String::from_str("-ldl"));
    assert(strings_view(v@) =~= spec_compiler_args(output@, source@, bits32));
    v
}

} // verus!
