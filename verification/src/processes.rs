use vstd::prelude::*;
use vstd::string::*;
use vstd::utf8::char_u32_cast;
use crate::text::{
    chars_vec, spec_trim, trim, seq_contains, str_contains, lowercase, to_lowercase, decimal_string,
    format_i64, str_eq, spec_parse_int, parse_int,
};

verus! {

/// A running process: its id and its command name.
#[derive(Debug)]
pub struct ProcessInfo {
    pub pid: i32,
    pub comm: String,
}

/// The id of the process that a `/proc` entry of this name stands for: the
/// name read as an `i32`.
pub fn pid_of_entry(name: &str) -> (r: Option<i32>)
    ensures
        r matches Some(p) ==> spec_parse_int(name@, 10, true, i32::MIN as int, i32::MAX as int) == Some(p as int),
        r is None ==> spec_parse_int(name@, 10, true, i32::MIN as int, i32::MAX as int) is None,
{
    match parse_int(name, 10, true, i32::MIN as i128, i32::MAX as i128) {
        Some(v) => Some(v as i32),
        None => None,
    }
}

/// A process with the content of its `comm` file, trimmed.
pub fn process_info(pid: i32, comm_file: &str) -> (r: ProcessInfo)
    ensures
        r.pid == pid,
        r.comm@ == spec_trim(comm_file@),
{
    ProcessInfo { pid, comm: String::from_str(trim(comm_file)) }
}

/// `a` comes before `b` in lexicographic order of characters (the order of
/// `str`'s comparison, since UTF-8 keeps the order of code points).
pub open spec fn lex_lt(a: Seq<char>, b: Seq<char>) -> bool
    decreases a.len(),
{
    if a.len() == 0 {
        b.len() > 0
    } else if b.len() == 0 {
        false
    } else if a[0] != b[0] {
        (a[0] as u32) < (b[0] as u32)
    } else {
        lex_lt(a.drop_first(), b.drop_first())
    }
}

/// No text comes before itself.
pub proof fn lemma_lex_irreflexive(a: Seq<char>)
    ensures
        !lex_lt(a, a),
    decreases a.len(),
{
    if a.len() > 0 {
        lemma_lex_irreflexive(a.drop_first());
    }
}

/// The order is transitive.
pub proof fn lemma_lex_transitive(a: Seq<char>, b: Seq<char>, c: Seq<char>)
    requires
        lex_lt(a, b),
        lex_lt(b, c),
    ensures
        lex_lt(a, c),
    decreases a.len(),
{
    if a.len() > 0 && b.len() > 0 && c.len() > 0 && a[0] == b[0] && b[0] == c[0] {
        lemma_lex_transitive(a.drop_first(), b.drop_first(), c.drop_first());
    }
}

/// Two different texts are ordered one way or the other.
pub proof fn lemma_lex_total(a: Seq<char>, b: Seq<char>)
    ensures
        a == b || lex_lt(a, b) || lex_lt(b, a),
    decreases a.len(),
{
    if a.len() > 0 && b.len() > 0 && a[0] == b[0] {
        lemma_lex_total(a.drop_first(), b.drop_first());
        if a.drop_first() == b.drop_first() {
            assert(a =~= seq![a[0]] + a.drop_first());
            assert(b =~= seq![b[0]] + b.drop_first());
        }
    } else if a.len() == 0 && b.len() == 0 {
        assert(a =~= b);
    } else if a.len() > 0 && b.len() > 0 {
        if (a[0] as u32) == (b[0] as u32) {
            char_u32_cast(a[0], a[0] as u32);
            char_u32_cast(b[0], b[0] as u32);
        }
    }
}

/// Whether `a` comes before `b`.
pub fn lex_less(a: &Vec<char>, b: &Vec<char>) -> (r: bool)
    ensures
        r == lex_lt(a@, b@),
{
    let mut i: usize = 0;
    assert(a@.skip(0) =~= a@);
    assert(b@.skip(0) =~= b@);
    loop
        invariant
            i <= a@.len(),
            i <= b@.len(),
            lex_lt(a@, b@) == lex_lt(a@.skip(i as int), b@.skip(i as int)),
        decreases a@.len() - i,
    {
        let ghost sa = a@.skip(i as int);
        let ghost sb = b@.skip(i as int);
        if i == a.len() {
            return i < b.len();
        }
        if i == b.len() {
            return false;
        }
        assert(sa[0] == a@[i as int] && sb[0] == b@[i as int]);
        if a[i] != b[i] {
            return (a[i] as u32) < (b[i] as u32);
        }
        assert(sa.drop_first() =~= a@.skip(i + 1));
        assert(sb.drop_first() =~= b@.skip(i + 1));
        i = i + 1;
    }
}

/// The order in which processes are listed: by the lower-case form of
/// their names.
pub open spec fn sort_key(p: ProcessInfo) -> Seq<char> {
    lowercase(p.comm@)
}

/// The sort keys of a process list.
pub open spec fn sort_keys(procs: Seq<ProcessInfo>) -> Seq<Seq<char>> {
    procs.map_values(|p: ProcessInfo| sort_key(p))
}

/// `order` lists each position below `n` exactly once.
pub open spec fn is_permutation(order: Seq<usize>, n: nat) -> bool {
    &&& order.len() == n
    &&& forall|k: int| 0 <= k < order.len() ==> (#[trigger] order[k]) < n
    &&& forall|j: int, k: int| 0 <= j < k < order.len() ==> order[j] != order[k]
}

/// `order` lists `keys` in ascending order, and keeps entries with equal
/// keys in the order they had.
pub open spec fn is_stable_sort(keys: Seq<Seq<char>>, order: Seq<usize>) -> bool {
    &&& is_permutation(order, keys.len())
    &&& forall|j: int, k: int|
        0 <= j < k < order.len() ==> !lex_lt(#[trigger] keys[order[k] as int], #[trigger] keys[order[j] as int])
    &&& forall|j: int, k: int|
        0 <= j < k < order.len() && keys[order[j] as int] == keys[order[k] as int] ==> order[j] < order[k]
}

/// The positions of `keys` in stably sorted order.
pub fn stable_sort_order(keys: &Vec<Vec<char>>) -> (r: Vec<usize>)
    ensures
        is_stable_sort(keys@.map_values(|k: Vec<char>| k@), r@),
{
    let ghost kv = keys@.map_values(|k: Vec<char>| k@);
    let mut order: Vec<usize> = Vec::new();
    let mut i: usize = 0;
    while i < keys.len()
        invariant
            i <= keys@.len(),
            kv == keys@.map_values(|k: Vec<char>| k@),
            is_stable_sort(kv.take(i as int), order@),
            forall|k: int| 0 <= k < order@.len() ==> (#[trigger] order@[k]) < i,
        decreases keys@.len() - i,
    {
        let ghost old_order = order@;
        let ghost ki = kv[i as int];
        // First position whose key comes after the new one.
        let mut p: usize = 0;
        while p < order.len() && !lex_less(&keys[i], &keys[order[p]])
            invariant
                p <= order@.len(),
                order@ == old_order,
                kv == keys@.map_values(|k: Vec<char>| k@),
                i < keys@.len(),
                ki == kv[i as int],
                forall|k: int| 0 <= k < order@.len() ==> (#[trigger] order@[k]) < i,
                forall|q: int| 0 <= q < p ==> !lex_lt(ki, #[trigger] kv[order@[q] as int]),
            decreases order@.len() - p,
        {
            p = p + 1;
        }
        let ghost n = old_order.len();
        proof {
            // Everything from `p` on comes after the new key.
            assert forall|q: int| p <= q < n implies lex_lt(ki, #[trigger] kv[old_order[q] as int]) by {
                if q > p {
                    let kp = kv[old_order[p as int] as int];
                    let kq = kv[old_order[q] as int];
                    assert(kv.take(i as int)[old_order[p as int] as int] == kp);
                    assert(kv.take(i as int)[old_order[q] as int] == kq);
                    assert(!lex_lt(kq, kp));
                    lemma_lex_total(kp, kq);
                    if kp != kq {
                        lemma_lex_transitive(ki, kp, kq);
                    }
                }
            }
        }
        order.insert(p, i);
        proof {
            let nk = kv.take(i + 1);
            assert forall|k: int| 0 <= k < order@.len() implies (#[trigger] order@[k]) < i + 1 by {
                if k < p {
                    assert(order@[k] == old_order[k]);
                } else if k > p {
                    assert(order@[k] == old_order[k - 1]);
                }
            }
            assert forall|j: int, k: int| 0 <= j < k < order@.len() implies order@[j] != order@[k] by {
                if k == p {
                    assert(order@[j] == old_order[j]);
                } else if j == p {
                    assert(order@[k] == old_order[k - 1]);
                } else {
                    let oj = if j < p { j } else { j - 1 };
                    let ok = if k < p { k } else { k - 1 };
                    assert(order@[j] == old_order[oj]);
                    assert(order@[k] == old_order[ok]);
                }
            }
            assert forall|k: int| 0 <= k < order@.len() implies nk[#[trigger] order@[k] as int] == kv[order@[k] as int] by {
            }
            assert forall|j: int, k: int|
                0 <= j < k < order@.len() implies !lex_lt(
                #[trigger] nk[order@[k] as int],
                #[trigger] nk[order@[j] as int],
            ) && (nk[order@[j] as int] == nk[order@[k] as int] ==> order@[j] < order@[k]) by {
                let okt = kv.take(i as int);
                if j == p {
                    let ok = k - 1;
                    assert(order@[k] == old_order[ok]);
                    assert(lex_lt(ki, kv[old_order[ok] as int]));
                    lemma_lex_irreflexive(ki);
                    if lex_lt(kv[old_order[ok] as int], ki) {
                        lemma_lex_transitive(ki, kv[old_order[ok] as int], ki);
                    }
                } else if k == p {
                    assert(order@[j] == old_order[j]);
                    assert(!lex_lt(ki, kv[old_order[j] as int]));
                } else {
                    let oj = if j < p { j } else { j - 1 };
                    let ok = if k < p { k } else { k - 1 };
                    assert(order@[j] == old_order[oj]);
                    assert(order@[k] == old_order[ok]);
                    assert(okt[old_order[oj] as int] == kv[old_order[oj] as int]);
                    assert(okt[old_order[ok] as int] == kv[old_order[ok] as int]);
                }
            }
        }
        i = i + 1;
    }
    assert(kv.take(keys@.len() as int) =~= kv);
    order
}

/// A copy of a process entry.
pub fn copy_process(p: &ProcessInfo) -> (r: ProcessInfo)
    ensures
        r == *p,
{
    ProcessInfo { pid: p.pid, comm: p.comm.clone() }
}

/// The process list in display order: sorted by lower-case name, processes
/// with the same name keeping their order.
pub fn sort_processes(procs: &Vec<ProcessInfo>) -> (r: Vec<ProcessInfo>)
    ensures
        exists|order: Seq<usize>|
            #[trigger] is_stable_sort(sort_keys(procs@), order) && r@.len() == procs@.len()
                && forall|k: int| 0 <= k < r@.len() ==> r@[k] == procs@[order[k] as int],
{
    let ghost pv = procs@;
    let mut keys: Vec<Vec<char>> = Vec::new();
    let mut i: usize = 0;
    while i < procs.len()
        invariant
            i <= procs@.len(),
            pv == procs@,
            keys@.map_values(|k: Vec<char>| k@) == pv.take(i as int).map_values(|p: ProcessInfo| sort_key(p)),
        decreases procs@.len() - i,
    {
        let lower = to_lowercase(procs[i].comm.as_str());
        let ghost before = keys@.map_values(|k: Vec<char>| k@);
        keys.push(chars_vec(lower.as_str()));
        assert(keys@.map_values(|k: Vec<char>| k@) =~= before.push(sort_key(pv[i as int])));
        assert(pv.take(i + 1).map_values(|p: ProcessInfo| sort_key(p)) =~= pv.take(i as int).map_values(
            |p: ProcessInfo| sort_key(p),
        ).push(sort_key(pv[i as int])));
        i = i + 1;
    }
    assert(pv.take(pv.len() as int) =~= pv);
    let order = stable_sort_order(&keys);
    let mut out: Vec<ProcessInfo> = Vec::new();
    let mut k: usize = 0;
    while k < order.len()
        invariant
            k <= order@.len(),
            is_permutation(order@, pv.len()),
            pv == procs@,
            out@.len() == k,
            forall|m: int| 0 <= m < k ==> out@[m] == #[trigger] pv[order@[m] as int],
        decreases order@.len() - k,
    {
        let q = copy_process(&procs[order[k]]);
        out.push(q);
        k = k + 1;
    }
    assert(is_stable_sort(sort_keys(pv), order@));
    out
}


/// A process is shown for a search when its lower-case name, or its id in
/// decimal, contains the lower-cased search text.
pub open spec fn process_matches(p: ProcessInfo, query: Seq<char>) -> bool {
    seq_contains(lowercase(p.comm@), query) || seq_contains(decimal_string(p.pid as int), query)
}

/// The positions of the processes shown for a lower-cased search text, in order.
pub open spec fn matching_positions(procs: Seq<ProcessInfo>, query: Seq<char>) -> Seq<usize>
    decreases procs.len(),
{
    if procs.len() == 0 {
        seq![]
    } else {
        let prev = matching_positions(procs.drop_last(), query);
        if process_matches(procs.last(), query) {
            prev.push((procs.len() - 1) as usize)
        } else {
            prev
        }
    }
}

/// The positions of the processes that a search in the task manager shows.
pub fn filter_processes(procs: &Vec<ProcessInfo>, search: &str) -> (r: Vec<usize>)
    ensures
        r@ == matching_positions(procs@, lowercase(search@)),
{
    let query = to_lowercase(search);
    let ghost q = lowercase(search@);
    let mut out: Vec<usize> = Vec::new();
    let mut i: usize = 0;
    assert(procs@.take(0) =~= Seq::<ProcessInfo>::empty());
    while i < procs.len()
        invariant
            i <= procs@.len(),
            query@ == q,
            out@ == matching_positions(procs@.take(i as int), q),
        decreases procs@.len() - i,
    {
        let ghost next = procs@.take(i + 1);
        assert(next.drop_last() =~= procs@.take(i as int));
        assert(next.last() == procs@[i as int]);
        let name = to_lowercase(procs[i].comm.as_str());
        let id = format_i64(procs[i].pid as i64);
        if str_contains(name.as_str(), query.as_str()) || str_contains(id.as_str(), query.as_str()) {
            out.push(i);
        }
        i = i + 1;
    }
    assert(procs@.take(procs@.len() as int) =~= procs@);
    out
}

/// The id of the first process whose name is `comm`.
pub open spec fn first_with_comm(procs: Seq<ProcessInfo>, comm: Seq<char>) -> Option<i32>
    decreases procs.len(),
{
    if procs.len() == 0 {
        None
    } else if procs[0].comm@ == comm {
        Some(procs[0].pid)
    } else {
        first_with_comm(procs.drop_first(), comm)
    }
}

/// Finds the first process named `comm`.
pub fn find_by_comm(procs: &Vec<ProcessInfo>, comm: &str) -> (r: Option<i32>)
    ensures
        r == first_with_comm(procs@, comm@),
{
    let mut i: usize = 0;
    assert(procs@.skip(0) =~= procs@);
    while i < procs.len()
        invariant
            i <= procs@.len(),
            first_with_comm(procs@, comm@) == first_with_comm(procs@.skip(i as int), comm@),
        decreases procs@.len() - i,
    {
        assert(procs@.skip(i as int)[0] == procs@[i as int]);
        assert(procs@.skip(i as int).drop_first() =~= procs@.skip(i + 1));
        if str_eq(procs[i].comm.as_str(), comm) {
            return Some(procs[i].pid);
        }
        i = i + 1;
    }
    assert(procs@.skip(i as int) =~= Seq::<ProcessInfo>::empty());
    None
}

/// Seconds to wait for a game started through Steam or Wine to show up.
pub const ATTACH_TIMEOUT_SECS: u64 = 30;

/// What a poll for a game that is starting up decides.
#[derive(Debug, Clone, Copy, PartialEq, Eq, Structural)]
pub enum AttachPoll {
    /// The wait has gone on too long.
    TimedOut,
    /// The game is running with this id: attach to it.
    Attach(i32),
    /// Not there yet.
    Waiting,
}

/// One poll for a game started through Steam or Wine: after more than
/// `ATTACH_TIMEOUT_SECS` seconds the wait ends, else the first process with
/// the awaited name is attached to.
pub fn poll_attach(elapsed_secs: u64, procs: &Vec<ProcessInfo>, comm: &str) -> (r: AttachPoll)
    ensures
        elapsed_secs > ATTACH_TIMEOUT_SECS ==> r is TimedOut,
        elapsed_secs <= ATTACH_TIMEOUT_SECS ==> match first_with_comm(procs@, comm@) {
            Some(pid) => r == AttachPoll::Attach(pid),
            None => r is Waiting,
        },
{
    if elapsed_secs > ATTACH_TIMEOUT_SECS {
        return AttachPoll::TimedOut;
    }
    match find_by_comm(procs, comm) {
        Some(pid) => AttachPoll::Attach(pid),
        None => AttachPoll::Waiting,
    }
}

/// The message shown when a game to attach to did not show up in time.
pub fn attach_timeout_message() -> (r: &'static str)
    ensures
        r@ == "Timed out waiting for Steam game to start."@,
{
    "Timed out waiting for Steam game to start."
}

} // verus!
