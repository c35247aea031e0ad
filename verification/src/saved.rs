use vstd::prelude::*;
use vstd::string::*;
use crate::scan_type::ScanType;

verus! {

/// An address kept in the list of saved addresses.
#[derive(Debug)]
pub struct SavedAddress {
    pub address: usize,
    pub description: String,
    pub scan_type: ScanType,
    pub write_buffer: String,
    pub is_locked: bool,
    pub locked_value_bytes: Vec<u8>,
    pub error_message: Option<String>,
}

/// A saved address as it is first added: nothing typed into its editor, not
/// locked, no frozen value, no error.
pub open spec fn is_fresh(a: SavedAddress) -> bool {
    &&& a.write_buffer@.len() == 0
    &&& !a.is_locked
    &&& a.locked_value_bytes@.len() == 0
    &&& a.error_message is None
}

/// The address, description and type of a saved address.
pub open spec fn entry_view(a: SavedAddress) -> (int, Seq<char>, ScanType) {
    (a.address as int, a.description@, a.scan_type)
}

/// A fresh saved address.
pub fn new_saved_address(address: usize, description: String, scan_type: ScanType) -> (r: SavedAddress)
    ensures
        is_fresh(r),
        entry_view(r) == (address as int, description@, scan_type),
{
    SavedAddress {
        address,
        description,
        scan_type,
        write_buffer: String::new(),
        is_locked: false,
        locked_value_bytes: Vec::new(),
        error_message: None,
    }
}

/// Whether an address is already in the saved list.
pub open spec fn saved_has(saved: Seq<SavedAddress>, address: int) -> bool {
    exists|i: int| 0 <= i < saved.len() && (#[trigger] saved[i]).address == address
}

/// Whether `address` is in the list.
pub fn is_saved(saved: &Vec<SavedAddress>, address: usize) -> (r: bool)
    ensures
        r == saved_has(saved@, address as int),
{
    let mut i: usize = 0;
    while i < saved.len()
        invariant
            i <= saved@.len(),
            forall|k: int| 0 <= k < i ==> (#[trigger] saved@[k]).address != address,
        decreases saved@.len() - i,
    {
        if saved[i].address == address {
            return true;
        }
        i = i + 1;
    }
    false
}

/// The label given to addresses saved from the candidate list.
pub open spec fn default_description() -> Seq<char> {
    "No Description"@
}

/// Saves one candidate address unless it is already saved or the list holds
/// `max` addresses.
pub fn save_address(saved: &mut Vec<SavedAddress>, address: usize, scan_type: ScanType, max: usize)
    ensures
        (!saved_has(old(saved)@, address as int) && old(saved)@.len() < max) ==> {
            &&& final(saved)@.len() == old(saved)@.len() + 1
            &&& final(saved)@.drop_last() == old(saved)@
            &&& is_fresh(final(saved)@.last())
            &&& entry_view(final(saved)@.last()) == (address as int, default_description(), scan_type)
        },
        (saved_has(old(saved)@, address as int) || old(saved)@.len() >= max) ==> final(saved)@ == old(
            saved,
        )@,
{
    if !is_saved(saved, address) && saved.len() < max {
        let a = new_saved_address(address, String::from_str("No Description"), scan_type);
        saved.push(a);
        assert(saved@.drop_last() =~= old(saved)@);
    }
}

/// The addresses in the list after "save all" has gone through the first
/// `k` candidate addresses: each is appended unless already there, until
/// the list holds `max` addresses.
pub open spec fn save_all_addresses(start: Seq<int>, cands: Seq<int>, max: int, k: nat) -> Seq<int>
    decreases k,
{
    if k == 0 {
        start
    } else {
        let p = save_all_addresses(start, cands, max, (k - 1) as nat);
        if p.len() >= max || p.contains(cands[k - 1]) {
            p
        } else {
            p.push(cands[k - 1])
        }
    }
}

/// No address occurs twice.
pub open spec fn no_repeats(s: Seq<int>) -> bool {
    forall|i: int, j: int| 0 <= i < j < s.len() ==> s[i] != s[j]
}

/// "Save all" keeps the saved list free of repeated addresses, never takes
/// it past `max` (a list that is already longer stays as it is), and adds
/// only candidate addresses, after the ones that were there.
pub proof fn lemma_save_all_keeps_list(start: Seq<int>, cands: Seq<int>, max: int, k: nat)
    requires
        no_repeats(start),
        k <= cands.len(),
    ensures
        no_repeats(save_all_addresses(start, cands, max, k)),
        save_all_addresses(start, cands, max, k).len() <= if start.len() >= max { start.len() as int } else { max },
        save_all_addresses(start, cands, max, k).len() >= start.len(),
        save_all_addresses(start, cands, max, k).take(start.len() as int) == start,
        forall|i: int|
            start.len() <= i < save_all_addresses(start, cands, max, k).len() ==> cands.contains(
                #[trigger] save_all_addresses(start, cands, max, k)[i],
            ),
    decreases k,
{
    if k > 0 {
        lemma_save_all_keeps_list(start, cands, max, (k - 1) as nat);
        let p = save_all_addresses(start, cands, max, (k - 1) as nat);
        if !(p.len() >= max || p.contains(cands[k - 1])) {
            let q = p.push(cands[k - 1]);
            assert forall|i: int, j: int| 0 <= i < j < q.len() implies q[i] != q[j] by {
                if j == q.len() - 1 {
                    assert(q[i] == p[i]);
                }
            }
            assert(q.take(start.len() as int) =~= p.take(start.len() as int));
            assert(cands.contains(cands[k - 1]));
        }
    } else {
        assert(start.take(start.len() as int) =~= start);
    }
}

/// The addresses of a saved list.
pub open spec fn saved_addresses(saved: Seq<SavedAddress>) -> Seq<int> {
    saved.map_values(|a: SavedAddress| a.address as int)
}

/// Saves every candidate address not yet saved, in order, stopping when the
/// list holds `max` addresses. The saved entries already there stay as they
/// are; each new one is fresh, of `scan_type`, and labelled "No Description".
pub fn save_all_candidates(
    saved: &mut Vec<SavedAddress>,
    candidates: &Vec<usize>,
    scan_type: ScanType,
    max: usize,
)
    ensures
        saved_addresses(final(saved)@) == save_all_addresses(
            saved_addresses(old(saved)@),
            candidates@.map_values(|c: usize| c as int),
            max as int,
            candidates@.len(),
        ),
        final(saved)@.len() >= old(saved)@.len(),
        final(saved)@.take(old(saved)@.len() as int) == old(saved)@,
        forall|i: int|
            old(saved)@.len() <= i < final(saved)@.len() ==> is_fresh(#[trigger] final(saved)@[i])
                && final(saved)@[i].scan_type == scan_type && final(saved)@[i].description@ == default_description(),
{
    let ghost cands = candidates@.map_values(|c: usize| c as int);
    let ghost start = saved_addresses(saved@);
    let ghost orig = saved@;
    let mut i: usize = 0;
    while i < candidates.len()
        invariant
            i <= candidates@.len(),
            cands == candidates@.map_values(|c: usize| c as int),
            saved_addresses(saved@) == save_all_addresses(start, cands, max as int, i as nat),
            saved@.len() >= orig.len(),
            saved@.take(orig.len() as int) == orig,
            forall|k: int|
                orig.len() <= k < saved@.len() ==> is_fresh(#[trigger] saved@[k]) && saved@[k].scan_type
                    == scan_type && saved@[k].description@ == default_description(),
        decreases candidates@.len() - i,
    {
        let c = candidates[i];
        let ghost p = saved_addresses(saved@);
        assert(cands[i as int] == c as int);
        if saved.len() < max && !is_saved(saved, c) {
            assert(!p.contains(c as int)) by {
                if p.contains(c as int) {
                    let k = choose|k: int| 0 <= k < p.len() && p[k] == c as int;
                    assert(saved@[k].address == c);
                }
            }
            let ghost before = saved@;
            let a = new_saved_address(c, String::from_str("No Description"), scan_type);
            saved.push(a);
            assert(saved_addresses(saved@) =~= p.push(c as int));
            assert(saved@.take(orig.len() as int) =~= before.take(orig.len() as int));
        } else {
            proof {
                if saved@.len() < max {
                    let k = choose|k: int| 0 <= k < saved@.len() && (#[trigger] saved@[k]).address == c;
                    assert(p[k] == c as int);
                }
            }
        }
        i = i + 1;
    }
}


/// Whether position `i` is listed in `del`.
pub open spec fn lists_index(del: Seq<usize>, i: int) -> bool {
    exists|k: int| 0 <= k < del.len() && del[k] as int == i
}

/// The entries of `s` whose positions are not listed in `del`, in order.
pub open spec fn without_indices<T>(s: Seq<T>, del: Seq<usize>) -> Seq<T>
    decreases s.len(),
{
    if s.len() == 0 {
        seq![]
    } else {
        let p = without_indices(s.drop_last(), del);
        if lists_index(del, s.len() - 1) {
            p
        } else {
            p.push(s.last())
        }
    }
}

/// Whether `i` is among the positions in `del`.
fn has_index(del: &Vec<usize>, i: usize) -> (r: bool)
    ensures
        r == lists_index(del@, i as int),
{
    let mut k: usize = 0;
    while k < del.len()
        invariant
            k <= del@.len(),
            forall|m: int| 0 <= m < k ==> del@[m] != i,
        decreases del@.len() - k,
    {
        if del[k] == i {
            return true;
        }
        k = k + 1;
    }
    false
}

/// Removes the saved entries at the listed positions, keeping the others
/// in order (the panel lists the rows whose remove button was pressed).
pub fn remove_saved(saved: &mut Vec<SavedAddress>, del: &Vec<usize>)
    ensures
        final(saved)@ == without_indices(old(saved)@, del@),
{
    let ghost orig = saved@;
    let mut rest: Vec<SavedAddress> = Vec::new();
    std::mem::swap(&mut rest, saved);
    let ghost target = without_indices(orig, del@);
    let ghost mut tail: Seq<SavedAddress> = seq![];
    let mut kept_rev: Vec<SavedAddress> = Vec::new();
    let mut i: usize = rest.len();
    assert(orig.take(i as int) =~= orig);
    while i > 0
        invariant
            i <= orig.len(),
            rest@ == orig.take(i as int),
            target == without_indices(orig, del@),
            target == without_indices(orig.take(i as int), del@) + tail,
            kept_rev@.len() == tail.len(),
            forall|k: int| 0 <= k < tail.len() ==> kept_rev@[k] == tail[tail.len() - 1 - k],
        decreases i,
    {
        let ghost pre = orig.take(i as int);
        assert(pre.drop_last() =~= orig.take(i - 1));
        i = i - 1;
        let x = rest.pop().unwrap();
        assert(x == pre.last());
        assert(rest@ =~= orig.take(i as int));
        if !has_index(del, i) {
            proof {
                let old_tail = tail;
                tail = seq![x] + old_tail;
                assert(without_indices(pre, del@) == without_indices(orig.take(i as int), del@).push(x));
                assert(target =~= without_indices(orig.take(i as int), del@) + tail);
            }
            kept_rev.push(x);
        }
    }
    assert(orig.take(0) =~= Seq::<SavedAddress>::empty());
    assert(target =~= tail);
    let ghost n = tail.len();
    while kept_rev.len() > 0
        invariant
            n == tail.len(),
            kept_rev@.len() <= n,
            target == tail,
            saved@ == tail.take(n - kept_rev@.len()),
            forall|k: int| 0 <= k < kept_rev@.len() ==> kept_rev@[k] == tail[n - 1 - k],
        decreases kept_rev@.len(),
    {
        let ghost m = n - kept_rev@.len();
        let x = kept_rev.pop().unwrap();
        assert(x == tail[m]);
        saved.push(x);
        assert(tail.take(m + 1) =~= tail.take(m).push(x));
    }
    assert(tail.take(n as int) =~= tail);
}

/// A lock whose value is being taken: the address and the number of bytes
/// to read from it.
#[derive(Debug, Clone, Copy, PartialEq, Eq, Structural)]
pub struct LockRead {
    pub address: usize,
    pub size: usize,
}

/// Sets the lock box of a saved entry. When it turns the lock on while a
/// process is attached (`pid != 0`), the current value must be read to be
/// frozen: the read to make is returned.
pub fn set_locked(sa: &mut SavedAddress, locked: bool, pid: i32) -> (r: Option<LockRead>)
    ensures
        final(sa).is_locked == locked,
        final(sa).address == old(sa).address,
        final(sa).description == old(sa).description,
        final(sa).scan_type == old(sa).scan_type,
        final(sa).write_buffer == old(sa).write_buffer,
        final(sa).locked_value_bytes == old(sa).locked_value_bytes,
        final(sa).error_message == old(sa).error_message,
        r is Some <==> (locked && !old(sa).is_locked && pid != 0),
        r matches Some(q) ==> q.address == old(sa).address && q.size as nat == crate::scan_type::spec_size(old(sa).scan_type),
{
    let newly = locked && !sa.is_locked && pid != 0;
    sa.is_locked = locked;
    if newly {
        Some(LockRead { address: sa.address, size: sa.scan_type.size() })
    } else {
        None
    }
}

/// The message kept when the value to freeze could not be read.
pub open spec fn lock_read_failed() -> Seq<char> {
    "Failed to read value for lock"@
}

/// Finishes turning a lock on with what the read gave: the bytes are
/// frozen; without them the lock is turned off again and the failure noted.
pub fn finish_lock(sa: &mut SavedAddress, read: Option<Vec<u8>>)
    ensures
        final(sa).address == old(sa).address,
        final(sa).description == old(sa).description,
        final(sa).scan_type == old(sa).scan_type,
        final(sa).write_buffer == old(sa).write_buffer,
        read matches Some(b) ==> final(sa).locked_value_bytes@ == b@ && final(sa).error_message is None
            && final(sa).is_locked == old(sa).is_locked,
        read is None ==> !final(sa).is_locked && final(sa).locked_value_bytes == old(sa).locked_value_bytes
            && (final(sa).error_message matches Some(e) && e@ == lock_read_failed()),
{
    match read {
        Some(b) => {
            sa.locked_value_bytes = b;
            sa.error_message = None;
        },
        None => {
            sa.is_locked = false;
            sa.error_message = Some(String::from_str("Failed to read value for lock"));
        },
    }
}

/// The message kept when the text typed for a saved entry is not a value of its type.
pub open spec fn invalid_input_message() -> Seq<char> {
    "Invalid input value format"@
}

/// Records the outcome of writing the value typed for a saved entry:
/// `bytes` is `None` when the text did not parse, `error` the failure of the
/// write. A successful write clears the error and, on a locked entry,
/// becomes the frozen value.
pub fn record_write(sa: &mut SavedAddress, bytes: Option<Vec<u8>>, error: Option<String>)
    ensures
        final(sa).address == old(sa).address,
        final(sa).description == old(sa).description,
        final(sa).scan_type == old(sa).scan_type,
        final(sa).write_buffer == old(sa).write_buffer,
        final(sa).is_locked == old(sa).is_locked,
        bytes is None ==> final(sa).locked_value_bytes == old(sa).locked_value_bytes
            && (final(sa).error_message matches Some(e) && e@ == invalid_input_message()),
        bytes is Some && error is Some ==> final(sa).locked_value_bytes == old(sa).locked_value_bytes
            && final(sa).error_message == error,
        bytes is Some && error is None ==> final(sa).error_message is None,
        bytes is Some && error is None && old(sa).is_locked ==> final(sa).locked_value_bytes@ == bytes.unwrap()@,
        bytes is Some && error is None && !old(sa).is_locked ==> final(sa).locked_value_bytes == old(
            sa,
        ).locked_value_bytes,
{
    match bytes {
        None => {
            sa.error_message = Some(String::from_str("Invalid input value format"));
        },
        Some(b) => match error {
            Some(e) => {
                sa.error_message = Some(e);
            },
            None => {
                sa.error_message = None;
                if sa.is_locked {
                    sa.locked_value_bytes = b;
                }
            },
        },
    }
}

/// The positions of the entries whose frozen value is written back on each
/// frame: locked, with a value taken.
pub fn frozen_entries(saved: &Vec<SavedAddress>) -> (r: Vec<usize>)
    ensures
        forall|k: int| 0 <= k < r@.len() ==> (#[trigger] r@[k]) < saved@.len(),
        forall|j: int, k: int| 0 <= j < k < r@.len() ==> r@[j] < r@[k],
        forall|i: int|
            0 <= i < saved@.len() ==> (lists_index(r@, i) <==> (saved@[i].is_locked
                && saved@[i].locked_value_bytes@.len() > 0)),
{
    let mut out: Vec<usize> = Vec::new();
    let mut i: usize = 0;
    while i < saved.len()
        invariant
            i <= saved@.len(),
            forall|k: int| 0 <= k < out@.len() ==> (#[trigger] out@[k]) < i,
            forall|j: int, k: int| 0 <= j < k < out@.len() ==> out@[j] < out@[k],
            forall|m: int|
                0 <= m < i ==> (lists_index(out@, m) <==> (saved@[m].is_locked
                    && saved@[m].locked_value_bytes@.len() > 0)),
        decreases saved@.len() - i,
    {
        let ghost before = out@;
        if saved[i].is_locked && saved[i].locked_value_bytes.len() > 0 {
            out.push(i);
            assert(lists_index(out@, i as int)) by {
                assert(out@[out@.len() - 1] == i);
            }
            assert forall|m: int| 0 <= m < i implies (#[trigger] lists_index(out@, m) <==> lists_index(before, m)) by {
                if lists_index(out@, m) {
                    let k = choose|k: int| 0 <= k < out@.len() && out@[k] as int == m;
                    assert(k < before.len());
                    assert(before[k] == out@[k]);
                }
                if lists_index(before, m) {
                    let k = choose|k: int| 0 <= k < before.len() && before[k] as int == m;
                    assert(out@[k] == before[k]);
                }
            }
        } else {
            assert(!lists_index(out@, i as int));
        }
        assert forall|m: int| 0 <= m < i + 1 implies (lists_index(out@, m) <==> (saved@[m].is_locked
            && saved@[m].locked_value_bytes@.len() > 0)) by {
            if m < i {
                assert(lists_index(out@, m) <==> lists_index(before, m));
            }
        }
        i = i + 1;
    }
    out
}


/// Records the outcome of writing back the frozen value of a saved entry:
/// the failure of the write, or no error when it succeeded.
pub fn record_freeze(sa: &mut SavedAddress, error: Option<String>)
    ensures
        final(sa).error_message == error,
        final(sa).address == old(sa).address,
        final(sa).description == old(sa).description,
        final(sa).scan_type == old(sa).scan_type,
        final(sa).write_buffer == old(sa).write_buffer,
        final(sa).is_locked == old(sa).is_locked,
        final(sa).locked_value_bytes == old(sa).locked_value_bytes,
{
    sa.error_message = error;
}

} // verus!
