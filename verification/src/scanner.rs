use vstd::prelude::*;
use vstd::string::*;
use vstd::slice::{slice_to_vec, slice_subrange};
use crate::scan_type::{ScanType, CompareType, spec_size, spec_is_float};
use crate::value::{
    spec_parse_value_bytes, parse_value_bytes_in_order,
    ByteOrder, spec_compare_values, compare_values_in_order, native_byte_order, machine_order, lemma_equal_reflexive,
    lemma_trichotomy, lemma_changed_is_not_unchanged, signed_value, operand_bytes,
};
use vstd::arithmetic::div_mod::{lemma_fundamental_div_mod, lemma_fundamental_div_mod_converse_mod};

verus! {

/// Bytes read per request while scanning a region (16 MiB).
pub const SCAN_CHUNK: usize = 16 * 1024 * 1024;

/// A readable and writable private mapping `[start, end)` of the target.
#[derive(Debug, Clone, Copy, PartialEq, Eq, Structural)]
pub struct MemoryRegion {
    pub start: usize,
    pub end: usize,
}

/// An address that still matches the scan, with the bytes it held when it
/// was last read.
#[derive(Debug)]
pub struct Candidate {
    pub address: usize,
    pub last_value_bytes: Vec<u8>,
}

impl View for Candidate {
    type V = (int, Seq<u8>);

    open spec fn view(&self) -> (int, Seq<u8>) {
        (self.address as int, self.last_value_bytes@)
    }
}

/// The target process and the state of the scan on it.
pub struct ScannerState {
    pub pid: i32,
    pub regions: Vec<MemoryRegion>,
    pub candidates: Vec<Candidate>,
    pub is_initial_scan: bool,
    pub scan_type: ScanType,
    pub alignment: usize,
}

/// The candidates of a state, as (address, bytes) pairs.
pub open spec fn candidates_view(c: Seq<Candidate>) -> Seq<(int, Seq<u8>)> {
    c.map_values(|x: Candidate| x@)
}

impl ScannerState {
    /// A state for `pid` with no regions, no candidates and no scan done yet.
    pub fn new(pid: i32, scan_type: ScanType, alignment: usize) -> (r: Self)
        ensures
            r.pid == pid,
            r.regions@.len() == 0,
            r.candidates@.len() == 0,
            r.is_initial_scan,
            r.scan_type == scan_type,
            r.alignment == alignment,
    {
        ScannerState {
            pid,
            regions: Vec::new(),
            candidates: Vec::new(),
            is_initial_scan: true,
            scan_type,
            alignment,
        }
    }

    /// Drops the candidates and starts over with a first scan, keeping the
    /// target, its regions and the settings.
    pub fn reset_scan(&mut self)
        ensures
            final(self).candidates@.len() == 0,
            final(self).is_initial_scan,
            final(self).pid == old(self).pid,
            final(self).regions == old(self).regions,
            final(self).scan_type == old(self).scan_type,
            final(self).alignment == old(self).alignment,
    {
        self.candidates.clear();
        self.is_initial_scan = true;
    }
}

/// Whether two byte strings are equal.
pub fn bytes_equal(a: &[u8], b: &[u8]) -> (r: bool)
    ensures
        r == (a@ == b@),
{
    if a.len() != b.len() {
        return false;
    }
    let mut i: usize = 0;
    while i < a.len()
        invariant
            a@.len() == b@.len(),
            i <= a@.len(),
            forall|k: int| 0 <= k < i ==> a@[k] == b@[k],
        decreases a@.len() - i,
    {
        if a[i] != b[i] {
            return false;
        }
        i = i + 1;
    }
    assert(a@ =~= b@);
    true
}

/// `n` zero bytes.
pub open spec fn zeros(n: nat) -> Seq<u8> {
    Seq::new(n, |i: int| 0u8)
}

/// A buffer after a read that filled its first `data.len()` bytes.
pub open spec fn overlay(buf: Seq<u8>, data: Seq<u8>) -> Seq<u8> {
    data + buf.skip(data.len() as int)
}

/// Whether a freshly read value is kept by a filtering scan: equal to the
/// exact value when one is given, otherwise in relation `comparison` to the
/// value the candidate held before.
pub open spec fn keeps(
    order: ByteOrder,
    t: ScanType,
    comparison: CompareType,
    target: Option<Seq<u8>>,
    now: Seq<u8>,
    before: Seq<u8>,
) -> bool {
    match target {
        Some(v) => now == v,
        None => spec_compare_values(order, t, now, before, comparison),
    }
}

/// The candidates kept and the read buffer after a filtering scan has
/// visited the first `k` candidates. One buffer of the type's size, zero at
/// first, receives every read; a failed read drops the candidate, and a short
/// read leaves the rest of the buffer as the previous read left it.
pub open spec fn next_scan_upto(
    order: ByteOrder,
    t: ScanType,
    comparison: CompareType,
    target: Option<Seq<u8>>,
    cands: Seq<(int, Seq<u8>)>,
    reads: Seq<Option<Seq<u8>>>,
    k: nat,
) -> (Seq<(int, Seq<u8>)>, Seq<u8>)
    decreases k,
{
    if k == 0 {
        (seq![], zeros(spec_size(t)))
    } else {
        let (kept, buf) = next_scan_upto(order, t, comparison, target, cands, reads, (k - 1) as nat);
        match reads[k - 1] {
            None => (kept, buf),
            Some(d) => {
                let now = overlay(buf, d);
                if keeps(order, t, comparison, target, now, cands[k - 1].1) {
                    (kept.push((cands[k - 1].0, now)), now)
                } else {
                    (kept, now)
                }
            },
        }
    }
}

/// The reads, as sequences.
pub open spec fn reads_view(reads: Seq<Option<Vec<u8>>>) -> Seq<Option<Seq<u8>>> {
    reads.map_values(|r: Option<Vec<u8>>| match r {
        Some(v) => Some(v@),
        None => None,
    })
}

/// The optional exact value, as a sequence.
pub open spec fn target_view(target: Option<&[u8]>) -> Option<Seq<u8>> {
    match target {
        Some(b) => Some(b@),
        None => None,
    }
}

/// What a filtering scan requires: one read result per candidate, none
/// longer than the type's size, and, when `I8` values are compared with
/// their previous ones (no exact value), a non-empty previous value.
pub open spec fn next_scan_ready(state: &ScannerState, target: Option<Seq<u8>>, reads: Seq<Option<Vec<u8>>>) -> bool {
    &&& reads.len() == state.candidates@.len()
    &&& forall|i: int|
        0 <= i < reads.len() ==> (#[trigger] reads[i] matches Some(d) ==> d@.len() <= spec_size(
            state.scan_type,
        ))
    &&& (state.scan_type == ScanType::I8 && target is None) ==> forall|i: int|
        0 <= i < state.candidates@.len() ==> (#[trigger] state.candidates@[i]).last_value_bytes@.len()
            >= 1
}

/// `idx` picks, in increasing order, for every kept candidate the earlier
/// candidate (among the first `k`) at the same address.
pub open spec fn kept_index_map(kept: Seq<(int, Seq<u8>)>, cands: Seq<(int, Seq<u8>)>, k: int, idx: Seq<int>) -> bool {
    &&& idx.len() == kept.len()
    &&& forall|i: int, j: int| 0 <= i < j < idx.len() ==> #[trigger] idx[i] < #[trigger] idx[j]
    &&& forall|i: int| 0 <= i < idx.len() ==> 0 <= #[trigger] idx[i] < k && kept[i].0 == cands[idx[i]].0
}

proof fn next_scan_index_witness(
    order: ByteOrder,
    t: ScanType,
    comparison: CompareType,
    target: Option<Seq<u8>>,
    cands: Seq<(int, Seq<u8>)>,
    reads: Seq<Option<Seq<u8>>>,
    k: nat,
) -> (idx: Seq<int>)
    requires
        k <= cands.len(),
        k <= reads.len(),
    ensures
        kept_index_map(next_scan_upto(order, t, comparison, target, cands, reads, k).0, cands, k as int, idx),
    decreases k,
{
    if k == 0 {
        seq![]
    } else {
        let prev = next_scan_index_witness(order, t, comparison, target, cands, reads, (k - 1) as nat);
        let (kept, buf) = next_scan_upto(order, t, comparison, target, cands, reads, (k - 1) as nat);
        match reads[k - 1] {
            None => prev,
            Some(d) => {
                let now = overlay(buf, d);
                if keeps(order, t, comparison, target, now, cands[k - 1].1) {
                    let idx = prev.push(k - 1);
                    assert forall|i: int, j: int| 0 <= i < j < idx.len() implies #[trigger] idx[i] < #[trigger] idx[j] by {
                        if j < prev.len() {
                            assert(idx[i] == prev[i] && idx[j] == prev[j]);
                        } else {
                            assert(idx[i] == prev[i]);
                        }
                    }
                    assert forall|i: int| 0 <= i < idx.len() implies 0 <= #[trigger] idx[i] < k && kept.push(
                        (cands[k - 1].0, now),
                    )[i].0 == cands[idx[i]].0 by {
                        if i < prev.len() {
                            assert(idx[i] == prev[i]);
                        }
                    }
                    idx
                } else {
                    prev
                }
            },
        }
    }
}

/// A filtering scan keeps, in their order, some of the earlier candidates:
/// each kept address is that of an earlier candidate, no more are kept than
/// there were, every kept value has the type's size, and with an exact value
/// every kept value equals it.
pub proof fn lemma_next_scan_narrows(
    order: ByteOrder,
    t: ScanType,
    comparison: CompareType,
    target: Option<Seq<u8>>,
    cands: Seq<(int, Seq<u8>)>,
    reads: Seq<Option<Seq<u8>>>,
    k: nat,
)
    requires
        k <= cands.len(),
        k <= reads.len(),
        forall|i: int| 0 <= i < reads.len() ==> (#[trigger] reads[i] matches Some(d) ==> d.len() <= spec_size(t)),
    ensures
        ({
            let (kept, buf) = next_scan_upto(order, t, comparison, target, cands, reads, k);
            &&& buf.len() == spec_size(t)
            &&& kept.len() <= k
            &&& forall|j: int| 0 <= j < kept.len() ==> (#[trigger] kept[j]).1.len() == spec_size(t)
            &&& target matches Some(v) ==> forall|j: int| 0 <= j < kept.len() ==> (#[trigger] kept[j]).1 == v
            &&& exists|idx: Seq<int>| kept_index_map(kept, cands, k as int, idx)
        }),
    decreases k,
{
    let idx = next_scan_index_witness(order, t, comparison, target, cands, reads, k);
    if k > 0 {
        lemma_next_scan_narrows(order, t, comparison, target, cands, reads, (k - 1) as nat);
        let (kept, buf) = next_scan_upto(order, t, comparison, target, cands, reads, (k - 1) as nat);
        match reads[k - 1] {
            None => {},
            Some(d) => {
                let now = overlay(buf, d);
                assert(now.len() == spec_size(t));
                if keeps(order, t, comparison, target, now, cands[k - 1].1) {
                    let nk = kept.push((cands[k - 1].0, now));
                    assert forall|j: int| 0 <= j < nk.len() implies (#[trigger] nk[j]).1.len() == spec_size(t) by {
                        if j < kept.len() {
                            assert(nk[j] == kept[j]);
                        }
                    }
                    if target is Some {
                        assert forall|j: int| 0 <= j < nk.len() implies (#[trigger] nk[j]).1 == target->0 by {
                            if j < kept.len() {
                                assert(nk[j] == kept[j]);
                            }
                        }
                    }
                }
            },
        }
    } else {
        assert(zeros(spec_size(t)).len() == spec_size(t));
    }
}

/// With no exact value, the "changed" filter keeps a freshly read value
/// exactly when the "unchanged" filter drops it.
pub proof fn lemma_changed_keeps_what_unchanged_drops(
    order: ByteOrder,
    t: ScanType,
    now: Seq<u8>,
    before: Seq<u8>,
)
    ensures
        keeps(order, t, CompareType::NotEqual, None, now, before) == !keeps(
            order,
            t,
            CompareType::Equal,
            None,
            now,
            before,
        ),
{
    lemma_changed_is_not_unchanged(order, t, now, before);
}

/// One step of a filtering scan of an integer type with no exact value: a
/// candidate whose read failed is dropped; one whose read gave a full value
/// `d` is kept, with `d` as its new value, exactly when the number in `d`
/// stands in the chosen relation to the number it held before (equal,
/// unequal, greater, less).
pub proof fn lemma_next_scan_step_on_integers(
    order: ByteOrder,
    t: ScanType,
    comparison: CompareType,
    cands: Seq<(int, Seq<u8>)>,
    reads: Seq<Option<Seq<u8>>>,
    k: nat,
)
    requires
        0 < k <= cands.len(),
        k <= reads.len(),
        forall|i: int| 0 <= i < reads.len() ==> (#[trigger] reads[i] matches Some(d) ==> d.len() <= spec_size(t)),
        !spec_is_float(t),
        cands[k - 1].1.len() == spec_size(t),
    ensures
        ({
            let prev = next_scan_upto(order, t, comparison, None, cands, reads, (k - 1) as nat).0;
            let kept = next_scan_upto(order, t, comparison, None, cands, reads, k).0;
            match reads[k - 1] {
                None => kept == prev,
                Some(d) => d.len() == spec_size(t) ==> {
                    let now = signed_value(d, order);
                    let was = signed_value(cands[k - 1].1, order);
                    let holds = match comparison {
                        CompareType::Equal => now == was,
                        CompareType::NotEqual => now != was,
                        CompareType::GreaterThan => now > was,
                        CompareType::LessThan => now < was,
                    };
                    kept == if holds {
                        prev.push((cands[k - 1].0, d))
                    } else {
                        prev
                    }
                },
            }
        }),
{
    lemma_next_scan_narrows(order, t, comparison, None, cands, reads, (k - 1) as nat);
    let buf = next_scan_upto(order, t, comparison, None, cands, reads, (k - 1) as nat).1;
    match reads[k - 1] {
        None => {},
        Some(d) => {
            if d.len() == spec_size(t) {
                assert(overlay(buf, d) =~= d);
                assert(operand_bytes(t, d) =~= d);
                assert(operand_bytes(t, cands[k - 1].1) =~= cands[k - 1].1);
            }
        },
    }
}

/// The candidates' addresses increase strictly and are multiples of `align`.
pub open spec fn addresses_ordered_aligned(c: Seq<(int, Seq<u8>)>, align: int) -> bool {
    &&& forall|i: int, j: int| 0 <= i < j < c.len() ==> #[trigger] c[i].0 < #[trigger] c[j].0
    &&& forall|i: int| #![trigger c[i]] 0 <= i < c.len() ==> c[i].0 % align == 0
}

/// A filtering scan keeps the candidates in increasing order of address and
/// at aligned addresses, as the first scan leaves them.
pub proof fn lemma_next_scan_keeps_order_and_alignment(
    order: ByteOrder,
    t: ScanType,
    comparison: CompareType,
    target: Option<Seq<u8>>,
    cands: Seq<(int, Seq<u8>)>,
    reads: Seq<Option<Seq<u8>>>,
    k: nat,
    align: int,
)
    requires
        k <= cands.len(),
        k <= reads.len(),
        addresses_ordered_aligned(cands, align),
    ensures
        addresses_ordered_aligned(next_scan_upto(order, t, comparison, target, cands, reads, k).0, align),
{
    let kept = next_scan_upto(order, t, comparison, target, cands, reads, k).0;
    let idx = next_scan_index_witness(order, t, comparison, target, cands, reads, k);
    assert forall|i: int, j: int| 0 <= i < j < kept.len() implies #[trigger] kept[i].0 < #[trigger] kept[j].0 by {
        assert(idx[i] < idx[j]);
        assert(kept[i].0 == cands[idx[i]].0);
        assert(kept[j].0 == cands[idx[j]].0);
    }
    assert forall|i: int| #![trigger kept[i]] 0 <= i < kept.len() implies kept[i].0 % align == 0 by {
        assert(kept[i].0 == cands[idx[i]].0);
    }
}

/// With an exact value, a filtering scan keeps the same candidates whatever
/// the comparison chosen and whatever the byte order.
pub proof fn lemma_exact_scan_ignores_comparison(
    o1: ByteOrder,
    o2: ByteOrder,
    t: ScanType,
    c1: CompareType,
    c2: CompareType,
    v: Seq<u8>,
    cands: Seq<(int, Seq<u8>)>,
    reads: Seq<Option<Seq<u8>>>,
    k: nat,
)
    ensures
        next_scan_upto(o1, t, c1, Some(v), cands, reads, k) == next_scan_upto(o2, t, c2, Some(v), cands, reads, k),
    decreases k,
{
    if k > 0 {
        lemma_exact_scan_ignores_comparison(o1, o2, t, c1, c2, v, cands, reads, (k - 1) as nat);
    }
}

/// When the values read are those the candidates held, an "unchanged"
/// (equal) filter of an integer type keeps every candidate as it is, so
/// repeating it changes nothing.
pub proof fn lemma_unchanged_values_kept(
    order: ByteOrder,
    t: ScanType,
    cands: Seq<(int, Seq<u8>)>,
    reads: Seq<Option<Seq<u8>>>,
    k: nat,
)
    requires
        !spec_is_float(t),
        k <= cands.len(),
        k <= reads.len(),
        forall|i: int| 0 <= i < reads.len() ==> (#[trigger] reads[i] matches Some(d) ==> d.len() <= spec_size(t)),
        forall|i: int| 0 <= i < k ==> (#[trigger] cands[i]).1.len() == spec_size(t) && reads[i] == Some(cands[i].1),
    ensures
        next_scan_upto(order, t, CompareType::Equal, None, cands, reads, k).0 == cands.take(k as int),
    decreases k,
{
    if k > 0 {
        lemma_unchanged_values_kept(order, t, cands, reads, (k - 1) as nat);
        lemma_next_scan_narrows(order, t, CompareType::Equal, None, cands, reads, (k - 1) as nat);
        let buf = next_scan_upto(order, t, CompareType::Equal, None, cands, reads, (k - 1) as nat).1;
        let d = cands[k - 1].1;
        assert(reads[k - 1] == Some(d));
        assert(overlay(buf, d) =~= d);
        lemma_equal_reflexive(order, t, d);
        assert(cands.take(k as int) =~= cands.take(k - 1).push(cands[k - 1]));
    } else {
        assert(cands.take(0) =~= Seq::<(int, Seq<u8>)>::empty());
    }
}

/// When the values read are those the candidates held, a "changed",
/// "increased" or "decreased" filter of an integer type keeps nothing.
pub proof fn lemma_unchanged_values_dropped(
    order: ByteOrder,
    t: ScanType,
    comparison: CompareType,
    cands: Seq<(int, Seq<u8>)>,
    reads: Seq<Option<Seq<u8>>>,
    k: nat,
)
    requires
        !spec_is_float(t),
        comparison != CompareType::Equal,
        k <= cands.len(),
        k <= reads.len(),
        forall|i: int| 0 <= i < reads.len() ==> (#[trigger] reads[i] matches Some(d) ==> d.len() <= spec_size(t)),
        forall|i: int| 0 <= i < k ==> (#[trigger] cands[i]).1.len() == spec_size(t) && reads[i] == Some(cands[i].1),
    ensures
        next_scan_upto(order, t, comparison, None, cands, reads, k).0.len() == 0,
    decreases k,
{
    if k > 0 {
        lemma_unchanged_values_dropped(order, t, comparison, cands, reads, (k - 1) as nat);
        lemma_next_scan_narrows(order, t, comparison, None, cands, reads, (k - 1) as nat);
        let buf = next_scan_upto(order, t, comparison, None, cands, reads, (k - 1) as nat).1;
        let d = cands[k - 1].1;
        assert(reads[k - 1] == Some(d));
        assert(overlay(buf, d) =~= d);
        lemma_equal_reflexive(order, t, d);
        lemma_trichotomy(order, t, d, d);
        lemma_changed_is_not_unchanged(order, t, d, d);
    }
}

/// Filters the candidates by the values just read at their addresses
/// (`reads[i]` for candidate `i`, `None` where the read failed), the values
/// being stored in the given byte order.
pub fn next_scan_in_order(
    order: ByteOrder,
    state: &mut ScannerState,
    comparison: CompareType,
    target_bytes: Option<&[u8]>,
    reads: &Vec<Option<Vec<u8>>>,
)
    requires
        next_scan_ready(old(state), target_view(target_bytes), reads@),
    ensures
        candidates_view(final(state).candidates@) == next_scan_upto(
            order,
            old(state).scan_type,
            comparison,
            target_view(target_bytes),
            candidates_view(old(state).candidates@),
            reads_view(reads@),
            reads@.len(),
        ).0,
        final(state).pid == old(state).pid,
        final(state).regions == old(state).regions,
        final(state).is_initial_scan == old(state).is_initial_scan,
        final(state).scan_type == old(state).scan_type,
        final(state).alignment == old(state).alignment,
{
    let size = state.scan_type.size();
    let n = reads.len();
    let ghost cands = candidates_view(state.candidates@);
    let ghost rv = reads_view(reads@);
    let ghost tv = target_view(target_bytes);
    let mut buffer: Vec<u8> = vec![0u8; size];
    let mut updated: Vec<Candidate> = Vec::new();
    assert(buffer@ =~= zeros(spec_size(state.scan_type)));
    let mut i: usize = 0;
    while i < n
        invariant
            n == reads@.len(),
            i <= n,
            next_scan_ready(state, tv, reads@),
            size == spec_size(state.scan_type),
            cands == candidates_view(state.candidates@),
            rv == reads_view(reads@),
            tv == target_view(target_bytes),
            buffer@.len() == size,
            (candidates_view(updated@), buffer@) == next_scan_upto(
                order,
                state.scan_type,
                comparison,
                tv,
                cands,
                rv,
                i as nat,
            ),
        decreases n - i,
    {
        let ghost prev_kept = candidates_view(updated@);
        match &reads[i] {
            None => {
                assert(rv[i as int] is None);
            },
            Some(d) => {
                assert(rv[i as int] == Some(d@));
                let ghost old_buf = buffer@;
                let mut j: usize = 0;
                while j < d.len()
                    invariant
                        j <= d@.len(),
                        d@.len() <= size,
                        buffer@.len() == size,
                        buffer@ =~= d@.take(j as int) + old_buf.skip(j as int),
                        old_buf.len() == size,
                    decreases d@.len() - j,
                {
                    buffer.set(j, d[j]);
                    j = j + 1;
                }
                assert(buffer@ =~= overlay(old_buf, d@));
                let cand = &state.candidates[i];
                assert(cands[i as int] == (cand.address as int, cand.last_value_bytes@));
                let is_match = match target_bytes {
                    Some(exact) => bytes_equal(buffer.as_slice(), exact),
                    None => compare_values_in_order(
                        order,
                        state.scan_type,
                        buffer.as_slice(),
                        cand.last_value_bytes.as_slice(),
                        comparison,
                    ),
                };
                if is_match {
                    let c = Candidate { address: cand.address, last_value_bytes: slice_to_vec(buffer.as_slice()) };
                    updated.push(c);
                    assert(candidates_view(updated@) =~= prev_kept.push((cand.address as int, buffer@)));
                }
            },
        }
        i = i + 1;
    }
    state.candidates = updated;
}

/// Filters the candidates by the values just read at their addresses, the
/// values being stored in the machine's byte order.
pub fn next_scan(
    state: &mut ScannerState,
    comparison: CompareType,
    target_bytes: Option<&[u8]>,
    reads: &Vec<Option<Vec<u8>>>,
)
    requires
        next_scan_ready(old(state), target_view(target_bytes), reads@),
    ensures
        exists|order: ByteOrder|
            candidates_view(final(state).candidates@) == #[trigger] next_scan_upto(
                order,
                old(state).scan_type,
                comparison,
                target_view(target_bytes),
                candidates_view(old(state).candidates@),
                reads_view(reads@),
                reads@.len(),
            ).0,
        candidates_view(final(state).candidates@) == next_scan_upto(
            machine_order(),
            old(state).scan_type,
            comparison,
            target_view(target_bytes),
            candidates_view(old(state).candidates@),
            reads_view(reads@),
            reads@.len(),
        ).0,
        final(state).pid == old(state).pid,
        final(state).regions == old(state).regions,
        final(state).is_initial_scan == old(state).is_initial_scan,
        final(state).scan_type == old(state).scan_type,
        final(state).alignment == old(state).alignment,
{
    let order = native_byte_order();
    next_scan_in_order(order, state, comparison, target_bytes, reads);
}

/// The sum of two multiples of `d` is one.
pub proof fn lemma_aligned_add(x: int, y: int, d: int)
    requires
        d > 0,
        x % d == 0,
        y % d == 0,
    ensures
        (x + y) % d == 0,
{
    lemma_fundamental_div_mod(x, d);
    lemma_fundamental_div_mod(y, d);
    let q = x / d + y / d;
    assert(x + y == q * d + 0) by (nonlinear_arith)
        requires
            x == d * (x / d) + 0,
            y == d * (y / d) + 0,
            q == x / d + y / d,
    ;
    lemma_fundamental_div_mod_converse_mod(x + y, d, q, 0);
}

/// `n` rounded down to a multiple of `d` is a multiple of `d`.
pub proof fn lemma_round_down_aligned(n: int, d: int)
    requires
        d > 0,
    ensures
        (n - n % d) % d == 0,
{
    lemma_fundamental_div_mod(n, d);
    assert(n - n % d == (n / d) * d + 0) by (nonlinear_arith)
        requires
            n == d * (n / d) + (n % d),
    ;
    lemma_fundamental_div_mod_converse_mod(n - n % d, d, n / d, 0);
}

/// `d` itself is a multiple of `d`.
pub proof fn lemma_self_aligned(d: int)
    requires
        d > 0,
    ensures
        d % d == 0,
{
    lemma_fundamental_div_mod_converse_mod(d, d, 1, 0);
}

/// `round_up(n, d)` is the first multiple of `d` at or above `n`, and less
/// than `d` above it.
pub proof fn lemma_round_up(n: int, d: int)
    requires
        d > 0,
    ensures
        round_up(n, d) % d == 0,
        n <= round_up(n, d) < n + d,
        forall|o: int| #[trigger] (o % d) == 0 && n <= o ==> round_up(n, d) <= o,
{
    lemma_fundamental_div_mod(n, d);
    assert(0 <= n % d < d);
    if n % d != 0 {
        lemma_round_down_aligned(n, d);
        lemma_self_aligned(d);
        lemma_aligned_add(n - n % d, d, d);
        assert forall|o: int| #[trigger] (o % d) == 0 && n <= o implies round_up(n, d) <= o by {
            lemma_fundamental_div_mod(o, d);
            let qo = o / d;
            let qn = n / d;
            assert(o == d * qo);
            assert(n == d * qn + n % d);
            assert(qo > qn) by (nonlinear_arith)
                requires
                    o == d * qo,
                    n == d * qn + n % d,
                    0 < n % d < d,
                    n <= o,
                    d > 0,
            ;
            assert(d * qo >= d * qn + d) by (nonlinear_arith)
                requires
                    qo >= qn + 1,
                    d > 0,
            ;
        }
    }
}

/// The address of the first aligned window after a chunk whose last window
/// starts at offset `limit` is the first aligned address past `limit`: no
/// aligned window is skipped.
pub proof fn lemma_next_window_is_first_aligned_past(limit: int, align: int)
    requires
        align > 0,
    ensures
        round_up(limit + 1, align) % align == 0,
        limit < round_up(limit + 1, align) <= limit + align,
        forall|o: int| #[trigger] (o % align) == 0 && limit < o ==> round_up(limit + 1, align) <= o,
{
    lemma_round_up(limit + 1, align);
}

/// The first address at or above `start` that is a multiple of `align`.
pub open spec fn first_aligned(start: int, align: int) -> int {
    if start % align == 0 {
        start
    } else {
        start + (align - start % align)
    }
}

/// The first aligned address at or above `start` is aligned, and not below `start`.
pub proof fn lemma_first_aligned(start: int, align: int)
    requires
        align > 0,
    ensures
        first_aligned(start, align) % align == 0,
        first_aligned(start, align) >= start,
{
    lemma_round_up(start, align);
}

/// The index of the first region, from `i` on, in which a value of `size`
/// bytes fits at or after its first aligned address; `regions.len()` when
/// there is none.
pub open spec fn next_region(regions: Seq<MemoryRegion>, i: int, size: int, align: int) -> int
    decreases regions.len() - i,
{
    if i < 0 || i >= regions.len() {
        regions.len() as int
    } else if first_aligned(regions[i].start as int, align) + size <= regions[i].end {
        i
    } else {
        next_region(regions, i + 1, size, align)
    }
}

/// Where the scan stands once it looks for work from region `i` on: the
/// region and the address of its next read.
pub open spec fn seek_from(regions: Seq<MemoryRegion>, i: int, size: int, align: int) -> (int, int) {
    let r = next_region(regions, i, size, align);
    if r < regions.len() {
        (r, first_aligned(regions[r].start as int, align))
    } else {
        (r, 0)
    }
}

/// Where the scan stands once it has moved to address `a` inside region `r`:
/// still there when a value fits at `a`, otherwise at the next region with
/// room.
pub open spec fn position_after(regions: Seq<MemoryRegion>, r: int, a: int, size: int, align: int) -> (int, int) {
    if a + size <= regions[r].end {
        (r, a)
    } else {
        seek_from(regions, r + 1, size, align)
    }
}

/// The length of the read at `a` in a region ending at `end`.
pub open spec fn read_len(a: int, end: int) -> int {
    if end - a < SCAN_CHUNK {
        end - a
    } else {
        SCAN_CHUNK as int
    }
}

/// The matches found in the bytes `d` read at `base`: at the offsets
/// `from, from + align, ...` up to `limit`, each window of `size` bytes,
/// kept when it equals the exact value or when there is none.
pub open spec fn window_matches(
    d: Seq<u8>,
    base: int,
    size: int,
    align: int,
    target: Option<Seq<u8>>,
    from: int,
    limit: int,
) -> Seq<(int, Seq<u8>)>
    decreases (if from > limit { 0 } else { limit - from + 1 }),
    when align > 0
{
    if from > limit {
        seq![]
    } else {
        let w = d.subrange(from, from + size);
        let here: Seq<(int, Seq<u8>)> = if target is None || target == Some(w) {
            seq![(base + from, w)]
        } else {
            seq![]
        };
        here + window_matches(d, base, size, align, target, from + align, limit)
    }
}

/// Every aligned window of a chunk is examined: for each offset `o` from
/// `from` on, a whole number of alignment steps away and with a whole value
/// before `limit + size`, the window at `o` is among the matches when it
/// holds the exact value (or when there is none).
pub proof fn lemma_window_matches_covers(
    d: Seq<u8>,
    base: int,
    size: int,
    align: int,
    target: Option<Seq<u8>>,
    from: int,
    limit: int,
    o: int,
)
    requires
        align > 0,
        0 <= from <= o <= limit,
        limit + size <= d.len(),
        size >= 0,
        (o - from) % align == 0,
        target is None || target == Some(d.subrange(o, o + size)),
    ensures
        window_matches(d, base, size, align, target, from, limit).contains((base + o, d.subrange(o, o + size))),
    decreases limit - from + 1,
{
    let all = window_matches(d, base, size, align, target, from, limit);
    if o == from {
        assert(all[0] == (base + o, d.subrange(o, o + size)));
    } else {
        lemma_fundamental_div_mod(o - from, align);
        let q = (o - from) / align;
        assert(o - from == align * q);
        assert(q >= 1) by (nonlinear_arith)
            requires
                o - from == align * q,
                o - from > 0,
                align > 0,
        ;
        assert(o - (from + align) == (q - 1) * align + 0) by (nonlinear_arith)
            requires
                o - from == align * q,
        ;
        lemma_fundamental_div_mod_converse_mod(o - (from + align), align, q - 1, 0);
        assert(align * q >= align) by (nonlinear_arith)
            requires
                q >= 1,
                align > 0,
        ;
        lemma_window_matches_covers(d, base, size, align, target, from + align, limit, o);
        let w = d.subrange(from, from + size);
        let here: Seq<(int, Seq<u8>)> = if target is None || target == Some(w) {
            seq![(base + from, w)]
        } else {
            seq![]
        };
        let rest = window_matches(d, base, size, align, target, from + align, limit);
        assert(all == here + rest);
        let k = choose|k: int| 0 <= k < rest.len() && rest[k] == (base + o, d.subrange(o, o + size));
        assert(all[here.len() + k] == rest[k]);
    }
}

/// The `n` bytes at `x` of a memory whose byte at each address is `mem`.
pub open spec fn mem_bytes(mem: spec_fn(int) -> u8, x: int, n: int) -> Seq<u8> {
    Seq::new(n as nat, |i: int| mem(x + i))
}

/// The match that the window of `size` bytes at `x` gives, if it is one.
pub open spec fn window_at(mem: spec_fn(int) -> u8, x: int, size: int, target: Option<Seq<u8>>) -> Seq<(int, Seq<u8>)> {
    let w = mem_bytes(mem, x, size);
    if target is None || target == Some(w) {
        seq![(x, w)]
    } else {
        seq![]
    }
}

/// The matches among the windows at `x`, `x + align`, ... that end by `end`.
pub open spec fn region_windows(
    mem: spec_fn(int) -> u8,
    x: int,
    end: int,
    size: int,
    align: int,
    target: Option<Seq<u8>>,
) -> Seq<(int, Seq<u8>)>
    decreases (if x + size > end { 0 } else { end - x + 1 }),
    when align > 0 && size >= 0
{
    if x + size > end {
        seq![]
    } else {
        window_at(mem, x, size, target) + region_windows(mem, x + align, end, size, align, target)
    }
}

/// The matches among all aligned windows of the regions from `i` on, region
/// by region, each in increasing order of address.
pub open spec fn scan_windows(
    regions: Seq<MemoryRegion>,
    i: int,
    mem: spec_fn(int) -> u8,
    size: int,
    align: int,
    target: Option<Seq<u8>>,
) -> Seq<(int, Seq<u8>)>
    decreases regions.len() - i,
{
    if i < 0 || i >= regions.len() {
        seq![]
    } else {
        region_windows(mem, first_aligned(regions[i].start as int, align), regions[i].end as int, size, align, target)
            + scan_windows(regions, i + 1, mem, size, align, target)
    }
}

/// The matches still to be found from position `(r, a)` of a scan.
pub open spec fn windows_left(
    regions: Seq<MemoryRegion>,
    r: int,
    a: int,
    mem: spec_fn(int) -> u8,
    size: int,
    align: int,
    target: Option<Seq<u8>>,
) -> Seq<(int, Seq<u8>)> {
    if r < 0 || r >= regions.len() {
        seq![]
    } else {
        region_windows(mem, a, regions[r].end as int, size, align, target) + scan_windows(
            regions,
            r + 1,
            mem,
            size,
            align,
            target,
        )
    }
}

/// A scan of memory `mem` that reads every chunk in full, run for at most
/// `k` reads from position `(r, a)`: the matches it records and where it
/// stands. By their contracts, `InitialScan::next_action` and
/// `InitialScan::step`, handed each requested chunk in full, record these
/// matches and move through these positions.
pub open spec fn scan_run(
    regions: Seq<MemoryRegion>,
    r: int,
    a: int,
    mem: spec_fn(int) -> u8,
    size: int,
    align: int,
    target: Option<Seq<u8>>,
    k: nat,
) -> (Seq<(int, Seq<u8>)>, int, int)
    decreases k,
{
    if k == 0 || r < 0 || r >= regions.len() {
        (seq![], r, a)
    } else {
        let d = mem_bytes(mem, a, read_len(a, regions[r].end as int));
        let (r2, a2) = step_position(regions, r, a, size, align, Some(d));
        let (m, rf, af) = scan_run(regions, r2, a2, mem, size, align, target, (k - 1) as nat);
        (step_matches(a, size, align, target, Some(d)) + m, rf, af)
    }
}

/// A position of the scan: a region with room for a value at `a`, or the end.
pub open spec fn valid_position(regions: Seq<MemoryRegion>, r: int, a: int, size: int) -> bool {
    &&& 0 <= r <= regions.len()
    &&& r < regions.len() ==> regions[r].start <= a && a + size <= regions[r].end
}

/// The first address `from + j * align` past `limit`.
pub open spec fn next_after(from: int, limit: int, align: int) -> int
    decreases (if from > limit { 0 } else { limit - from + 1 }),
    when align > 0
{
    if from > limit {
        from
    } else {
        next_after(from + align, limit, align)
    }
}

/// Looking for work from region `i` on leads to a valid position, and what
/// is left from there is every match of those regions.
proof fn lemma_seek_windows(
    regions: Seq<MemoryRegion>,
    i: int,
    mem: spec_fn(int) -> u8,
    size: int,
    align: int,
    target: Option<Seq<u8>>,
)
    requires
        0 <= i <= regions.len(),
        align > 0,
        size >= 0,
    ensures
        valid_position(regions, seek_from(regions, i, size, align).0, seek_from(regions, i, size, align).1, size),
        windows_left(
            regions,
            seek_from(regions, i, size, align).0,
            seek_from(regions, i, size, align).1,
            mem,
            size,
            align,
            target,
        ) == scan_windows(regions, i, mem, size, align, target),
    decreases regions.len() - i,
{
    if i < regions.len() {
        let fa = first_aligned(regions[i].start as int, align);
        lemma_first_aligned(regions[i].start as int, align);
        if fa + size <= regions[i].end {
        } else {
            lemma_seek_windows(regions, i + 1, mem, size, align, target);
            assert(region_windows(mem, fa, regions[i].end as int, size, align, target) =~= Seq::<(int, Seq<u8>)>::empty());
            assert(scan_windows(regions, i, mem, size, align, target) =~= scan_windows(regions, i + 1, mem, size, align, target));
        }
    }
}

/// The windows a chunk read at `a` examines, from offset `from`, are the
/// region's windows up to the chunk's last one.
proof fn lemma_chunk_windows(
    mem: spec_fn(int) -> u8,
    d: Seq<u8>,
    a: int,
    end: int,
    size: int,
    align: int,
    target: Option<Seq<u8>>,
    from: int,
    limit: int,
)
    requires
        align > 0,
        size >= 0,
        0 <= from,
        limit + size == d.len(),
        a + d.len() <= end,
        d == mem_bytes(mem, a, d.len() as int),
    ensures
        region_windows(mem, a + from, end, size, align, target) == window_matches(d, a, size, align, target, from, limit)
            + region_windows(mem, a + next_after(from, limit, align), end, size, align, target),
    decreases (if from > limit { 0 } else { limit - from + 1 }),
{
    if from <= limit {
        lemma_chunk_windows(mem, d, a, end, size, align, target, from + align, limit);
        assert(d.subrange(from, from + size) =~= mem_bytes(mem, a + from, size));
        assert(a + from + align == a + (from + align));
        assert(window_at(mem, a + from, size, target) + window_matches(d, a, size, align, target, from + align, limit)
            + region_windows(mem, a + next_after(from + align, limit, align), end, size, align, target) =~= window_at(
            mem,
            a + from,
            size,
            target,
        ) + (window_matches(d, a, size, align, target, from + align, limit) + region_windows(
            mem,
            a + next_after(from + align, limit, align),
            end,
            size,
            align,
            target,
        )));
    } else {
        assert(a + next_after(from, limit, align) == a + from);
    }
}

/// The first address past `limit` in steps of `align` from 0 is
/// `round_up(limit + 1, align)`.
proof fn lemma_next_after_round_up(from: int, limit: int, align: int)
    requires
        align > 0,
        from <= limit + 1,
    ensures
        next_after(from, limit, align) == from + round_up(limit - from + 1, align),
    decreases limit - from + 1,
{
    let m = limit - from + 1;
    lemma_round_up(m, align);
    if from <= limit {
        lemma_next_after_round_up_step(m, align);
        if m > align {
            lemma_next_after_round_up(from + align, limit, align);
        } else {
            assert(next_after(from + align, limit, align) == from + align);
        }
    } else {
        assert(m == 0);
        lemma_fundamental_div_mod_converse_mod(0, align, 0, 0);
    }
}

/// `round_up(m, d)` is `d` for `0 < m <= d`, and `d + round_up(m - d, d)` above.
proof fn lemma_next_after_round_up_step(m: int, d: int)
    requires
        d > 0,
        m > 0,
    ensures
        m <= d ==> round_up(m, d) == d,
        m > d ==> round_up(m, d) == d + round_up(m - d, d),
{
    lemma_round_up(m, d);
    lemma_self_aligned(d);
    if m <= d {
        assert(round_up(m, d) <= d);
        assert(round_up(m, d) >= m);
        // a positive multiple of d below or at d is d
        lemma_fundamental_div_mod(round_up(m, d), d);
        let q = round_up(m, d) / d;
        assert(round_up(m, d) == d * q);
        assert(q == 1) by (nonlinear_arith)
            requires
                d * q <= d,
                d * q >= m,
                m > 0,
                d > 0,
        ;
    } else {
        lemma_round_up(m - d, d);
        let u = round_up(m - d, d);
        lemma_aligned_add(u, d, d);
        assert forall|o: int| #[trigger] (o % d) == 0 && m <= o implies u + d <= o by {
            lemma_fundamental_div_mod(o, d);
            assert(o - d == (o / d - 1) * d + 0) by (nonlinear_arith)
                requires
                    o == d * (o / d) + 0,
            ;
            lemma_fundamental_div_mod_converse_mod(o - d, d, o / d - 1, 0);
        }
        assert(round_up(m, d) <= u + d);
        assert(u + d <= round_up(m, d));
    }
}

/// One full read moves the scan on without missing or repeating a match:
/// what it records, followed by what is left after it, is what was left.
proof fn lemma_full_read_step(
    regions: Seq<MemoryRegion>,
    r: int,
    a: int,
    mem: spec_fn(int) -> u8,
    size: int,
    align: int,
    target: Option<Seq<u8>>,
)
    requires
        align > 0,
        1 <= size <= SCAN_CHUNK,
        0 <= r < regions.len(),
        valid_position(regions, r, a, size),
    ensures
        ({
            let d = mem_bytes(mem, a, read_len(a, regions[r].end as int));
            let (r2, a2) = step_position(regions, r, a, size, align, Some(d));
            &&& valid_position(regions, r2, a2, size)
            &&& step_matches(a, size, align, target, Some(d)) + windows_left(regions, r2, a2, mem, size, align, target)
                == windows_left(regions, r, a, mem, size, align, target)
        }),
{
    let end = regions[r].end as int;
    let n = read_len(a, end);
    let d = mem_bytes(mem, a, n);
    let limit = n - size;
    lemma_chunk_windows(mem, d, a, end, size, align, target, 0, limit);
    lemma_next_after_round_up(0, limit, align);
    let a2 = a + round_up(limit + 1, align);
    lemma_round_up(limit + 1, align);
    assert(a + 0 == a);
    if a2 + size <= end {
    } else {
        lemma_seek_windows(regions, r + 1, mem, size, align, target);
        assert(region_windows(mem, a2, end, size, align, target) =~= Seq::<(int, Seq<u8>)>::empty());
    }
}

/// Running the scan for `k` full reads from a valid position records
/// matches that, followed by what is left where it stops, are what was left.
pub proof fn lemma_scan_run(
    regions: Seq<MemoryRegion>,
    r: int,
    a: int,
    mem: spec_fn(int) -> u8,
    size: int,
    align: int,
    target: Option<Seq<u8>>,
    k: nat,
)
    requires
        align > 0,
        1 <= size <= SCAN_CHUNK,
        valid_position(regions, r, a, size),
    ensures
        ({
            let (m, rf, af) = scan_run(regions, r, a, mem, size, align, target, k);
            &&& valid_position(regions, rf, af, size)
            &&& m + windows_left(regions, rf, af, mem, size, align, target) == windows_left(
                regions,
                r,
                a,
                mem,
                size,
                align,
                target,
            )
        }),
    decreases k,
{
    if k > 0 && r < regions.len() {
        lemma_full_read_step(regions, r, a, mem, size, align, target);
        let d = mem_bytes(mem, a, read_len(a, regions[r].end as int));
        let (r2, a2) = step_position(regions, r, a, size, align, Some(d));
        lemma_scan_run(regions, r2, a2, mem, size, align, target, (k - 1) as nat);
        let (m, rf, af) = scan_run(regions, r2, a2, mem, size, align, target, (k - 1) as nat);
        let sm = step_matches(a, size, align, target, Some(d));
        assert(sm + m + windows_left(regions, rf, af, mem, size, align, target) =~= sm + (m + windows_left(
            regions,
            rf,
            af,
            mem,
            size,
            align,
            target,
        )));
    } else {
        assert(Seq::<(int, Seq<u8>)>::empty() + windows_left(regions, r, a, mem, size, align, target) =~= windows_left(
            regions,
            r,
            a,
            mem,
            size,
            align,
            target,
        ));
    }
}

/// Each aligned window from `x0` on that ends by `end` and holds the exact
/// value (or any value, with none) is among the region's matches.
proof fn lemma_region_windows_contains(
    mem: spec_fn(int) -> u8,
    x0: int,
    end: int,
    size: int,
    align: int,
    target: Option<Seq<u8>>,
    x: int,
)
    requires
        align > 0,
        size >= 0,
        x0 <= x,
        x + size <= end,
        (x - x0) % align == 0,
        target is None || target == Some(mem_bytes(mem, x, size)),
    ensures
        region_windows(mem, x0, end, size, align, target).contains((x, mem_bytes(mem, x, size))),
    decreases x - x0,
{
    let all = region_windows(mem, x0, end, size, align, target);
    if x == x0 {
        assert(all[0] == (x, mem_bytes(mem, x, size)));
    } else {
        lemma_fundamental_div_mod(x - x0, align);
        let q = (x - x0) / align;
        assert(q >= 1) by (nonlinear_arith)
            requires
                x - x0 == align * q,
                x - x0 > 0,
                align > 0,
        ;
        assert(x - (x0 + align) == (q - 1) * align + 0) by (nonlinear_arith)
            requires
                x - x0 == align * q,
        ;
        lemma_fundamental_div_mod_converse_mod(x - (x0 + align), align, q - 1, 0);
        assert(align * q >= align) by (nonlinear_arith)
            requires
                q >= 1,
                align > 0,
        ;
        lemma_region_windows_contains(mem, x0 + align, end, size, align, target, x);
        let rest = region_windows(mem, x0 + align, end, size, align, target);
        let here = window_at(mem, x0, size, target);
        assert(all == here + rest);
        let k = choose|k: int| 0 <= k < rest.len() && rest[k] == (x, mem_bytes(mem, x, size));
        assert(all[here.len() + k] == rest[k]);
    }
}

/// Every aligned window of region `i` that holds the exact value (or any
/// value, with none) is among the matches of the regions from `j <= i` on.
pub proof fn lemma_scan_windows_cover(
    regions: Seq<MemoryRegion>,
    j: int,
    i: int,
    mem: spec_fn(int) -> u8,
    size: int,
    align: int,
    target: Option<Seq<u8>>,
    x: int,
)
    requires
        align > 0,
        size >= 0,
        0 <= j <= i < regions.len(),
        x % align == 0,
        regions[i].start <= x,
        x + size <= regions[i].end,
        target is None || target == Some(mem_bytes(mem, x, size)),
    ensures
        scan_windows(regions, j, mem, size, align, target).contains((x, mem_bytes(mem, x, size))),
    decreases i - j,
{
    let e = (x, mem_bytes(mem, x, size));
    let rw = region_windows(mem, first_aligned(regions[j].start as int, align), regions[j].end as int, size, align, target);
    let rest = scan_windows(regions, j + 1, mem, size, align, target);
    assert(scan_windows(regions, j, mem, size, align, target) == rw + rest);
    if j == i {
        let x0 = first_aligned(regions[i].start as int, align);
        lemma_first_aligned(regions[i].start as int, align);
        lemma_round_up(regions[i].start as int, align);
        assert(x0 <= x);
        lemma_fundamental_div_mod(x, align);
        lemma_fundamental_div_mod(x0, align);
        assert(x - x0 == (x / align - x0 / align) * align + 0) by (nonlinear_arith)
            requires
                x == align * (x / align) + 0,
                x0 == align * (x0 / align) + 0,
        ;
        lemma_fundamental_div_mod_converse_mod(x - x0, align, x / align - x0 / align, 0);
        lemma_region_windows_contains(mem, x0, regions[i].end as int, size, align, target, x);
        let k = choose|k: int| 0 <= k < rw.len() && rw[k] == e;
        assert((rw + rest)[k] == e);
    } else {
        lemma_scan_windows_cover(regions, j + 1, i, mem, size, align, target, x);
        let k = choose|k: int| 0 <= k < rest.len() && rest[k] == e;
        assert((rw + rest)[rw.len() + k] == e);
    }
}

/// A whole first scan over readable memory examines every aligned window of
/// every region: when a scan that starts as `initial_scan` places it and
/// reads each chunk in full has reached the end, the matches it recorded are
/// exactly the matching aligned windows, region by region in increasing
/// order of address.
pub proof fn lemma_full_scan_finds_every_aligned_window(
    regions: Seq<MemoryRegion>,
    mem: spec_fn(int) -> u8,
    size: int,
    align: int,
    target: Option<Seq<u8>>,
    k: nat,
)
    requires
        align > 0,
        1 <= size <= SCAN_CHUNK,
    ensures
        ({
            let (r0, a0) = seek_from(regions, 0, size, align);
            let (m, rf, af) = scan_run(regions, r0, a0, mem, size, align, target, k);
            rf >= regions.len() ==> m == scan_windows(regions, 0, mem, size, align, target)
        }),
        forall|i: int, x: int|
            #![trigger regions[i], mem_bytes(mem, x, size)]
            0 <= i < regions.len() && x % align == 0 && regions[i].start <= x && x + size <= regions[i].end && (
            target is None || target == Some(mem_bytes(mem, x, size))) ==> scan_windows(
                regions,
                0,
                mem,
                size,
                align,
                target,
            ).contains((x, mem_bytes(mem, x, size))),
{
    assert forall|i: int, x: int|
        #![trigger regions[i], mem_bytes(mem, x, size)]
        0 <= i < regions.len() && x % align == 0 && regions[i].start <= x && x + size <= regions[i].end && (target
            is None || target == Some(mem_bytes(mem, x, size))) implies scan_windows(
            regions,
            0,
            mem,
            size,
            align,
            target,
        ).contains((x, mem_bytes(mem, x, size))) by {
        lemma_scan_windows_cover(regions, 0, i, mem, size, align, target, x);
    }
    lemma_seek_windows(regions, 0, mem, size, align, target);
    let (r0, a0) = seek_from(regions, 0, size, align);
    lemma_scan_run(regions, r0, a0, mem, size, align, target, k);
    let (m, rf, af) = scan_run(regions, r0, a0, mem, size, align, target, k);
    if rf >= regions.len() {
        assert(m + Seq::<(int, Seq<u8>)>::empty() =~= m);
    }
}

/// The next request of an initial scan.
#[derive(Debug, Clone, Copy, PartialEq, Eq, Structural)]
pub enum ScanAction {
    /// Read `len` bytes at `address` and hand the outcome to `step`.
    Read { address: usize, len: usize },
    /// The scan is over.
    Done,
}

/// An initial scan in progress: it walks the regions in order, reading them
/// in chunks, and records every aligned window that matches.
pub struct InitialScan {
    region: usize,
    addr: usize,
    target: Option<Vec<u8>>,
}

impl InitialScan {
    /// Index of the region being read (the number of regions once done).
    pub closed spec fn region(&self) -> int {
        self.region as int
    }

    /// Address of the next read.
    pub closed spec fn addr(&self) -> int {
        self.addr as int
    }

    /// The exact value searched for, if any.
    pub closed spec fn target(&self) -> Option<Seq<u8>> {
        match self.target {
            Some(v) => Some(v@),
            None => None,
        }
    }

    /// The scan is in a consistent position of `state`: a region with room
    /// for a value at `addr`, or past the last region.
    pub open spec fn wf(&self, state: &ScannerState) -> bool {
        let size = spec_size(state.scan_type) as int;
        &&& state.alignment > 0
        &&& 0 <= self.region() <= state.regions@.len()
        &&& self.region() < state.regions@.len() ==> {
            &&& state.regions@[self.region()].start <= self.addr()
            &&& self.addr() + size <= state.regions@[self.region()].end
            &&& self.addr() % (state.alignment as int) == 0
        }
        &&& self.region() == state.regions@.len() ==> self.addr() == 0
    }

    /// Whether the scan is over.
    pub open spec fn done(&self, state: &ScannerState) -> bool {
        self.region() >= state.regions@.len()
    }

    /// The request this scan makes next.
    pub fn next_action(&self, state: &ScannerState) -> (r: ScanAction)
        requires
            self.wf(state),
        ensures
            self.done(state) ==> r == ScanAction::Done,
            !self.done(state) ==> r == (ScanAction::Read {
                address: self.addr() as usize,
                len: read_len(self.addr(), state.regions@[self.region()].end as int) as usize,
            }),
    {
        if self.region >= state.regions.len() {
            ScanAction::Done
        } else {
            let end = state.regions[self.region].end;
            let remaining = end - self.addr;
            let len = if remaining < SCAN_CHUNK { remaining } else { SCAN_CHUNK };
            ScanAction::Read { address: self.addr, len }
        }
    }
}

/// The smallest multiple of `align` that is at least `n`.
pub open spec fn round_up(n: int, align: int) -> int {
    if n % align == 0 {
        n
    } else {
        n - n % align + align
    }
}

/// Where an initial scan stands after the read requested at `a` in region
/// `r` had `outcome` (`None` when it failed): a failed read skips the chunk;
/// a read shorter than one value ends the region; otherwise the scan moves
/// to the first aligned address past the last window of the chunk.
pub open spec fn step_position(
    regions: Seq<MemoryRegion>,
    r: int,
    a: int,
    size: int,
    align: int,
    outcome: Option<Seq<u8>>,
) -> (int, int) {
    match outcome {
        None => position_after(regions, r, a + round_up(read_len(a, regions[r].end as int), align), size, align),
        Some(d) => if d.len() < size {
            seek_from(regions, r + 1, size, align)
        } else {
            position_after(regions, r, a + round_up(d.len() - size + 1, align), size, align)
        },
    }
}

/// The candidates that a read at `a` with `outcome` adds.
pub open spec fn step_matches(
    a: int,
    size: int,
    align: int,
    target: Option<Seq<u8>>,
    outcome: Option<Seq<u8>>,
) -> Seq<(int, Seq<u8>)> {
    match outcome {
        Some(d) => if d.len() >= size {
            window_matches(d, a, size, align, target, 0, d.len() - size)
        } else {
            seq![]
        },
        None => seq![],
    }
}

impl InitialScan {
    /// Takes the outcome of the read that `next_action` requested: the bytes
    /// read (at most the requested length), or `None` when the read failed.
    /// Records the matching windows and moves the scan on; when it reaches the
    /// end the state leaves its initial phase.
    pub fn step(&mut self, state: &mut ScannerState, outcome: Option<&[u8]>)
        requires
            old(self).wf(old(state)),
            !old(self).done(old(state)),
            outcome matches Some(d) ==> d@.len() <= read_len(
                old(self).addr(),
                old(state).regions@[old(self).region()].end as int,
            ),
        ensures
            final(self).wf(final(state)),
            (final(self).region(), final(self).addr()) == step_position(
                old(state).regions@,
                old(self).region(),
                old(self).addr(),
                spec_size(old(state).scan_type) as int,
                old(state).alignment as int,
                target_view(outcome),
            ),
            candidates_view(final(state).candidates@) == candidates_view(old(state).candidates@)
                + step_matches(
                old(self).addr(),
                spec_size(old(state).scan_type) as int,
                old(state).alignment as int,
                old(self).target(),
                target_view(outcome),
            ),
            scan_candidates_valid(
                old(state).candidates@,
                old(state).regions@,
                spec_size(old(state).scan_type),
                old(state).alignment as int,
                old(self).target(),
            ) ==> scan_candidates_valid(
                final(state).candidates@,
                final(state).regions@,
                spec_size(final(state).scan_type),
                final(state).alignment as int,
                final(self).target(),
            ),
            final(self).target() == old(self).target(),
            final(state).is_initial_scan == (old(state).is_initial_scan && !final(self).done(
                final(state),
            )),
            final(state).pid == old(state).pid,
            final(state).regions == old(state).regions,
            final(state).scan_type == old(state).scan_type,
            final(state).alignment == old(state).alignment,
    {
        let size = state.scan_type.size();
        let align = state.alignment;
        let r = self.region;
        let a = self.addr;
        let nregions = state.regions.len();
        assert(r < nregions);
        let end = state.regions[r].end;
        let remaining = end - a;
        let rl = if remaining < SCAN_CHUNK { remaining } else { SCAN_CHUNK };
        let ghost old_cands = candidates_view(state.candidates@);
        let ghost tv = self.target();
        let ghost valid_before = scan_candidates_valid(state.candidates@, state.regions@, spec_size(state.scan_type), align as int, tv);
        let next_addr: Option<usize> = match outcome {
            None => match round_up_usize(rl, align) {
                Some(adv) => {
                    proof {
                        lemma_round_up(rl as int, align as int);
                        lemma_aligned_add(a as int, adv as int, align as int);
                    }
                    a.checked_add(adv)
                },
                None => None,
            },
            Some(d) => {
                let n = d.len();
                if n < size {
                    None
                } else {
                    let limit = n - size;
                    let ghost all = window_matches(d@, a as int, size as int, align as int, tv, 0, limit as int);
                    let mut off: usize = 0;
                    let mut more = true;
                    while more
                        invariant
                            0 < align,
                            align == state.alignment,
                            size == spec_size(state.scan_type),
                            n == d@.len(),
                            limit + size == n,
                            a as int + n <= end,
                            r < state.regions@.len(),
                            end == state.regions@[r as int].end,
                            state.regions@[r as int].start <= a,
                            tv == self.target(),
                            all == window_matches(d@, a as int, size as int, align as int, tv, 0, limit as int),
                            more ==> off <= limit,
                            candidates_view(state.candidates@) + (if more {
                                window_matches(d@, a as int, size as int, align as int, tv, off as int, limit as int)
                            } else {
                                seq![]
                            }) == old_cands + all,
                            valid_before ==> scan_candidates_valid(state.candidates@, state.regions@, spec_size(state.scan_type), align as int, tv),
                            (a as int) % (align as int) == 0,
                            (off as int) % (align as int) == 0,
                            state.regions == old(state).regions,
                            state.pid == old(state).pid,
                            state.is_initial_scan == old(state).is_initial_scan,
                            state.scan_type == old(state).scan_type,
                            state.alignment == old(state).alignment,
                        decreases (if more { limit + 1 - off } else { 0 }),
                    {
                        let w = slice_subrange(d, off, off + size);
                        let is_match = match &self.target {
                            Some(t) => bytes_equal(w, t.as_slice()),
                            None => true,
                        };
                        let ghost before = candidates_view(state.candidates@);
                        let ghost rest = window_matches(d@, a as int, size as int, align as int, tv, (off + align) as int, limit as int);
                        let ghost before_vec = state.candidates@;
                        if is_match {
                            let c = Candidate { address: a + off, last_value_bytes: slice_to_vec(w) };
                            state.candidates.push(c);
                            proof {
                                assert(candidates_view(state.candidates@) =~= before.push(((a + off) as int, w@)));
                                if valid_before {
                                    assert forall|j: int| 0 <= j < state.candidates@.len() implies {
                                        let c = #[trigger] state.candidates@[j];
                                        &&& c.last_value_bytes@.len() == spec_size(state.scan_type)
                                        &&& tv matches Some(v) ==> c.last_value_bytes@ == v
                                        &&& in_some_region(state.regions@, c.address as int, spec_size(state.scan_type) as int)
                                        &&& (c.address as int) % (align as int) == 0
                                    } by {
                                        if j == state.candidates@.len() - 1 {
                                            assert(state.candidates@[j].last_value_bytes@ == w@);
                                            assert(state.candidates@[j].address == a + off);
                                            assert(state.regions@[r as int].start <= a + off);
                                            assert((a + off) + size <= state.regions@[r as int].end);
                                            assert(in_some_region(state.regions@, (a + off) as int, size as int));
                                            lemma_aligned_add(a as int, off as int, align as int);
                                        } else {
                                            assert(state.candidates@[j] == before_vec[j]);
                                        }
                                    }
                                }
                            }
                        }
                        proof {
                            let here: Seq<(int, Seq<u8>)> = if tv is None || tv == Some(w@) {
                                seq![((a + off) as int, w@)]
                            } else {
                                seq![]
                            };
                            assert(window_matches(d@, a as int, size as int, align as int, tv, off as int, limit as int)
                                == here + rest);
                        }
                        match off.checked_add(align) {
                            Some(next) => {
                                if next <= limit {
                                    proof {
                                        lemma_self_aligned(align as int);
                                        lemma_aligned_add(off as int, align as int, align as int);
                                    }
                                    off = next;
                                    proof {
                                        assert(candidates_view(state.candidates@) + rest =~= old_cands + all);
                                    }
                                } else {
                                    more = false;
                                    proof {
                                        assert(rest =~= Seq::<(int, Seq<u8>)>::empty());
                                        assert(candidates_view(state.candidates@) + seq![] =~= old_cands + all);
                                    }
                                }
                            },
                            None => {
                                more = false;
                                proof {
                                    assert(rest =~= Seq::<(int, Seq<u8>)>::empty());
                                    assert(candidates_view(state.candidates@) + seq![] =~= old_cands + all);
                                }
                            },
                        }
                    }
                    assert(candidates_view(state.candidates@) =~= old_cands + all);
                    match round_up_usize(limit + 1, align) {
                        Some(adv) => {
                            proof {
                                lemma_round_up(limit + 1, align as int);
                                lemma_aligned_add(a as int, adv as int, align as int);
                            }
                            a.checked_add(adv)
                        },
                        None => None,
                    }
                }
            },
        };
        assert(r < state.regions@.len());
        let (nr, na) = match next_addr {
            Some(na) => {
                if size <= end && na <= end - size {
                    (r, na)
                } else {
                    seek(state, r + 1, size)
                }
            },
            None => seek(state, r + 1, size),
        };
        self.region = nr;
        self.addr = na;
        if nr >= state.regions.len() {
            state.is_initial_scan = false;
        }
    }
}

/// `round_up(n, align)`, if it is representable.
fn round_up_usize(n: usize, align: usize) -> (r: Option<usize>)
    requires
        align > 0,
    ensures
        r matches Some(v) ==> v == round_up(n as int, align as int),
        r is None ==> round_up(n as int, align as int) > usize::MAX,
{
    let rem = n % align;
    assert(rem <= n) by (nonlinear_arith)
        requires
            rem == n % align,
            align > 0,
    ;
    if rem == 0 {
        Some(n)
    } else {
        (n - rem).checked_add(align)
    }
}

/// The first aligned address at or above `start`, if it is representable.
fn aligned_start(start: usize, align: usize) -> (r: Option<usize>)
    requires
        align > 0,
    ensures
        r matches Some(a) ==> a == first_aligned(start as int, align as int),
        r is None ==> first_aligned(start as int, align as int) > usize::MAX,
{
    let rem = start % align;
    if rem == 0 {
        Some(start)
    } else {
        start.checked_add(align - rem)
    }
}

/// Finds the position of the scan when it looks for work from region `i` on.
fn seek(state: &ScannerState, i: usize, size: usize) -> (r: (usize, usize))
    requires
        state.alignment > 0,
        i <= state.regions@.len(),
        size == spec_size(state.scan_type),
    ensures
        r.0 as int == seek_from(state.regions@, i as int, size as int, state.alignment as int).0,
        r.1 as int == seek_from(state.regions@, i as int, size as int, state.alignment as int).1,
        r.0 < state.regions@.len() ==> state.regions@[r.0 as int].start <= r.1 && r.1 + size
            <= state.regions@[r.0 as int].end,
        r.0 < state.regions@.len() ==> (r.1 as int) % (state.alignment as int) == 0,
        r.0 <= state.regions@.len(),
        r.0 == state.regions@.len() ==> r.1 == 0,
{
    let n = state.regions.len();
    let align = state.alignment;
    let mut k = i;
    while k < n
        invariant
            n == state.regions@.len(),
            i <= k <= n,
            align == state.alignment,
            align > 0,
            next_region(state.regions@, i as int, size as int, align as int) == next_region(
                state.regions@,
                k as int,
                size as int,
                align as int,
            ),
        decreases n - k,
    {
        let region = state.regions[k];
        match aligned_start(region.start, align) {
            Some(a) => {
                if size <= region.end && a <= region.end - size {
                    proof {
                        lemma_first_aligned(region.start as int, align as int);
                    }
                    return (k, a);
                }
            },
            None => {},
        }
        k = k + 1;
    }
    (n, 0)
}

/// `addr .. addr + size` lies inside one of the regions.
pub open spec fn in_some_region(regions: Seq<MemoryRegion>, addr: int, size: int) -> bool {
    exists|q: int|
        0 <= q < regions.len() && (#[trigger] regions[q]).start <= addr && addr + size <= regions[q].end
}

/// The candidates satisfy the scan: each lies inside a region at a
/// multiple of the alignment, holds a value of `size` bytes, and equals the
/// exact value when one is searched for.
pub open spec fn scan_candidates_valid(
    cands: Seq<Candidate>,
    regions: Seq<MemoryRegion>,
    size: nat,
    align: int,
    target: Option<Seq<u8>>,
) -> bool {
    forall|j: int|
        0 <= j < cands.len() ==> {
            let c = #[trigger] cands[j];
            &&& c.last_value_bytes@.len() == size
            &&& target matches Some(v) ==> c.last_value_bytes@ == v
            &&& in_some_region(regions, c.address as int, size as int)
            &&& (c.address as int) % align == 0
        }
}

/// Starts an initial scan of the regions of `state` for the exact value
/// `target_bytes` (any value when `None`): the candidates are cleared and the
/// scan stands at the first region with room for a value. The caller performs
/// each requested read and hands its outcome to `step`.
pub fn initial_scan(state: &mut ScannerState, target_bytes: Option<&[u8]>) -> (r: InitialScan)
    requires
        old(state).alignment > 0,
    ensures
        r.wf(final(state)),
        final(state).candidates@.len() == 0,
        (r.region(), r.addr()) == seek_from(
            old(state).regions@,
            0,
            spec_size(old(state).scan_type) as int,
            old(state).alignment as int,
        ),
        r.target() == target_view(target_bytes),
        scan_candidates_valid(
            final(state).candidates@,
            final(state).regions@,
            spec_size(final(state).scan_type),
            final(state).alignment as int,
            r.target(),
        ),
        final(state).is_initial_scan == (old(state).is_initial_scan && !r.done(final(state))),
        final(state).pid == old(state).pid,
        final(state).regions == old(state).regions,
        final(state).scan_type == old(state).scan_type,
        final(state).alignment == old(state).alignment,
{
    state.candidates = Vec::new();
    let size = state.scan_type.size();
    let (region, addr) = seek(state, 0, size);
    if region >= state.regions.len() {
        state.is_initial_scan = false;
    }
    let target = match target_bytes {
        Some(b) => Some(slice_to_vec(b)),
        None => None,
    };
    InitialScan { region, addr, target }
}


/// How many candidates the match list shows at most.
pub const DISPLAY_LIMIT: usize = 200;

/// The addresses of the candidates the match list shows: the first
/// `DISPLAY_LIMIT`, in order.
pub fn shown_addresses(cands: &Vec<Candidate>) -> (r: Vec<usize>)
    ensures
        r@.len() == if cands@.len() < DISPLAY_LIMIT { cands@.len() } else { DISPLAY_LIMIT as nat },
        forall|k: int| 0 <= k < r@.len() ==> r@[k] == (#[trigger] cands@[k]).address,
{
    let mut out: Vec<usize> = Vec::new();
    let mut k: usize = 0;
    while k < cands.len() && k < DISPLAY_LIMIT
        invariant
            k <= cands@.len(),
            k <= DISPLAY_LIMIT,
            out@.len() == k,
            forall|m: int| 0 <= m < k ==> out@[m] == (#[trigger] cands@[m]).address,
        decreases cands@.len() - k,
    {
        out.push(cands[k].address);
        k = k + 1;
    }
    out
}


/// Which scan a typed value is for.
#[derive(Debug, Clone, Copy, PartialEq, Eq, Structural)]
pub enum ScanPhase {
    /// The first scan.
    First,
    /// A filtering scan.
    Next,
}

/// The message shown when the typed value is not a value of the type.
pub open spec fn invalid_value_message(phase: ScanPhase) -> Seq<char> {
    match phase {
        ScanPhase::First => "Invalid input value for selected type."@,
        ScanPhase::Next => "Invalid filter value."@,
    }
}

/// The exact value a scan looks for, given what parsing the typed text gave
/// (`parsed`): none for an unknown-value scan; otherwise the parsed bytes,
/// or the message shown when the text is not a value of the type.
pub fn scan_target_from(is_unknown: bool, parsed: Option<Vec<u8>>, phase: ScanPhase) -> (r: Result<
    Option<Vec<u8>>,
    String,
>)
    ensures
        is_unknown ==> r matches Ok(None),
        !is_unknown && parsed is Some ==> (r matches Ok(Some(b)) && b@ == parsed.unwrap()@),
        !is_unknown && parsed is None ==> (r matches Err(e) && e@ == invalid_value_message(phase)),
{
    if is_unknown {
        return Ok(None);
    }
    match parsed {
        Some(b) => Ok(Some(b)),
        None => match phase {
            ScanPhase::First => Err(String::from_str("Invalid input value for selected type.")),
            ScanPhase::Next => Err(String::from_str("Invalid filter value.")),
        },
    }
}

/// The exact value a scan of an integer type looks for, from the typed
/// text read in the given byte order.
pub fn scan_target_in_order(order: ByteOrder, is_unknown: bool, scan_type: ScanType, input: &str, phase: ScanPhase) -> (r:
    Result<Option<Vec<u8>>, String>)
    requires
        !spec_is_float(scan_type),
    ensures
        is_unknown ==> r matches Ok(None),
        !is_unknown ==> match spec_parse_value_bytes(order, scan_type, input@) {
            Some(v) => r matches Ok(Some(b)) && b@ == v,
            None => r matches Err(e) && e@ == invalid_value_message(phase),
        },
{
    if is_unknown {
        return Ok(None);
    }
    let parsed = parse_value_bytes_in_order(order, scan_type, input);
    scan_target_from(false, parsed, phase)
}

/// The exact value a scan of an integer type looks for, from the typed
/// text read in the machine's byte order.
pub fn scan_target(is_unknown: bool, scan_type: ScanType, input: &str, phase: ScanPhase) -> (r: Result<
    Option<Vec<u8>>,
    String,
>)
    requires
        !spec_is_float(scan_type),
    ensures
        is_unknown ==> r matches Ok(None),
        exists|order: ByteOrder|
            !is_unknown ==> match #[trigger] spec_parse_value_bytes(order, scan_type, input@) {
                Some(v) => r matches Ok(Some(b)) && b@ == v,
                None => r matches Err(e) && e@ == invalid_value_message(phase),
            },
        !is_unknown ==> match spec_parse_value_bytes(machine_order(), scan_type, input@) {
            Some(v) => r matches Ok(Some(b)) && b@ == v,
            None => r matches Err(e) && e@ == invalid_value_message(phase),
        },
{
    let order = native_byte_order();
    scan_target_in_order(order, is_unknown, scan_type, input, phase)
}

/// Whether a filtering scan can run on these reads: `next_scan_ready`,
/// tested.
pub fn reads_ready(state: &ScannerState, target: Option<&[u8]>, reads: &Vec<Option<Vec<u8>>>) -> (r: bool)
    ensures
        r == next_scan_ready(state, target_view(target), reads@),
{
    if reads.len() != state.candidates.len() {
        return false;
    }
    let size = state.scan_type.size();
    let mut i: usize = 0;
    while i < reads.len()
        invariant
            i <= reads@.len(),
            size == spec_size(state.scan_type),
            forall|j: int|
                0 <= j < i ==> (#[trigger] reads@[j] matches Some(d) ==> d@.len() <= spec_size(state.scan_type)),
        decreases reads@.len() - i,
    {
        match &reads[i] {
            Some(d) => {
                if d.len() > size {
                    return false;
                }
            },
            None => {},
        }
        i = i + 1;
    }
    if state.scan_type == ScanType::I8 && target.is_none() {
        let mut k: usize = 0;
        while k < state.candidates.len()
            invariant
                k <= state.candidates@.len(),
                state.scan_type == ScanType::I8,
                target is None,
                forall|j: int| 0 <= j < k ==> (#[trigger] state.candidates@[j]).last_value_bytes@.len() >= 1,
            decreases state.candidates@.len() - k,
        {
            if state.candidates[k].last_value_bytes.len() == 0 {
                assert(state.candidates@[k as int].last_value_bytes@.len() < 1);
                return false;
            }
            k = k + 1;
        }
    }
    true
}


/// The status shown after writing a value typed for a match: `parsed` says
/// whether the text was a value of the type, `error` is the failure of the
/// write.
pub open spec fn spec_write_status(parsed: bool, error: Option<Seq<char>>) -> Seq<char> {
    if !parsed {
        "Error: Invalid value format."@
    } else {
        match error {
            Some(e) => "Error: "@ + e,
            None => "Success: Wrote value!"@,
        }
    }
}

/// Builds the status shown after writing a value typed for a match.
pub fn write_status(parsed: bool, error: Option<&str>) -> (r: String)
    ensures
        r@ == spec_write_status(parsed, match error { Some(e) => Some(e@), None => None }),
{
    if !parsed {
        String::from_str("Error: Invalid value format.")
    } else {
        match error {
            Some(e) => {
                let mut m = String::from_str("Error: ");
                m.append(e);
                m
            },
            None => String::from_str("Success: Wrote value!"),
        }
    }
}

} // verus!
