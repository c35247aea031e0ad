use vstd::prelude::*;
use crate::scanner::MemoryRegion;
use crate::text::{
    chars_vec, contains_chars, range_ends_with, range_starts_with, ranges_text, ranges_within,
    seq_contains, seq_ends_with, seq_starts_with, spec_parse_int, split_char, split_char_range,
    split_whitespace_range, split_ws, parse_int_range, spec_lines, lines_ranges, join_space,
};

verus! {

/// `usize::from_str_radix(s, 16).unwrap_or(0)`.
pub open spec fn hex_or_zero(s: Seq<char>) -> int {
    match spec_parse_int(s, 16, false, 0, usize::MAX as int) {
        Some(v) => v,
        None => 0,
    }
}

/// The name of a mapping: the fields of its line from the sixth on, joined
/// with spaces (empty when there are fewer than six fields).
pub open spec fn mapping_name(parts: Seq<Seq<char>>) -> Seq<char> {
    if parts.len() >= 6 {
        join_space(parts.skip(5))
    } else {
        seq![]
    }
}

/// The kernel's special mappings, which cannot be read.
pub open spec fn is_special_mapping(name: Seq<char>) -> bool {
    ||| seq_contains(name, "[vsyscall]"@)
    ||| seq_contains(name, "[vdso]"@)
    ||| seq_contains(name, "[vvar]"@)
}

/// The region that a line of `/proc/<pid>/maps` describes, when it is a
/// readable, writable, private mapping other than the kernel's special ones.
/// Its first field is split at `-` into the start and end addresses in hex
/// (a field that does not parse gives 0); its second field holds the
/// permissions.
pub open spec fn spec_parse_maps_line(line: Seq<char>) -> Option<MemoryRegion> {
    let parts = split_ws(line);
    if parts.len() < 2 {
        None
    } else {
        let range = split_char(parts[0], '-');
        if range.len() != 2 {
            None
        } else if seq_starts_with(parts[1], "rw"@) && seq_ends_with(parts[1], "p"@) && !is_special_mapping(
            mapping_name(parts),
        ) {
            Some(MemoryRegion { start: hex_or_zero(range[0]) as usize, end: hex_or_zero(range[1]) as usize })
        } else {
            None
        }
    }
}

/// A line for a readable, writable, private mapping whose address field
/// holds one `-` is skipped only for the kernel's vsyscall, vdso and vvar
/// pages; any other mapping (the heap, the stack, a file, an anonymous one)
/// gives the region between the two hex addresses.
pub proof fn lemma_private_rw_mapping_kept(line: Seq<char>)
    requires
        split_ws(line).len() >= 2,
        split_char(split_ws(line)[0], '-').len() == 2,
        seq_starts_with(split_ws(line)[1], "rw"@),
        seq_ends_with(split_ws(line)[1], "p"@),
    ensures
        ({
            let name = mapping_name(split_ws(line));
            let range = split_char(split_ws(line)[0], '-');
            if seq_contains(name, "[vsyscall]"@) || seq_contains(name, "[vdso]"@) || seq_contains(
                name,
                "[vvar]"@,
            ) {
                spec_parse_maps_line(line) is None
            } else {
                spec_parse_maps_line(line) == Some(
                    MemoryRegion { start: hex_or_zero(range[0]) as usize, end: hex_or_zero(range[1]) as usize },
                )
            }
        }),
{
}

/// Only readable, writable, private mappings are scanned: a line whose
/// permissions do not begin with `rw` or do not end with `p` (a read-only,
/// an executable-only or a shared mapping), and a line with fewer than two
/// fields, gives no region.
pub proof fn lemma_other_mappings_skipped(line: Seq<char>)
    requires
        split_ws(line).len() < 2 || !seq_starts_with(split_ws(line)[1], "rw"@) || !seq_ends_with(
            split_ws(line)[1],
            "p"@,
        ),
    ensures
        spec_parse_maps_line(line) is None,
{
}

/// The regions that the lines describe, in order.
pub open spec fn regions_of_lines(lines: Seq<Seq<char>>) -> Seq<MemoryRegion>
    decreases lines.len(),
{
    if lines.len() == 0 {
        seq![]
    } else {
        regions_of_lines(lines.drop_last()) + match spec_parse_maps_line(lines.last()) {
            Some(r) => seq![r],
            None => seq![],
        }
    }
}

/// The scannable regions listed in the text of `/proc/<pid>/maps`.
pub open spec fn spec_parse_maps(content: Seq<char>) -> Seq<MemoryRegion> {
    regions_of_lines(spec_lines(content))
}

/// Joins the words `words[from..]` of `cs` with single spaces.
fn join_words(cs: &[char], words: &Vec<(usize, usize)>, from: usize) -> (r: Vec<char>)
    requires
        from <= words@.len(),
        ranges_within(words@, 0, cs@.len() as int),
    ensures
        r@ == join_space(ranges_text(cs@, words@).skip(from as int)),
{
    let ghost texts = ranges_text(cs@, words@);
    let mut out: Vec<char> = Vec::new();
    let mut k: usize = from;
    assert(texts.subrange(from as int, from as int) =~= Seq::<Seq<char>>::empty());
    while k < words.len()
        invariant
            from <= k <= words@.len(),
            ranges_within(words@, 0, cs@.len() as int),
            texts == ranges_text(cs@, words@),
            out@ == join_space(texts.subrange(from as int, k as int)),
        decreases words@.len() - k,
    {
        let (lo, hi) = words[k];
        let ghost before = out@;
        if k > from {
            out.push(' ');
        }
        let mut m: usize = lo;
        while m < hi
            invariant
                lo <= m <= hi,
                hi <= cs@.len(),
                out@ == (if k > from { before + seq![' '] } else { before }) + cs@.subrange(lo as int, m as int),
            decreases hi - m,
        {
            out.push(cs[m]);
            assert(cs@.subrange(lo as int, m + 1) =~= cs@.subrange(lo as int, m as int).push(cs@[m as int]));
            m = m + 1;
        }
        proof {
            let next = texts.subrange(from as int, k + 1);
            assert(next.drop_last() =~= texts.subrange(from as int, k as int));
            assert(next.last() == cs@.subrange(lo as int, hi as int));
            if k == from {
                assert(before =~= Seq::<char>::empty());
                assert(out@ =~= next[0]);
            } else {
                assert(out@ =~= before + seq![' '] + next.last());
            }
        }
        k = k + 1;
    }
    assert(texts.subrange(from as int, words@.len() as int) =~= texts.skip(from as int));
    out
}

/// Parses the line `lo..hi` of `cs` as a line of `/proc/<pid>/maps`.
fn parse_maps_line(cs: &[char], lo: usize, hi: usize) -> (r: Option<MemoryRegion>)
    requires
        lo <= hi <= cs@.len(),
    ensures
        r == spec_parse_maps_line(cs@.subrange(lo as int, hi as int)),
{
    let ghost line = cs@.subrange(lo as int, hi as int);
    let parts = split_whitespace_range(cs, lo, hi);
    let ghost texts = ranges_text(cs@, parts@);
    if parts.len() < 2 {
        return None;
    }
    let (a_lo, a_hi) = parts[0];
    let (p_lo, p_hi) = parts[1];
    assert(texts[0] == cs@.subrange(a_lo as int, a_hi as int));
    assert(texts[1] == cs@.subrange(p_lo as int, p_hi as int));
    let range = split_char_range(cs, a_lo, a_hi, '-');
    if range.len() != 2 {
        return None;
    }
    let (s_lo, s_hi) = range[0];
    let (e_lo, e_hi) = range[1];
    let rw = chars_vec("rw");
    let p = chars_vec("p");
    if !(range_starts_with(cs, p_lo, p_hi, rw.as_slice()) && range_ends_with(cs, p_lo, p_hi, p.as_slice())) {
        return None;
    }
    let name: Vec<char> = if parts.len() >= 6 {
        join_words(cs, &parts, 5)
    } else {
        Vec::new()
    };
    assert(name@ == mapping_name(texts));
    let vsyscall = chars_vec("[vsyscall]");
    let vdso = chars_vec("[vdso]");
    let vvar = chars_vec("[vvar]");
    if contains_chars(name.as_slice(), vsyscall.as_slice()) || contains_chars(name.as_slice(), vdso.as_slice())
        || contains_chars(name.as_slice(), vvar.as_slice()) {
        return None;
    }
    let ghost rtexts = ranges_text(cs@, range@);
    assert(rtexts[0] == cs@.subrange(s_lo as int, s_hi as int));
    assert(rtexts[1] == cs@.subrange(e_lo as int, e_hi as int));
    let umax: i128 = usize::MAX as i128;
    let start = match parse_int_range(cs, s_lo, s_hi, 16, false, 0, umax) {
        Some(v) => v,
        None => 0,
    };
    let end = match parse_int_range(cs, e_lo, e_hi, 16, false, 0, umax) {
        Some(v) => v,
        None => 0,
    };
    Some(MemoryRegion { start: start as usize, end: end as usize })
}

/// The scannable regions listed in the text of `/proc/<pid>/maps`: the
/// readable, writable, private mappings, other than the kernel's special
/// ones, in the order of their lines.
pub fn parse_maps(content: &str) -> (r: Vec<MemoryRegion>)
    ensures
        r@ == spec_parse_maps(content@),
{
    let cs = chars_vec(content);
    let (pieces, count) = lines_ranges(cs.as_slice());
    let ghost texts = ranges_text(cs@, pieces@);
    let ghost lines = spec_lines(content@);
    let mut out: Vec<MemoryRegion> = Vec::new();
    let mut i: usize = 0;
    assert(lines.take(0) =~= Seq::<Seq<char>>::empty());
    while i < count
        invariant
            count <= pieces@.len(),
            i <= count,
            texts == ranges_text(cs@, pieces@),
            ranges_within(pieces@, 0, cs@.len() as int),
            lines =~= texts.take(count as int),
            out@ == regions_of_lines(lines.take(i as int)),
        decreases count - i,
    {
        let (lo, hi) = pieces[i];
        assert(lines[i as int] == cs@.subrange(lo as int, hi as int));
        assert(lines.take(i + 1).drop_last() =~= lines.take(i as int));
        let ghost before = out@;
        match parse_maps_line(cs.as_slice(), lo, hi) {
            Some(region) => {
                out.push(region);
                assert(out@ =~= before + seq![region]);
            },
            None => {
                assert(out@ =~= before + Seq::<MemoryRegion>::empty());
            },
        }
        i = i + 1;
    }
    assert(lines.take(count as int) =~= lines);
    out
}

} // verus!
