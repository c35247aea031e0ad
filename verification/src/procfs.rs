use vstd::prelude::*;
use vstd::string::*;
use vstd::utf8::{valid_utf8, decode_utf8};
use vstd::slice::{slice_to_vec, slice_subrange};
use vstd::utf8::encode_utf8;
use crate::text::{
    chars_vec, first_index_of, find_char, spec_lines, lines_ranges, ranges_text, ranges_within, split_ws,
    split_whitespace_range, seq_starts_with, range_starts_with, spec_parse_int, parse_int_range,
};

verus! {

/// Calls `String::from_utf8`, which std documents as giving the string when
/// the bytes are valid UTF-8 and an error otherwise. The contract states this
/// with vstd's model of UTF-8: a string exactly for `valid_utf8`, holding the
/// characters that `decode_utf8` reads.
#[verifier::external_body]
fn string_from_utf8(bytes: Vec<u8>) -> (r: Option<String>)
    ensures
        r is Some <==> valid_utf8(bytes@),
        r matches Some(s) ==> s@ == decode_utf8(bytes@),
{
    String::from_utf8(bytes).ok()
}

/// The pieces of `s` between its zero bytes.
pub open spec fn split_nul(s: Seq<u8>) -> Seq<Seq<u8>>
    decreases s.len(),
{
    if s.len() == 0 {
        seq![seq![]]
    } else {
        let p = split_nul(s.drop_last());
        if s.last() == 0 {
            p.push(seq![])
        } else {
            p.update(p.len() - 1, p.last().push(s.last()))
        }
    }
}

pub proof fn lemma_split_nul_nonempty(s: Seq<u8>)
    ensures
        split_nul(s).len() >= 1,
    decreases s.len(),
{
    if s.len() > 0 {
        lemma_split_nul_nonempty(s.drop_last());
    }
}

/// The texts of the non-empty pieces that are valid UTF-8.
pub open spec fn utf8_pieces(pieces: Seq<Seq<u8>>) -> Seq<Seq<char>>
    decreases pieces.len(),
{
    if pieces.len() == 0 {
        seq![]
    } else {
        let p = utf8_pieces(pieces.drop_last());
        let last = pieces.last();
        if last.len() > 0 && valid_utf8(last) {
            p.push(decode_utf8(last))
        } else {
            p
        }
    }
}

/// The arguments in the content of `/proc/<pid>/cmdline`: the non-empty
/// pieces between zero bytes that are valid UTF-8, in order.
pub open spec fn spec_cmdline_args(content: Seq<u8>) -> Seq<Seq<char>> {
    utf8_pieces(split_nul(content))
}

/// The byte ranges of `content` between its zero bytes.
fn split_nul_ranges(content: &[u8]) -> (r: Vec<(usize, usize)>)
    ensures
        r@.map_values(|p: (usize, usize)| content@.subrange(p.0 as int, p.1 as int)) == split_nul(content@),
        forall|k: int| 0 <= k < r@.len() ==> (#[trigger] r@[k]).0 <= r@[k].1 <= content@.len(),
{
    let n = content.len();
    let mut out: Vec<(usize, usize)> = Vec::new();
    let mut start: usize = 0;
    let mut i: usize = 0;
    assert(content@.subrange(0, 0) =~= Seq::<u8>::empty());
    assert(out@.map_values(|p: (usize, usize)| content@.subrange(p.0 as int, p.1 as int)) + seq![
        content@.subrange(start as int, i as int),
    ] =~= split_nul(content@.subrange(0, 0)));
    while i < n
        invariant
            n == content@.len(),
            start <= i <= n,
            forall|k: int| 0 <= k < out@.len() ==> (#[trigger] out@[k]).0 <= out@[k].1 <= start,
            out@.map_values(|p: (usize, usize)| content@.subrange(p.0 as int, p.1 as int)) + seq![
                content@.subrange(start as int, i as int),
            ] == split_nul(content@.subrange(0, i as int)),
        decreases n - i,
    {
        let ghost t = content@.subrange(0, i as int);
        let ghost t2 = content@.subrange(0, i + 1);
        assert(t2.drop_last() =~= t);
        assert(t2.last() == content@[i as int]);
        proof {
            lemma_split_nul_nonempty(t);
        }
        let ghost p = split_nul(t);
        let ghost before = out@.map_values(|p: (usize, usize)| content@.subrange(p.0 as int, p.1 as int));
        if content[i] == 0 {
            let ghost old_start = start;
            out.push((start, i));
            start = i + 1;
            assert(out@.map_values(|p: (usize, usize)| content@.subrange(p.0 as int, p.1 as int)) =~= before
                + seq![content@.subrange(old_start as int, i as int)]);
            assert(content@.subrange(start as int, i + 1) =~= Seq::<u8>::empty());
            assert(out@.map_values(|p: (usize, usize)| content@.subrange(p.0 as int, p.1 as int)) + seq![
                content@.subrange(start as int, i + 1),
            ] =~= p.push(seq![]));
        } else {
            assert(content@.subrange(start as int, i + 1) =~= content@.subrange(start as int, i as int).push(
                content@[i as int],
            ));
            assert(before + seq![content@.subrange(start as int, i + 1)] =~= p.update(
                p.len() - 1,
                p.last().push(t2.last()),
            ));
        }
        i = i + 1;
    }
    let ghost before = out@.map_values(|p: (usize, usize)| content@.subrange(p.0 as int, p.1 as int));
    out.push((start, n));
    assert(out@.map_values(|p: (usize, usize)| content@.subrange(p.0 as int, p.1 as int)) =~= before + seq![
        content@.subrange(start as int, n as int),
    ]);
    assert(content@.subrange(0, n as int) =~= content@);
    out
}

/// The arguments in the content of `/proc/<pid>/cmdline`.
pub fn split_cmdline(content: &[u8]) -> (r: Vec<String>)
    ensures
        r@.map_values(|s: String| s@) == spec_cmdline_args(content@),
{
    let ranges = split_nul_ranges(content);
    let ghost pieces = split_nul(content@);
    let mut args: Vec<String> = Vec::new();
    let mut k: usize = 0;
    assert(pieces.take(0) =~= Seq::<Seq<u8>>::empty());
    while k < ranges.len()
        invariant
            k <= ranges@.len(),
            ranges@.map_values(|p: (usize, usize)| content@.subrange(p.0 as int, p.1 as int)) == pieces,
            forall|j: int| 0 <= j < ranges@.len() ==> (#[trigger] ranges@[j]).0 <= ranges@[j].1 <= content@.len(),
            args@.map_values(|s: String| s@) == utf8_pieces(pieces.take(k as int)),
        decreases ranges@.len() - k,
    {
        let (lo, hi) = ranges[k];
        assert(pieces[k as int] == content@.subrange(lo as int, hi as int));
        assert(pieces.take(k + 1).drop_last() =~= pieces.take(k as int));
        let ghost before = args@.map_values(|s: String| s@);
        if lo < hi {
            let bytes = slice_to_vec(slice_subrange(content, lo, hi));
            match string_from_utf8(bytes) {
                Some(s) => {
                    args.push(s);
                    assert(args@.map_values(|s: String| s@) =~= before.push(decode_utf8(pieces[k as int])));
                },
                None => {},
            }
        }
        k = k + 1;
    }
    assert(pieces.take(ranges@.len() as int) =~= pieces);
    args
}

/// A `KEY=value` text split at its first `=`; `None` when it has none.
pub open spec fn env_entry(s: Seq<char>) -> Option<(Seq<char>, Seq<char>)> {
    match first_index_of(s, '=') {
        Some(i) => Some((s.take(i), s.skip(i + 1))),
        None => None,
    }
}

/// The entries of the texts that hold a `=`, in order.
pub open spec fn env_entries(texts: Seq<Seq<char>>) -> Seq<(Seq<char>, Seq<char>)>
    decreases texts.len(),
{
    if texts.len() == 0 {
        seq![]
    } else {
        let p = env_entries(texts.drop_last());
        match env_entry(texts.last()) {
            Some(e) => p.push(e),
            None => p,
        }
    }
}

/// The variables in the content of `/proc/<pid>/environ`: the non-empty
/// pieces between zero bytes that are valid UTF-8 and hold a `=`, split at
/// their first `=` into name and value.
pub open spec fn spec_environ(content: Seq<u8>) -> Seq<(Seq<char>, Seq<char>)> {
    env_entries(spec_cmdline_args(content))
}

/// The variables in the content of `/proc/<pid>/environ`.
pub fn split_environ(content: &[u8]) -> (r: Vec<(String, String)>)
    ensures
        r@.map_values(|e: (String, String)| (e.0@, e.1@)) == spec_environ(content@),
{
    let texts = split_cmdline(content);
    let ghost tv = texts@.map_values(|s: String| s@);
    let mut envs: Vec<(String, String)> = Vec::new();
    let mut k: usize = 0;
    assert(tv.take(0) =~= Seq::<Seq<char>>::empty());
    while k < texts.len()
        invariant
            k <= texts@.len(),
            tv == texts@.map_values(|s: String| s@),
            envs@.map_values(|e: (String, String)| (e.0@, e.1@)) == env_entries(tv.take(k as int)),
        decreases texts@.len() - k,
    {
        let text = texts[k].as_str();
        assert(tv[k as int] == text@);
        assert(tv.take(k + 1).drop_last() =~= tv.take(k as int));
        let ghost before = envs@.map_values(|e: (String, String)| (e.0@, e.1@));
        let cs = chars_vec(text);
        let n = cs.len();
        match find_char(cs.as_slice(), '=') {
            Some(pos) => {
                assert(pos < n);
                let key = String::from_str(text.substring_char(0, pos));
                let val = String::from_str(text.substring_char(pos + 1, n));
                assert(text@.subrange(0, pos as int) =~= text@.take(pos as int));
                assert(text@.subrange(pos + 1, cs@.len() as int) =~= text@.skip(pos + 1));
                envs.push((key, val));
                assert(envs@.map_values(|e: (String, String)| (e.0@, e.1@)) =~= before.push(
                    (text@.take(pos as int), text@.skip(pos + 1)),
                ));
            },
            None => {},
        }
        k = k + 1;
    }
    assert(tv.take(texts@.len() as int) =~= tv);
    envs
}

/// Whether a path looks like a Windows path, as programs run under Wine or
/// Proton show them: it holds a backslash, or its second and third
/// characters are `:` and `\` and it is at least three bytes long.
pub open spec fn spec_is_windows_path(s: Seq<char>) -> bool {
    ||| s.contains('\\')
    ||| encode_utf8(s).len() >= 3 && s.len() > 2 && s[1] == ':' && s[2] == '\\'
}

/// Whether a path looks like a Windows path.
pub fn is_windows_path(path: &str) -> (r: bool)
    ensures
        r == spec_is_windows_path(path@),
{
    let cs = chars_vec(path);
    let has_backslash = match find_char(cs.as_slice(), '\\') {
        Some(i) => {
            assert(path@[i as int] == '\\');
            true
        },
        None => {
            proof {
                lemma_first_index_none(path@, '\\');
            }
            false
        },
    };
    has_backslash || (path.len() >= 3 && cs.len() > 2 && cs[1] == ':' && cs[2] == '\\')
}

/// When `c` has no first index, it does not occur.
pub proof fn lemma_first_index_none(s: Seq<char>, c: char)
    requires
        first_index_of(s, c) is None,
    ensures
        !s.contains(c),
    decreases s.len(),
{
    if s.len() > 0 {
        lemma_first_index_none(s.drop_first(), c);
        assert forall|i: int| 0 <= i < s.len() implies s[i] != c by {
            if i > 0 {
                assert(s[i] == s.drop_first()[i - 1]);
            }
        }
    }
}

/// A path is Windows-like exactly when it holds a backslash: the
/// drive-letter form `X:\...` holds one too.
pub proof fn lemma_windows_path_iff_backslash(s: Seq<char>)
    ensures
        spec_is_windows_path(s) <==> s.contains('\\'),
{
    if s.len() > 2 && s[2] == '\\' {
        assert(s.contains('\\'));
    }
}

/// The number that the last word of the first `NSpid:` line of a
/// `/proc/<pid>/status` text denotes: the process's id in its innermost PID
/// namespace. Lines whose last word is not an `i32` are passed over.
pub open spec fn namespaced_pid_in(lines: Seq<Seq<char>>) -> Option<int>
    decreases lines.len(),
{
    if lines.len() == 0 {
        None
    } else {
        let words = split_ws(lines[0]);
        let v = if seq_starts_with(lines[0], "NSpid:"@) && words.len() > 0 {
            spec_parse_int(words.last(), 10, true, -0x8000_0000, 0x7FFF_FFFF)
        } else {
            None
        };
        match v {
            Some(p) => Some(p),
            None => namespaced_pid_in(lines.drop_first()),
        }
    }
}

/// The process id in its innermost PID namespace, read from a
/// `/proc/<pid>/status` text.
pub fn namespaced_pid_from_status(content: &str) -> (r: Option<i32>)
    ensures
        r matches Some(p) ==> namespaced_pid_in(spec_lines(content@)) == Some(p as int),
        r is None ==> namespaced_pid_in(spec_lines(content@)) is None,
{
    let cs = chars_vec(content);
    let (pieces, count) = lines_ranges(cs.as_slice());
    let ghost lines = spec_lines(content@);
    let prefix = chars_vec("NSpid:");
    let mut i: usize = 0;
    assert(lines.skip(0) =~= lines);
    while i < count
        invariant
            count <= pieces@.len(),
            i <= count,
            cs@ == content@,
            prefix@ == "NSpid:"@,
            ranges_within(pieces@, 0, cs@.len() as int),
            lines == ranges_text(cs@, pieces@).take(count as int),
            lines == spec_lines(content@),
            namespaced_pid_in(lines) == namespaced_pid_in(lines.skip(i as int)),
        decreases count - i,
    {
        let (lo, hi) = pieces[i];
        let ghost line = cs@.subrange(lo as int, hi as int);
        assert(lines[i as int] == line);
        assert(lines.skip(i as int)[0] == line);
        assert(lines.skip(i as int).drop_first() =~= lines.skip(i + 1));
        if range_starts_with(cs.as_slice(), lo, hi, prefix.as_slice()) {
            let words = split_whitespace_range(cs.as_slice(), lo, hi);
            if words.len() > 0 {
                let (wlo, whi) = words[words.len() - 1];
                assert(ranges_text(cs@, words@).last() == cs@.subrange(wlo as int, whi as int));
                match parse_int_range(cs.as_slice(), wlo, whi, 10, true, -0x8000_0000, 0x7FFF_FFFF) {
                    Some(v) => {
                        assert(split_ws(line) == ranges_text(cs@, words@));
                        assert(seq_starts_with(line, "NSpid:"@));
                        assert(namespaced_pid_in(lines.skip(i as int)) == Some(v as int));
                        return Some(v as i32);
                    },
                    None => {},
                }
            }
        }
        i = i + 1;
    }
    assert(lines.skip(count as int) =~= Seq::<Seq<char>>::empty());
    None
}

/// The group ids that the words after `Groups:` on the first such line of a
/// `/proc/<pid>/status` text denote, those that are not `u32` numbers passed over.
pub open spec fn status_groups(lines: Seq<Seq<char>>) -> Seq<int>
    decreases lines.len(),
{
    if lines.len() == 0 {
        seq![]
    } else if seq_starts_with(lines[0], "Groups:"@) {
        u32_words(split_ws(lines[0].skip(7)))
    } else {
        status_groups(lines.drop_first())
    }
}

/// The words that are `u32` numbers, as numbers, in order.
pub open spec fn u32_words(words: Seq<Seq<char>>) -> Seq<int>
    decreases words.len(),
{
    if words.len() == 0 {
        seq![]
    } else {
        let p = u32_words(words.drop_last());
        match spec_parse_int(words.last(), 10, false, 0, 0xFFFF_FFFF) {
            Some(v) => p.push(v),
            None => p,
        }
    }
}

/// The `u32` numbers among the words of the range `lo..hi` of `cs`.
fn u32_words_range(cs: &[char], lo: usize, hi: usize) -> (r: Vec<u32>)
    requires
        lo <= hi <= cs@.len(),
    ensures
        r@.map_values(|g: u32| g as int) == u32_words(split_ws(cs@.subrange(lo as int, hi as int))),
{
    let words = split_whitespace_range(cs, lo, hi);
    let ghost wt = ranges_text(cs@, words@);
    let mut out: Vec<u32> = Vec::new();
    let mut k: usize = 0;
    assert(wt.take(0) =~= Seq::<Seq<char>>::empty());
    while k < words.len()
        invariant
            k <= words@.len(),
            wt == ranges_text(cs@, words@),
            ranges_within(words@, lo as int, hi as int),
            hi <= cs@.len(),
            out@.map_values(|g: u32| g as int) == u32_words(wt.take(k as int)),
        decreases words@.len() - k,
    {
        let (wlo, whi) = words[k];
        assert(wt[k as int] == cs@.subrange(wlo as int, whi as int));
        assert(wt.take(k + 1).drop_last() =~= wt.take(k as int));
        let ghost before = out@.map_values(|g: u32| g as int);
        match parse_int_range(cs, wlo, whi, 10, false, 0, 0xFFFF_FFFF) {
            Some(v) => {
                out.push(v as u32);
                assert(out@.map_values(|g: u32| g as int) =~= before.push(v as int));
            },
            None => {},
        }
        k = k + 1;
    }
    assert(wt.take(words@.len() as int) =~= wt);
    out
}

/// The group ids in a list of numbers separated by white space, such as
/// `id -G` prints; words that are not `u32` numbers are passed over.
pub fn parse_group_list(s: &str) -> (r: Vec<u32>)
    ensures
        r@.map_values(|g: u32| g as int) == u32_words(split_ws(s@)),
{
    let cs = chars_vec(s);
    assert(cs@.subrange(0, cs@.len() as int) =~= s@);
    u32_words_range(cs.as_slice(), 0, cs.len())
}

/// The supplementary group ids listed in a `/proc/<pid>/status` text.
pub fn groups_from_status(content: &str) -> (r: Vec<u32>)
    ensures
        r@.map_values(|g: u32| g as int) == status_groups(spec_lines(content@)),
{
    let cs = chars_vec(content);
    let (pieces, count) = lines_ranges(cs.as_slice());
    let ghost lines = spec_lines(content@);
    let prefix = chars_vec("Groups:");
    let mut i: usize = 0;
    assert(lines.skip(0) =~= lines);
    while i < count
        invariant
            count <= pieces@.len(),
            i <= count,
            cs@ == content@,
            prefix@ == "Groups:"@,
            ranges_within(pieces@, 0, cs@.len() as int),
            lines == ranges_text(cs@, pieces@).take(count as int),
            lines == spec_lines(content@),
            status_groups(lines) == status_groups(lines.skip(i as int)),
        decreases count - i,
    {
        let (lo, hi) = pieces[i];
        let ghost line = cs@.subrange(lo as int, hi as int);
        assert(lines[i as int] == line);
        assert(lines.skip(i as int)[0] == line);
        assert(lines.skip(i as int).drop_first() =~= lines.skip(i + 1));
        if range_starts_with(cs.as_slice(), lo, hi, prefix.as_slice()) {
            proof {
                reveal_strlit("Groups:");
            }
            assert(line.skip(7) =~= cs@.subrange(lo + 7, hi as int));
            let out = u32_words_range(cs.as_slice(), lo + 7, hi);
            assert(seq_starts_with(line, "Groups:"@));
            assert(status_groups(lines.skip(i as int)) == u32_words(split_ws(line.skip(7))));
            return out;
        }
        i = i + 1;
    }
    assert(lines.skip(count as int) =~= Seq::<Seq<char>>::empty());
    Vec::new()
}

} // verus!
