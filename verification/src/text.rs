use vstd::prelude::*;
use vstd::string::*;

verus! {

/// Unicode `White_Space` characters, the set that `char::is_whitespace` tests.
pub open spec fn spec_is_white_space(c: char) -> bool {
    let u = c as u32;
    ||| 9 <= u <= 13
    ||| u == 32
    ||| u == 0x85
    ||| u == 0xA0
    ||| u == 0x1680
    ||| 0x2000 <= u <= 0x200A
    ||| u == 0x2028
    ||| u == 0x2029
    ||| u == 0x202F
    ||| u == 0x205F
    ||| u == 0x3000
}

/// Whether `c` is a Unicode white-space character.
pub fn is_white_space(c: char) -> (r: bool)
    ensures
        r == spec_is_white_space(c),
{
    let u = c as u32;
    (9 <= u && u <= 13) || u == 32 || u == 0x85 || u == 0xA0 || u == 0x1680 || (0x2000 <= u && u
        <= 0x200A) || u == 0x2028 || u == 0x2029 || u == 0x202F || u == 0x205F || u == 0x3000
}

/// `s` without its leading white space.
pub open spec fn trim_start(s: Seq<char>) -> Seq<char>
    decreases s.len(),
{
    if s.len() > 0 && spec_is_white_space(s[0]) {
        trim_start(s.drop_first())
    } else {
        s
    }
}

/// `s` without its trailing white space.
pub open spec fn trim_end(s: Seq<char>) -> Seq<char>
    decreases s.len(),
{
    if s.len() > 0 && spec_is_white_space(s.last()) {
        trim_end(s.drop_last())
    } else {
        s
    }
}

/// `s` without leading and trailing white space, as `str::trim` returns it.
pub open spec fn spec_trim(s: Seq<char>) -> Seq<char> {
    trim_end(trim_start(s))
}

/// Narrows the range `lo..hi` of `cs` to its text without leading and
/// trailing white space.
pub fn trim_range(cs: &[char], lo: usize, hi: usize) -> (r: (usize, usize))
    requires
        lo <= hi <= cs@.len(),
    ensures
        lo <= r.0 <= r.1 <= hi,
        cs@.subrange(r.0 as int, r.1 as int) == spec_trim(cs@.subrange(lo as int, hi as int)),
{
    let mut i: usize = lo;
    while i < hi && is_white_space(cs[i])
        invariant
            lo <= i <= hi,
            hi <= cs@.len(),
            trim_start(cs@.subrange(lo as int, hi as int)) == trim_start(cs@.subrange(i as int, hi as int)),
        decreases hi - i,
    {
        assert(cs@.subrange(i as int, hi as int).drop_first() =~= cs@.subrange(i + 1, hi as int));
        i = i + 1;
    }
    assert(trim_start(cs@.subrange(i as int, hi as int)) == cs@.subrange(i as int, hi as int));
    let mut j: usize = hi;
    while j > i && is_white_space(cs[j - 1])
        invariant
            lo <= i <= j <= hi,
            hi <= cs@.len(),
            trim_end(cs@.subrange(i as int, hi as int)) == trim_end(cs@.subrange(i as int, j as int)),
        decreases j,
    {
        assert(cs@.subrange(i as int, j as int).drop_last() =~= cs@.subrange(i as int, j - 1));
        j = j - 1;
    }
    (i, j)
}

/// Removes leading and trailing white space.
pub fn trim(s: &str) -> (r: &str)
    ensures
        r@ == spec_trim(s@),
{
    let cs = chars_vec(s);
    let (i, j) = trim_range(cs.as_slice(), 0, cs.len());
    assert(cs@.subrange(0, cs@.len() as int) =~= s@);
    s.substring_char(i, j)
}

/// The value of an ASCII digit in the given radix (10 or 16), if `c` is one.
pub open spec fn spec_digit(c: char, radix: nat) -> Option<nat> {
    let u = c as u32;
    if 48 <= u <= 57 {
        Some((u - 48) as nat)
    } else if radix == 16 && 97 <= u <= 102 {
        Some((u - 87) as nat)
    } else if radix == 16 && 65 <= u <= 70 {
        Some((u - 55) as nat)
    } else {
        None
    }
}

/// Every character of `s` is a digit of the radix.
pub open spec fn all_digits(s: Seq<char>, radix: nat) -> bool {
    forall|i: int| 0 <= i < s.len() ==> (#[trigger] spec_digit(s[i], radix)) is Some
}

/// The number that the digits of `s` denote, most significant first.
pub open spec fn digits_value(s: Seq<char>, radix: nat) -> nat
    decreases s.len(),
{
    if s.len() == 0 {
        0
    } else {
        digits_value(s.drop_last(), radix) * radix + match spec_digit(s.last(), radix) {
            Some(d) => d,
            None => 0,
        }
    }
}

/// What `from_str_radix` gives for an integer type with bounds `min..=max`:
/// an optional `+` (or `-` when the type is signed) followed by one or more
/// digits, whose value lies in the bounds.
pub open spec fn spec_parse_int(s: Seq<char>, radix: nat, signed: bool, min: int, max: int) -> Option<int> {
    if s.len() == 0 {
        None
    } else if (s[0] == '+' || s[0] == '-') && s.len() == 1 {
        None
    } else {
        let neg = s[0] == '-' && signed;
        let body = if s[0] == '+' || neg { s.drop_first() } else { s };
        let v: int = if neg { -digits_value(body, radix) } else { digits_value(body, radix) as int };
        if all_digits(body, radix) && min <= v <= max {
            Some(v)
        } else {
            None
        }
    }
}

/// The digit that `c` denotes in the radix, if it is one.
pub fn digit_of(c: char, radix: u32) -> (r: Option<u32>)
    ensures
        r matches Some(d) ==> spec_digit(c, radix as nat) == Some(d as nat),
        r is None ==> spec_digit(c, radix as nat) is None,
{
    let u = c as u32;
    if 48 <= u && u <= 57 {
        Some(u - 48)
    } else if radix == 16 && 97 <= u && u <= 102 {
        Some(u - 87)
    } else if radix == 16 && 65 <= u && u <= 70 {
        Some(u - 55)
    } else {
        None
    }
}

/// Capping a digit accumulation at `cap` commutes with adding a digit.
proof fn lemma_saturating_digit_step(dv: nat, cap: nat, radix: nat, d: nat)
    requires
        radix >= 1,
    ensures
        dv >= cap ==> dv * radix + d >= cap,
{
    if dv >= cap {
        assert(dv * radix >= cap * radix) by (nonlinear_arith)
            requires
                dv >= cap,
                radix >= 1,
        ;
        assert(cap * radix >= cap) by (nonlinear_arith)
            requires
                radix >= 1,
        ;
    }
}

/// `acc * radix + d`, capped at `cap`.
fn saturating_digit_step(acc: u128, radix: u32, d: u32, cap: u128) -> (r: u128)
    requires
        acc <= cap,
        cap <= 0x1_0000_0000_0000_0001,
        radix <= 16,
        d < 16,
    ensures
        r == if acc * radix + d < cap { acc * radix + d } else { cap as int },
{
    let r128: u128 = radix as u128;
    assert(acc * r128 <= cap * 16) by (nonlinear_arith)
        requires
            acc <= cap,
            r128 <= 16,
    ;
    let step: u128 = acc * r128 + (d as u128);
    if step < cap { step } else { cap }
}

/// Parses the range `lo..hi` of `cs` as an integer the way `from_str_radix`
/// does for a type whose values are `min..=max`.
#[verifier::rlimit(80)]
pub fn parse_int_range(cs: &[char], lo: usize, hi: usize, radix: u32, signed: bool, min: i128, max: i128) -> (r: Option<i128>)
    requires
        lo <= hi <= cs@.len(),
        radix == 10 || radix == 16,
        -0x1_0000_0000_0000_0000 <= min <= 0 <= max <= 0x1_0000_0000_0000_0000,
    ensures
        r matches Some(v) ==> spec_parse_int(cs@.subrange(lo as int, hi as int), radix as nat, signed, min as int, max as int) == Some(v as int),
        r is None ==> spec_parse_int(cs@.subrange(lo as int, hi as int), radix as nat, signed, min as int, max as int) is None,
{
    let ghost s = cs@.subrange(lo as int, hi as int);
    let n = hi - lo;
    if n == 0 {
        return None;
    }
    let first = cs[lo];
    assert(first == s[0]);
    if (first == '+' || first == '-') && n == 1 {
        return None;
    }
    let neg = first == '-' && signed;
    let start: usize = if first == '+' || neg { 1 } else { 0 };
    let ghost body = if first == '+' || neg { s.drop_first() } else { s };
    assert(body =~= s.subrange(start as int, n as int));
    let bound: u128 = if neg { (0 - min) as u128 } else { max as u128 };
    let cap: u128 = bound + 1;
    let mut acc: u128 = 0;
    let mut i: usize = start;
    while i < n
        invariant
            n == s.len(),
            s == cs@.subrange(lo as int, hi as int),
            n == hi - lo,
            hi <= cs@.len(),
            start <= i <= n,
            body =~= s.subrange(start as int, n as int),
            first == s[0],
            neg == (first == '-' && signed),
            body == if first == '+' || neg { s.drop_first() } else { s },
            !((first == '+' || first == '-') && n == 1),
            cap == bound + 1,
            bound <= 0x1_0000_0000_0000_0000,
            radix == 10 || radix == 16,
            all_digits(body.take(i - start), radix as nat),
            acc as int == if digits_value(body.take(i - start), radix as nat) < cap {
                digits_value(body.take(i - start), radix as nat) as int
            } else {
                cap as int
            },
        decreases n - i,
    {
        let c = cs[lo + i];
        assert(c == s[i as int]);
        let d = match digit_of(c, radix) {
            Some(d) => d,
            None => {
                assert(body[i - start] == c);
                assert(!all_digits(body, radix as nat)) by {
                    assert(spec_digit(body[i - start], radix as nat) is None);
                }
                assert(spec_parse_int(s, radix as nat, signed, min as int, max as int) is None);
                return None;
            },
        };
        let ghost prev = body.take(i - start);
        let ghost next = body.take(i - start + 1);
        assert(next.drop_last() =~= prev);
        assert(next.last() == c);
        assert(digits_value(next, radix as nat) == digits_value(prev, radix as nat) * radix + d);
        acc = saturating_digit_step(acc, radix, d, cap);
        proof {
            lemma_saturating_digit_step(digits_value(prev, radix as nat), cap as nat, radix as nat, d as nat);
            assert forall|k: int| 0 <= k < next.len() implies (#[trigger] spec_digit(next[k], radix as nat)) is Some by {
                if k < prev.len() {
                    assert(next[k] == prev[k]);
                }
            }
        }
        i = i + 1;
    }
    assert(body.take(n - start) =~= body);
    if acc > bound {
        return None;
    }
    if neg {
        Some(0 - (acc as i128))
    } else {
        Some(acc as i128)
    }
}

/// Parses an integer the way `from_str_radix` does for a type whose values are `min..=max`.
pub fn parse_int(s: &str, radix: u32, signed: bool, min: i128, max: i128) -> (r: Option<i128>)
    requires
        radix == 10 || radix == 16,
        -0x1_0000_0000_0000_0000 <= min <= 0 <= max <= 0x1_0000_0000_0000_0000,
    ensures
        r matches Some(v) ==> spec_parse_int(s@, radix as nat, signed, min as int, max as int) == Some(v as int),
        r is None ==> spec_parse_int(s@, radix as nat, signed, min as int, max as int) is None,
{
    let cs = chars_vec(s);
    assert(cs@.subrange(0, cs@.len() as int) =~= s@);
    parse_int_range(cs.as_slice(), 0, cs.len(), radix, signed, min, max)
}

/// The character of a digit below 16, upper-case for the letters.
pub open spec fn digit_char(d: nat) -> char {
    if d < 10 {
        (48 + d) as char
    } else {
        (55 + d) as char
    }
}

/// The digits of `n` in the radix, most significant first, without leading zeros.
pub open spec fn nat_digits(n: nat, radix: nat) -> Seq<char>
    decreases n,
{
    if radix < 2 || n < radix {
        seq![digit_char(n)]
    } else {
        proof {
            assert(n / radix < n) by (nonlinear_arith)
                requires
                    radix >= 2,
                    n >= radix,
            ;
        }
        nat_digits(n / radix, radix) + seq![digit_char(n % radix)]
    }
}

/// Decimal text of an integer, with a leading `-` when it is negative, as `{}` prints it.
pub open spec fn decimal_string(v: int) -> Seq<char> {
    if v < 0 {
        seq!['-'] + nat_digits((-v) as nat, 10)
    } else {
        nat_digits(v as nat, 10)
    }
}

/// Upper-case hexadecimal text of a number, as `{:X}` prints it.
pub open spec fn hex_upper_string(n: nat) -> Seq<char> {
    nat_digits(n, 16)
}

/// The digit character of `d` denotes `d`.
pub proof fn lemma_digit_char(d: nat, radix: nat)
    requires
        d < radix,
        radix == 10 || radix == 16,
    ensures
        spec_digit(digit_char(d), radix) == Some(d),
        !spec_is_white_space(digit_char(d)),
        digit_char(d) != '+' && digit_char(d) != '-',
{
    if d < 10 {
        assert(((48 + d) as char) as u32 == 48 + d);
    } else {
        assert(((55 + d) as char) as u32 == 55 + d);
    }
}

/// The digits of `n` are digits of the radix, denote `n`, and are not empty.
pub proof fn lemma_nat_digits(n: nat, radix: nat)
    requires
        radix == 10 || radix == 16,
    ensures
        all_digits(nat_digits(n, radix), radix),
        digits_value(nat_digits(n, radix), radix) == n,
        nat_digits(n, radix).len() >= 1,
        forall|i: int| 0 <= i < nat_digits(n, radix).len() ==> !spec_is_white_space(#[trigger] nat_digits(n, radix)[i])
            && nat_digits(n, radix)[i] != '+' && nat_digits(n, radix)[i] != '-',
    decreases n,
{
    let s = nat_digits(n, radix);
    if n < radix {
        lemma_digit_char(n, radix);
        assert(s.drop_last() =~= Seq::<char>::empty());
        assert(digits_value(s.drop_last(), radix) == 0);
        assert(s.last() == digit_char(n));
    } else {
        assert(n / radix < n) by (nonlinear_arith)
            requires
                radix >= 2,
                n >= radix,
        ;
        lemma_nat_digits(n / radix, radix);
        lemma_digit_char(n % radix, radix);
        let p = nat_digits(n / radix, radix);
        assert(s.drop_last() =~= p);
        assert(s.last() == digit_char(n % radix));
        assert(n == (n / radix) * radix + n % radix) by (nonlinear_arith)
            requires
                radix >= 2,
        ;
        assert(spec_digit(s.last(), radix) == Some(n % radix));
        assert(digits_value(s, radix) == digits_value(p, radix) * radix + n % radix);
        assert forall|i: int| 0 <= i < s.len() implies (#[trigger] spec_digit(s[i], radix)) is Some by {
            if i < p.len() {
                assert(s[i] == p[i]);
            }
        }
        assert forall|i: int| 0 <= i < s.len() implies !spec_is_white_space(#[trigger] s[i]) && s[i] != '+'
            && s[i] != '-' by {
            if i < p.len() {
                assert(s[i] == p[i]);
            }
        }
    }
}

/// A text without white space is its own trim.
pub proof fn lemma_trim_no_white_space(s: Seq<char>)
    requires
        forall|i: int| 0 <= i < s.len() ==> !spec_is_white_space(#[trigger] s[i]),
    ensures
        spec_trim(s) == s,
{
    assert(trim_start(s) == s);
    assert(trim_end(s) == s);
}

/// Parsing the decimal text of a value in bounds gives the value back.
pub proof fn lemma_parse_decimal_string(v: int, min: int, max: int)
    requires
        min <= v <= max,
    ensures
        spec_parse_int(spec_trim(decimal_string(v)), 10, true, min, max) == Some(v),
{
    let s = decimal_string(v);
    if v < 0 {
        let m = (-v) as nat;
        lemma_nat_digits(m, 10);
        let body = nat_digits(m, 10);
        assert(s.drop_first() =~= body);
        assert forall|i: int| 0 <= i < s.len() implies !spec_is_white_space(#[trigger] s[i]) by {
            if i > 0 {
                assert(s[i] == body[i - 1]);
            } else {
                assert(s[0] == '-');
                assert(('-' as u32) == 45);
            }
        }
        lemma_trim_no_white_space(s);
    } else {
        lemma_nat_digits(v as nat, 10);
        lemma_trim_no_white_space(s);
    }
}

/// Parsing the upper-case hexadecimal text of a number in bounds gives the number back.
pub proof fn lemma_parse_hex_string(n: nat, max: int)
    requires
        n <= max,
    ensures
        spec_parse_int(spec_trim(hex_upper_string(n)), 16, false, 0, max) == Some(n as int),
{
    let s = hex_upper_string(n);
    lemma_nat_digits(n, 16);
    lemma_trim_no_white_space(s);
    assert(s[0] != '+' && s[0] != '-');
}

/// Taking the copies of `c` off both ends of `c`, `d`, `c` gives `d` back
/// when `d` neither begins nor ends with `c`.
pub proof fn lemma_trim_matches_wrapped(d: Seq<char>, c: char)
    requires
        d.len() == 0 || (d[0] != c && d.last() != c),
    ensures
        spec_trim_matches(seq![c] + d + seq![c], c) == d,
{
    let w = seq![c] + d + seq![c];
    assert(w.drop_first() =~= d + seq![c]);
    if d.len() == 0 {
        assert(d + seq![c] =~= seq![c]);
        assert(seq![c].drop_first() =~= Seq::<char>::empty());
        assert(strip_char_start(seq![c], c) == strip_char_start(Seq::<char>::empty(), c));
        assert(strip_char_end(Seq::<char>::empty(), c) =~= d);
    } else {
        assert((d + seq![c])[0] == d[0]);
        assert(strip_char_start(d + seq![c], c) == d + seq![c]);
        assert((d + seq![c]).drop_last() =~= d);
        assert(strip_char_end(d, c) == d);
    }
}

/// A one-character string holding the digit `d`.
fn digit_str(d: u64) -> (r: &'static str)
    requires
        d < 16,
    ensures
        r@ == seq![digit_char(d as nat)],
{
    proof {
        reveal_strlit("0");
        reveal_strlit("1");
        reveal_strlit("2");
        reveal_strlit("3");
        reveal_strlit("4");
        reveal_strlit("5");
        reveal_strlit("6");
        reveal_strlit("7");
        reveal_strlit("8");
        reveal_strlit("9");
        reveal_strlit("A");
        reveal_strlit("B");
        reveal_strlit("C");
        reveal_strlit("D");
        reveal_strlit("E");
        reveal_strlit("F");
    }
    match d {
        0 => "0",
        1 => "1",
        2 => "2",
        3 => "3",
        4 => "4",
        5 => "5",
        6 => "6",
        7 => "7",
        8 => "8",
        9 => "9",
        10 => "A",
        11 => "B",
        12 => "C",
        13 => "D",
        14 => "E",
        _ => "F",
    }
}

/// Appends the digits of `n` in the radix to `out`.
pub fn push_nat_digits(out: &mut String, n: u64, radix: u64)
    requires
        radix == 10 || radix == 16,
    ensures
        final(out)@ == old(out)@ + nat_digits(n as nat, radix as nat),
{
    let mut cur = n;
    let mut low: Vec<u64> = Vec::new();
    let ghost mut tail: Seq<char> = seq![];
    while cur >= radix
        invariant
            radix == 10 || radix == 16,
            tail.len() == low.len(),
            forall|i: int| 0 <= i < low.len() ==> #[trigger] low[i] < radix,
            forall|i: int|
                0 <= i < low.len() ==> tail[i] == digit_char(#[trigger] low[low.len() - 1 - i] as nat),
            nat_digits(n as nat, radix as nat) == nat_digits(cur as nat, radix as nat) + tail,
        decreases cur,
    {
        let d = cur % radix;
        proof {
            let old_tail = tail;
            tail = seq![digit_char(d as nat)] + old_tail;
            assert(nat_digits(cur as nat, radix as nat) == nat_digits((cur / radix) as nat, radix as nat)
                + seq![digit_char(d as nat)]);
            assert(nat_digits(n as nat, radix as nat) =~= nat_digits((cur / radix) as nat, radix as nat) + tail);
        }
        let ghost old_low = low@;
        low.push(d);
        proof {
            assert forall|i: int| 0 <= i < low.len() implies tail[i] == digit_char(#[trigger] low[low.len() - 1 - i] as nat) by {
                if i > 0 {
                    assert(tail[i] == tail.drop_first()[i - 1]);
                    assert(low[low.len() - 1 - i] == old_low[old_low.len() - 1 - (i - 1)]);
                }
            }
        }
        cur = cur / radix;
    }
    assert(nat_digits(cur as nat, radix as nat) == seq![digit_char(cur as nat)]);
    let ghost start = out@;
    out.append(digit_str(cur));
    let mut j: usize = low.len();
    while j > 0
        invariant
            j <= low.len(),
            tail.len() == low.len(),
            forall|i: int| 0 <= i < low.len() ==> #[trigger] low[i] < radix,
            radix == 10 || radix == 16,
            forall|i: int|
                0 <= i < low.len() ==> tail[i] == digit_char(#[trigger] low[low.len() - 1 - i] as nat),
            out@ == start + seq![digit_char(cur as nat)] + tail.take(low.len() - j),
        decreases j,
    {
        let d = low[j - 1];
        assert(low[low.len() - 1 - (low.len() - j)] == d);
        out.append(digit_str(d));
        assert(tail.take(low.len() - j + 1) =~= tail.take(low.len() - j) + seq![digit_char(d as nat)]);
        j = j - 1;
    }
    assert(tail.take(low.len() as int) =~= tail);
}

/// Decimal text of a signed 64-bit value.
pub fn format_i64(v: i64) -> (r: String)
    ensures
        r@ == decimal_string(v as int),
{
    let mut out = String::new();
    if v < 0 {
        proof {
            reveal_strlit("-");
        }
        out.append("-");
        let mag: u64 = if v == i64::MIN { 0x8000_0000_0000_0000u64 } else { (0 - v) as u64 };
        push_nat_digits(&mut out, mag, 10);
    } else {
        push_nat_digits(&mut out, v as u64, 10);
    }
    out
}

/// Upper-case hexadecimal text of a value.
pub fn format_hex_upper(n: u64) -> (r: String)
    ensures
        r@ == hex_upper_string(n as nat),
{
    let mut out = String::new();
    push_nat_digits(&mut out, n, 16);
    out
}

} // verus!
verus! {

/// The characters of `s`, in order.
pub fn chars_vec(s: &str) -> (r: Vec<char>)
    ensures
        r@ == s@,
{
    let mut v: Vec<char> = Vec::new();
    for c in it: s.chars()
        invariant
            v@ == it.seq().take(it.index() as int),
    {
        v.push(c);
    }
    v
}

/// The texts that ranges of `cs` delimit.
pub open spec fn ranges_text(cs: Seq<char>, rs: Seq<(usize, usize)>) -> Seq<Seq<char>> {
    rs.map_values(|r: (usize, usize)| cs.subrange(r.0 as int, r.1 as int))
}

/// All ranges lie within `lo..hi`.
pub open spec fn ranges_within(rs: Seq<(usize, usize)>, lo: int, hi: int) -> bool {
    forall|k: int| 0 <= k < rs.len() ==> lo <= (#[trigger] rs[k]).0 <= rs[k].1 <= hi
}

/// The pieces of `s` between the occurrences of `c`, as `str::split` yields them.
pub open spec fn split_char(s: Seq<char>, c: char) -> Seq<Seq<char>>
    decreases s.len(),
{
    if s.len() == 0 {
        seq![seq![]]
    } else {
        let p = split_char(s.drop_last(), c);
        if s.last() == c {
            p.push(seq![])
        } else {
            p.update(p.len() - 1, p.last().push(s.last()))
        }
    }
}

pub proof fn lemma_split_char_nonempty(s: Seq<char>, c: char)
    ensures
        split_char(s, c).len() >= 1,
    decreases s.len(),
{
    if s.len() > 0 {
        lemma_split_char_nonempty(s.drop_last(), c);
    }
}

/// Splits the range `lo..hi` of `cs` at every `c`.
pub fn split_char_range(cs: &[char], lo: usize, hi: usize, c: char) -> (r: Vec<(usize, usize)>)
    requires
        lo <= hi <= cs@.len(),
    ensures
        ranges_text(cs@, r@) == split_char(cs@.subrange(lo as int, hi as int), c),
        ranges_within(r@, lo as int, hi as int),
{
    let mut out: Vec<(usize, usize)> = Vec::new();
    let mut start: usize = lo;
    let mut i: usize = lo;
    assert(cs@.subrange(lo as int, lo as int) =~= Seq::<char>::empty());
    assert(ranges_text(cs@, out@) + seq![cs@.subrange(start as int, i as int)] =~= seq![seq![]]);
    while i < hi
        invariant
            lo <= start <= i <= hi,
            hi <= cs@.len(),
            ranges_within(out@, lo as int, start as int),
            ranges_text(cs@, out@) + seq![cs@.subrange(start as int, i as int)] == split_char(
                cs@.subrange(lo as int, i as int),
                c,
            ),
        decreases hi - i,
    {
        let ghost t = cs@.subrange(lo as int, i as int);
        let ghost t2 = cs@.subrange(lo as int, i + 1);
        assert(t2.drop_last() =~= t);
        assert(t2.last() == cs@[i as int]);
        proof {
            lemma_split_char_nonempty(t, c);
        }
        let ghost p = split_char(t, c);
        let ghost before = ranges_text(cs@, out@);
        if cs[i] == c {
            let ghost old_start = start;
            out.push((start, i));
            start = i + 1;
            assert(ranges_text(cs@, out@) =~= before + seq![cs@.subrange(old_start as int, i as int)]);
            assert(cs@.subrange(start as int, i + 1) =~= Seq::<char>::empty());
            assert(ranges_text(cs@, out@) + seq![cs@.subrange(start as int, i + 1)] =~= p.push(seq![]));
        } else {
            assert(cs@.subrange(start as int, i + 1) =~= cs@.subrange(start as int, i as int).push(cs@[i as int]));
            assert(ranges_text(cs@, out@) + seq![cs@.subrange(start as int, i + 1)] =~= p.update(
                p.len() - 1,
                p.last().push(t2.last()),
            ));
        }
        i = i + 1;
    }
    out.push((start, hi));
    assert(ranges_text(cs@, out@) =~= ranges_text(cs@, out@.drop_last()) + seq![cs@.subrange(start as int, hi as int)]);
    out
}

/// The words of `s`: its maximal runs of non-white-space characters, as
/// `str::split_whitespace` yields them.
pub open spec fn split_ws(s: Seq<char>) -> Seq<Seq<char>>
    decreases s.len(),
{
    if s.len() == 0 {
        seq![]
    } else {
        let p = split_ws(s.drop_last());
        let c = s.last();
        if spec_is_white_space(c) {
            p
        } else if s.len() >= 2 && !spec_is_white_space(s[s.len() - 2]) {
            p.update(p.len() - 1, p.last().push(c))
        } else {
            p.push(seq![c])
        }
    }
}

/// Splits the range `lo..hi` of `cs` into its words.
pub fn split_whitespace_range(cs: &[char], lo: usize, hi: usize) -> (r: Vec<(usize, usize)>)
    requires
        lo <= hi <= cs@.len(),
    ensures
        ranges_text(cs@, r@) == split_ws(cs@.subrange(lo as int, hi as int)),
        ranges_within(r@, lo as int, hi as int),
{
    let mut out: Vec<(usize, usize)> = Vec::new();
    let mut start: usize = lo;
    let mut in_word = false;
    let mut i: usize = lo;
    assert(ranges_text(cs@, out@) =~= seq![]);
    while i < hi
        invariant
            lo <= start <= i <= hi,
            hi <= cs@.len(),
            in_word == (i > lo && !spec_is_white_space(cs@[i - 1])),
            in_word ==> start < i,
            ranges_within(out@, lo as int, start as int),
            ranges_text(cs@, out@) + (if in_word {
                seq![cs@.subrange(start as int, i as int)]
            } else {
                seq![]
            }) == split_ws(cs@.subrange(lo as int, i as int)),
        decreases hi - i,
    {
        let ghost t = cs@.subrange(lo as int, i as int);
        let ghost t2 = cs@.subrange(lo as int, i + 1);
        let ghost p = split_ws(t);
        let ghost before = ranges_text(cs@, out@);
        assert(t2.drop_last() =~= t);
        assert(t2.last() == cs@[i as int]);
        let ws = is_white_space(cs[i]);
        if ws {
            if in_word {
                out.push((start, i));
                assert(ranges_text(cs@, out@) =~= before + seq![cs@.subrange(start as int, i as int)]);
            }
            in_word = false;
            start = i + 1;
        } else {
            if in_word {
                assert(t2[t2.len() - 2] == cs@[i - 1]);
                assert(cs@.subrange(start as int, i + 1) =~= cs@.subrange(start as int, i as int).push(cs@[i as int]));
                assert(before + seq![cs@.subrange(start as int, i + 1)] =~= p.update(p.len() - 1, p.last().push(t2.last())));
            } else {
                if i > lo {
                    assert(t2[t2.len() - 2] == cs@[i - 1]);
                }
                start = i;
                in_word = true;
                assert(cs@.subrange(start as int, i + 1) =~= seq![cs@[i as int]]);
                assert(before + seq![cs@.subrange(start as int, i + 1)] =~= p.push(seq![t2.last()]));
            }
        }
        i = i + 1;
    }
    if in_word {
        let ghost before = ranges_text(cs@, out@);
        out.push((start, hi));
        assert(ranges_text(cs@, out@) =~= before + seq![cs@.subrange(start as int, hi as int)]);
    } else {
        assert(ranges_text(cs@, out@) + seq![] =~= ranges_text(cs@, out@));
    }
    out
}

/// `needle` occurs in `hay`.
pub open spec fn seq_contains(hay: Seq<char>, needle: Seq<char>) -> bool {
    exists|i: int| 0 <= i && i + needle.len() <= hay.len() && #[trigger] hay.subrange(i, i + needle.len()) == needle
}

/// `prefix` begins `s`.
pub open spec fn seq_starts_with(s: Seq<char>, prefix: Seq<char>) -> bool {
    prefix.len() <= s.len() && s.subrange(0, prefix.len() as int) == prefix
}

/// `suffix` ends `s`.
pub open spec fn seq_ends_with(s: Seq<char>, suffix: Seq<char>) -> bool {
    suffix.len() <= s.len() && s.subrange(s.len() - suffix.len(), s.len() as int) == suffix
}

/// Whether the range `lo..lo + needle.len()` of `cs` holds `needle`.
pub fn matches_at(cs: &[char], lo: usize, needle: &[char]) -> (r: bool)
    requires
        lo + needle@.len() <= cs@.len(),
    ensures
        r == (cs@.subrange(lo as int, lo + needle@.len()) == needle@),
{
    let n = cs.len();
    let mut k: usize = 0;
    while k < needle.len()
        invariant
            n == cs@.len(),
            lo + needle@.len() <= cs@.len(),
            k <= needle@.len(),
            forall|m: int| 0 <= m < k ==> cs@[lo + m] == needle@[m],
        decreases needle@.len() - k,
    {
        if cs[lo + k] != needle[k] {
            assert(cs@.subrange(lo as int, lo + needle@.len())[k as int] != needle@[k as int]);
            return false;
        }
        k = k + 1;
    }
    assert(cs@.subrange(lo as int, lo + needle@.len()) =~= needle@);
    true
}

/// Whether `needle` occurs in `hay`.
pub fn contains_chars(hay: &[char], needle: &[char]) -> (r: bool)
    ensures
        r == seq_contains(hay@, needle@),
{
    if needle.len() > hay.len() {
        return false;
    }
    let last = hay.len() - needle.len();
    let mut i: usize = 0;
    loop
        invariant
            last + needle@.len() == hay@.len(),
            i <= last,
            forall|j: int| 0 <= j < i ==> #[trigger] hay@.subrange(j, j + needle@.len()) != needle@,
        decreases last - i,
    {
        if matches_at(hay, i, needle) {
            return true;
        }
        if i == last {
            return false;
        }
        i = i + 1;
    }
}

/// Whether the range `lo..hi` of `cs` begins with `prefix`.
pub fn range_starts_with(cs: &[char], lo: usize, hi: usize, prefix: &[char]) -> (r: bool)
    requires
        lo <= hi <= cs@.len(),
    ensures
        r == seq_starts_with(cs@.subrange(lo as int, hi as int), prefix@),
{
    if prefix.len() > hi - lo {
        return false;
    }
    let r = matches_at(cs, lo, prefix);
    assert(cs@.subrange(lo as int, hi as int).subrange(0, prefix@.len() as int) =~= cs@.subrange(
        lo as int,
        lo + prefix@.len(),
    ));
    r
}

/// Whether the range `lo..hi` of `cs` ends with `suffix`.
pub fn range_ends_with(cs: &[char], lo: usize, hi: usize, suffix: &[char]) -> (r: bool)
    requires
        lo <= hi <= cs@.len(),
    ensures
        r == seq_ends_with(cs@.subrange(lo as int, hi as int), suffix@),
{
    if suffix.len() > hi - lo {
        return false;
    }
    let r = matches_at(cs, hi - suffix.len(), suffix);
    assert(cs@.subrange(lo as int, hi as int).subrange(hi - lo - suffix@.len(), hi - lo) =~= cs@.subrange(
        hi - suffix@.len(),
        hi as int,
    ));
    r
}

/// Whether two texts are equal.
pub fn str_eq(a: &str, b: &str) -> (r: bool)
    ensures
        r == (a@ == b@),
{
    let ca = chars_vec(a);
    let cb = chars_vec(b);
    if ca.len() != cb.len() {
        return false;
    }
    let r = matches_at(ca.as_slice(), 0, cb.as_slice());
    assert(ca@.subrange(0, cb@.len() as int) =~= ca@);
    r
}

/// `s` without the copies of `c` that begin it.
pub open spec fn strip_char_start(s: Seq<char>, c: char) -> Seq<char>
    decreases s.len(),
{
    if s.len() > 0 && s[0] == c {
        strip_char_start(s.drop_first(), c)
    } else {
        s
    }
}

/// `s` without the copies of `c` that end it.
pub open spec fn strip_char_end(s: Seq<char>, c: char) -> Seq<char>
    decreases s.len(),
{
    if s.len() > 0 && s.last() == c {
        strip_char_end(s.drop_last(), c)
    } else {
        s
    }
}

/// `s` without leading and trailing copies of `c`, as `str::trim_matches(c)` returns it.
pub open spec fn spec_trim_matches(s: Seq<char>, c: char) -> Seq<char> {
    strip_char_end(strip_char_start(s, c), c)
}

/// Removes the copies of `c` at both ends of `s`.
pub fn trim_matches_char(s: &str, c: char) -> (r: &str)
    ensures
        r@ == spec_trim_matches(s@, c),
{
    let cs = chars_vec(s);
    let n = cs.len();
    let mut i: usize = 0;
    assert(cs@.subrange(0, n as int) =~= cs@);
    while i < n && cs[i] == c
        invariant
            n == cs@.len(),
            cs@ == s@,
            i <= n,
            strip_char_start(s@, c) == strip_char_start(cs@.subrange(i as int, n as int), c),
        decreases n - i,
    {
        assert(cs@.subrange(i as int, n as int).drop_first() =~= cs@.subrange(i + 1, n as int));
        i = i + 1;
    }
    assert(strip_char_start(cs@.subrange(i as int, n as int), c) == cs@.subrange(i as int, n as int));
    let mut j: usize = n;
    while j > i && cs[j - 1] == c
        invariant
            n == cs@.len(),
            i <= j <= n,
            strip_char_end(cs@.subrange(i as int, n as int), c) == strip_char_end(cs@.subrange(i as int, j as int), c),
        decreases j,
    {
        assert(cs@.subrange(i as int, j as int).drop_last() =~= cs@.subrange(i as int, j - 1));
        j = j - 1;
    }
    s.substring_char(i, j)
}

/// The index of the first `c` in `s`, if there is one.
pub open spec fn first_index_of(s: Seq<char>, c: char) -> Option<int>
    decreases s.len(),
{
    if s.len() == 0 {
        None
    } else if s[0] == c {
        Some(0)
    } else {
        match first_index_of(s.drop_first(), c) {
            Some(i) => Some(i + 1),
            None => None,
        }
    }
}

/// The index of the first `c` in `cs`, if there is one.
pub fn find_char(cs: &[char], c: char) -> (r: Option<usize>)
    ensures
        r matches Some(i) ==> first_index_of(cs@, c) == Some(i as int) && i < cs@.len() && cs@[i as int] == c,
        r is None ==> first_index_of(cs@, c) is None,
{
    let n = cs.len();
    let mut i: usize = 0;
    assert(cs@.skip(0) =~= cs@);
    while i < n
        invariant
            n == cs@.len(),
            i <= n,
            first_index_of(cs@, c) == match first_index_of(cs@.skip(i as int), c) {
                Some(j) => Some(j + i),
                None => None,
            },
        decreases n - i,
    {
        assert(cs@.skip(i as int).drop_first() =~= cs@.skip(i + 1));
        if cs[i] == c {
            assert(cs@.skip(i as int)[0] == c);
            return Some(i);
        }
        i = i + 1;
    }
    assert(cs@.skip(n as int) =~= Seq::<char>::empty());
    None
}

/// The lines of a text: the pieces between newlines, without an empty
/// piece after a final newline. Unlike `str::lines`, a `\r` before a
/// newline stays at the end of its line; every reader of lines here splits
/// them into words, where it is white space and drops out.
pub open spec fn spec_lines(s: Seq<char>) -> Seq<Seq<char>> {
    let p = split_char(s, '\n');
    if p.last().len() == 0 {
        p.drop_last()
    } else {
        p
    }
}

/// The ranges of the lines of `cs`: the first `count` ranges returned.
pub fn lines_ranges(cs: &[char]) -> (r: (Vec<(usize, usize)>, usize))
    ensures
        r.1 <= r.0@.len(),
        ranges_within(r.0@, 0, cs@.len() as int),
        ranges_text(cs@, r.0@).take(r.1 as int) == spec_lines(cs@),
{
    let pieces = split_char_range(cs, 0, cs.len(), '\n');
    let ghost texts = ranges_text(cs@, pieces@);
    assert(cs@.subrange(0, cs@.len() as int) =~= cs@);
    proof {
        lemma_split_char_nonempty(cs@, '\n');
    }
    let (last_lo, last_hi) = pieces[pieces.len() - 1];
    assert(texts.last() == cs@.subrange(last_lo as int, last_hi as int));
    let count = if last_lo == last_hi { pieces.len() - 1 } else { pieces.len() };
    assert(texts.take(count as int) =~= spec_lines(cs@));
    (pieces, count)
}

/// The words joined with single spaces.
pub open spec fn join_space(parts: Seq<Seq<char>>) -> Seq<char> {
    join_with(parts, seq![' '])
}

/// The texts joined with `sep` between them, as `join` does.
pub open spec fn join_with(parts: Seq<Seq<char>>, sep: Seq<char>) -> Seq<char>
    decreases parts.len(),
{
    if parts.len() == 0 {
        seq![]
    } else if parts.len() == 1 {
        parts[0]
    } else {
        join_with(parts.drop_last(), sep) + sep + parts.last()
    }
}

/// The texts of strings.
pub open spec fn strings_view(v: Seq<String>) -> Seq<Seq<char>> {
    v.map_values(|s: String| s@)
}

/// Joins strings with a separator.
pub fn join_strings(parts: &Vec<String>, sep: &str) -> (r: String)
    ensures
        r@ == join_with(strings_view(parts@), sep@),
{
    let ghost pv = strings_view(parts@);
    let mut out = String::new();
    let mut k: usize = 0;
    assert(pv.take(0) =~= Seq::<Seq<char>>::empty());
    while k < parts.len()
        invariant
            k <= parts@.len(),
            pv == strings_view(parts@),
            out@ == join_with(pv.take(k as int), sep@),
        decreases parts@.len() - k,
    {
        let ghost next = pv.take(k + 1);
        assert(next.drop_last() =~= pv.take(k as int));
        assert(next.last() == parts@[k as int]@);
        if k > 0 {
            out.append(sep);
        } else {
            assert(out@ =~= Seq::<char>::empty());
        }
        out.append(parts[k].as_str());
        proof {
            if k == 0 {
                assert(out@ =~= next[0]);
            }
        }
        k = k + 1;
    }
    assert(pv.take(parts@.len() as int) =~= pv);
    out
}

/// Whether `needle` occurs in `hay`.
pub fn str_contains(hay: &str, needle: &str) -> (r: bool)
    ensures
        r == seq_contains(hay@, needle@),
{
    let h = chars_vec(hay);
    let n = chars_vec(needle);
    contains_chars(h.as_slice(), n.as_slice())
}

/// Whether `s` begins with `prefix`.
pub fn str_starts_with(s: &str, prefix: &str) -> (r: bool)
    ensures
        r == seq_starts_with(s@, prefix@),
{
    let cs = chars_vec(s);
    let p = chars_vec(prefix);
    let r = range_starts_with(cs.as_slice(), 0, cs.len(), p.as_slice());
    assert(cs@.subrange(0, cs@.len() as int) =~= s@);
    r
}

/// Whether `s` ends with `suffix`.
pub fn str_ends_with(s: &str, suffix: &str) -> (r: bool)
    ensures
        r == seq_ends_with(s@, suffix@),
{
    let cs = chars_vec(s);
    let p = chars_vec(suffix);
    let r = range_ends_with(cs.as_slice(), 0, cs.len(), p.as_slice());
    assert(cs@.subrange(0, cs@.len() as int) =~= s@);
    r
}

/// The words of `s`, as strings.
pub fn split_whitespace_strings(s: &str) -> (r: Vec<String>)
    ensures
        strings_view(r@) == split_ws(s@),
{
    let cs = chars_vec(s);
    let words = split_whitespace_range(cs.as_slice(), 0, cs.len());
    assert(cs@.subrange(0, cs@.len() as int) =~= s@);
    let ghost wt = ranges_text(cs@, words@);
    let mut out: Vec<String> = Vec::new();
    let mut k: usize = 0;
    while k < words.len()
        invariant
            k <= words@.len(),
            cs@ == s@,
            wt == ranges_text(cs@, words@),
            ranges_within(words@, 0, cs@.len() as int),
            strings_view(out@) == wt.take(k as int),
        decreases words@.len() - k,
    {
        let (lo, hi) = words[k];
        let w = String::from_str(s.substring_char(lo, hi));
        let ghost before = strings_view(out@);
        out.push(w);
        assert(strings_view(out@) =~= before.push(wt[k as int]));
        assert(wt.take(k + 1) =~= wt.take(k as int).push(wt[k as int]));
        k = k + 1;
    }
    assert(wt.take(words@.len() as int) =~= wt);
    out
}

/// What `str::to_lowercase` gives for a text: its Unicode lower-case form
/// (each character mapped by the Unicode tables, a capital sigma by whether
/// it ends a word), which depends on the text alone.
pub uninterp spec fn lowercase(s: Seq<char>) -> Seq<char>;

/// Calls `str::to_lowercase`. Its result is named `lowercase` and not
/// described: the Unicode case tables are left to std.
#[verifier::external_body]
pub(crate) fn to_lowercase(s: &str) -> (r: String)
    ensures
        r@ == lowercase(s@),
{
    s.to_lowercase()
}


/// The first position at or after `i` where `needle` occurs in `hay`.
pub open spec fn first_match_from(hay: Seq<char>, needle: Seq<char>, i: int) -> Option<int>
    decreases hay.len() + 1 - i,
{
    if i < 0 || i + needle.len() > hay.len() {
        None
    } else if hay.subrange(i, i + needle.len()) == needle {
        Some(i)
    } else {
        first_match_from(hay, needle, i + 1)
    }
}

/// A match found from `i` lies at or after `i`, inside `hay`, and holds `needle`.
pub proof fn lemma_first_match_from(hay: Seq<char>, needle: Seq<char>, i: int)
    ensures
        first_match_from(hay, needle, i) matches Some(j) ==> i <= j && j + needle.len() <= hay.len()
            && hay.subrange(j, j + needle.len()) == needle,
    decreases hay.len() + 1 - i,
{
    if !(i < 0 || i + needle.len() > hay.len()) && hay.subrange(i, i + needle.len()) != needle {
        lemma_first_match_from(hay, needle, i + 1);
    }
}

/// The first position where `needle` occurs in `hay`, as `str::find` gives it.
pub open spec fn first_match(hay: Seq<char>, needle: Seq<char>) -> Option<int> {
    first_match_from(hay, needle, 0)
}

/// The position of the first occurrence of `needle` in `hay`, counted in characters.
pub fn find_str(hay: &str, needle: &str) -> (r: Option<usize>)
    ensures
        r matches Some(i) ==> first_match(hay@, needle@) == Some(i as int),
        r is None ==> first_match(hay@, needle@) is None,
{
    let h = chars_vec(hay);
    let n = chars_vec(needle);
    if n.len() > h.len() {
        return None;
    }
    let last = h.len() - n.len();
    let mut i: usize = 0;
    loop
        invariant
            last + n@.len() == h@.len(),
            h@ == hay@,
            n@ == needle@,
            i <= last,
            first_match(hay@, needle@) == first_match_from(hay@, needle@, i as int),
        decreases last - i,
    {
        if matches_at(h.as_slice(), i, n.as_slice()) {
            return Some(i);
        }
        if i == last {
            assert(first_match_from(hay@, needle@, i + 1) is None);
            return None;
        }
        i = i + 1;
    }
}

/// `s` with every occurrence of `pat`, found from the left without overlap,
/// replaced by `rep`, as `str::replace` does for a non-empty pattern.
pub open spec fn replace_all(s: Seq<char>, pat: Seq<char>, rep: Seq<char>) -> Seq<char>
    decreases s.len(),
{
    if pat.len() == 0 || s.len() < pat.len() {
        s
    } else if s.take(pat.len() as int) == pat {
        rep + replace_all(s.skip(pat.len() as int), pat, rep)
    } else {
        seq![s[0]] + replace_all(s.drop_first(), pat, rep)
    }
}

/// `s` with each occurrence of the non-empty `pat` replaced by `rep`.
pub fn replace_str(s: &str, pat: &str, rep: &str) -> (r: String)
    requires
        pat@.len() > 0,
    ensures
        r@ == replace_all(s@, pat@, rep@),
{
    let cs = chars_vec(s);
    let p = chars_vec(pat);
    let n = cs.len();
    let m = p.len();
    let mut out = String::new();
    let mut seg: usize = 0;
    let mut i: usize = 0;
    assert(cs@.skip(0) =~= cs@);
    assert(cs@.subrange(0, 0) =~= Seq::<char>::empty());
    while m <= n - i
        invariant
            cs@ == s@,
            p@ == pat@,
            n == cs@.len(),
            m == p@.len(),
            m > 0,
            seg <= i <= n,
            out@ + cs@.subrange(seg as int, i as int) + replace_all(cs@.skip(i as int), pat@, rep@)
                == replace_all(s@, pat@, rep@),
        decreases n - i,
    {
        let ghost rest = cs@.skip(i as int);
        if matches_at(cs.as_slice(), i, p.as_slice()) {
            assert(rest.take(m as int) =~= cs@.subrange(i as int, i + m));
            assert(rest.skip(m as int) =~= cs@.skip(i + m));
            out.append(s.substring_char(seg, i));
            out.append(rep);
            assert(cs@.subrange((i + m) as int, (i + m) as int) =~= Seq::<char>::empty());
            i = i + m;
            seg = i;
        } else {
            assert(rest.take(m as int) =~= cs@.subrange(i as int, i + m));
            assert(rest.drop_first() =~= cs@.skip(i + 1));
            assert(cs@.subrange(seg as int, i + 1) =~= cs@.subrange(seg as int, i as int) + seq![rest[0]]);
            i = i + 1;
        }
    }
    assert(replace_all(cs@.skip(i as int), pat@, rep@) == cs@.skip(i as int));
    out.append(s.substring_char(seg, n));
    assert(cs@.subrange(seg as int, i as int) + cs@.skip(i as int) =~= cs@.subrange(seg as int, n as int));
    out
}

} // verus!
