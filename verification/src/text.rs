//! Character-level helpers shared by the table and record parsers: whitespace
//! classification, token and field extraction, and decimal parsing.

use vstd::prelude::*;

verus! {

/// ASCII whitespace: the separators recognised in sizes tables, blank lines
/// and numeric fields.
pub open spec fn is_space(c: char) -> bool {
    c == ' ' || c == '\t' || c == '\r' || c == '\n' || c == '\x0b' || c == '\x0c'
}

/// Exec mirror of [`is_space`].
pub fn space_char(c: char) -> (r: bool)
    ensures
        r == is_space(c),
{
    c == ' ' || c == '\t' || c == '\r' || c == '\n' || c == '\x0b' || c == '\x0c'
}

/// A line is blank when every character is whitespace (an empty line is blank).
pub open spec fn is_blank(line: Seq<char>) -> bool {
    forall|i: int| 0 <= i < line.len() ==> is_space(#[trigger] line[i])
}

/// Index of the first character at or after `from` whose whitespace status is
/// `want_space`; the length of the line when there is none.
pub open spec fn scan_for(line: Seq<char>, from: int, want_space: bool) -> int
    decreases line.len() - from,
{
    if from < 0 || from >= line.len() {
        line.len() as int
    } else if is_space(line[from]) == want_space {
        from
    } else {
        scan_for(line, from + 1, want_space)
    }
}

pub proof fn lemma_scan_for(line: Seq<char>, from: int, want_space: bool)
    requires
        0 <= from <= line.len(),
    ensures
        from <= scan_for(line, from, want_space) <= line.len(),
        forall|i: int|
            from <= i < scan_for(line, from, want_space) ==> is_space(#[trigger] line[i])
                != want_space,
        scan_for(line, from, want_space) < line.len() ==> is_space(
            line[scan_for(line, from, want_space)],
        ) == want_space,
    decreases line.len() - from,
{
    if from < line.len() && is_space(line[from]) != want_space {
        lemma_scan_for(line, from + 1, want_space);
    }
}

/// Whether `s` consists of whitespace only, as `str::trim` followed by
/// `is_empty` would report.
pub fn blank_str(s: &str) -> (r: bool)
    ensures
        r == is_blank(s@),
{
    let n = s.unicode_len();
    let mut i: usize = 0;
    while i < n
        invariant
            0 <= i <= n,
            n == s@.len(),
            forall|k: int| 0 <= k < i ==> is_space(#[trigger] s@[k]),
        decreases n - i,
    {
        if !space_char(s.get_char(i)) {
            assert(!is_blank(s@));
            return false;
        }
        i = i + 1;
    }
    true
}

/// The first whitespace-separated token of a line: leading whitespace is
/// skipped, the token runs to the next whitespace character. Empty when the
/// line is blank.
pub open spec fn first_token(line: Seq<char>) -> Seq<char> {
    let lo = scan_for(line, 0, false);
    let hi = scan_for(line, lo, true);
    line.subrange(lo, hi)
}

/// The first whitespace-separated token of `s`, what
/// `split_whitespace().next()` yields (with the empty string for a blank line).
pub fn first_token_str(s: &str) -> (r: &str)
    ensures
        r@ == first_token(s@),
{
    let n = s.unicode_len();
    let mut lo: usize = 0;
    while lo < n && space_char(s.get_char(lo))
        invariant
            0 <= lo <= n,
            n == s@.len(),
            scan_for(s@, 0, false) == scan_for(s@, lo as int, false),
        decreases n - lo,
    {
        lo = lo + 1;
    }
    proof {
        lemma_scan_for(s@, lo as int, false);
        assert(scan_for(s@, 0, false) == lo as int);
    }
    let mut hi: usize = lo;
    while hi < n && !space_char(s.get_char(hi))
        invariant
            lo <= hi <= n,
            n == s@.len(),
            scan_for(s@, lo as int, true) == scan_for(s@, hi as int, true),
        decreases n - hi,
    {
        hi = hi + 1;
    }
    proof {
        lemma_scan_for(s@, hi as int, true);
        assert(scan_for(s@, lo as int, true) == hi as int);
    }
    s.substring_char(lo, hi)
}

/// Index of the first occurrence of `c` at or after `from`; the length of the
/// line when there is none.
pub open spec fn find_char(line: Seq<char>, from: int, c: char) -> int
    decreases line.len() - from,
{
    if from < 0 || from >= line.len() {
        line.len() as int
    } else if line[from] == c {
        from
    } else {
        find_char(line, from + 1, c)
    }
}

/// The leading chromosome token of a record: the characters before the first
/// tab (the whole line when it holds no tab).
pub open spec fn chrom_of(line: Seq<char>) -> Seq<char> {
    line.subrange(0, find_char(line, 0, '\t'))
}

/// The second tab-separated field of a record; empty when the record has no
/// second field.
pub open spec fn second_field(line: Seq<char>) -> Seq<char> {
    let t0 = find_char(line, 0, '\t');
    if t0 == line.len() {
        Seq::empty()
    } else {
        line.subrange(t0 + 1, find_char(line, t0 + 1, '\t'))
    }
}

/// The leading chromosome token of `s`, what `split('\t').next()` yields.
pub fn chrom_str(s: &str) -> (r: &str)
    ensures
        r@ == chrom_of(s@),
{
    let t0 = find_tab(s, 0);
    s.substring_char(0, t0)
}

/// The second tab-separated field of `s`, or the empty string when there is
/// none.
pub fn second_field_str(s: &str) -> (r: &str)
    ensures
        r@ == second_field(s@),
{
    let n = s.unicode_len();
    let t0 = find_tab(s, 0);
    if t0 == n {
        proof {
            reveal_strlit("");
            assert(""@ =~= Seq::<char>::empty());
        }
        ""
    } else {
        let t1 = find_tab(s, t0 + 1);
        s.substring_char(t0 + 1, t1)
    }
}

/// Index of the first tab at or after `from`, or the length of `s`.
fn find_tab(s: &str, from: usize) -> (r: usize)
    requires
        from <= s@.len(),
    ensures
        r == find_char(s@, from as int, '\t'),
        from <= r <= s@.len(),
{
    let n = s.unicode_len();
    let mut i: usize = from;
    while i < n && s.get_char(i) != '\t'
        invariant
            from <= i <= n,
            n == s@.len(),
            find_char(s@, from as int, '\t') == find_char(s@, i as int, '\t'),
        decreases n - i,
    {
        i = i + 1;
    }
    i
}

/// Character-wise string equality; what `==` on two `String`s reports.
pub fn str_eq(a: &str, b: &str) -> (r: bool)
    ensures
        r == (a@ == b@),
{
    let na = a.unicode_len();
    let nb = b.unicode_len();
    if na != nb {
        return false;
    }
    let mut i: usize = 0;
    while i < na
        invariant
            0 <= i <= na,
            na == a@.len(),
            na == b@.len(),
            forall|k: int| 0 <= k < i ==> a@[k] == b@[k],
        decreases na - i,
    {
        if a.get_char(i) != b.get_char(i) {
            assert(a@ != b@);
            return false;
        }
        i = i + 1;
    }
    proof {
        assert(a@ =~= b@);
    }
    true
}

/// An ASCII decimal digit.
pub open spec fn is_digit(c: char) -> bool {
    48 <= c as u32 <= 57
}

/// The numeric value of a digit character.
pub open spec fn digit_val(c: char) -> int {
    c as u32 - 48
}

pub open spec fn all_digits(s: Seq<char>) -> bool {
    forall|i: int| 0 <= i < s.len() ==> is_digit(#[trigger] s[i])
}

/// The value of a digit string read left to right in base ten.
pub open spec fn digits_val(s: Seq<char>) -> int
    decreases s.len(),
{
    if s.len() == 0 {
        0
    } else {
        digits_val(s.drop_last()) * 10 + digit_val(s.last())
    }
}

/// The digit part of a decimal literal: an optional leading `+` is dropped,
/// as the integer `FromStr` parsers of std drop it.
pub open spec fn digits_of(s: Seq<char>) -> Seq<char> {
    if s.len() > 0 && s[0] == '+' {
        s.drop_first()
    } else {
        s
    }
}

/// Whether `s` parses as a decimal integer no larger than `max`: an optional
/// `+`, then one or more digits, with the value in range.
pub open spec fn dec_ok(s: Seq<char>, max: int) -> bool {
    let d = digits_of(s);
    d.len() > 0 && all_digits(d) && digits_val(d) <= max
}

/// The value of `s` as a decimal integer bounded by `max`, with 0 for any
/// string that does not parse; the behaviour of `parse().unwrap_or(0)`.
pub open spec fn dec_or_zero(s: Seq<char>, max: int) -> int {
    if dec_ok(s, max) {
        digits_val(digits_of(s))
    } else {
        0
    }
}

pub proof fn lemma_digits_val_nonneg(s: Seq<char>)
    requires
        all_digits(s),
    ensures
        digits_val(s) >= 0,
    decreases s.len(),
{
    if s.len() > 0 {
        assert(all_digits(s.drop_last()));
        lemma_digits_val_nonneg(s.drop_last());
    }
}

/// A digit string is worth at least any of its prefixes: appending digits
/// never shrinks the value.
pub proof fn lemma_digits_val_prefix(s: Seq<char>, i: int)
    requires
        all_digits(s),
        0 <= i <= s.len(),
    ensures
        digits_val(s.take(i)) <= digits_val(s),
    decreases s.len(),
{
    if i < s.len() {
        assert(all_digits(s.drop_last()));
        assert(s.drop_last().take(i) =~= s.take(i));
        lemma_digits_val_prefix(s.drop_last(), i);
        lemma_digits_val_nonneg(s.drop_last());
        assert(0 <= digit_val(s.last()) <= 9);
    } else {
        assert(s.take(i) =~= s);
    }
}

/// Parses `s` as `u64::from_str` would, with 0 for any failure, overflow
/// included.
pub fn parse_u64_or_zero(s: &str) -> (r: u64)
    ensures
        r as int == dec_or_zero(s@, u64::MAX as int),
{
    let n = s.unicode_len();
    let mut i: usize = 0;
    if n > 0 && s.get_char(0) == '+' {
        i = 1;
    }
    let ghost st = i as int;
    proof {
        assert(digits_of(s@) =~= s@.subrange(st, n as int));
        assert(digits_of(s@) == s@.subrange(st, n as int));
    }
    if i == n {
        return 0;
    }
    let mut val: u128 = 0;
    while i < n
        invariant
            0 <= st <= i <= n,
            n == s@.len(),
            digits_of(s@) == s@.subrange(st, n as int),
            all_digits(s@.subrange(st, i as int)),
            val == digits_val(s@.subrange(st, i as int)),
            val <= u64::MAX,
        decreases n - i,
    {
        let c = s.get_char(i);
        let u = c as u32;
        if u < 48 || u > 57 {
            proof {
                let d = digits_of(s@);
                assert(0 <= i - st < d.len());
                assert(s@.subrange(st, n as int)[i - st] == s@[i as int]);
                assert(!is_digit(d[i - st]));
            }
            return 0;
        }
        let v2: u128 = val * 10 + ((u - 48) as u128);
        proof {
            let pre = s@.subrange(st, i as int);
            let pre2 = s@.subrange(st, i + 1);
            assert(pre2.drop_last() =~= pre);
            assert(pre2.last() == s@[i as int]);
            assert(v2 == digits_val(pre2));
            assert(all_digits(pre2));
        }
        i = i + 1;
        if v2 > 0xFFFF_FFFF_FFFF_FFFFu128 {
            proof {
                let d = digits_of(s@);
                if all_digits(d) {
                    assert(d.take(i - st) =~= s@.subrange(st, i as int));
                    lemma_digits_val_prefix(d, i - st);
                }
            }
            return 0;
        }
        val = v2;
    }
    proof {
        assert(s@.subrange(st, i as int) =~= digits_of(s@));
        assert(digits_of(s@).len() > 0);
        assert(dec_ok(s@, u64::MAX as int));
    }
    val as u64
}

/// Parses `s` as `u32::from_str` would, with 0 for any failure, overflow
/// included.
pub fn parse_u32_or_zero(s: &str) -> (r: u32)
    ensures
        r as int == dec_or_zero(s@, u32::MAX as int),
{
    let v = parse_u64_or_zero(s);
    if v > 0xFFFF_FFFF {
        proof {
            assert(dec_ok(s@, u64::MAX as int));
            assert(!dec_ok(s@, u32::MAX as int));
        }
        0
    } else {
        proof {
            if !dec_ok(s@, u64::MAX as int) {
                assert(!dec_ok(s@, u32::MAX as int));
                assert(v == 0);
            }
        }
        v as u32
    }
}

/// Where the content of `s` ends once trailing whitespace is dropped.
pub open spec fn end_trim(s: Seq<char>) -> int
    decreases s.len(),
{
    if s.len() == 0 {
        0
    } else if is_space(s.last()) {
        end_trim(s.drop_last())
    } else {
        s.len() as int
    }
}

pub proof fn lemma_end_trim(s: Seq<char>)
    ensures
        0 <= end_trim(s) <= s.len(),
        end_trim(s) > 0 ==> !is_space(s[end_trim(s) - 1]),
        forall|i: int| end_trim(s) <= i < s.len() ==> is_space(#[trigger] s[i]),
    decreases s.len(),
{
    if s.len() > 0 && is_space(s.last()) {
        lemma_end_trim(s.drop_last());
        assert forall|i: int| end_trim(s) <= i < s.len() implies is_space(#[trigger] s[i]) by {
            if i < s.len() - 1 {
                assert(s.drop_last()[i] == s[i]);
            }
        }
    }
}

/// `s` with leading and trailing whitespace dropped, as `str::trim` yields.
pub open spec fn trimmed(s: Seq<char>) -> Seq<char> {
    let lo = scan_for(s, 0, false);
    let hi = end_trim(s);
    if lo <= hi {
        s.subrange(lo, hi)
    } else {
        Seq::empty()
    }
}

/// Parses `s` as `s.trim().parse::<u64>().unwrap_or(0)` does: surrounding
/// whitespace is ignored and any failure counts as zero.
pub fn parse_count(s: &str) -> (r: u64)
    ensures
        r as int == dec_or_zero(trimmed(s@), u64::MAX as int),
{
    let n = s.unicode_len();
    let mut hi: usize = n;
    proof {
        assert(s@.take(n as int) =~= s@);
    }
    while hi > 0 && space_char(s.get_char(hi - 1))
        invariant
            0 <= hi <= n,
            n == s@.len(),
            end_trim(s@) == end_trim(s@.take(hi as int)),
        decreases hi,
    {
        proof {
            let t = s@.take(hi as int);
            assert(t.drop_last() =~= s@.take(hi - 1));
        }
        hi = hi - 1;
    }
    proof {
        assert(s@.take(hi as int).len() == hi);
        if hi > 0 {
            assert(end_trim(s@.take(hi as int)) == hi as int);
        }
        assert(end_trim(s@) == hi as int);
        lemma_scan_for(s@, 0, false);
    }
    if hi == 0 {
        proof {
            assert(trimmed(s@).len() == 0);
        }
        return 0;
    }
    let mut lo: usize = 0;
    while lo < hi - 1 && space_char(s.get_char(lo))
        invariant
            0 <= lo <= hi - 1,
            hi <= n,
            n == s@.len(),
            scan_for(s@, 0, false) == scan_for(s@, lo as int, false),
        decreases hi - lo,
    {
        lo = lo + 1;
    }
    proof {
        lemma_end_trim(s@);
        assert(!is_space(s@[hi - 1]));
        lemma_scan_for(s@, lo as int, false);
        if lo < hi - 1 {
            assert(scan_for(s@, lo as int, false) == lo as int);
        } else {
            assert(lo == hi - 1);
            assert(scan_for(s@, lo as int, false) == lo as int);
        }
        assert(trimmed(s@) =~= s@.subrange(lo as int, hi as int));
    }
    let t = s.substring_char(lo, hi);
    parse_u64_or_zero(t)
}

} // verus!
