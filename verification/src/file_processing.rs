//! Parsing a file-mask pattern and resolving the ordered frame sequence.
//!
//! A mask such as `foo%03d.png` holds exactly one sequence-number placeholder:
//! a percent sign, an optional literal `0`, one or more decimal digits, then
//! the letter `d`. The parser splits the mask into the literal prefix, the
//! placeholder description, and the literal suffix; the resolver then probes
//! the file system for the first contiguous run of existing candidate names.

use vstd::prelude::*;
use vstd::string::*;

use crate::errors::ErrorKind;

verus! {

/// A file-mask sequence placeholder: whether the sequence number is
/// zero-padded, and how many digits a fully padded number has.
#[derive(Copy, Clone, Debug, PartialEq, Eq, Structural)]
pub struct FileMask {
    pub zero_padded: bool,
    pub digits: usize,
}

/// A description of what the path the user provided actually means: a file
/// mask with a sequence placeholder, or a folder of frames.
#[derive(Copy, Clone, Debug, PartialEq, Eq)]
pub enum PathMode<'a> {
    /// A file mask with a sequence-number placeholder.
    FileMask(&'a str),
    /// A folder path; reserved, and currently always refused as unimplemented.
    Folder(&'a str),
}

/// A decimal digit character.
pub open spec fn is_digit_char(c: char) -> bool {
    48 <= c as int <= 57
}

/// The numeric value of a decimal digit character.
pub open spec fn digit_val(c: char) -> nat {
    (c as int - 48) as nat
}

/// The first position at or after `j` that is past the end of the digit run
/// starting at `j`: the smallest `k >= j` with `k == s.len()` or `s[k]` not a
/// digit.
pub open spec fn digit_run_end(s: Seq<char>, j: int) -> int
    decreases s.len() - j,
{
    if j < 0 || j >= s.len() || !is_digit_char(s[j]) {
        j
    } else {
        digit_run_end(s, j + 1)
    }
}

/// True when a sequence-number placeholder (`%`, an optional `0`, one or more
/// digits, `d`) starts at position `i` of `s`.
pub open spec fn placeholder_at(s: Seq<char>, i: int) -> bool {
    let e = digit_run_end(s, i + 1);
    &&& 0 <= i < s.len()
    &&& s[i] == '%'
    &&& i + 1 < e < s.len()
    &&& s[e] == 'd'
}

/// The position just past the placeholder that starts at `i` (past its `d`).
pub open spec fn match_end(s: Seq<char>, i: int) -> int {
    digit_run_end(s, i + 1) + 1
}

/// Whether the placeholder at `i` asks for zero padding: its digit run starts
/// with a literal `0` and still has at least one digit after it.
pub open spec fn zero_padded_at(s: Seq<char>, i: int) -> bool {
    s[i + 1] == '0' && digit_run_end(s, i + 1) - (i + 1) >= 2
}

/// Where the digit-count field of the placeholder at `i` starts (past the
/// padding `0`, when there is one).
pub open spec fn run_start(s: Seq<char>, i: int) -> int {
    if zero_padded_at(s, i) {
        i + 2
    } else {
        i + 1
    }
}

/// The value of the decimal digit string `s[lo..hi)`.
pub open spec fn digits_value(s: Seq<char>, lo: int, hi: int) -> nat
    decreases hi - lo,
{
    if lo >= hi {
        0
    } else {
        digits_value(s, lo, hi - 1) * 10 + digit_val(s[hi - 1])
    }
}

/// The digit count asked for by the placeholder at `i`: the value of its
/// digit-count field.
pub open spec fn placeholder_value(s: Seq<char>, i: int) -> nat {
    digits_value(s, run_start(s, i), digit_run_end(s, i + 1))
}

/// How many positions of `s` at or after `k` start a placeholder. Placeholders
/// cannot overlap (nothing inside one is a `%`), so this counts the matches a
/// left-to-right scan of `s` finds.
pub open spec fn count_matches_from(s: Seq<char>, k: int) -> nat
    decreases s.len() - k,
{
    if k >= s.len() {
        0
    } else {
        (if placeholder_at(s, k) {
            1nat
        } else {
            0nat
        }) + count_matches_from(s, k + 1)
    }
}

/// How many placeholders the whole mask holds.
pub open spec fn match_count(s: Seq<char>) -> nat {
    count_matches_from(s, 0)
}

/// The first position at or after `k` where a placeholder starts, or `s.len()`
/// when there is none.
pub open spec fn first_match_from(s: Seq<char>, k: int) -> int
    decreases s.len() - k,
{
    if k >= s.len() {
        s.len() as int
    } else if placeholder_at(s, k) {
        k
    } else {
        first_match_from(s, k + 1)
    }
}

/// Every position of a digit run is a digit, and the run does not move left.
proof fn lemma_run_digits(s: Seq<char>, j: int)
    ensures
        j <= digit_run_end(s, j) || j < 0,
        digit_run_end(s, j) <= s.len() || j > s.len(),
        forall|k: int| j <= k < digit_run_end(s, j) ==> is_digit_char(s[k]),
        digit_run_end(s, j) == s.len() || !(0 <= digit_run_end(s, j) < s.len()
            && is_digit_char(s[digit_run_end(s, j)])),
    decreases s.len() - j,
{
    if !(j < 0 || j >= s.len() || !is_digit_char(s[j])) {
        lemma_run_digits(s, j + 1);
    }
}

/// A digit run ends exactly at the first position that is not a digit.
proof fn lemma_run_end_exact(s: Seq<char>, j: int, m: int)
    requires
        0 <= j <= m <= s.len(),
        forall|k: int| j <= k < m ==> is_digit_char(s[k]),
        m == s.len() || !is_digit_char(s[m]),
    ensures
        digit_run_end(s, j) == m,
    decreases m - j,
{
    if j < m {
        lemma_run_end_exact(s, j + 1, m);
    }
}

/// Extending a digit string on the right never shrinks its value.
proof fn lemma_digits_value_mono(s: Seq<char>, lo: int, a: int, b: int)
    requires
        a <= b,
    ensures
        digits_value(s, lo, b) >= digits_value(s, lo, a),
    decreases b - a,
{
    if a < b {
        lemma_digits_value_mono(s, lo, a, b - 1);
        if lo < b {
            assert(digits_value(s, lo, b) == digits_value(s, lo, b - 1) * 10 + digit_val(
                s[b - 1],
            ));
        }
    }
}

/// The character for a single decimal digit.
pub open spec fn digit_char(d: nat) -> char {
    if d == 0 {
        '0'
    } else if d == 1 {
        '1'
    } else if d == 2 {
        '2'
    } else if d == 3 {
        '3'
    } else if d == 4 {
        '4'
    } else if d == 5 {
        '5'
    } else if d == 6 {
        '6'
    } else if d == 7 {
        '7'
    } else if d == 8 {
        '8'
    } else {
        '9'
    }
}

/// The decimal digit string of `v`, most significant digit first, without
/// leading zeros (`0` itself is written as one digit).
pub open spec fn dec_digits(v: nat) -> Seq<char>
    decreases v,
{
    if v < 10 {
        seq![digit_char(v)]
    } else {
        dec_digits(v / 10).push(digit_char(v % 10))
    }
}

/// `k` zero characters.
pub open spec fn zeros(k: nat) -> Seq<char> {
    Seq::new(k, |i| '0')
}

/// The decimal digit string of `v`, left-padded with zeros to width `w` when
/// it is shorter than `w`.
pub open spec fn padded_dec(v: nat, w: nat) -> Seq<char> {
    if dec_digits(v).len() < w {
        zeros((w - dec_digits(v).len()) as nat) + dec_digits(v)
    } else {
        dec_digits(v)
    }
}

/// The candidate file name of sequence index `i` under a parsed mask: the
/// prefix, then `i` in decimal (zero-padded to the placeholder's digit count
/// when the placeholder asks for padding), then the suffix.
pub open spec fn candidate_seq(prefix: Seq<char>, mask: FileMask, suffix: Seq<char>, i: nat) -> Seq<
    char,
> {
    prefix + padded_dec(
        i,
        if mask.zero_padded {
            mask.digits as nat
        } else {
            0
        },
    ) + suffix
}

/// The `d`-th power of ten.
pub open spec fn pow10_spec(d: nat) -> nat
    decreases d,
{
    if d == 0 {
        1
    } else {
        10 * pow10_spec((d - 1) as nat)
    }
}

/// Powers of ten grow with the exponent.
proof fn lemma_pow10_mono(a: nat, b: nat)
    requires
        a <= b,
    ensures
        pow10_spec(a) <= pow10_spec(b),
    decreases b,
{
    if a < b {
        lemma_pow10_mono(a, (b - 1) as nat);
    }
}

/// A decimal digit string never has more digits than the exponent of a power
/// of ten above its value.
proof fn lemma_dec_len_le(v: nat, k: nat)
    requires
        k >= 1,
        v < pow10_spec(k),
    ensures
        dec_digits(v).len() <= k,
    decreases v,
{
    if v >= 10 {
        assert(pow10_spec(k) == 10 * pow10_spec((k - 1) as nat));
        assert(v / 10 < pow10_spec((k - 1) as nat)) by (nonlinear_arith)
            requires v < 10 * pow10_spec((k - 1) as nat);
        lemma_dec_len_le(v / 10, (k - 1) as nat);
    }
}

/// The placeholder text rebuilt from a parsed description: `%`, the padding
/// `0` when asked for, the digit count in decimal, then `d`.
pub open spec fn rebuilt_placeholder(zero_padded: bool, digits: nat) -> Seq<char> {
    seq!['%'] + (if zero_padded {
        seq!['0']
    } else {
        Seq::<char>::empty()
    }) + dec_digits(digits) + seq!['d']
}

/// Every character of a decimal digit string is a digit.
proof fn lemma_dec_digits_are_digits(v: nat)
    ensures
        dec_digits(v).len() >= 1,
        forall|j: int| 0 <= j < dec_digits(v).len() ==> is_digit_char(#[trigger] dec_digits(v)[j]),
    decreases v,
{
    if v >= 10 {
        lemma_dec_digits_are_digits(v / 10);
    }
}

/// A decimal digit string of several digits does not start with a zero.
proof fn lemma_dec_digits_no_leading_zero(v: nat)
    ensures
        dec_digits(v).len() >= 2 ==> dec_digits(v)[0] != '0',
    decreases v,
{
    if v >= 10 {
        lemma_dec_digits_no_leading_zero(v / 10);
        lemma_dec_digits_are_digits(v / 10);
        assert(v / 10 >= 1) by (nonlinear_arith)
            requires v >= 10;
        if dec_digits(v / 10).len() < 2 {
            if v / 10 >= 10 {
                lemma_dec_digits_are_digits((v / 10) / 10);
                assert(dec_digits(v / 10).len() >= 2);
            }
            assert(v / 10 < 10);
            assert(dec_digits(v / 10) =~= seq![digit_char(v / 10)]);
        }
    }
}

/// Reading a digit string left to right is the same wherever it stands: the
/// value of `s[lo..hi)` equals the value of the string it copies.
proof fn lemma_digits_value_congruent(s: Seq<char>, lo: int, hi: int, t: Seq<char>)
    requires
        0 <= lo <= hi,
        forall|j: int| 0 <= j < hi - lo ==> s[lo + j] == t[j],
    ensures
        digits_value(s, lo, hi) == digits_value(t, 0, hi - lo),
    decreases hi - lo,
{
    if lo < hi {
        lemma_digits_value_congruent(s, lo, hi - 1, t);
        assert(s[lo + (hi - lo - 1)] == t[hi - lo - 1]);
    }
}

/// The value of the decimal digit string of `v` is `v` itself.
proof fn lemma_dec_digits_value(v: nat)
    ensures
        digits_value(dec_digits(v), 0, dec_digits(v).len() as int) == v,
    decreases v,
{
    if v < 10 {
        assert(dec_digits(v)[0] == digit_char(v));
        assert(digit_val(digit_char(v)) == v);
        assert(digits_value(dec_digits(v), 0, 1) == digits_value(dec_digits(v), 0, 0) * 10
            + digit_val(dec_digits(v)[0]));
    } else {
        lemma_dec_digits_value(v / 10);
        let w = dec_digits(v / 10);
        let d = dec_digits(v);
        assert(d == w.push(digit_char((v % 10) as nat)));
        assert(forall|j: int| 0 <= j < d.len() - 1 ==> d[0 + j] == w[j]);
        lemma_digits_value_congruent(d, 0, d.len() - 1, w);
        assert(digits_value(d, 0, d.len() as int) == digits_value(d, 0, d.len() - 1) * 10
            + digit_val(d[d.len() - 1]));
        assert(d[d.len() - 1] == digit_char((v % 10) as nat));
        assert(digit_val(digit_char((v % 10) as nat)) == v % 10);
        vstd::arithmetic::div_mod::lemma_fundamental_div_mod(v as int, 10);
    }
}

/// A string without a percent sign holds no placeholder.
proof fn lemma_count_zero_from(s: Seq<char>, k: int)
    requires
        forall|j: int| k <= j < s.len() ==> s[j] != '%',
    ensures
        count_matches_from(s, k) == 0,
    decreases s.len() - k,
{
    if k < s.len() {
        lemma_count_zero_from(s, k + 1);
    }
}

/// Where at least one placeholder exists, the first-match position carries one.
proof fn lemma_first_match_is_match(s: Seq<char>, k: int)
    requires
        count_matches_from(s, k) >= 1,
    ensures
        k <= first_match_from(s, k) < s.len(),
        placeholder_at(s, first_match_from(s, k)),
    decreases s.len() - k,
{
    if k < s.len() && !placeholder_at(s, k) {
        lemma_first_match_is_match(s, k + 1);
    }
}

/// The reconstruction law of the mask parser. For a mask with exactly one
/// placeholder: the mask is exactly the parsed prefix, the placeholder region
/// and the parsed suffix, in that order; and the placeholder text rebuilt from
/// the parsed description (`%`, `0` when zero-padded, the digit count in
/// decimal, `d`) is itself a whole string holding exactly one placeholder,
/// with the same zero-padding and the same digit count as the original region.
pub proof fn lemma_mask_reconstruction(s: Seq<char>)
    requires
        match_count(s) == 1,
    ensures
        placeholder_at(s, first_match_from(s, 0)),
        s =~= s.subrange(0, first_match_from(s, 0)) + s.subrange(
            first_match_from(s, 0),
            match_end(s, first_match_from(s, 0)),
        ) + s.subrange(match_end(s, first_match_from(s, 0)), s.len() as int),
        ({
            let c = rebuilt_placeholder(
                zero_padded_at(s, first_match_from(s, 0)),
                placeholder_value(s, first_match_from(s, 0)),
            );
            &&& placeholder_at(c, 0)
            &&& match_end(c, 0) == c.len()
            &&& match_count(c) == 1
            &&& zero_padded_at(c, 0) == zero_padded_at(s, first_match_from(s, 0))
            &&& placeholder_value(c, 0) == placeholder_value(s, first_match_from(s, 0))
        }),
{
    lemma_first_match_is_match(s, 0);
    let i = first_match_from(s, 0);
    let e = match_end(s, i);
    lemma_run_digits(s, i + 1);
    let zp = zero_padded_at(s, i);
    let v = placeholder_value(s, i);
    let c = rebuilt_placeholder(zp, v);
    let pad: int = if zp {
        1
    } else {
        0
    };
    let dl = dec_digits(v).len() as int;
    lemma_dec_digits_are_digits(v);
    lemma_dec_digits_no_leading_zero(v);
    // The rebuilt string: '%' at 0, digits over [1, 1 + pad + dl), 'd' at the end.
    assert(c.len() == 2 + pad + dl);
    assert(c[0] == '%');
    assert(c[c.len() - 1] == 'd');
    assert forall|j: int| 1 <= j < 1 + pad + dl implies is_digit_char(c[j]) by {
        if zp && j == 1 {
            assert(c[j] == '0');
        } else {
            assert(c[j] == dec_digits(v)[j - 1 - pad]);
        }
    }
    lemma_run_end_exact(c, 1, 1 + pad + dl);
    assert(placeholder_at(c, 0));
    assert(match_end(c, 0) == c.len());
    // Exactly one placeholder: nothing past position 0 is a percent sign.
    assert forall|j: int| 1 <= j < c.len() implies c[j] != '%' by {
        if j < 1 + pad + dl {
            assert(is_digit_char(c[j]));
        } else {
            assert(c[j] == 'd');
        }
    }
    lemma_count_zero_from(c, 1);
    assert(match_count(c) == 1 + count_matches_from(c, 1));
    // The rebuilt description matches the original one.
    if zp {
        assert(c[1] == '0');
        assert(zero_padded_at(c, 0));
    } else {
        if dl >= 2 {
            assert(c[1] == dec_digits(v)[0]);
            assert(!zero_padded_at(c, 0));
        } else {
            assert(digit_run_end(c, 1) - 1 == 1);
            assert(!zero_padded_at(c, 0));
        }
    }
    assert(run_start(c, 0) == 1 + pad);
    assert(forall|j: int| 0 <= j < dl ==> c[1 + pad + j] == dec_digits(v)[j]);
    lemma_digits_value_congruent(c, 1 + pad, 1 + pad + dl, dec_digits(v));
    lemma_dec_digits_value(v);
    assert(placeholder_value(c, 0) == v);
}

/// Whether the character at position `j` of `s` is a decimal digit.
fn is_digit_at(s: &str, j: usize) -> (r: bool)
    requires
        j < s@.len(),
    ensures
        r == is_digit_char(s@[j as int]),
{
    let c = s.get_char(j) as u32;
    48 <= c && c <= 57
}

/// Checks whether a placeholder starts at position `i`; on a match, hands back
/// the position of its closing `d`.
fn placeholder_check(s: &str, n: usize, i: usize) -> (r: Option<usize>)
    requires
        n == s@.len(),
        i < n,
    ensures
        r is Some <==> placeholder_at(s@, i as int),
        r matches Some(e) ==> e as int == digit_run_end(s@, i as int + 1),
{
    if s.get_char(i) != '%' {
        return None;
    }
    let mut j = i + 1;
    while j < n && is_digit_at(s, j)
        invariant
            n == s@.len(),
            i + 1 <= j <= n,
            forall|k: int| i + 1 <= k < j ==> is_digit_char(s@[k]),
        decreases n - j,
    {
        j = j + 1;
    }
    proof {
        lemma_run_end_exact(s@, i as int + 1, j as int);
    }
    if j > i + 1 && j < n && s.get_char(j) == 'd' {
        Some(j)
    } else {
        None
    }
}

/// Splits a file mask into its literal prefix, its placeholder, and its
/// literal suffix.
///
/// The mask must hold exactly one placeholder: none means there is no sequence
/// to vary over (`NoFileMaskFound`), several make the sequence variable
/// ambiguous (`MultipleFileMasks`). A placeholder whose digit count does not
/// fit the machine's word is refused as unparsable (`CouldNotParseFilemask`).
pub fn parse_filemask(s: &str) -> (r: Result<(String, FileMask, String), ErrorKind>)
    ensures
        r == Err::<(String, FileMask, String), ErrorKind>(ErrorKind::NoFileMaskFound)
            <==> match_count(s@) == 0,
        r == Err::<(String, FileMask, String), ErrorKind>(ErrorKind::MultipleFileMasks)
            <==> match_count(s@) >= 2,
        match_count(s@) == 1 && placeholder_value(s@, first_match_from(s@, 0)) > usize::MAX
            ==> (r matches Err(e) && e matches ErrorKind::CouldNotParseFilemask(t) && t@ == s@),
        r is Ok <==> (match_count(s@) == 1 && placeholder_value(s@, first_match_from(s@, 0))
            <= usize::MAX),
        r matches Ok(t) ==> ({
            let i = first_match_from(s@, 0);
            &&& placeholder_at(s@, i)
            &&& t.0@ == s@.subrange(0, i)
            &&& t.1.zero_padded == zero_padded_at(s@, i)
            &&& t.1.digits == placeholder_value(s@, i)
            &&& t.2@ == s@.subrange(match_end(s@, i), s@.len() as int)
        }),
{
    let n = s.unicode_len();
    let mut i: usize = 0;
    let mut cnt: usize = 0;
    let mut fp: usize = 0;
    let mut fe: usize = 0;
    while i < n
        invariant
            n == s@.len(),
            i <= n,
            cnt <= 1,
            match_count(s@) == cnt + count_matches_from(s@, i as int),
            cnt == 0 ==> first_match_from(s@, i as int) == first_match_from(s@, 0),
            cnt == 1 ==> fp as int == first_match_from(s@, 0) && placeholder_at(s@, fp as int)
                && fe as int == digit_run_end(s@, fp as int + 1),
        decreases n - i,
    {
        match placeholder_check(s, n, i) {
            Some(e) => {
                if cnt == 1 {
                    return Err(ErrorKind::MultipleFileMasks);
                }
                cnt = 1;
                fp = i;
                fe = e;
            },
            None => {},
        }
        i = i + 1;
    }
    if cnt == 0 {
        return Err(ErrorKind::NoFileMaskFound);
    }
    // Exactly one placeholder: it starts at fp, its digit run ends at fe.
    proof {
        lemma_run_digits(s@, fp as int + 1);
    }
    let zero_padded = s.get_char(fp + 1) == '0' && fe >= fp + 3;
    let rs = if zero_padded {
        fp + 2
    } else {
        fp + 1
    };
    let mut val: usize = 0;
    let mut k = rs;
    while k < fe
        invariant
            n == s@.len(),
            match_count(s@) == 1,
            fp as int == first_match_from(s@, 0),
            placeholder_at(s@, fp as int),
            fe as int == digit_run_end(s@, fp as int + 1),
            fp + 1 <= rs <= k <= fe <= n,
            rs as int == run_start(s@, fp as int),
            forall|t: int| fp + 1 <= t < fe ==> is_digit_char(s@[t]),
            val == digits_value(s@, rs as int, k as int),
        decreases fe - k,
    {
        let d = (s.get_char(k) as u32 - 48) as usize;
        if val > (usize::MAX - d) / 10 {
            proof {
                assert(10 * ((usize::MAX - d) / 10) <= usize::MAX - d) by (nonlinear_arith)
                    requires d <= usize::MAX;
                assert(val * 10 + d > usize::MAX) by (nonlinear_arith)
                    requires val > (usize::MAX - d) / 10 && 10 * ((usize::MAX - d) / 10) + 10 > usize::MAX
                        - d;
                assert(digits_value(s@, rs as int, k as int + 1) == val * 10 + d);
                lemma_digits_value_mono(s@, rs as int, k as int + 1, fe as int);
            }
            return Err(ErrorKind::CouldNotParseFilemask(s.to_owned()));
        }
        proof {
            assert(10 * ((usize::MAX - d) / 10) <= usize::MAX - d) by (nonlinear_arith)
                requires d <= usize::MAX;
            assert(val * 10 + d <= usize::MAX) by (nonlinear_arith)
                requires val <= (usize::MAX - d) / 10 && 10 * ((usize::MAX - d) / 10) <= usize::MAX
                    - d;
        }
        val = val * 10 + d;
        k = k + 1;
    }
    let mask = FileMask { zero_padded, digits: val };
    let prefix = s.substring_char(0, fp).to_owned();
    let suffix = s.substring_char(fe + 1, n).to_owned();
    Ok((prefix, mask, suffix))
}

/// The one-character string of a single decimal digit.
fn digit_str(d: u32) -> (r: &'static str)
    requires
        d < 10,
    ensures
        r@ == seq![digit_char(d as nat)],
{
    proof {
        reveal_strlit("0");
        reveal_strlit("1");
        reveal_strlit("2");
        reveal_strlit("3");
        reveal_strlit("4");
        reveal_strlit("5");
        reveal_strlit("6");
        reveal_strlit("7");
        reveal_strlit("8");
        reveal_strlit("9");
    }
    let r: &'static str = match d {
        0 => "0",
        1 => "1",
        2 => "2",
        3 => "3",
        4 => "4",
        5 => "5",
        6 => "6",
        7 => "7",
        8 => "8",
        _ => "9",
    };
    proof {
        assert(r@ =~= seq![digit_char(d as nat)]);
    }
    r
}

/// Appends the decimal digit string of `v` to `out`.
fn append_dec(out: &mut String, v: u32)
    ensures
        final(out)@ == old(out)@ + dec_digits(v as nat),
    decreases v,
{
    if v < 10 {
        out.append(digit_str(v));
    } else {
        append_dec(out, v / 10);
        out.append(digit_str(v % 10));
        proof {
            assert(final(out)@ =~= old(out)@ + dec_digits(v as nat));
        }
    }
}

/// The number of digits in the decimal form of `i`.
fn dec_len(i: u32) -> (r: usize)
    ensures
        r == dec_digits(i as nat).len(),
        r <= 10,
{
    proof {
        reveal_with_fuel(pow10_spec, 11);
        lemma_dec_len_le(i as nat, 10);
    }
    let mut v = i;
    let mut len: usize = 1;
    while v >= 10
        invariant
            dec_digits(i as nat).len() == (len - 1) + dec_digits(v as nat).len(),
            1 <= len,
            len <= dec_digits(i as nat).len(),
            dec_digits(i as nat).len() <= 10,
        decreases v,
    {
        v = v / 10;
        len = len + 1;
    }
    len
}

/// Writes `i` in decimal, left-zero-padded to `width` when `width` is larger
/// than the natural decimal width.
pub fn format_index(i: u32, width: usize) -> (r: String)
    ensures
        r@ == padded_dec(i as nat, width as nat),
{
    let len = dec_len(i);
    let mut out = String::new();
    let mut pad = width;
    while pad > len
        invariant
            pad <= width,
            pad >= len || pad == width,
            out@ =~= zeros((width - pad) as nat),
        decreases pad,
    {
        proof {
            reveal_strlit("0");
        }
        out.append("0");
        proof {
            assert(out@ =~= zeros((width - (pad - 1)) as nat));
        }
        pad = pad - 1;
    }
    append_dec(&mut out, i);
    proof {
        assert(out@ =~= padded_dec(i as nat, width as nat));
    }
    out
}

/// The candidate file name of sequence index `i`: prefix, then `i` rendered by
/// `format_index` (padded to the placeholder's digit count when zero-padded,
/// natural width otherwise), then suffix.
pub fn candidate_filename(prefix: &str, mask: FileMask, suffix: &str, i: u32) -> (r: String)
    ensures
        r@ == candidate_seq(prefix@, mask, suffix@, i as nat),
{
    let width = if mask.zero_padded {
        mask.digits
    } else {
        0
    };
    let mut out = prefix.to_owned();
    let num = format_index(i, width);
    out.append(num.as_str());
    out.append(suffix);
    proof {
        assert(out@ =~= candidate_seq(prefix@, mask, suffix@, i as nat));
    }
    out
}

/// The `d`-th power of ten, as the number of candidate indices of a mask with
/// `d` digits.
fn pow10(d: u32) -> (r: u32)
    requires
        d <= 9,
    ensures
        r == pow10_spec(d as nat),
{
    let mut r: u32 = 1;
    let mut k: u32 = 0;
    while k < d
        invariant
            k <= d <= 9,
            r == pow10_spec(k as nat),
        decreases d - k,
    {
        proof {
            reveal_with_fuel(pow10_spec, 10);
            lemma_pow10_mono(k as nat + 1, 9);
        }
        r = r * 10;
        k = k + 1;
    }
    r
}

/// Relies on std::path::Path::exists: whether the file system has an entry at
/// this path right now. The answer depends on the state of the disk at the
/// moment of the call, so nothing is stated of it.
#[verifier::external_body]
fn path_exists(p: &str) -> bool {
    std::path::Path::new(p).exists()
}

/// Whether a mask is safe to probe: when it parses, its placeholder asks for
/// at most 9 digits, so the candidate count `10^digits` fits the probing
/// counter.
pub open spec fn mask_digits_small(s: Seq<char>) -> bool {
    match_count(s) == 1 ==> placeholder_value(s, first_match_from(s, 0)) <= 9
}

/// The parsed placeholder of a mask with exactly one placeholder.
pub open spec fn mask_of(s: Seq<char>) -> FileMask {
    FileMask {
        zero_padded: zero_padded_at(s, first_match_from(s, 0)),
        digits: placeholder_value(s, first_match_from(s, 0)) as usize,
    }
}

/// One probing step of the sequence resolver, deciding from one existence
/// answer: an existing candidate joins the run; a missing one before the first
/// hit is a tolerated leading gap; the first missing one after a hit ends the
/// run. This policy is load-bearing — it is how the resolver reads a sequence's
/// length off a sparse directory — and `get_paths` applies it to every answer.
pub fn probe_step(paths: &mut Vec<String>, name: String, exists: bool) -> (done: bool)
    ensures
        exists ==> final(paths)@ == old(paths)@.push(name) && !done,
        !exists && old(paths)@.len() == 0 ==> final(paths)@ == old(paths)@ && !done,
        !exists && old(paths)@.len() > 0 ==> final(paths)@ == old(paths)@ && done,
{
    if exists {
        paths.push(name);
        false
    } else {
        paths.len() > 0
    }
}

/// True when `paths[k]` is the candidate name of index `start + k` under the
/// mask `m`, for every `k`: the paths are consecutive candidates of `m`
/// beginning at index `start`.
pub open spec fn is_candidate_run(paths: Seq<String>, m: Seq<char>, start: int) -> bool {
    forall|k: int|
        0 <= k < paths.len() ==> paths[k]@ == candidate_seq(
            m.subrange(0, first_match_from(m, 0)),
            mask_of(m),
            m.subrange(match_end(m, first_match_from(m, 0)), m.len() as int),
            (start + k) as nat,
        )
}

/// What a successful resolution of the mask `m` looks like: at least one path,
/// and the paths are the candidate names of consecutive indices, starting at
/// some index `start` and staying within the mask's candidate range.
pub open spec fn resolved_ok(paths: Seq<String>, m: Seq<char>) -> bool {
    &&& paths.len() >= 1
    &&& exists|start: int|
        #[trigger] is_candidate_run(paths, m, start) && 0 <= start && start + paths.len()
            <= pow10_spec(placeholder_value(m, first_match_from(m, 0)))
}

/// Given a `PathMode`, resolves the ordered list of frame paths.
///
/// A folder is refused as unimplemented. A mask is parsed; a mask without
/// exactly one placeholder is refused as unparsable. Otherwise candidate names
/// are probed in increasing index order: gaps before the first existing file
/// are tolerated, and the first gap after it ends the sequence, so the result
/// is the first contiguous run of existing files. An empty run fails with
/// `NoFilesFound`; a non-empty run is returned in index order.
pub fn get_paths(path_mode: &PathMode) -> (r: Result<Vec<String>, ErrorKind>)
    requires
        path_mode matches PathMode::FileMask(m) ==> mask_digits_small(m@),
    ensures
        path_mode matches PathMode::Folder(f) ==> r == Err::<Vec<String>, ErrorKind>(
            ErrorKind::Unimplemented,
        ),
        path_mode matches PathMode::FileMask(m) ==> (match_count(m@) != 1 ==> (r matches Err(e)
            && e matches ErrorKind::CouldNotParseFilemask(t) && t@ == m@)),
        path_mode matches PathMode::FileMask(m) ==> (match_count(m@) == 1 ==> ((r matches Ok(paths)
            && resolved_ok(paths@, m@)) || r == Err::<Vec<String>, ErrorKind>(
            ErrorKind::NoFilesFound,
        ))),

{
    match *path_mode {
        PathMode::FileMask(filemask) => {
            let (left, mask, right) = match parse_filemask(filemask) {
                Ok(t) => t,
                Err(_) => {
                    return Err(ErrorKind::CouldNotParseFilemask(filemask.to_owned()));
                },
            };
            let limit = pow10(mask.digits as u32);
            let mut paths: Vec<String> = Vec::new();
            let ghost mut start: int = 0;
            let mut done = false;
            let mut i: u32 = 0;
            while i < limit && !done
                invariant
                    i <= limit,
                    limit == pow10_spec(mask_of(filemask@).digits as nat),
                    mask == mask_of(filemask@),
                    left@ == filemask@.subrange(0, first_match_from(filemask@, 0)),
                    right@ == filemask@.subrange(
                        match_end(filemask@, first_match_from(filemask@, 0)),
                        filemask@.len() as int,
                    ),
                    paths@.len() <= i,
                    paths@.len() >= 1 ==> 0 <= start && start + paths@.len() <= i as int,
                    paths@.len() >= 1 && !done ==> start + paths@.len() == i as int,
                    forall|k: int|
                        0 <= k < paths@.len() ==> paths@[k]@ == candidate_seq(
                            left@,
                            mask,
                            right@,
                            (start + k) as nat,
                        ),
                decreases limit - i,
            {
                let name = candidate_filename(left.as_str(), mask, right.as_str(), i);
                let exists = path_exists(name.as_str());
                if exists && paths.len() == 0 {
                    proof {
                        start = i as int;
                    }
                }
                if probe_step(&mut paths, name, exists) {
                    done = true;
                }
                i = i + 1;
            }
            if paths.len() == 0 {
                return Err(ErrorKind::NoFilesFound);
            }
            proof {
                assert(is_candidate_run(paths@, filemask@, start));
                assert(resolved_ok(paths@, filemask@));
            }
            Ok(paths)
        },
        PathMode::Folder(_folder) => Err(ErrorKind::Unimplemented),
    }
}

} // verus!
