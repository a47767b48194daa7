//! Character-level string helpers.
//!
//! The library does its text processing over `Vec<char>`, whose view is the
//! same `Seq<char>` that `String` and `&str` views use, so contracts can speak
//! about one model throughout.

use vstd::prelude::*;

verus! {

// ---------------------------------------------------------------------------
// Spec-level character classes
// ---------------------------------------------------------------------------

/// ASCII whitespace, the class both JSON and this library's trimming use.
pub open spec fn is_ws_char(c: char) -> bool {
    c == ' ' || c == '\t' || c == '\n' || c == '\r'
}

pub open spec fn is_digit_char(c: char) -> bool {
    '0' <= c && c <= '9'
}

pub open spec fn digit_val(c: char) -> int {
    c as int - '0' as int
}

pub open spec fn is_upper_char(c: char) -> bool {
    'A' <= c && c <= 'Z'
}

/// ASCII lowercasing: uppercase ASCII letters map down, all else unchanged.
pub open spec fn lower_char(c: char) -> char {
    if is_upper_char(c) {
        ((c as u32) + 32) as char
    } else {
        c
    }
}

pub open spec fn lower_seq(s: Seq<char>) -> Seq<char> {
    s.map_values(|c: char| lower_char(c))
}

// ---------------------------------------------------------------------------
// Trusted bridges to std
// ---------------------------------------------------------------------------

/// Relies on String::push: appends the single character at the end.
#[verifier::external_body]
pub(crate) fn push_char(s: &mut String, c: char)
    ensures
        final(s)@ == old(s)@.push(c),
{
    s.push(c);
}

/// Relies on char::from_u32: yields the character with the given code
/// exactly when the code is a Unicode scalar value, that is, any value up to
/// 0x10FFFF outside the surrogate range 0xD800..=0xDFFF.
#[verifier::external_body]
pub(crate) fn char_from_u32(v: u32) -> (r: Option<char>)
    ensures
        (r is Some) <==> (v < 0xD800 || (0xE000 <= v && v <= 0x10FFFF)),
        r matches Some(c) ==> c == v as char,
{
    char::from_u32(v)
}

/// What char::is_alphanumeric returns; a function of the character alone.
pub uninterp spec fn char_alnum(c: char) -> bool;

/// Relies on char::is_alphanumeric: true exactly for characters that are
/// Unicode alphabetic or numeric; on ASCII these are the letters and digits.
#[verifier::external_body]
pub(crate) fn is_alnum_char(c: char) -> (r: bool)
    ensures
        r == char_alnum(c),
        (c as u32) < 128 ==> r == (('a' <= c && c <= 'z') || ('A' <= c && c <= 'Z')
            || is_digit_char(c)),
{
    c.is_alphanumeric()
}

// ---------------------------------------------------------------------------
// Conversions between String / &str and Vec<char>
// ---------------------------------------------------------------------------

pub fn str_to_chars(s: &str) -> (r: Vec<char>)
    ensures
        r@ == s@,
{
    let mut r: Vec<char> = Vec::new();
    for c in it: s.chars()
        invariant
            it.seq() == s@,
            r@ == it.seq().take(it.index() as int),
    {
        r.push(c);
    }
    proof {
        assert(r@ =~= s@);
    }
    r
}

pub fn string_to_chars(s: &String) -> (r: Vec<char>)
    ensures
        r@ == s@,
{
    str_to_chars(s.as_str())
}

pub fn chars_to_string(v: &Vec<char>) -> (r: String)
    ensures
        r@ == v@,
{
    let mut r = String::new();
    let mut i: usize = 0;
    while i < v.len()
        invariant
            i <= v@.len(),
            r@ == v@.take(i as int),
        decreases v@.len() - i,
    {
        push_char(&mut r, v[i]);
        proof {
            assert(v@.take(i as int).push(v@[i as int]) =~= v@.take(i + 1));
        }
        i = i + 1;
    }
    proof {
        assert(r@ =~= v@);
    }
    r
}

// ---------------------------------------------------------------------------
// Comparison, search
// ---------------------------------------------------------------------------

pub fn chars_eq(a: &Vec<char>, b: &Vec<char>) -> (r: bool)
    ensures
        r == (a@ == b@),
{
    if a.len() != b.len() {
        return false;
    }
    let mut i: usize = 0;
    while i < a.len()
        invariant
            i <= a@.len(),
            a@.len() == b@.len(),
            forall|k: int| 0 <= k < i ==> a@[k] == b@[k],
        decreases a@.len() - i,
    {
        if a[i] != b[i] {
            return false;
        }
        i = i + 1;
    }
    proof {
        assert(a@ =~= b@);
    }
    true
}

/// The needle `n` occurs in `h` starting at position `i`.
pub open spec fn matches_at(h: Seq<char>, n: Seq<char>, i: int) -> bool {
    0 <= i && i + n.len() <= h.len() && h.subrange(i, i + n.len() as int) == n
}

/// The needle `n` occurs somewhere in `h`.
pub open spec fn seq_has(h: Seq<char>, n: Seq<char>) -> bool {
    exists|i: int| matches_at(h, n, i)
}

pub fn chars_match_at(h: &Vec<char>, n: &Vec<char>, i: usize) -> (r: bool)
    requires
        i + n@.len() <= h@.len(),
    ensures
        r == matches_at(h@, n@, i as int),
{
    let hlen: usize = h.len();
    let nlen: usize = n.len();
    let mut j: usize = 0;
    while j < nlen
        invariant
            j <= nlen,
            nlen == n@.len(),
            hlen == h@.len(),
            i + nlen <= hlen,
            forall|k: int| 0 <= k < j ==> h@[i + k] == n@[k],
        decreases nlen - j,
    {
        if h[i + j] != n[j] {
            proof {
                assert(h@.subrange(i as int, i + n@.len())[j as int] == h@[i + j]);
            }
            return false;
        }
        j = j + 1;
    }
    proof {
        assert(h@.subrange(i as int, i + n@.len()) =~= n@);
    }
    true
}

pub fn chars_contains(h: &Vec<char>, n: &Vec<char>) -> (r: bool)
    ensures
        r == seq_has(h@, n@),
{
    if n.len() > h.len() {
        proof {
            assert(forall|i: int| !matches_at(h@, n@, i));
        }
        return false;
    }
    if n.len() == 0 {
        proof {
            assert(h@.subrange(0, 0) =~= n@);
            assert(matches_at(h@, n@, 0));
        }
        return true;
    }
    let end: usize = h.len() - n.len();
    let mut i: usize = 0;
    while i < end
        invariant
            end == h@.len() - n@.len(),
            n@.len() <= h@.len(),
            i <= end,
            forall|k: int| 0 <= k < i ==> !matches_at(h@, n@, k),
        decreases end - i,
    {
        if chars_match_at(h, n, i) {
            return true;
        }
        i = i + 1;
    }
    if chars_match_at(h, n, end) {
        return true;
    }
    proof {
        assert(forall|k: int| matches_at(h@, n@, k) ==> 0 <= k <= end);
    }
    false
}

pub fn chars_starts_with(h: &Vec<char>, n: &Vec<char>) -> (r: bool)
    ensures
        r == matches_at(h@, n@, 0),
{
    if n.len() > h.len() {
        return false;
    }
    chars_match_at(h, n, 0)
}

// ---------------------------------------------------------------------------
// Lowercasing
// ---------------------------------------------------------------------------

pub fn to_lower_char(c: char) -> (r: char)
    ensures
        r == lower_char(c),
{
    if 'A' <= c && c <= 'Z' {
        let u: u32 = (c as u32) + 32;
        proof {
            assert(u < 0xD800);
        }
        let lowered = char_from_u32(u);
        match lowered {
            Some(lc) => {
                proof {
                    assert(is_upper_char(c));
                    assert(lc == u as char);
                    assert(lower_char(c) == (((c as u32) + 32) as int) as char);
                    assert(u as int == (c as u32) + 32);
                }
                lc
            },
            None => {
                proof {
                    assert(false);
                }
                c
            },
        }
    } else {
        proof {
            assert(!is_upper_char(c));
        }
        c
    }
}

pub fn chars_to_lower(v: &Vec<char>) -> (r: Vec<char>)
    ensures
        r@ == lower_seq(v@),
{
    let mut r: Vec<char> = Vec::new();
    let mut i: usize = 0;
    while i < v.len()
        invariant
            i <= v@.len(),
            r@.len() == i,
            forall|k: int| 0 <= k < i ==> r@[k] == lower_char(v@[k]),
        decreases v@.len() - i,
    {
        r.push(to_lower_char(v[i]));
        i = i + 1;
    }
    proof {
        assert(r@ =~= lower_seq(v@));
    }
    r
}

// ---------------------------------------------------------------------------
// Trimming
// ---------------------------------------------------------------------------

pub open spec fn trim_front_spec(s: Seq<char>) -> Seq<char>
    decreases s.len(),
{
    if s.len() > 0 && is_ws_char(s[0]) {
        trim_front_spec(s.drop_first())
    } else {
        s
    }
}

pub open spec fn trim_back_spec(s: Seq<char>) -> Seq<char>
    decreases s.len(),
{
    if s.len() > 0 && is_ws_char(s[s.len() - 1]) {
        trim_back_spec(s.drop_last())
    } else {
        s
    }
}

/// What trimming ASCII whitespace from both ends leaves.
pub open spec fn trim_spec(s: Seq<char>) -> Seq<char> {
    trim_back_spec(trim_front_spec(s))
}

pub fn trim_chars(v: &Vec<char>) -> (r: Vec<char>)
    ensures
        r@ == trim_spec(v@),
{
    proof {
        assert(v@.skip(0) =~= v@);
    }
    let mut a: usize = 0;
    while a < v.len() && is_ws_exec(v[a])
        invariant
            a <= v@.len(),
            trim_front_spec(v@) == trim_front_spec(v@.skip(a as int)),
        decreases v@.len() - a,
    {
        proof {
            assert(v@.skip(a as int)[0] == v@[a as int]);
            assert(v@.skip(a as int).drop_first() =~= v@.skip(a + 1));
        }
        a = a + 1;
    }
    proof {
        if a < v@.len() {
            assert(v@.skip(a as int)[0] == v@[a as int]);
        }
        assert(trim_front_spec(v@) =~= v@.skip(a as int));
        assert(v@.skip(a as int) =~= v@.subrange(a as int, v@.len() as int));
    }
    let mut b: usize = v.len();
    while b > a && is_ws_exec(v[b - 1])
        invariant
            a <= b <= v@.len(),
            trim_front_spec(v@) == v@.skip(a as int),
            trim_back_spec(v@.skip(a as int)) == trim_back_spec(v@.subrange(a as int, b as int)),
        decreases b,
    {
        proof {
            assert(v@.subrange(a as int, b as int).last() == v@[b - 1]);
        }
        proof {
            assert(v@.subrange(a as int, b as int).drop_last() =~= v@.subrange(
                a as int,
                b - 1,
            ));
        }
        b = b - 1;
    }
    proof {
        if b > a {
            assert(v@.subrange(a as int, b as int).last() == v@[b - 1]);
        }
        assert(trim_back_spec(v@.subrange(a as int, b as int)) =~= v@.subrange(a as int, b as int));
    }
    let mut r: Vec<char> = Vec::new();
    let mut i: usize = a;
    while i < b
        invariant
            a <= i <= b <= v@.len(),
            r@ == v@.subrange(a as int, i as int),
        decreases b - i,
    {
        r.push(v[i]);
        proof {
            assert(v@.subrange(a as int, i as int).push(v@[i as int]) =~= v@.subrange(
                a as int,
                i + 1,
            ));
        }
        i = i + 1;
    }
    r
}

pub fn is_ws_exec(c: char) -> (r: bool)
    ensures
        r == is_ws_char(c),
{
    c == ' ' || c == '\t' || c == '\n' || c == '\r'
}

/// Every character is whitespace; equivalently, trimming leaves nothing.
pub fn chars_all_ws(v: &Vec<char>) -> (r: bool)
    ensures
        r == (trim_spec(v@).len() == 0),
{
    let mut i: usize = 0;
    let mut all = true;
    while i < v.len()
        invariant
            i <= v@.len(),
            all == (forall|k: int| 0 <= k < i ==> is_ws_char(v@[k])),
        decreases v@.len() - i,
    {
        if !is_ws_exec(v[i]) {
            all = false;
            proof {
                assert(!is_ws_char(v@[i as int]));
            }
        }
        i = i + 1;
    }
    proof {
        if all {
            lemma_trim_all_ws(v@);
        } else {
            lemma_trim_keeps_non_ws(v@);
        }
    }
    all
}

proof fn lemma_trim_all_ws(s: Seq<char>)
    requires
        forall|k: int| 0 <= k < s.len() ==> is_ws_char(s[k]),
    ensures
        trim_spec(s).len() == 0,
    decreases s.len(),
{
    if s.len() > 0 {
        assert(forall|k: int| 0 <= k < s.drop_first().len() ==> is_ws_char(s.drop_first()[k]));
        lemma_trim_all_ws(s.drop_first());
    }
}

proof fn lemma_trim_front_keeps_non_ws(s: Seq<char>)
    requires
        exists|k: int| 0 <= k < s.len() && !is_ws_char(s[k]),
    ensures
        trim_front_spec(s).len() > 0,
        exists|k: int|
            0 <= k < trim_front_spec(s).len() && !is_ws_char(trim_front_spec(s)[k]),
    decreases s.len(),
{
    let w = choose|k: int| 0 <= k < s.len() && !is_ws_char(s[k]);
    if s.len() > 0 && is_ws_char(s[0]) {
        assert(s.drop_first()[w - 1] == s[w]);
        assert(!is_ws_char(s.drop_first()[w - 1]));
        lemma_trim_front_keeps_non_ws(s.drop_first());
    } else {
        assert(trim_front_spec(s) == s);
        assert(!is_ws_char(trim_front_spec(s)[w]));
    }
}

proof fn lemma_trim_back_keeps_non_ws(s: Seq<char>)
    requires
        exists|k: int| 0 <= k < s.len() && !is_ws_char(s[k]),
    ensures
        trim_back_spec(s).len() > 0,
    decreases s.len(),
{
    let w = choose|k: int| 0 <= k < s.len() && !is_ws_char(s[k]);
    if s.len() > 0 && is_ws_char(s[s.len() - 1]) {
        assert(s.drop_last()[w] == s[w]);
        lemma_trim_back_keeps_non_ws(s.drop_last());
    }
}

proof fn lemma_trim_keeps_non_ws(s: Seq<char>)
    requires
        exists|k: int| 0 <= k < s.len() && !is_ws_char(s[k]),
    ensures
        trim_spec(s).len() > 0,
{
    lemma_trim_front_keeps_non_ws(s);
    lemma_trim_back_keeps_non_ws(trim_front_spec(s));
}

// ---------------------------------------------------------------------------
// Decimal numbers
// ---------------------------------------------------------------------------

pub open spec fn all_digits(s: Seq<char>) -> bool {
    forall|i: int| 0 <= i < s.len() ==> is_digit_char(s[i])
}

/// The value of a sequence of decimal digits.
pub open spec fn dec_val(s: Seq<char>) -> int
    decreases s.len(),
{
    if s.len() == 0 {
        0
    } else {
        dec_val(s.drop_last()) * 10 + digit_val(s.last())
    }
}

/// The shape `str::parse::<i64>` accepts: an optional sign, then digits.
pub open spec fn is_int_lexeme(s: Seq<char>) -> bool {
    if s.len() == 0 {
        false
    } else if s[0] == '-' || s[0] == '+' {
        s.len() > 1 && all_digits(s.skip(1))
    } else {
        all_digits(s)
    }
}

pub open spec fn int_lexeme_val(s: Seq<char>) -> int {
    if s.len() > 0 && s[0] == '-' {
        -dec_val(s.skip(1))
    } else if s.len() > 0 && s[0] == '+' {
        dec_val(s.skip(1))
    } else {
        dec_val(s)
    }
}

pub proof fn lemma_dec_val_nonneg(s: Seq<char>)
    requires
        all_digits(s),
    ensures
        dec_val(s) >= 0,
    decreases s.len(),
{
    if s.len() > 0 {
        assert(all_digits(s.drop_last()));
        lemma_dec_val_nonneg(s.drop_last());
    }
}

/// Appending digits never shrinks the value.
pub proof fn lemma_dec_val_prefix(s: Seq<char>, n: int)
    requires
        all_digits(s),
        0 <= n <= s.len(),
    ensures
        dec_val(s) >= dec_val(s.take(n)),
    decreases s.len() - n,
{
    if n < s.len() {
        lemma_dec_val_prefix(s, n + 1);
        assert(s.take(n + 1).drop_last() =~= s.take(n));
        assert(all_digits(s.take(n)));
        lemma_dec_val_nonneg(s.take(n));
        assert(dec_val(s.take(n + 1)) == dec_val(s.take(n)) * 10 + digit_val(s.take(n + 1).last()));
    } else {
        assert(s.take(n) =~= s);
    }
}

fn digit_of(c: char) -> (r: u64)
    requires
        is_digit_char(c),
    ensures
        r == digit_val(c),
        r <= 9,
{
    (c as u32 - '0' as u32) as u64
}

/// Parses an optionally signed decimal integer, exactly as `str::parse::<i64>`
/// would: `Some` on a well-formed lexeme whose value fits in an `i64`.
pub fn parse_i64_chars(v: &Vec<char>) -> (r: Option<i64>)
    ensures
        (r is Some) <==> (is_int_lexeme(v@) && i64::MIN <= int_lexeme_val(v@) <= i64::MAX),
        r matches Some(x) ==> x == int_lexeme_val(v@),
{
    if v.len() == 0 {
        return None;
    }
    let c0 = v[0];
    let neg = c0 == '-';
    let signed = neg || c0 == '+';
    let start: usize = if signed {
        1
    } else {
        0
    };
    if v.len() == start {
        return None;
    }
    let ghost digits = v@.skip(start as int);
    proof {
        if start == 0 {
            assert(v@.skip(0) =~= v@);
        }
        assert(is_int_lexeme(v@) == all_digits(digits));
    }
    let mut i: usize = start;
    let mut mag: u64 = 0;
    while i < v.len()
        invariant
            start <= i <= v@.len(),
            start < v@.len(),
            digits == v@.skip(start as int),
            is_int_lexeme(v@) == all_digits(digits),
            neg ==> (v@[0] == '-' && start == 1),
            (!neg && signed) ==> (v@[0] == '+' && start == 1),
            !signed ==> start == 0 && digits == v@,
            all_digits(digits.take(i - start)),
            mag == dec_val(digits.take(i - start)),
            mag <= 0x7fff_ffff_ffff_ffffu64 * 10 + 9,
        decreases v@.len() - i,
    {
        let c = v[i];
        if !('0' <= c && c <= '9') {
            proof {
                assert(digits[i - start] == v@[i as int]);
                assert(!is_digit_char(digits[i - start]));
                assert(!all_digits(digits));
            }
            return None;
        }
        let d = digit_of(c);
        if mag > 922_337_203_685_477_580u64 {
            proof {
                assert(digits[i - start] == v@[i as int]);
                lemma_out_of_range(digits, i - start, mag as int, d as int);
                if is_int_lexeme(v@) {
                    assert(all_digits(digits));
                    assert(dec_val(digits) > 0x8000_0000_0000_0000);
                    if neg {
                        assert(int_lexeme_val(v@) == -dec_val(digits));
                    } else {
                        assert(int_lexeme_val(v@) == dec_val(digits));
                    }
                    assert(!(i64::MIN <= int_lexeme_val(v@) <= i64::MAX));
                }
            }
            return None;
        }
        proof {
            assert(digits[i - start] == v@[i as int]);
            assert(digits.take(i + 1 - start).drop_last() =~= digits.take(i - start));
            assert(digits.take(i + 1 - start).last() == digits[i - start]);
            assert(dec_val(digits.take(i + 1 - start)) == dec_val(digits.take(i - start)) * 10
                + digit_val(v@[i as int]));
        }
        mag = mag * 10 + d;
        i = i + 1;
    }
    proof {
        assert(digits.take(i - start) =~= digits);
        assert(is_int_lexeme(v@));
        if neg {
            assert(int_lexeme_val(v@) == -dec_val(digits));
        } else {
            assert(int_lexeme_val(v@) == dec_val(digits));
        }
    }
    if neg {
        if mag <= 0x7fff_ffff_ffff_ffffu64 {
            Some(-(mag as i64))
        } else if mag == 0x8000_0000_0000_0000u64 {
            Some(i64::MIN)
        } else {
            None
        }
    } else {
        if mag <= 0x7fff_ffff_ffff_ffffu64 {
            Some(mag as i64)
        } else {
            None
        }
    }
}

/// If the digits seen so far already exceed the `i64` range, the whole digit
/// string does too.
proof fn lemma_out_of_range(digits: Seq<char>, k: int, mag: int, d: int)
    requires
        0 <= k < digits.len(),
        all_digits(digits.take(k)),
        is_digit_char(digits[k]),
        mag == dec_val(digits.take(k)),
        mag > 922_337_203_685_477_580,
        d == digit_val(digits[k]),
    ensures
        all_digits(digits) ==> dec_val(digits) > 0x8000_0000_0000_0000,
{
    if all_digits(digits) {
        assert(digits.take(k + 1).drop_last() =~= digits.take(k));
        assert(dec_val(digits.take(k + 1)) == mag * 10 + d);
        lemma_dec_val_prefix(digits, k + 1);
    }
}

/// The decimal digit string of an unsigned number.
pub open spec fn dec_digits(n: int) -> Seq<char>
    decreases n,
{
    if n <= 0 {
        seq!['0']
    } else if n < 10 {
        seq![digit_char(n)]
    } else {
        dec_digits(n / 10).push(digit_char(n % 10))
    }
}

pub open spec fn digit_char(d: int) -> char {
    (('0' as u32) + d) as char
}

fn digit_to_char(d: u64) -> (r: char)
    requires
        d <= 9,
    ensures
        r == digit_char(d as int),
{
    let u: u32 = ('0' as u32) + (d as u32);
    proof {
        assert(u < 0xD800);
    }
    match char_from_u32(u) {
        Some(c) => c,
        None => {
            proof {
                assert(false);
            }
            '0'
        },
    }
}

pub fn reverse_chars(v: &Vec<char>) -> (r: Vec<char>)
    ensures
        r@ == v@.reverse(),
{
    let mut r: Vec<char> = Vec::new();
    let mut i: usize = v.len();
    while i > 0
        invariant
            i <= v@.len(),
            r@.len() == v@.len() - i,
            forall|k: int| 0 <= k < r@.len() ==> r@[k] == v@[v@.len() - 1 - k],
        decreases i,
    {
        i = i - 1;
        r.push(v[i]);
    }
    proof {
        assert(r@ =~= v@.reverse());
    }
    r
}

pub fn u64_to_dec_chars(n: u64) -> (r: Vec<char>)
    ensures
        r@ == dec_digits(n as int),
{
    let mut acc: Vec<char> = Vec::new();
    let mut cur: u64 = n;
    acc.push(digit_to_char(cur % 10));
    proof {
        if n < 10 {
            assert(dec_digits(n as int) =~= acc@.reverse());
        } else {
            assert(dec_digits(n as int) =~= dec_digits(n as int / 10) + acc@.reverse());
        }
    }
    cur = cur / 10;
    while cur > 0
        invariant
            acc@.len() >= 1,
            cur == 0 ==> dec_digits(n as int) == acc@.reverse(),
            cur > 0 ==> dec_digits(n as int) == dec_digits(cur as int) + acc@.reverse(),
        decreases cur,
    {
        let d = cur % 10;
        acc.push(digit_to_char(d));
        proof {
            let prev = acc@.drop_last();
            assert(acc@.reverse() =~= seq![digit_char(d as int)] + prev.reverse());
            if cur >= 10 {
                assert(dec_digits(cur as int) == dec_digits(cur as int / 10).push(
                    digit_char(cur as int % 10),
                ));
                assert(dec_digits(cur as int / 10) + acc@.reverse() =~= (dec_digits(
                    cur as int / 10,
                ).push(digit_char(d as int))) + prev.reverse());
            } else {
                assert(dec_digits(cur as int) =~= seq![digit_char(d as int)]);
                assert(dec_digits(cur as int) + prev.reverse() =~= acc@.reverse());
            }
        }
        cur = cur / 10;
    }
    reverse_chars(&acc)
}

/// The signed decimal digit string.
pub open spec fn i64_dec_digits(n: int) -> Seq<char> {
    if n < 0 {
        seq!['-'] + dec_digits(-n)
    } else {
        dec_digits(n)
    }
}

pub fn i64_to_dec_chars(n: i64) -> (r: Vec<char>)
    ensures
        r@ == i64_dec_digits(n as int),
{
    if n >= 0 {
        u64_to_dec_chars(n as u64)
    } else {
        let mag: u64 = if n == i64::MIN {
            0x8000_0000_0000_0000u64
        } else {
            (-n) as u64
        };
        let digits = u64_to_dec_chars(mag);
        let mut r: Vec<char> = Vec::new();
        r.push('-');
        let mut i: usize = 0;
        while i < digits.len()
            invariant
                i <= digits@.len(),
                r@ == seq!['-'] + digits@.take(i as int),
            decreases digits@.len() - i,
        {
            r.push(digits[i]);
            proof {
                assert((seq!['-'] + digits@.take(i as int)).push(digits@[i as int]) =~= seq!['-']
                    + digits@.take(i + 1));
            }
            i = i + 1;
        }
        proof {
            assert(digits@.take(i as int) =~= digits@);
        }
        r
    }
}

/// Copies the first `n` characters out as a fresh vector.
pub fn chars_take(v: &Vec<char>, n: usize) -> (r: Vec<char>)
    requires
        n <= v@.len(),
    ensures
        r@ == v@.take(n as int),
{
    let mut r: Vec<char> = Vec::new();
    let mut i: usize = 0;
    while i < n
        invariant
            i <= n <= v@.len(),
            r@ == v@.take(i as int),
        decreases n - i,
    {
        r.push(v[i]);
        proof {
            assert(v@.take(i as int).push(v@[i as int]) =~= v@.take(i + 1));
        }
        i = i + 1;
    }
    r
}

/// Membership in a pushed sequence.
pub proof fn lemma_contains_push<T>(s: Seq<T>, x: T, k: T)
    ensures
        s.push(x).contains(k) == (s.contains(k) || k == x),
{
    if s.contains(k) {
        let w = choose|w: int| 0 <= w < s.len() && s[w] == k;
        assert(s.push(x)[w] == k);
    }
    if k == x {
        assert(s.push(x)[s.len() as int] == k);
    }
    if s.push(x).contains(k) {
        let w = choose|w: int| 0 <= w < s.push(x).len() && s.push(x)[w] == k;
        if w < s.len() {
            assert(s[w] == k);
        }
    }
}

} // verus!
