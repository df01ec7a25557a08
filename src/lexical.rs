//! Byte-level lexing of fixed-width text fields: trimming, integer fields,
//! whitespace-separated words and floating-point literals in the grammar that
//! Rust's `f64` parser accepts.
use vstd::prelude::*;

verus! {

pub open spec fn is_space(c: u8) -> bool {
    c == 32 || (9 <= c && c <= 13)
}

pub open spec fn is_digit(c: u8) -> bool {
    48 <= c && c <= 57
}

pub open spec fn is_sign(c: u8) -> bool {
    c == 43 || c == 45
}

pub open spec fn is_exp_mark(c: u8) -> bool {
    c == 69 || c == 101
}

pub open spec fn trim_start(s: Seq<u8>) -> Seq<u8>
    decreases s.len(),
{
    if s.len() > 0 && is_space(s[0]) {
        trim_start(s.drop_first())
    } else {
        s
    }
}

pub open spec fn trim_end(s: Seq<u8>) -> Seq<u8>
    decreases s.len(),
{
    if s.len() > 0 && is_space(s.last()) {
        trim_end(s.drop_last())
    } else {
        s
    }
}

/// `s` without its leading and trailing ASCII whitespace.
pub open spec fn trim(s: Seq<u8>) -> Seq<u8> {
    trim_end(trim_start(s))
}

/// The bytes `lo..hi` of `s`, cut at the end of `s`.
pub open spec fn window(s: Seq<u8>, lo: int, hi: int) -> Seq<u8> {
    if lo >= s.len() {
        Seq::empty()
    } else if hi > s.len() {
        s.subrange(lo, s.len() as int)
    } else {
        s.subrange(lo, hi)
    }
}

/// Fortran-style exponent marker `D` rewritten as `E`.
pub open spec fn replace_d(s: Seq<u8>) -> Seq<u8> {
    s.map_values(|c: u8| if c == 68 { 69u8 } else { c })
}

/// Number of consecutive digits of `s` from position `i`.
pub open spec fn digit_run(s: Seq<u8>, i: int) -> nat
    decreases s.len() - i,
{
    if 0 <= i < s.len() && is_digit(s[i]) {
        1 + digit_run(s, i + 1)
    } else {
        0
    }
}

/// Number of consecutive non-whitespace bytes of `s` from position `i`.
pub open spec fn word_run(s: Seq<u8>, i: int) -> nat
    decreases s.len() - i,
{
    if 0 <= i < s.len() && !is_space(s[i]) {
        1 + word_run(s, i + 1)
    } else {
        0
    }
}

/// The whitespace-separated words of `s` from position `i` on.
pub open spec fn words_from(s: Seq<u8>, i: int) -> Seq<Seq<u8>>
    decreases s.len() - i,
{
    if i < 0 || i >= s.len() {
        Seq::empty()
    } else if is_space(s[i]) {
        words_from(s, i + 1)
    } else {
        let n = 1 + word_run(s, i + 1);
        if i + n <= s.len() {
            seq![s.subrange(i, i + n)] + words_from(s, i + n)
        } else {
            Seq::empty()
        }
    }
}

pub open spec fn words(s: Seq<u8>) -> Seq<Seq<u8>> {
    words_from(s, 0)
}

/// Value of a string of decimal digits.
pub open spec fn digits_value(s: Seq<u8>) -> int
    decreases s.len(),
{
    if s.len() == 0 {
        0
    } else {
        digits_value(s.drop_last()) * 10 + (s.last() - 48)
    }
}

/// Length of the sign that may open an integer literal.
pub open spec fn int_sign_len(s: Seq<u8>, signed: bool) -> int {
    if s.len() > 0 && (s[0] == 43 || (signed && s[0] == 45)) {
        1
    } else {
        0
    }
}

/// An optional sign (`-` only where `signed`) and one digit or more.
pub open spec fn is_int_literal(s: Seq<u8>, signed: bool) -> bool {
    let k = int_sign_len(s, signed);
    s.len() > k && digit_run(s, k) == s.len() - k
}

pub open spec fn int_literal_value(s: Seq<u8>, signed: bool) -> int {
    let v = digits_value(s.subrange(int_sign_len(s, signed), s.len() as int));
    if signed && s.len() > 0 && s[0] == 45 {
        -v
    } else {
        v
    }
}

/// What `u8` parsing of `s` gives, or zero where it fails.
pub open spec fn u8_or_zero(s: Seq<u8>) -> int {
    if is_int_literal(s, false) && int_literal_value(s, false) <= 255 {
        int_literal_value(s, false)
    } else {
        0
    }
}

/// What `i32` parsing of `s` gives, or zero where it fails.
pub open spec fn i32_or_zero(s: Seq<u8>) -> int {
    if is_int_literal(s, true) && i32::MIN <= int_literal_value(s, true) <= i32::MAX {
        int_literal_value(s, true)
    } else {
        0
    }
}

/// From position `i`, `s` is empty or an exponent: `e` or `E`, an optional sign, digits.
pub open spec fn is_exponent_tail(s: Seq<u8>, i: int) -> bool {
    i == s.len() || (0 <= i < s.len() && is_exp_mark(s[i]) && {
        let j = if i + 1 < s.len() && is_sign(s[i + 1]) {
            i + 2
        } else {
            i + 1
        };
        digit_run(s, j) > 0 && j + digit_run(s, j) == s.len()
    })
}

/// Optional sign, digits with at most one decimal point and at least one digit,
/// optional exponent.
pub open spec fn is_decimal_literal(s: Seq<u8>) -> bool {
    let i0: int = if s.len() > 0 && is_sign(s[0]) {
        1
    } else {
        0
    };
    let d1 = digit_run(s, i0);
    let i1 = i0 + d1;
    let has_dot = i1 < s.len() && s[i1] == 46;
    let d2: int = if has_dot {
        digit_run(s, i1 + 1) as int
    } else {
        0
    };
    let i2 = if has_dot {
        i1 + 1 + d2
    } else {
        i1
    };
    d1 + d2 > 0 && is_exponent_tail(s, i2)
}

pub open spec fn ascii_lower(c: u8) -> u8 {
    if 65 <= c && c <= 90 {
        (c + 32) as u8
    } else {
        c
    }
}

/// `s` equals the lower-case word `w`, ignoring ASCII case.
pub open spec fn matches_word(s: Seq<u8>, w: Seq<u8>) -> bool {
    s.len() == w.len() && forall|i: int| 0 <= i < s.len() ==> ascii_lower(#[trigger] s[i]) == w[i]
}

pub open spec fn word_nan() -> Seq<u8> {
    seq![110u8, 97, 110]
}

pub open spec fn word_inf() -> Seq<u8> {
    seq![105u8, 110, 102]
}

pub open spec fn word_infinity() -> Seq<u8> {
    seq![105u8, 110, 102, 105, 110, 105, 116, 121]
}

/// Optional sign, then `nan`, `inf` or `infinity` in any case.
pub open spec fn is_special_literal(s: Seq<u8>) -> bool {
    let r = if s.len() > 0 && is_sign(s[0]) {
        s.drop_first()
    } else {
        s
    };
    matches_word(r, word_nan()) || matches_word(r, word_inf()) || matches_word(r, word_infinity())
}

/// The text is a literal that Rust's `f64` parser accepts.
pub open spec fn is_float_literal(s: Seq<u8>) -> bool {
    is_decimal_literal(s) || is_special_literal(s)
}

pub open spec fn zero_literal() -> Seq<u8> {
    seq![48u8]
}

/// The numeric text of a field: trimmed, with `D` read as `E`, and `0` where
/// the result is no floating-point literal.
pub open spec fn numeral_of(field: Seq<u8>) -> Seq<u8> {
    let t = replace_d(trim(field));
    if is_float_literal(t) {
        t
    } else {
        zero_literal()
    }
}


proof fn lemma_digits_value_step(s: Seq<u8>, k: int, j: int)
    requires
        0 <= k <= j < s.len(),
    ensures
        digits_value(s.subrange(k, j + 1)) == digits_value(s.subrange(k, j)) * 10 + (s[j] - 48),
{
    assert(s.subrange(k, j + 1).drop_last() =~= s.subrange(k, j));
}

proof fn lemma_digits_value_prefix(s: Seq<u8>, i: int)
    requires
        0 <= i <= s.len(),
        forall|q: int| 0 <= q < s.len() ==> is_digit(#[trigger] s[q]),
    ensures
        0 <= digits_value(s.subrange(0, i)) <= digits_value(s),
    decreases s.len() - i,
{
    if i == s.len() {
        assert(s.subrange(0, i) =~= s);
        lemma_digits_value_nonneg(s);
    } else {
        lemma_digits_value_prefix(s, i + 1);
        lemma_digits_value_step(s, 0, i);
        lemma_digits_value_nonneg(s.subrange(0, i));
    }
}

proof fn lemma_digits_value_nonneg(s: Seq<u8>)
    requires
        forall|q: int| 0 <= q < s.len() ==> is_digit(#[trigger] s[q]),
    ensures
        digits_value(s) >= 0,
    decreases s.len(),
{
    if s.len() > 0 {
        let t = s.drop_last();
        assert forall|q: int| 0 <= q < t.len() implies is_digit(#[trigger] t[q]) by {
            assert(t[q] == s[q]);
        }
        lemma_digits_value_nonneg(t);
    }
}

/// `digit_run` computed.
fn digit_run_at(s: &Vec<u8>, i: usize) -> (r: usize)
    requires
        i <= s.len(),
    ensures
        r == digit_run(s@, i as int),
        i + r <= s.len(),
{
    let mut j = i;
    while j < s.len() && 48 <= s[j] && s[j] <= 57
        invariant
            i <= j <= s.len(),
            digit_run(s@, i as int) == (j - i) + digit_run(s@, j as int),
        decreases s.len() - j,
    {
        j += 1;
    }
    j - i
}

/// A copy of `s[a..b]`.
fn copy_range(s: &Vec<u8>, a: usize, b: usize) -> (r: Vec<u8>)
    requires
        a <= b <= s.len(),
    ensures
        r@ == s@.subrange(a as int, b as int),
{
    let mut r: Vec<u8> = Vec::new();
    let mut k = a;
    while k < b
        invariant
            a <= k <= b <= s.len(),
            r@ == s@.subrange(a as int, k as int),
        decreases b - k,
    {
        r.push(s[k]);
        assert(r@ =~= s@.subrange(a as int, k + 1));
        k += 1;
    }
    r
}

/// The bytes of `trim(window(s, lo, hi))`.
pub fn trimmed_window(s: &Vec<u8>, lo: usize, hi: usize) -> (r: Vec<u8>)
    requires
        lo <= hi,
    ensures
        r@ == trim(window(s@, lo as int, hi as int)),
{
    let end = if hi > s.len() {
        s.len()
    } else {
        hi
    };
    let start = if lo > end {
        end
    } else {
        lo
    };
    assert(window(s@, lo as int, hi as int) =~= s@.subrange(start as int, end as int));
    let mut a = start;
    while a < end && (s[a] == 32 || (9 <= s[a] && s[a] <= 13))
        invariant
            start <= a <= end <= s.len(),
            trim_start(s@.subrange(start as int, end as int)) == trim_start(
                s@.subrange(a as int, end as int),
            ),
        decreases end - a,
    {
        assert(s@.subrange(a as int, end as int).drop_first() =~= s@.subrange(a + 1, end as int));
        a += 1;
    }
    let mut b = end;
    while b > a && (s[b - 1] == 32 || (9 <= s[b - 1] && s[b - 1] <= 13))
        invariant
            start <= a <= b <= end <= s.len(),
            trim(s@.subrange(start as int, end as int)) == trim_end(s@.subrange(a as int, b as int)),
        decreases b - a,
    {
        assert(s@.subrange(a as int, b as int).drop_last() =~= s@.subrange(a as int, b - 1));
        b -= 1;
    }
    copy_range(s, a, b)
}

/// An integer literal parsed, where its magnitude is at most 2^32.
fn parse_int(t: &Vec<u8>, signed: bool) -> (r: Option<i64>)
    ensures
        r is Some <==> (is_int_literal(t@, signed) && -4294967296 <= int_literal_value(t@, signed)
            <= 4294967296),
        r matches Some(v) ==> v == int_literal_value(t@, signed) && (!signed ==> v >= 0),
        !signed && is_int_literal(t@, signed) ==> int_literal_value(t@, signed) >= 0,
{
    let n = t.len();
    let k: usize = if n > 0 && (t[0] == 43 || (signed && t[0] == 45)) {
        1
    } else {
        0
    };
    assert(k as int == int_sign_len(t@, signed));
    if k >= n {
        return None;
    }
    let mut j = k;
    let mut acc: i64 = 0;
    let mut big = false;
    while j < n
        invariant
            k <= j <= n == t.len(),
            k as int == int_sign_len(t@, signed),
            digit_run(t@, k as int) == (j - k) + digit_run(t@, j as int),
            forall|q: int| k <= q < j ==> is_digit(#[trigger] t@[q]),
            !big ==> acc == digits_value(t@.subrange(k as int, j as int)),
            0 <= acc <= 4294967296,
            big ==> digits_value(t@.subrange(k as int, j as int)) > 4294967296 || exists|i: int|
                k <= i <= j && digits_value(t@.subrange(k as int, i)) > 4294967296,
        decreases n - j,
    {
        let c = t[j];
        if !(48 <= c && c <= 57) {
            assert(digit_run(t@, j as int) == 0);
            return None;
        }
        proof {
            lemma_digits_value_step(t@, k as int, j as int);
        }
        if !big {
            if acc > 429496729 || (acc == 429496729 && c > 54) {
                big = true;
                assert(digits_value(t@.subrange(k as int, j + 1)) > 4294967296);
            } else {
                acc = acc * 10 + (c - 48) as i64;
            }
        }
        j += 1;
    }
    let ghost u = t@.subrange(k as int, n as int);
    assert forall|q: int| 0 <= q < u.len() implies is_digit(#[trigger] u[q]) by {
        assert(u[q] == t@[k + q]);
    }
    proof {
        lemma_digits_value_nonneg(u);
    }
    if big {
        proof {
            let i = choose|i: int|
                k <= i <= n && digits_value(t@.subrange(k as int, i)) > 4294967296;
            assert(t@.subrange(k as int, i) =~= u.subrange(0, i - k));
            lemma_digits_value_prefix(u, i - k);
        }
        return None;
    }
    if signed && t[0] == 45 {
        Some(-acc)
    } else {
        Some(acc)
    }
}

/// What `u8` parsing of the trimmed window `lo..hi` of `s` gives, or zero.
pub fn parse_u8_or_zero(s: &Vec<u8>, lo: usize, hi: usize) -> (r: u8)
    requires
        lo <= hi,
    ensures
        r as int == u8_or_zero(trim(window(s@, lo as int, hi as int))),
{
    let t = trimmed_window(s, lo, hi);
    match parse_int(&t, false) {
        Some(v) => {
            if v <= 255 {
                v as u8
            } else {
                0
            }
        },
        None => 0,
    }
}

/// What `i32` parsing of `t` gives, or zero.
pub fn parse_i32_or_zero(t: &Vec<u8>) -> (r: i32)
    ensures
        r as int == i32_or_zero(t@),
{
    match parse_int(t, true) {
        Some(v) => {
            if i32::MIN as i64 <= v && v <= i32::MAX as i64 {
                v as i32
            } else {
                0
            }
        },
        None => 0,
    }
}

fn exponent_tail_at(s: &Vec<u8>, i: usize) -> (r: bool)
    requires
        i <= s.len(),
    ensures
        r == is_exponent_tail(s@, i as int),
{
    let n = s.len();
    if i == n {
        return true;
    }
    if !(s[i] == 69 || s[i] == 101) {
        return false;
    }
    let j = if i + 1 < n && (s[i + 1] == 43 || s[i + 1] == 45) {
        i + 2
    } else {
        i + 1
    };
    let d = digit_run_at(s, j);
    d > 0 && j + d == n
}

fn ascii_lower_exec(c: u8) -> (r: u8)
    ensures
        r == ascii_lower(c),
{
    if 65 <= c && c <= 90 {
        c + 32
    } else {
        c
    }
}

/// `s[k..]` equals the lower-case word `w`, ignoring ASCII case.
fn matches_word_at(s: &Vec<u8>, k: usize, w: &Vec<u8>) -> (r: bool)
    requires
        k <= s.len(),
    ensures
        r == matches_word(s@.subrange(k as int, s.len() as int), w@),
{
    let ghost r = s@.subrange(k as int, s.len() as int);
    if s.len() - k != w.len() {
        return false;
    }
    let mut q: usize = 0;
    while q < w.len()
        invariant
            k <= s.len(),
            s.len() - k == w.len(),
            r == s@.subrange(k as int, s.len() as int),
            0 <= q <= w.len(),
            forall|p: int| 0 <= p < q ==> ascii_lower(#[trigger] r[p]) == w@[p],
        decreases w.len() - q,
    {
        if ascii_lower_exec(s[k + q]) != w[q] {
            assert(ascii_lower(r[q as int]) != w@[q as int]);
            return false;
        }
        q += 1;
    }
    true
}

/// Whether Rust's `f64` parser accepts `s`.
pub fn is_float_text(s: &Vec<u8>) -> (r: bool)
    ensures
        r == is_float_literal(s@),
{
    let n = s.len();
    let signed = n > 0 && (s[0] == 43 || s[0] == 45);
    let i0: usize = if signed {
        1
    } else {
        0
    };
    let d1 = digit_run_at(s, i0);
    let i1 = i0 + d1;
    let has_dot = i1 < n && s[i1] == 46;
    let d2 = if has_dot {
        digit_run_at(s, i1 + 1)
    } else {
        0
    };
    let i2 = if has_dot {
        i1 + 1 + d2
    } else {
        i1
    };
    let decimal = d1 + d2 > 0 && exponent_tail_at(s, i2);
    if decimal {
        return true;
    }
    proof {
        if signed {
            assert(s@.drop_first() =~= s@.subrange(1, n as int));
        } else {
            assert(s@ =~= s@.subrange(0, n as int));
        }
    }
    let w_nan: Vec<u8> = vec![110u8, 97, 110];
    let w_inf: Vec<u8> = vec![105u8, 110, 102];
    let w_infinity: Vec<u8> = vec![105u8, 110, 102, 105, 110, 105, 116, 121];
    assert(w_nan@ =~= word_nan());
    assert(w_inf@ =~= word_inf());
    assert(w_infinity@ =~= word_infinity());
    matches_word_at(s, i0, &w_nan) || matches_word_at(s, i0, &w_inf) || matches_word_at(
        s,
        i0,
        &w_infinity,
    )
}

/// The numeric text of the window `lo..hi` of `line`: trimmed, `D` read as
/// `E`, and `0` where that is no floating-point literal. A malformed or empty
/// field thus reads as zero instead of failing the record.
pub fn parse_float(line: &Vec<u8>, lo: usize, hi: usize) -> (r: Vec<u8>)
    requires
        lo <= hi,
    ensures
        r@ == numeral_of(window(line@, lo as int, hi as int)),
        is_float_literal(r@),
{
    let t = trimmed_window(line, lo, hi);
    let mut u: Vec<u8> = Vec::new();
    let mut k: usize = 0;
    while k < t.len()
        invariant
            0 <= k <= t.len(),
            u@ == replace_d(t@.subrange(0, k as int)),
        decreases t.len() - k,
    {
        let c = t[k];
        if c == 68 {
            u.push(69);
        } else {
            u.push(c);
        }
        assert(u@ =~= replace_d(t@.subrange(0, k + 1)));
        k += 1;
    }
    assert(t@.subrange(0, t.len() as int) =~= t@);
    if is_float_text(&u) {
        u
    } else {
        let z: Vec<u8> = vec![48u8];
        assert(z@ =~= zero_literal());
        assert(is_decimal_literal(z@)) by {
            assert(digit_run(z@, 1) == 0);
            assert(digit_run(z@, 0) == 1);
        }
        z
    }
}

/// The whitespace-separated words of `s`.
pub fn split_words(s: &Vec<u8>) -> (r: Vec<Vec<u8>>)
    ensures
        r@.map_values(|w: Vec<u8>| w@) == words(s@),
{
    let n = s.len();
    let mut out: Vec<Vec<u8>> = Vec::new();
    let mut i: usize = 0;
    while i < n
        invariant
            0 <= i <= n == s.len(),
            out@.map_values(|w: Vec<u8>| w@) + words_from(s@, i as int) == words(s@),
        decreases n - i,
    {
        if s[i] == 32 || (9 <= s[i] && s[i] <= 13) {
            i += 1;
        } else {
            let mut j = i + 1;
            while j < n && !(s[j] == 32 || (9 <= s[j] && s[j] <= 13))
                invariant
                    i < j <= n == s.len(),
                    word_run(s@, i + 1) == (j - (i + 1)) + word_run(s@, j as int),
                decreases n - j,
            {
                j += 1;
            }
            let w = copy_range(s, i, j);
            let ghost before = out@.map_values(|w: Vec<u8>| w@);
            assert(words_from(s@, i as int) == seq![s@.subrange(i as int, j as int)] + words_from(
                s@,
                j as int,
            ));
            out.push(w);
            assert(out@.map_values(|w: Vec<u8>| w@) =~= before.push(w@));
            assert(before.push(w@) + words_from(s@, j as int) =~= before + words_from(
                s@,
                i as int,
            ));
            i = j;
        }
    }
    assert(out@.map_values(|w: Vec<u8>| w@) + words_from(s@, n as int) =~= out@.map_values(
        |w: Vec<u8>| w@,
    ));
    out
}

/// A copy of `window(s, lo, hi)`.
pub fn window_copy(s: &Vec<u8>, lo: usize, hi: usize) -> (r: Vec<u8>)
    requires
        lo <= hi,
    ensures
        r@ == window(s@, lo as int, hi as int),
{
    let end = if hi > s.len() {
        s.len()
    } else {
        hi
    };
    let start = if lo > end {
        end
    } else {
        lo
    };
    assert(window(s@, lo as int, hi as int) =~= s@.subrange(start as int, end as int));
    copy_range(s, start, end)
}

proof fn lemma_trim_start_blank(s: Seq<u8>)
    requires
        forall|i: int| 0 <= i < s.len() ==> is_space(#[trigger] s[i]),
    ensures
        trim_start(s).len() == 0,
    decreases s.len(),
{
    if s.len() > 0 {
        let t = s.drop_first();
        assert forall|i: int| 0 <= i < t.len() implies is_space(#[trigger] t[i]) by {
            assert(t[i] == s[i + 1]);
        }
        lemma_trim_start_blank(t);
    }
}

/// A field of nothing but blanks reads as zero.
pub proof fn lemma_blank_field_is_zero(field: Seq<u8>)
    requires
        forall|i: int| 0 <= i < field.len() ==> is_space(#[trigger] field[i]),
    ensures
        numeral_of(field) == zero_literal(),
{
    lemma_trim_start_blank(field);
    let t = replace_d(trim(field));
    assert(t.len() == 0);
    assert(digit_run(t, 0) == 0);
    assert(!is_float_literal(t));
}

} // verus!
