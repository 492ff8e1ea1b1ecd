//! Classification of JSON number texts and an exact total order on
//! floating-shaped numbers.
//!
//! A number text is classified with `serde_json`, exactly as a consumer of
//! that crate sees it: an unsigned integer, a signed integer, or a
//! floating value. Floating values are kept in decimal form — sign,
//! significant digits and decimal exponent, plus the original text — so
//! the schema aggregator can take minima and maxima without any
//! floating-point arithmetic. The order on that form is numeric, with the
//! original text as a final tiebreak, which makes it a total order: that
//! totality is what makes schema aggregation order-independent.

use vstd::prelude::*;

verus! {

/// What a JSON number text denotes, as `serde_json` classifies it.
#[derive(Debug, Clone, PartialEq, Eq)]
pub enum NumClass {
    /// Fits in an unsigned 64-bit integer.
    Unsigned(u64),
    /// Negative, fits in a signed 64-bit integer.
    Signed(i64),
    /// A number, but neither of the above: a floating value.
    Floating,
    /// Not a JSON number at all.
    NotNumber,
}

/// The classification of a number text: a pure function of the text.
pub uninterp spec fn classify_number(s: Seq<char>) -> NumClass;

/// Relies on `serde_json::from_str::<Number>` and
/// `Number::{is_u64, as_u64, is_i64, as_i64}`: a JSON number without
/// fraction or exponent parses as `u64` when it fits, else as `i64` when
/// negative and it fits, else as a float; the outcome depends on the text
/// alone.
#[verifier::external_body]
pub fn classify(s: &str) -> (r: NumClass)
    ensures
        r == classify_number(s@),
{
    match s.parse::<serde_json::Number>() {
        Ok(n) if n.is_u64() => NumClass::Unsigned(n.as_u64().unwrap()),
        Ok(n) if n.is_i64() => NumClass::Signed(n.as_i64().unwrap()),
        Ok(_) => NumClass::Floating,
        Err(_) => NumClass::NotNumber,
    }
}

/// The saturation bound for decimal exponents: far beyond any exponent a
/// binary float could distinguish.
pub const EXP_SATURATION: i64 = 1_000_000_000_000_000_000;

/// The mathematical value of a parsed floating number: `0.digits × 10^exp`
/// with the given sign, or zero, or not-a-number. `text` is the source
/// text, kept for rendering and as the final tiebreak of the order.
#[verifier::ext_equal]
pub struct FloatView {
    pub nan: bool,
    pub neg: bool,
    pub zero: bool,
    pub exp: int,
    pub digits: Seq<u8>,
    pub text: Seq<char>,
}

/// A floating number in decimal form: significant digits (no leading or
/// trailing zeros) and a saturated decimal exponent, so that the value is
/// `0.digits × 10^exp` with the given sign.
#[derive(Debug, Clone, PartialEq, Eq)]
pub struct FloatVal {
    pub nan: bool,
    pub neg: bool,
    pub zero: bool,
    pub exp: i64,
    pub digits: Vec<u8>,
    pub text: String,
}

impl View for FloatVal {
    type V = FloatView;

    open spec fn view(&self) -> FloatView {
        FloatView {
            nan: self.nan,
            neg: self.neg,
            zero: self.zero,
            exp: self.exp as int,
            digits: self.digits@,
            text: self.text@,
        }
    }
}

impl FloatVal {
    /// An equal copy of this value.
    pub fn duplicate(&self) -> (r: FloatVal)
        ensures
            r@ == self@,
    {
        let mut digits: Vec<u8> = Vec::new();
        let mut i: usize = 0;
        while i < self.digits.len()
            invariant
                i <= self.digits@.len(),
                digits@ == self.digits@.subrange(0, i as int),
            decreases self.digits@.len() - i,
        {
            digits.push(self.digits[i]);
            i = i + 1;
            proof {
                assert(digits@ =~= self.digits@.subrange(0, i as int));
            }
        }
        proof {
            assert(self.digits@.subrange(0, self.digits@.len() as int) =~= self.digits@);
        }
        FloatVal {
            nan: self.nan,
            neg: self.neg,
            zero: self.zero,
            exp: self.exp,
            digits,
            text: self.text.clone(),
        }
    }
}


/// Whether a character is a decimal digit, as a value.
pub open spec fn is_digit_c(c: char) -> bool {
    48 <= c as u32 <= 57
}

/// The value of a digit character.
pub open spec fn digit_val_c(c: char) -> u8 {
    (c as u32 - 48) as u8
}

/// The first position at or after `i` that does not hold a digit.
pub open spec fn digit_end(s: Seq<char>, i: int) -> int
    decreases s.len() - i when 0 <= i <= s.len()
{
    if i < s.len() && is_digit_c(s[i]) {
        digit_end(s, i + 1)
    } else {
        i
    }
}

/// The digit values of a scanned range.
pub open spec fn digit_vals(s: Seq<char>, a: int, b: int) -> Seq<u8> {
    s.subrange(a, b).map_values(|c: char| digit_val_c(c))
}

/// The saturating value of an exponent's digits, leftmost first.
pub open spec fn sat_exp(ds: Seq<u8>) -> int
    decreases ds.len(),
{
    if ds.len() == 0 {
        0int
    } else {
        let p = sat_exp(ds.drop_last());
        if p <= 99_999_999_999_999_999int {
            p * 10 + ds.last()
        } else {
            EXP_SATURATION as int
        }
    }
}

/// The first index holding a nonzero digit, or the length when there is
/// none.
pub open spec fn first_nonzero(a: Seq<u8>) -> int
    decreases a.len(),
{
    if a.len() == 0 {
        0int
    } else if a.first() != 0 {
        0int
    } else {
        1 + first_nonzero(a.drop_first())
    }
}

/// The last index holding a nonzero digit.
pub open spec fn last_nonzero(a: Seq<u8>) -> int
    decreases a.len(),
{
    if a.len() == 0 {
        0int
    } else if a.last() != 0 {
        a.len() - 1
    } else {
        last_nonzero(a.drop_last())
    }
}

/// An exponent clamped into the saturation range.
pub open spec fn clamp_exp(wide: int) -> int {
    if wide > EXP_SATURATION as int {
        EXP_SATURATION as int
    } else if wide < -(EXP_SATURATION as int) {
        -(EXP_SATURATION as int)
    } else {
        wide
    }
}

/// The decimal meaning of a number text: the value `parse_float` returns.
/// The text scans as `-? digits (. digits)? ([eE] [+-]? digits)?`, all
/// parts optional but at least one significand digit and nothing left
/// over; anything else is not-a-number. The significand keeps its
/// significant digits only, and the value is `0.digits × 10^exp` with the
/// scanned sign.
pub open spec fn spec_parse_float(s: Seq<char>) -> FloatView {
    let n = s.len() as int;
    let neg = n > 0 && s[0] == '-';
    let start = if neg {
        1int
    } else {
        0int
    };
    let d1 = digit_end(s, start);
    let int_len = d1 - start;
    let has_dot = d1 < n && s[d1] == '.';
    let d2 = if has_dot {
        digit_end(s, d1 + 1)
    } else {
        d1
    };
    let all = digit_vals(s, start, d1) + (if has_dot {
        digit_vals(s, d1 + 1, d2)
    } else {
        Seq::<u8>::empty()
    });
    let saw = int_len > 0 || (has_dot && d2 > d1 + 1);
    let m_end = if has_dot {
        d2
    } else {
        d1
    };
    let has_e = m_end < n && (s[m_end] == 'e' || s[m_end] == 'E');
    let e2 = if has_e {
        if m_end + 1 < n && s[m_end + 1] == '+' {
            m_end + 2
        } else if m_end + 1 < n && s[m_end + 1] == '-' {
            m_end + 2
        } else {
            m_end + 1
        }
    } else {
        m_end
    };
    let exp_neg = has_e && m_end + 1 < n && s[m_end + 1] == '-';
    let e_end = if has_e {
        digit_end(s, e2)
    } else {
        m_end
    };
    let exp_mag = if has_e {
        sat_exp(digit_vals(s, e2, e_end))
    } else {
        0int
    };
    if !saw || e_end != n {
        FloatView { nan: true, neg: false, zero: false, exp: 0, digits: Seq::<u8>::empty(), text: s }
    } else {
        let fnz = first_nonzero(all);
        if fnz == all.len() {
            FloatView { nan: false, neg, zero: true, exp: 0, digits: Seq::<u8>::empty(), text: s }
        } else {
            let lnz = last_nonzero(all);
            let signed = if exp_neg {
                -exp_mag
            } else {
                exp_mag
            };
            FloatView {
                nan: false,
                neg,
                zero: false,
                exp: clamp_exp(int_len - fnz + signed),
                digits: all.subrange(fnz, lnz + 1),
                text: s,
            }
        }
    }
}

/// Whether a character is a decimal digit.
fn is_digit(c: char) -> (r: bool)
    ensures
        r == is_digit_c(c),
{
    let u = c as u32;
    48 <= u && u <= 57
}

/// The first index is where the zeros end.
proof fn lemma_first_nonzero_is(a: Seq<u8>, k: int)
    requires
        0 <= k <= a.len(),
        forall|j: int| 0 <= j < k ==> a[j] == 0,
        k < a.len() ==> a[k] != 0,
    ensures
        first_nonzero(a) == k,
    decreases k,
{
    if k == 0 {
    } else {
        lemma_first_nonzero_is(a.drop_first(), k - 1);
    }
}

/// The last index is where the zeros start.
proof fn lemma_last_nonzero_is(a: Seq<u8>, k: int)
    requires
        0 <= k < a.len(),
        a[k] != 0,
        forall|j: int| k < j < a.len() ==> a[j] == 0,
    ensures
        last_nonzero(a) == k,
    decreases a.len(),
{
    if k == a.len() - 1 {
    } else {
        lemma_last_nonzero_is(a.drop_last(), k);
    }
}

/// Parses a number text into its decimal meaning. Any text that does not
/// scan as a JSON number — the `NaN` sentinel included — becomes
/// not-a-number. The source text is kept verbatim.
#[verifier::loop_isolation(false)]
#[verifier::rlimit(100)]
#[verifier::spinoff_prover]
pub fn parse_float(s: &str) -> (r: FloatVal)
    ensures
        r@ == spec_parse_float(s@),
{
    let ghost sv = s@;
    let n = s.unicode_len();
    let mut i: usize = 0;
    let mut neg = false;
    if i < n && s.get_char(i) == '-' {
        neg = true;
        i = i + 1;
    }
    let ghost start = i as int;
    // integer digits
    let mut all: Vec<u8> = Vec::new();
    while i < n && is_digit(s.get_char(i))
        invariant
            start <= i as int <= n as int,
            n == sv.len(),
            digit_end(sv, start) == digit_end(sv, i as int),
            all@ == digit_vals(sv, start, i as int),
        decreases n - i,
    {
        all.push((s.get_char(i) as u32 - 48) as u8);
        i = i + 1;
        proof {
            assert(all@ =~= digit_vals(sv, start, i as int));
        }
    }
    proof {
        assert(digit_end(sv, i as int) == i as int);
    }
    let ghost d1 = i as int;
    let int_len = all.len();
    let ghost has_dot = d1 < sv.len() && sv[d1] == '.';
    if i < n && s.get_char(i) == '.' {
        i = i + 1;
        while i < n && is_digit(s.get_char(i))
            invariant
                d1 + 1 <= i as int <= n as int,
                n == sv.len(),
                digit_end(sv, d1 + 1) == digit_end(sv, i as int),
                all@ == digit_vals(sv, start, d1) + digit_vals(sv, d1 + 1, i as int),
            decreases n - i,
        {
            all.push((s.get_char(i) as u32 - 48) as u8);
            i = i + 1;
            proof {
                assert(all@ =~= digit_vals(sv, start, d1) + digit_vals(sv, d1 + 1, i as int));
            }
        }
        proof {
            assert(digit_end(sv, i as int) == i as int);
        }
    } else {
        proof {
            assert(all@ =~= digit_vals(sv, start, d1) + Seq::<u8>::empty());
        }
    }
    let ghost d2 = if has_dot {
        digit_end(sv, d1 + 1)
    } else {
        d1
    };
    let ghost m_end = if has_dot {
        d2
    } else {
        d1
    };
    // exponent
    let mut exp_val: i64 = 0;
    let mut exp_neg = false;
    if i < n && (s.get_char(i) == 'e' || s.get_char(i) == 'E') {
        i = i + 1;
        if i < n && s.get_char(i) == '+' {
            i = i + 1;
        } else if i < n && s.get_char(i) == '-' {
            exp_neg = true;
            i = i + 1;
        }
        let ghost e2 = i as int;
        proof {
            assert(digit_vals(sv, e2, e2) =~= Seq::<u8>::empty());
        }
        while i < n && is_digit(s.get_char(i))
            invariant
                e2 <= i as int <= n as int,
                n == sv.len(),
                digit_end(sv, e2) == digit_end(sv, i as int),
                exp_val as int == sat_exp(digit_vals(sv, e2, i as int)),
                0 <= exp_val <= EXP_SATURATION,
            decreases n - i,
        {
            let d = (s.get_char(i) as u32 - 48) as i64;
            if exp_val <= 99_999_999_999_999_999 {
                exp_val = exp_val * 10 + d;
            } else {
                exp_val = EXP_SATURATION;
            }
            i = i + 1;
            proof {
                let cur = digit_vals(sv, e2, i as int);
                assert(cur.drop_last() =~= digit_vals(sv, e2, i - 1));
                assert(cur.last() == digit_val_c(sv[i - 1]));
            }
        }
        proof {
            assert(digit_end(sv, i as int) == i as int);
        }
    }
    if all.len() == 0 || i < n {
        // not a number: nothing scanned, or trailing garbage
        return FloatVal {
            nan: true,
            neg: false,
            zero: false,
            exp: 0,
            digits: Vec::new(),
            text: s.to_owned(),
        };
    }
    // strip leading and trailing zeros of the significand
    let mut first_nz: usize = 0;
    while first_nz < all.len() && all[first_nz] == 0
        invariant
            first_nz <= all@.len(),
            forall|j: int| 0 <= j < first_nz ==> all@[j] == 0,
        decreases all@.len() - first_nz,
    {
        first_nz = first_nz + 1;
    }
    proof {
        lemma_first_nonzero_is(all@, first_nz as int);
    }
    if first_nz == all.len() {
        // every digit is zero
        return FloatVal {
            nan: false,
            neg,
            zero: true,
            exp: 0,
            digits: Vec::new(),
            text: s.to_owned(),
        };
    }
    let mut last_nz: usize = all.len() - 1;
    while last_nz > first_nz && all[last_nz] == 0
        invariant
            first_nz <= last_nz < all@.len(),
            all@.len() <= usize::MAX,
            forall|j: int| last_nz < j < all@.len() ==> all@[j] == 0,
        decreases last_nz,
    {
        last_nz = last_nz - 1;
    }
    proof {
        lemma_last_nonzero_is(all@, last_nz as int);
    }
    let mut digits: Vec<u8> = Vec::new();
    let mut k: usize = first_nz;
    while k <= last_nz
        invariant
            first_nz <= k <= last_nz + 1,
            last_nz < all@.len(),
            all@.len() <= usize::MAX,
            digits@ == all@.subrange(first_nz as int, k as int),
        decreases last_nz + 1 - k,
    {
        digits.push(all[k]);
        k = k + 1;
        proof {
            assert(digits@ =~= all@.subrange(first_nz as int, k as int));
        }
    }
    // value = 0.digits * 10^(int_len - first_nz + signed exponent)
    let signed_exp: i128 = if exp_neg {
        -(exp_val as i128)
    } else {
        exp_val as i128
    };
    let wide: i128 = int_len as i128 - first_nz as i128 + signed_exp;
    let exp: i64 = if wide > EXP_SATURATION as i128 {
        EXP_SATURATION
    } else if wide < -(EXP_SATURATION as i128) {
        -EXP_SATURATION
    } else {
        wide as i64
    };
    let r = FloatVal { nan: false, neg, zero: false, exp, digits, text: s.to_owned() };
    proof {
        assert(r@ =~= spec_parse_float(sv));
    }
    r
}

/// Three-way lexicographic comparison of integer sequences; a proper
/// prefix comes first.
pub open spec fn seq_cmp(a: Seq<int>, b: Seq<int>) -> int
    decreases a.len(),
{
    if a.len() == 0 && b.len() == 0 {
        0int
    } else if a.len() == 0 {
        -1int
    } else if b.len() == 0 {
        1int
    } else if a.first() < b.first() {
        -1int
    } else if a.first() > b.first() {
        1int
    } else {
        seq_cmp(a.drop_first(), b.drop_first())
    }
}

/// Sequences that compare equal are equal.
pub proof fn lemma_seq_cmp_zero(a: Seq<int>, b: Seq<int>)
    requires
        seq_cmp(a, b) == 0,
    ensures
        a == b,
    decreases a.len(),
{
    if a.len() == 0 {
        assert(a =~= b);
    } else {
        lemma_seq_cmp_zero(a.drop_first(), b.drop_first());
        assert forall|i: int| 0 <= i < a.len() implies a[i] == b[i] by {
            if i > 0 {
                assert(a.drop_first()[i - 1] == b.drop_first()[i - 1]);
            }
        }
        assert(a =~= b);
    }
}

/// Comparison is antisymmetric: swapping the arguments negates it.
pub proof fn lemma_seq_cmp_flip(a: Seq<int>, b: Seq<int>)
    ensures
        seq_cmp(a, b) == -seq_cmp(b, a),
    decreases a.len(),
{
    if a.len() > 0 && b.len() > 0 && a.first() == b.first() {
        lemma_seq_cmp_flip(a.drop_first(), b.drop_first());
    }
}

/// Comparison is transitive.
pub proof fn lemma_seq_cmp_trans(a: Seq<int>, b: Seq<int>, c: Seq<int>)
    requires
        seq_cmp(a, b) <= 0,
        seq_cmp(b, c) <= 0,
    ensures
        seq_cmp(a, c) <= 0,
    decreases a.len(),
{
    if a.len() > 0 && b.len() > 0 && c.len() > 0 && a.first() == b.first() && b.first()
        == c.first() {
        lemma_seq_cmp_trans(a.drop_first(), b.drop_first(), c.drop_first());
    }
}

/// One of two integers, as an order key component.
pub open spec fn b2i(b: bool) -> int {
    if b {
        1int
    } else {
        0int
    }
}

/// The order class of a floating value: negative numbers come first, then
/// zero, then positive numbers, then not-a-number.
pub open spec fn fclass(x: FloatView) -> int {
    if x.nan {
        3int
    } else if x.zero {
        1int
    } else if x.neg {
        0int
    } else {
        2int
    }
}

/// The tiebreak tail of an order key: the sign and zero flags and the
/// code points of the source text.
pub open spec fn key_tail(x: FloatView) -> Seq<int> {
    seq![b2i(x.neg), b2i(x.zero)] + x.text.map_values(|c: char| c as int)
}

/// The order key of a floating value. Keys compare lexicographically in
/// numeric order: by class, then by exponent and significant digits —
/// both negated for negative numbers, so that a larger magnitude comes
/// first — and at last by the flags and the source text, which makes the
/// order total.
///
/// The digit segment is closed by a terminator outside the digit range
/// (`-1` after plain digits, `1` after negated ones), so that a shorter
/// significand compares as a smaller magnitude and keys decompose
/// unambiguously.
pub open spec fn float_key(x: FloatView) -> Seq<int> {
    if fclass(x) == 2 {
        seq![2int, x.exp] + x.digits.map_values(|d: u8| d as int) + seq![-1int] + key_tail(x)
    } else if fclass(x) == 0 {
        seq![0int, -x.exp] + x.digits.map_values(|d: u8| -(d as int)) + seq![1int] + key_tail(x)
    } else {
        seq![fclass(x), x.exp] + x.digits.map_values(|d: u8| d as int) + seq![-1int] + key_tail(x)
    }
}

/// The canonical total order on floating values.
pub open spec fn fle(x: FloatView, y: FloatView) -> bool {
    seq_cmp(float_key(x), float_key(y)) <= 0
}

/// Values with equal keys are equal: the key holds every field of the
/// value, each segment closed unambiguously.
pub proof fn lemma_float_key_injective(x: FloatView, y: FloatView)
    requires
        float_key(x) == float_key(y),
    ensures
        x == y,
{
    let kx = float_key(x);
    let ky = float_key(y);
    assert(kx[0] == fclass(x));
    assert(ky[0] == fclass(y));
    let dx = x.digits.len() as int;
    let dy = y.digits.len() as int;
    // the digit segments have the same length: the key element right
    // after the shorter segment would be a terminator on one side and a
    // mapped digit on the other, and those ranges do not meet
    if fclass(x) == 0 {
        assert(kx[2 + dx] == 1int);
        assert(ky[2 + dy] == 1int);
        assert(forall|i: int| 0 <= i < dx ==> kx[2 + i] == -(x.digits[i] as int));
        assert(forall|i: int| 0 <= i < dy ==> ky[2 + i] == -(y.digits[i] as int));
        if dx < dy {
            assert(kx[2 + dx] == ky[2 + dx]);
        } else if dy < dx {
            assert(kx[2 + dy] == ky[2 + dy]);
        }
        assert(dx == dy);
        assert(x.exp == -ky[1] && y.exp == -ky[1]);
        assert forall|i: int| 0 <= i < dx implies x.digits[i] == y.digits[i] by {
            assert(kx[2 + i] == ky[2 + i]);
        }
        assert(x.digits =~= y.digits);
    } else {
        assert(kx[2 + dx] == -1int);
        assert(ky[2 + dy] == -1int);
        assert(forall|i: int| 0 <= i < dx ==> kx[2 + i] == x.digits[i] as int);
        assert(forall|i: int| 0 <= i < dy ==> ky[2 + i] == y.digits[i] as int);
        if dx < dy {
            assert(kx[2 + dx] == ky[2 + dx]);
        } else if dy < dx {
            assert(kx[2 + dy] == ky[2 + dy]);
        }
        assert(dx == dy);
        assert(x.exp == ky[1] && y.exp == ky[1]);
        assert forall|i: int| 0 <= i < dx implies x.digits[i] == y.digits[i] by {
            assert(kx[2 + i] == ky[2 + i]);
        }
        assert(x.digits =~= y.digits);
    }
    // the tails align, so the flags and the text agree
    lemma_float_key_index(x);
    lemma_float_key_index(y);
    assert(b2i(x.neg) == b2i(y.neg));
    assert(b2i(x.zero) == b2i(y.zero));
    assert(kx.len() == ky.len());
    assert(x.text.len() == y.text.len());
    assert forall|i: int| 0 <= i < x.text.len() implies x.text[i] == y.text[i] by {
        assert(kx[5 + dx + i] == x.text[i] as int);
        assert(ky[5 + dx + i] == y.text[i] as int);
    }
    assert(x.text =~= y.text);
    assert(fclass(x) == fclass(y));
    assert(x.nan == y.nan);
    assert(x =~= y);
}

/// The order is total: any two values compare one way or the other.
pub proof fn lemma_fle_total(x: FloatView, y: FloatView)
    ensures
        fle(x, y) || fle(y, x),
        fle(x, y) && fle(y, x) ==> x == y,
        fle(x, x),
{
    lemma_seq_cmp_flip(float_key(x), float_key(y));
    if seq_cmp(float_key(x), float_key(y)) == 0 {
        lemma_seq_cmp_zero(float_key(x), float_key(y));
        lemma_float_key_injective(x, y);
    }
    lemma_seq_cmp_flip(float_key(x), float_key(x));
}

/// The order is transitive.
pub proof fn lemma_fle_trans(x: FloatView, y: FloatView, z: FloatView)
    requires
        fle(x, y),
        fle(y, z),
    ensures
        fle(x, z),
{
    lemma_seq_cmp_trans(float_key(x), float_key(y), float_key(z));
}

/// The smaller of two floating values; not-a-number loses to any number.
pub open spec fn float_min(x: FloatView, y: FloatView) -> FloatView {
    if x.nan && y.nan {
        if fle(x, y) {
            x
        } else {
            y
        }
    } else if x.nan {
        y
    } else if y.nan {
        x
    } else if fle(x, y) {
        x
    } else {
        y
    }
}

/// The greater of two floating values; not-a-number loses to any number.
pub open spec fn float_max(x: FloatView, y: FloatView) -> FloatView {
    if x.nan && y.nan {
        if fle(x, y) {
            y
        } else {
            x
        }
    } else if x.nan {
        y
    } else if y.nan {
        x
    } else if fle(x, y) {
        y
    } else {
        x
    }
}

/// Minimum and maximum are commutative.
pub proof fn lemma_float_minmax_comm(x: FloatView, y: FloatView)
    ensures
        float_min(x, y) == float_min(y, x),
        float_max(x, y) == float_max(y, x),
{
    lemma_fle_total(x, y);
}

/// Minimum and maximum are associative.
pub proof fn lemma_float_minmax_assoc(x: FloatView, y: FloatView, z: FloatView)
    ensures
        float_min(float_min(x, y), z) == float_min(x, float_min(y, z)),
        float_max(float_max(x, y), z) == float_max(x, float_max(y, z)),
{
    lemma_fle_total(x, y);
    lemma_fle_total(y, z);
    lemma_fle_total(x, z);
    if fle(x, y) && fle(y, z) {
        lemma_fle_trans(x, y, z);
    }
    if fle(z, y) && fle(y, x) {
        lemma_fle_trans(z, y, x);
    }
}

/// Compares two floating values in the canonical order.
#[verifier::loop_isolation(false)]
pub fn float_le(a: &FloatVal, b: &FloatVal) -> (r: bool)
    ensures
        r == fle(a@, b@),
{
    let ka: Vec<i128> = build_key(a);
    let kb: Vec<i128> = build_key(b);
    let mut i: usize = 0;
    proof {
        assert(wide_ints(ka@).skip(0) =~= wide_ints(ka@));
        assert(wide_ints(kb@).skip(0) =~= wide_ints(kb@));
    }
    loop
        invariant
            i <= ka@.len(),
            i <= kb@.len(),
            seq_cmp(wide_ints(ka@), wide_ints(kb@)) == seq_cmp(
                wide_ints(ka@).skip(i as int),
                wide_ints(kb@).skip(i as int),
            ),
        decreases ka@.len() - i,
    {
        proof {
            lemma_skip_unfold(wide_ints(ka@), wide_ints(kb@), i as int);
        }
        if i == ka.len() && i == kb.len() {
            return true;
        }
        if i == ka.len() {
            return true;
        }
        if i == kb.len() {
            return false;
        }
        if ka[i] < kb[i] {
            return true;
        }
        if ka[i] > kb[i] {
            return false;
        }
        i = i + 1;
    }
}

/// The mathematical value of an order key held in wide components.
pub open spec fn wide_ints(s: Seq<i128>) -> Seq<int> {
    s.map_values(|v: i128| v as int)
}

/// One comparison step: equal heads reduce the comparison to the tails.
proof fn lemma_skip_unfold(a: Seq<int>, b: Seq<int>, i: int)
    requires
        0 <= i <= a.len(),
        0 <= i <= b.len(),
    ensures
        i < a.len() && i < b.len() && a[i] == b[i] ==> seq_cmp(a.skip(i), b.skip(i)) == seq_cmp(
            a.skip(i + 1),
            b.skip(i + 1),
        ),
        i < a.len() && i < b.len() && a[i] < b[i] ==> seq_cmp(a.skip(i), b.skip(i)) == -1,
        i < a.len() && i < b.len() && a[i] > b[i] ==> seq_cmp(a.skip(i), b.skip(i)) == 1,
        i == a.len() && i == b.len() ==> seq_cmp(a.skip(i), b.skip(i)) == 0,
        i == a.len() && i < b.len() ==> seq_cmp(a.skip(i), b.skip(i)) == -1,
        i == b.len() && i < a.len() ==> seq_cmp(a.skip(i), b.skip(i)) == 1,
{
    if i < a.len() && i < b.len() {
        assert(a.skip(i).first() == a[i]);
        assert(b.skip(i).first() == b[i]);
        assert(a.skip(i).drop_first() =~= a.skip(i + 1));
        assert(b.skip(i).drop_first() =~= b.skip(i + 1));
    }
}

/// The elements of an order key, spelled out by position.
pub proof fn lemma_float_key_index(x: FloatView)
    ensures
        ({
            let k = float_key(x);
            let d = x.digits.len() as int;
            &&& k.len() == 5 + d + x.text.len()
            &&& k[0] == fclass(x)
            &&& k[1] == (if fclass(x) == 0 { -x.exp } else { x.exp })
            &&& forall|j: int|
                0 <= j < d ==> k[2 + j] == (if fclass(x) == 0 {
                    -(x.digits[j] as int)
                } else {
                    x.digits[j] as int
                })
            &&& k[2 + d] == (if fclass(x) == 0 { 1int } else { -1int })
            &&& k[3 + d] == b2i(x.neg)
            &&& k[4 + d] == b2i(x.zero)
            &&& forall|j: int| 0 <= j < x.text.len() ==> k[5 + d + j] == x.text[j] as int
        }),
{
}

/// Builds the order key of a floating value.
fn build_key(x: &FloatVal) -> (r: Vec<i128>)
    ensures
        wide_ints(r@) == float_key(x@),
{
    proof {
        lemma_float_key_index(x@);
    }
    let ghost d = x.digits@.len() as int;
    let mut key: Vec<i128> = Vec::new();
    let cls: i128 = if x.nan {
        3
    } else if x.zero {
        1
    } else if x.neg {
        0
    } else {
        2
    };
    key.push(cls);
    if cls == 0 {
        key.push(-(x.exp as i128));
    } else {
        key.push(x.exp as i128);
    }
    let mut i: usize = 0;
    while i < x.digits.len()
        invariant
            i <= x.digits@.len(),
            key@.len() == 2 + i,
            cls as int == fclass(x@),
            key@[0] as int == fclass(x@),
            key@[1] as int == (if fclass(x@) == 0 {
                -x@.exp
            } else {
                x@.exp
            }),
            forall|j: int|
                0 <= j < i ==> key@[2 + j] as int == (if fclass(x@) == 0 {
                    -(x.digits@[j] as int)
                } else {
                    x.digits@[j] as int
                }),
        decreases x.digits@.len() - i,
    {
        if cls == 0 {
            key.push(-(x.digits[i] as i128));
        } else {
            key.push(x.digits[i] as i128);
        }
        i = i + 1;
    }
    if cls == 0 {
        key.push(1);
    } else {
        key.push(-1);
    }
    key.push(if x.neg {
        1
    } else {
        0
    });
    key.push(if x.zero {
        1
    } else {
        0
    });
    let ghost mid = key@;
    proof {
        assert(mid.len() == 5 + d);
        assert(mid[0] as int == fclass(x@));
        assert(mid[1] as int == (if fclass(x@) == 0 {
            -x@.exp
        } else {
            x@.exp
        }));
        assert(forall|j: int|
            0 <= j < d ==> mid[2 + j] as int == (if fclass(x@) == 0 {
                -(x.digits@[j] as int)
            } else {
                x.digits@[j] as int
            }));
        assert(mid[2 + d] as int == (if fclass(x@) == 0 {
            1int
        } else {
            -1int
        }));
        assert(mid[3 + d] as int == b2i(x@.neg));
        assert(mid[4 + d] as int == b2i(x@.zero));
    }
    let n = x.text.unicode_len();
    let mut k: usize = 0;
    while k < n
        invariant
            k <= n,
            n == x.text@.len(),
            key@.len() == mid.len() + k,
            key@.subrange(0, mid.len() as int) == mid,
            forall|j: int| 0 <= j < k ==> key@[mid.len() + j] as int == x.text@[j] as int,
        decreases n - k,
    {
        let c = x.text.as_str().get_char(k);
        key.push(c as i128);
        k = k + 1;
        proof {
            assert(key@.subrange(0, mid.len() as int) =~= mid);
        }
    }
    proof {
        let fk = float_key(x@);
        assert forall|j: int| 0 <= j < mid.len() implies key@[j] == mid[j] by {
            assert(key@.subrange(0, mid.len() as int)[j] == mid[j]);
        }
        assert(key@.len() == 5 + d + x.text@.len());
        assert forall|j: int| 0 <= j < key@.len() implies key@[j] as int == fk[j] by {
            if j >= mid.len() {
                assert(key@[mid.len() + (j - mid.len())] as int == x.text@[j - mid.len()] as int);
                assert(fk[5 + d + (j - mid.len())] == x.text@[j - mid.len()] as int);
            }
        }
        assert(wide_ints(key@) =~= fk);
    }
    key
}

/// The smaller of two floating values, as a new value.
pub fn float_min_val(a: &FloatVal, b: &FloatVal) -> (r: FloatVal)
    ensures
        r@ == float_min(a@, b@),
{
    if a.nan && b.nan {
        if float_le(a, b) {
            a.duplicate()
        } else {
            b.duplicate()
        }
    } else if a.nan {
        b.duplicate()
    } else if b.nan {
        a.duplicate()
    } else if float_le(a, b) {
        a.duplicate()
    } else {
        b.duplicate()
    }
}

/// The greater of two floating values, as a new value.
pub fn float_max_val(a: &FloatVal, b: &FloatVal) -> (r: FloatVal)
    ensures
        r@ == float_max(a@, b@),
{
    if a.nan && b.nan {
        if float_le(a, b) {
            b.duplicate()
        } else {
            a.duplicate()
        }
    } else if a.nan {
        b.duplicate()
    } else if b.nan {
        a.duplicate()
    } else if float_le(a, b) {
        b.duplicate()
    } else {
        a.duplicate()
    }
}

/// The code points of a text, as an order key.
pub open spec fn text_ints(s: Seq<char>) -> Seq<int> {
    s.map_values(|c: char| c as int)
}

/// The lexicographic order on texts, by code point; a prefix comes first.
pub open spec fn str_le(a: Seq<char>, b: Seq<char>) -> bool {
    seq_cmp(text_ints(a), text_ints(b)) <= 0
}

/// Texts with equal code points are equal.
pub proof fn lemma_text_ints_injective(a: Seq<char>, b: Seq<char>)
    requires
        text_ints(a) == text_ints(b),
    ensures
        a == b,
{
    assert(a.len() == text_ints(a).len());
    assert(b.len() == text_ints(b).len());
    assert forall|i: int| 0 <= i < a.len() implies a[i] == b[i] by {
        assert(text_ints(a)[i] == a[i] as int);
        assert(text_ints(b)[i] == b[i] as int);
    }
    assert(a =~= b);
}

/// The lexicographic order is total, antisymmetric and transitive.
pub proof fn lemma_str_le_total(a: Seq<char>, b: Seq<char>)
    ensures
        str_le(a, b) || str_le(b, a),
        str_le(a, b) && str_le(b, a) ==> a == b,
        str_le(a, a),
{
    lemma_seq_cmp_flip(text_ints(a), text_ints(b));
    if seq_cmp(text_ints(a), text_ints(b)) == 0 {
        lemma_seq_cmp_zero(text_ints(a), text_ints(b));
        lemma_text_ints_injective(a, b);
    }
    lemma_seq_cmp_flip(text_ints(a), text_ints(a));
}

/// Transitivity of the lexicographic order on texts.
pub proof fn lemma_str_le_trans(a: Seq<char>, b: Seq<char>, c: Seq<char>)
    requires
        str_le(a, b),
        str_le(b, c),
    ensures
        str_le(a, c),
{
    lemma_seq_cmp_trans(text_ints(a), text_ints(b), text_ints(c));
}

/// Compares two texts lexicographically by code point.
#[verifier::loop_isolation(false)]
pub fn text_le(a: &str, b: &str) -> (r: bool)
    ensures
        r == str_le(a@, b@),
{
    let na = a.unicode_len();
    let nb = b.unicode_len();
    let mut i: usize = 0;
    proof {
        assert(text_ints(a@).skip(0) =~= text_ints(a@));
        assert(text_ints(b@).skip(0) =~= text_ints(b@));
    }
    loop
        invariant
            i <= na,
            i <= nb,
            seq_cmp(text_ints(a@), text_ints(b@)) == seq_cmp(
                text_ints(a@).skip(i as int),
                text_ints(b@).skip(i as int),
            ),
        decreases na - i,
    {
        proof {
            lemma_skip_unfold(text_ints(a@), text_ints(b@), i as int);
        }
        if i == na && i == nb {
            return true;
        }
        if i == na {
            return true;
        }
        if i == nb {
            return false;
        }
        let ca = a.get_char(i) as u32;
        let cb = b.get_char(i) as u32;
        if ca < cb {
            return true;
        }
        if ca > cb {
            return false;
        }
        i = i + 1;
    }
}

} // verus!
