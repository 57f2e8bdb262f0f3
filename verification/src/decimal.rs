use vstd::prelude::*;
use crate::text::string_of_range;
use bigdecimal::BigDecimal;
use num_bigint::{BigInt, Sign};
use std::str::FromStr;

verus! {

/// An arbitrary-precision decimal number `mantissa * 10^(-scale)`, held as
/// plain values: a sign, the magnitude of the mantissa in base 2^32 (least
/// significant limb first) and the scale.
#[derive(Clone, Debug)]
pub struct Decimal {
    pub(crate) negative: bool,
    pub(crate) limbs: Vec<u32>,
    pub(crate) scale: i64,
}

/// 10 to the power `n`.
pub open spec fn ten_pow(n: nat) -> int
    decreases n,
{
    if n == 0 {
        1
    } else {
        10 * ten_pow((n - 1) as nat)
    }
}

/// The number held by base-2^32 limbs, least significant first.
pub open spec fn limbs_value(limbs: Seq<u32>) -> nat
    decreases limbs.len(),
{
    if limbs.len() == 0 {
        0
    } else {
        (limbs[0] as nat + 0x1_0000_0000 * limbs_value(limbs.drop_first())) as nat
    }
}

impl View for Decimal {
    /// The signed mantissa and the scale.
    type V = (int, int);

    closed spec fn view(&self) -> (int, int) {
        (
            if self.negative {
                -(limbs_value(self.limbs@) as int)
            } else {
                limbs_value(self.limbs@) as int
            },
            self.scale as int,
        )
    }
}

/// Whether `x` is a value of `i64`.
pub open spec fn fits_i64(x: int) -> bool {
    i64::MIN <= x <= i64::MAX
}

/// `d` rescaled to the larger scale `s`: the mantissa times `10^(s - d.1)`.
pub open spec fn rescaled(d: (int, int), s: int) -> int {
    d.0 * ten_pow((s - d.1) as nat)
}

/// The larger of two scales.
pub open spec fn max_scale(a: (int, int), b: (int, int)) -> int {
    if a.1 >= b.1 {
        a.1
    } else {
        b.1
    }
}

/// Exact sum, at the larger of the two scales.
pub open spec fn decimal_sum(a: (int, int), b: (int, int)) -> (int, int) {
    let s = max_scale(a, b);
    (rescaled(a, s) + rescaled(b, s), s)
}

/// Exact difference, at the larger of the two scales.
pub open spec fn decimal_difference(a: (int, int), b: (int, int)) -> (int, int) {
    let s = max_scale(a, b);
    (rescaled(a, s) - rescaled(b, s), s)
}

/// Whether `d` equals one.
pub open spec fn is_one(d: (int, int)) -> bool {
    d.1 >= 0 && d.0 == ten_pow(d.1 as nat)
}

/// The product: a factor equal to one returns the other factor as it is;
/// otherwise mantissas multiply and scales add.
pub open spec fn decimal_product(a: (int, int), b: (int, int)) -> (int, int) {
    if is_one(a) {
        b
    } else if is_one(b) {
        a
    } else {
        (a.0 * b.0, a.1 + b.1)
    }
}

/// Whether `BigDecimal`'s addition or subtraction overflows its scale
/// arithmetic: the operand of smaller scale is non-zero and is rescaled to
/// a scale whose difference to its own leaves `i64`.
pub open spec fn sum_overflows(a: (int, int), b: (int, int)) -> bool {
    if a.1 < b.1 {
        a.0 != 0 && !fits_i64(b.1 - a.1)
    } else if b.1 < a.1 {
        b.0 != 0 && !fits_i64(a.1 - b.1)
    } else {
        false
    }
}

/// Whether `BigDecimal`'s multiplication overflows its scale arithmetic:
/// comparing a factor of scale `i64::MIN` with one negates that scale, and
/// two factors that are not one add their scales.
pub open spec fn product_overflows(a: (int, int), b: (int, int)) -> bool {
    a.1 == i64::MIN || (!is_one(a) && (b.1 == i64::MIN || (!is_one(b) && !fits_i64(a.1 + b.1))))
}

/// The quotient that `BigDecimal`'s division computes: a long division to
/// 100 significant digits, rounded, whose scale starts at the difference of
/// the operands' scales and grows by one per digit shifted or produced.
pub uninterp spec fn decimal_quotient(a: (int, int), b: (int, int)) -> (int, int);

/// What `BigDecimal`'s division gives for a non-zero divisor, or `None`
/// where its scale arithmetic overflows: a zero dividend or a divisor of one
/// gives the dividend; a divisor of scale `i64::MIN` overflows when it is
/// compared with one; otherwise the scales' difference, and the scale of
/// the quotient (that difference plus the scale of the mantissas'
/// quotient), must lie in `i64`.
pub open spec fn quotient_result(a: (int, int), b: (int, int)) -> Option<(int, int)> {
    if a.0 == 0 {
        Some(a)
    } else if b.1 == i64::MIN {
        None
    } else if is_one(b) {
        Some(a)
    } else if !fits_i64(a.1 - b.1) {
        None
    } else if !fits_i64(decimal_quotient((a.0, 0int), (b.0, 0int)).1 + a.1 - b.1) {
        None
    } else {
        Some(decimal_quotient(a, b))
    }
}

/// The number that `BigDecimal::from_str` reads from a text, if it reads one.
pub uninterp spec fn decimal_parse(s: Seq<char>) -> Option<(int, int)>;

// ---------------------------------------------------------------------------
// Decimal literals: `[+-]?[0-9]+(\.[0-9]*)?([eE][+-]?[0-9]+)?`

pub open spec fn is_digit(c: char) -> bool {
    '0' <= c && c <= '9'
}

/// The end of the run of digits that starts at `i`.
pub open spec fn digits_end(s: Seq<char>, i: int) -> int
    decreases s.len() - i,
{
    if 0 <= i < s.len() && is_digit(s[i]) {
        digits_end(s, i + 1)
    } else {
        i
    }
}

/// The position after an optional sign at `i`.
pub open spec fn after_sign(s: Seq<char>, i: int) -> int {
    if 0 <= i < s.len() && (s[i] == '+' || s[i] == '-') {
        i + 1
    } else {
        i
    }
}

/// The end of an integer (optional sign, one or more digits) starting at `i`.
pub open spec fn int_end(s: Seq<char>, i: int) -> Option<int> {
    let j = after_sign(s, i);
    let k = digits_end(s, j);
    if k > j {
        Some(k)
    } else {
        None
    }
}

/// The end of the fraction part (a dot and digits) that may follow position `j`.
pub open spec fn fraction_end(s: Seq<char>, j: int) -> int {
    if 0 <= j < s.len() && s[j] == '.' {
        digits_end(s, j + 1)
    } else {
        j
    }
}

/// The end of the exponent part (`e` or `E` and an integer) that may follow position `k`.
pub open spec fn exponent_end(s: Seq<char>, k: int) -> int {
    if 0 <= k < s.len() && (s[k] == 'e' || s[k] == 'E') {
        match int_end(s, k + 1) {
            Some(e) => e,
            None => k,
        }
    } else {
        k
    }
}

/// The end of the longest decimal number that starts at `i`, if one does.
pub open spec fn num_end(s: Seq<char>, i: int) -> Option<int> {
    match int_end(s, i) {
        None => None,
        Some(j) => Some(exponent_end(s, fraction_end(s, j))),
    }
}

/// Whether `s` is exactly one decimal number.
pub open spec fn is_num_literal(s: Seq<char>) -> bool {
    num_end(s, 0) == Some(s.len() as int)
}

/// The value of a run of decimal digits.
pub open spec fn digits_value(d: Seq<char>) -> nat
    decreases d.len(),
{
    if d.len() == 0 {
        0
    } else {
        (digits_value(d.drop_last()) * 10 + (d.last() as int - '0' as int)) as nat
    }
}

/// An optionally signed integer written in decimal.
pub open spec fn signed_value(s: Seq<char>) -> int {
    let j = after_sign(s, 0);
    let v = digits_value(s.subrange(j, s.len() as int)) as int;
    if j == 1 && s[0] == '-' {
        -v
    } else {
        v
    }
}

/// Where the fraction digits of a literal start and end; its exponent part,
/// if any, starts where the fraction ends.
pub open spec fn fraction_span(s: Seq<char>) -> (int, int) {
    let j = digits_end(s, after_sign(s, 0));
    let k = fraction_end(s, j);
    (if k > j { j + 1 } else { j }, k)
}

/// The mantissa and scale that a decimal literal denotes: its sign and
/// digits (integer and fraction digits run together), and the number of
/// fraction digits minus the exponent.
pub open spec fn literal_value(s: Seq<char>) -> (int, int) {
    let j = digits_end(s, after_sign(s, 0));
    let (fs, fe) = fraction_span(s);
    let digits = s.subrange(0, j) + s.subrange(fs, fe);
    let exp = if fe < s.len() {
        signed_value(s.subrange(fe + 1, s.len() as int))
    } else {
        0
    };
    (signed_value(digits), (fe - fs) - exp)
}

/// Where the exponent field of a text starts: after the first `e` or `E`.
pub open spec fn first_exponent_mark(s: Seq<char>, i: int) -> int
    decreases s.len() - i,
{
    if i < 0 || i >= s.len() {
        s.len() as int
    } else if s[i] == 'e' || s[i] == 'E' {
        i
    } else {
        first_exponent_mark(s, i + 1)
    }
}

/// The first position at or after `i` that holds a `.`, or the length.
pub open spec fn first_dot(s: Seq<char>, i: int) -> int
    decreases s.len() - i,
{
    if i < 0 || i >= s.len() {
        s.len() as int
    } else if s[i] == '.' {
        i
    } else {
        first_dot(s, i + 1)
    }
}

/// The value `i64::from_str` reads: an optional `+` or `-` and one or more
/// digits, nothing else, within the range of `i64`.
pub open spec fn i64_text_value(f: Seq<char>) -> Option<int> {
    let j = after_sign(f, 0);
    if j < f.len() && digits_end(f, j) == f.len() && fits_i64(signed_value(f)) {
        Some(signed_value(f))
    } else {
        None
    }
}

/// The exponent field that `BigDecimal::from_str` reads: the text after the
/// first `e` or `E`, with one leading `+` removed.
pub open spec fn exponent_field(s: Seq<char>) -> Seq<char> {
    let f = s.subrange(first_exponent_mark(s, 0) + 1, s.len() as int);
    if f.len() > 0 && f[0] == '+' {
        f.drop_first()
    } else {
        f
    }
}

/// The number of bytes UTF-8 takes for a character.
pub open spec fn utf8_width(c: char) -> nat {
    if (c as u32) < 0x80 {
        1
    } else if (c as u32) < 0x800 {
        2
    } else if (c as u32) < 0x10000 {
        3
    } else {
        4
    }
}

/// The number of bytes UTF-8 takes for a text.
pub open spec fn utf8_len(s: Seq<char>) -> nat
    decreases s.len(),
{
    if s.len() == 0 {
        0
    } else {
        utf8_len(s.drop_last()) + utf8_width(s.last())
    }
}

/// The number of UTF-8 bytes after the first `.` of the part before the
/// exponent (0 without a `.`), which `BigDecimal::from_str` takes as the
/// fraction length.
pub open spec fn fraction_offset(s: Seq<char>) -> int {
    let base = s.subrange(0, first_exponent_mark(s, 0));
    let d = first_dot(base, 0);
    if d >= base.len() {
        0
    } else {
        utf8_len(base.subrange(d + 1, base.len() as int)) as int
    }
}

/// Whether `BigDecimal::from_str` overflows on `s`: it reads an exponent `e`
/// after a non-empty first part, and the fraction offset minus `e` leaves `i64`.
pub open spec fn from_str_overflows(s: Seq<char>) -> bool {
    let m = first_exponent_mark(s, 0);
    &&& 0 < m < s.len()
    &&& i64_text_value(exponent_field(s)) matches Some(e) && !fits_i64(fraction_offset(s) - e)
}

/// Whether `BigDecimal::from_str` reads a decimal literal: its exponent, if
/// any, is a value of `i64` and the scale does not overflow.
pub open spec fn literal_readable(s: Seq<char>) -> bool {
    &&& !from_str_overflows(s)
    &&& (first_exponent_mark(s, 0) == s.len() || i64_text_value(exponent_field(s)) is Some)
}

// ---------------------------------------------------------------------------
// Rendering (`Display`)

/// The decimal digits of a natural number, most significant first, with no
/// leading zeros (`"0"` for zero).
pub open spec fn nat_text(n: nat) -> Seq<char>
    decreases n,
{
    if n < 10 {
        seq![(n + '0' as nat) as char]
    } else {
        nat_text(n / 10).push(((n % 10) + '0' as nat) as char)
    }
}

/// `n` zero characters.
pub open spec fn zeros(n: nat) -> Seq<char> {
    Seq::new(n, |i: int| '0')
}

/// The text of a decimal without its sign.
pub open spec fn unsigned_text(d: (int, int)) -> Seq<char> {
    let a = nat_text(if d.0 < 0 { (-d.0) as nat } else { d.0 as nat });
    let len = a.len() as int;
    if d.1 >= len {
        seq!['0', '.'] + zeros((d.1 - len) as nat) + a
    } else if d.1 < 0 {
        a + zeros((-d.1) as nat)
    } else {
        let loc = len - d.1;
        if loc == len {
            a
        } else {
            a.subrange(0, loc) + seq!['.'] + a.subrange(loc, len)
        }
    }
}

/// How `BigDecimal` displays a decimal: the digits of the mantissa with a
/// decimal point placed by the scale (zeros added where the scale reaches
/// beyond the digits), and a leading `-` when negative.
pub open spec fn decimal_text(d: (int, int)) -> Seq<char> {
    if d.0 < 0 {
        seq!['-'] + unsigned_text(d)
    } else {
        unsigned_text(d)
    }
}

// ---------------------------------------------------------------------------
// Calls into `bigdecimal`

/// The view of an optional decimal.
pub open spec fn option_view(r: Option<Decimal>) -> Option<(int, int)> {
    match r {
        Some(d) => Some(d@),
        None => None,
    }
}

/// `BigDecimal::from_str`: reads a decimal number. A decimal literal that
/// it reads gives the literal's digits (sign, integer and fraction digits
/// run together) as mantissa and the fraction length minus the exponent as
/// scale; other texts give the result named by `decimal_parse`.
#[verifier::external_body]
pub(crate) fn big_from_str(s: &str) -> (r: Option<Decimal>)
    requires
        !from_str_overflows(s@),
    ensures
        option_view(r) == decimal_parse(s@),
        is_num_literal(s@) && literal_readable(s@) ==> option_view(r) == Some(literal_value(s@)),
{
    match BigDecimal::from_str(s) {
        Ok(v) => {
            let (m, scale) = v.into_bigint_and_exponent();
            let (sign, limbs) = m.to_u32_digits();
            Some(Decimal { negative: sign == Sign::Minus, limbs, scale })
        }
        Err(_) => None,
    }
}

/// Reads an `i64` as `i64::from_str` does: an optional `+` or `-` and one
/// or more decimal digits, nothing else, within the range of `i64`.
pub(crate) fn parse_i64(s: &str) -> (r: Option<i64>)
    ensures
        match r {
            Some(v) => i64_text_value(s@) == Some(v as int),
            None => i64_text_value(s@) is None,
        },
{
    let cs = crate::text::chars_of(s);
    let ghost f = cs@;
    let n = cs.len();
    let j: usize = if n > 0 && (cs[0] == '+' || cs[0] == '-') {
        1
    } else {
        0
    };
    if j >= n {
        return None;
    }
    let mut acc: u128 = 0;
    let mut big = false;
    let mut i = j;
    proof {
        assert(f.subrange(j as int, j as int) =~= Seq::<char>::empty());
    }
    while i < n
        invariant
            f == cs@,
            f == s@,
            n == f.len(),
            j == after_sign(f, 0),
            j < n,
            j <= i <= n,
            forall|x: int| j <= x < i ==> is_digit(#[trigger] f[x]),
            !big ==> acc == digits_value(f.subrange(j as int, i as int)),
            !big ==> acc <= 0x8000_0000_0000_0000,
            big ==> digits_value(f.subrange(j as int, i as int)) > 0x8000_0000_0000_0000,
        decreases n - i,
    {
        let c = cs[i];
        if !('0' <= c && c <= '9') {
            proof {
                assert(!is_digit(f[i as int]));
                lemma_digits_run(f, j as int, i as int);
                assert(digits_end(f, j as int) == i);
                assert(i64_text_value(s@) is None);
            }
            return None;
        }
        let d = (c as u32 - '0' as u32) as u128;
        proof {
            assert(f.subrange(j as int, i + 1).drop_last() =~= f.subrange(j as int, i as int));
            assert(f.subrange(j as int, i + 1).last() == c);
        }
        if !big {
            let next = acc * 10 + d;
            if next > 0x8000_0000_0000_0000 {
                big = true;
            } else {
                acc = next;
            }
        }
        i += 1;
    }
    proof {
        lemma_digits_run(f, j as int, n as int);
        assert(f.subrange(j as int, n as int) == f.subrange(after_sign(f, 0), f.len() as int));
    }
    if big {
        return None;
    }
    if j == 1 && cs[0] == '-' {
        Some((-(acc as i128)) as i64)
    } else if acc <= 0x7fff_ffff_ffff_ffff {
        Some(acc as i64)
    } else {
        None
    }
}

/// `BigDecimal + BigDecimal`: exact, at the larger scale.
#[verifier::external_body]
pub(crate) fn big_add(a: &Decimal, b: &Decimal) -> (r: Decimal)
    requires
        !sum_overflows(a@, b@),
    ensures
        r@ == decimal_sum(a@, b@),
{
    let x = BigDecimal::new(BigInt::from_slice(if a.negative { Sign::Minus } else { Sign::Plus }, &a.limbs), a.scale);
    let y = BigDecimal::new(BigInt::from_slice(if b.negative { Sign::Minus } else { Sign::Plus }, &b.limbs), b.scale);
    let (m, scale) = (x + y).into_bigint_and_exponent();
    let (sign, limbs) = m.to_u32_digits();
    Decimal { negative: sign == Sign::Minus, limbs, scale }
}

/// `BigDecimal - BigDecimal`: exact, at the larger scale.
#[verifier::external_body]
pub(crate) fn big_sub(a: &Decimal, b: &Decimal) -> (r: Decimal)
    requires
        !sum_overflows(a@, b@),
    ensures
        r@ == decimal_difference(a@, b@),
{
    let x = BigDecimal::new(BigInt::from_slice(if a.negative { Sign::Minus } else { Sign::Plus }, &a.limbs), a.scale);
    let y = BigDecimal::new(BigInt::from_slice(if b.negative { Sign::Minus } else { Sign::Plus }, &b.limbs), b.scale);
    let (m, scale) = (x - y).into_bigint_and_exponent();
    let (sign, limbs) = m.to_u32_digits();
    Decimal { negative: sign == Sign::Minus, limbs, scale }
}

/// `BigDecimal * BigDecimal`: a factor equal to one yields the other factor
/// unchanged; otherwise mantissas multiply and scales add.
#[verifier::external_body]
pub(crate) fn big_mul(a: &Decimal, b: &Decimal) -> (r: Decimal)
    requires
        !product_overflows(a@, b@),
    ensures
        r@ == decimal_product(a@, b@),
{
    let x = BigDecimal::new(BigInt::from_slice(if a.negative { Sign::Minus } else { Sign::Plus }, &a.limbs), a.scale);
    let y = BigDecimal::new(BigInt::from_slice(if b.negative { Sign::Minus } else { Sign::Plus }, &b.limbs), b.scale);
    let (m, scale) = (x * y).into_bigint_and_exponent();
    let (sign, limbs) = m.to_u32_digits();
    Decimal { negative: sign == Sign::Minus, limbs, scale }
}

/// `BigDecimal / BigDecimal` on two decimals of scale 0, the divisor not
/// zero. A zero dividend, or a divisor of one, gives the dividend back;
/// equal mantissas give one. The scale of a quotient only adds the
/// difference of the operands' scales to the scale of the quotient of their
/// mantissas: for any scales `s1`, `s2` whose difference, and the resulting
/// scale, lie in `i64`, and a non-zero dividend and a divisor that is not
/// one, of scale other than `i64::MIN` (whose comparison with one
/// overflows), `(a.0, s1) / (b.0, s2)` is `(r.0, r.1 + s1 - s2)`.
#[verifier::external_body]
pub(crate) fn big_div(a: &Decimal, b: &Decimal) -> (r: Decimal)
    requires
        a@.1 == 0,
        b@.1 == 0,
        b@.0 != 0,
    ensures
        r@ == decimal_quotient(a@, b@),
        a@.0 == 0 ==> r@ == a@,
        a@.0 != 0 && b@.0 == 1 ==> r@ == a@,
        a@.0 != 0 && b@.0 != 1 && a@.0 == b@.0 ==> r@ == (1int, 0int),
        forall|s1: int, s2: int|
            a@.0 != 0 && s2 != i64::MIN && !is_one((b@.0, s2)) && fits_i64(s1 - s2) && fits_i64(r@.1 + s1 - s2)
                ==> #[trigger] decimal_quotient((a@.0, s1), (b@.0, s2)) == (r@.0, r@.1 + s1 - s2),
{
    let x = BigDecimal::new(BigInt::from_slice(if a.negative { Sign::Minus } else { Sign::Plus }, &a.limbs), a.scale);
    let y = BigDecimal::new(BigInt::from_slice(if b.negative { Sign::Minus } else { Sign::Plus }, &b.limbs), b.scale);
    let (m, scale) = (x / y).into_bigint_and_exponent();
    let (sign, limbs) = m.to_u32_digits();
    Decimal { negative: sign == Sign::Minus, limbs, scale }
}

/// `BigDecimal`'s `Display`, through `to_string`.
#[verifier::external_body]
pub(crate) fn big_to_string(a: &Decimal) -> (r: String)
    ensures
        r@ == decimal_text(a@),
{
    BigDecimal::new(BigInt::from_slice(if a.negative { Sign::Minus } else { Sign::Plus }, &a.limbs), a.scale).to_string()
}

// ---------------------------------------------------------------------------
// What `BigDecimal::from_str` makes of a text, checked before the call

/// Where the first `e` or `E` of `cs` stands, or its length.
fn exponent_mark(cs: &Vec<char>) -> (r: usize)
    ensures
        r == first_exponent_mark(cs@, 0),
        r <= cs@.len(),
{
    let mut i: usize = 0;
    while i < cs.len()
        invariant
            i <= cs@.len(),
            first_exponent_mark(cs@, 0) == first_exponent_mark(cs@, i as int),
        decreases cs.len() - i,
    {
        if cs[i] == 'e' || cs[i] == 'E' {
            return i;
        }
        i += 1;
    }
    i
}

/// The exponent field after the mark at `m`, one leading `+` removed.
fn exponent_text(cs: &Vec<char>, m: usize) -> (r: String)
    requires
        m == first_exponent_mark(cs@, 0),
        m < cs@.len(),
    ensures
        r@ == exponent_field(cs@),
{
    let n = cs.len();
    let mut start = m + 1;
    if start < n && cs[start] == '+' {
        start = start + 1;
        proof {
            assert(cs@.subrange(m + 2, cs@.len() as int) =~= cs@.subrange(m + 1, cs@.len() as int).drop_first());
        }
    }
    string_of_range(cs, start, cs.len())
}

/// The UTF-8 length of the fraction part before the mark at `m`.
fn fraction_bytes(cs: &Vec<char>, m: usize) -> (r: u128)
    requires
        m == first_exponent_mark(cs@, 0),
        m <= cs@.len(),
    ensures
        r == fraction_offset(cs@),
        r <= 4 * cs@.len(),
{
    let ghost base = cs@.subrange(0, m as int);
    let mut d: usize = 0;
    while d < m && cs[d] != '.'
        invariant
            d <= m <= cs@.len(),
            base == cs@.subrange(0, m as int),
            first_dot(base, 0) == first_dot(base, d as int),
        decreases m - d,
    {
        d += 1;
    }
    if d >= m {
        return 0;
    }
    let mut acc: u128 = 0;
    let mut i: usize = d + 1;
    while i < m
        invariant
            d < m <= cs@.len(),
            d + 1 <= i <= m,
            base == cs@.subrange(0, m as int),
            acc == utf8_len(cs@.subrange(d + 1, i as int)),
            acc <= 4 * (i - (d + 1)),
        decreases m - i,
    {
        let c = cs[i] as u32;
        let w: u128 = if c < 0x80 {
            1
        } else if c < 0x800 {
            2
        } else if c < 0x10000 {
            3
        } else {
            4
        };
        proof {
            assert(cs@.subrange(d + 1, i + 1).drop_last() =~= cs@.subrange(d + 1, i as int));
        }
        acc = acc + w;
        i += 1;
    }
    proof {
        assert(base.subrange(d + 1, base.len() as int) =~= cs@.subrange(d + 1, m as int));
    }
    acc
}

/// Whether `BigDecimal::from_str` overflows on `s` (see `from_str_overflows`).
pub fn from_str_would_overflow(s: &str) -> (r: bool)
    ensures
        r == from_str_overflows(s@),
{
    let cs = crate::text::chars_of(s);
    let m = exponent_mark(&cs);
    if m == 0 || m >= cs.len() {
        return false;
    }
    let field = exponent_text(&cs, m);
    match parse_i64(field.as_str()) {
        None => false,
        Some(e) => {
            let frac = fraction_bytes(&cs, m);
            let x: i128 = frac as i128 - e as i128;
            x < i64::MIN as i128 || x > i64::MAX as i128
        },
    }
}

/// Whether `BigDecimal::from_str` reads `s` without overflow and, where it
/// has an exponent, reads that exponent (see `literal_readable`).
pub fn is_readable_literal(s: &str) -> (r: bool)
    ensures
        r == literal_readable(s@),
{
    if from_str_would_overflow(s) {
        return false;
    }
    let cs = crate::text::chars_of(s);
    let m = exponent_mark(&cs);
    if m >= cs.len() {
        return true;
    }
    let field = exponent_text(&cs, m);
    parse_i64(field.as_str()).is_some()
}

// ---------------------------------------------------------------------------
// Verified operations on the plain representation

impl Decimal {
    /// `10^(-scale)`: mantissa one at the given scale.
    pub fn power_of_ten(scale: i64) -> (r: Decimal)
        ensures
            r@ == (1int, scale as int),
    {
        let mut limbs: Vec<u32> = Vec::new();
        limbs.push(1);
        proof {
            assert(limbs@.drop_first() =~= Seq::<u32>::empty());
            assert(limbs_value(limbs@.drop_first()) == 0);
            assert(limbs_value(limbs@) == 1);
        }
        Decimal { negative: false, limbs, scale }
    }

    /// Whether the number is zero.
    pub fn is_zero(&self) -> (r: bool)
        ensures
            r == (self@.0 == 0),
    {
        let mut i: usize = 0;
        while i < self.limbs.len()
            invariant
                i <= self.limbs@.len(),
                forall|k: int| 0 <= k < i ==> self.limbs@[k] == 0,
            decreases self.limbs.len() - i,
        {
            if self.limbs[i] != 0 {
                proof {
                    lemma_limbs_nonzero(self.limbs@, i as int);
                }
                return false;
            }
            i += 1;
        }
        proof {
            lemma_limbs_zero(self.limbs@);
        }
        true
    }

    /// The same mantissa at another scale.
    fn with_scale(&self, scale: i64) -> (r: Decimal)
        ensures
            r@ == (self@.0, scale as int),
    {
        let mut limbs: Vec<u32> = Vec::new();
        let mut i: usize = 0;
        while i < self.limbs.len()
            invariant
                i <= self.limbs@.len(),
                limbs@ == self.limbs@.take(i as int),
            decreases self.limbs.len() - i,
        {
            limbs.push(self.limbs[i]);
            proof {
                assert(self.limbs@.take(i + 1) =~= self.limbs@.take(i as int).push(self.limbs@[i as int]));
            }
            i += 1;
        }
        proof {
            assert(self.limbs@.take(self.limbs@.len() as int) =~= self.limbs@);
        }
        Decimal { negative: self.negative, limbs, scale }
    }

    /// Whether the number equals one.
    pub fn is_one(&self) -> (r: bool)
        ensures
            r == is_one(self@),
    {
        if self.scale < 0 {
            return false;
        }
        // mantissa - 10^scale, both at scale 0
        let m = self.with_scale(0);
        let p = Decimal::power_of_ten(-self.scale);
        let d = big_sub(&m, &p);
        proof {
            assert(ten_pow(0) == 1);
            assert(rescaled(m@, 0) == m@.0);
            assert(rescaled(p@, 0) == ten_pow(self@.1 as nat));
        }
        d.is_zero()
    }

    /// The sum, or `None` where `BigDecimal`'s scale arithmetic overflows.
    pub fn checked_add(&self, other: &Decimal) -> (r: Option<Decimal>)
        ensures
            option_view(r) == (if sum_overflows(self@, other@) { None } else { Some(decimal_sum(self@, other@)) }),
    {
        if self.sum_overflows(other) {
            None
        } else {
            Some(big_add(self, other))
        }
    }

    /// The difference, or `None` where `BigDecimal`'s scale arithmetic overflows.
    pub fn checked_sub(&self, other: &Decimal) -> (r: Option<Decimal>)
        ensures
            option_view(r) == (if sum_overflows(self@, other@) { None } else { Some(decimal_difference(self@, other@)) }),
    {
        if self.sum_overflows(other) {
            None
        } else {
            Some(big_sub(self, other))
        }
    }

    fn sum_overflows(&self, other: &Decimal) -> (r: bool)
        ensures
            r == sum_overflows(self@, other@),
    {
        let a = self.scale as i128;
        let b = other.scale as i128;
        if a < b {
            !self.is_zero() && b - a > i64::MAX as i128
        } else if b < a {
            !other.is_zero() && a - b > i64::MAX as i128
        } else {
            false
        }
    }

    /// The product, or `None` where `BigDecimal`'s scale arithmetic overflows.
    pub fn checked_mul(&self, other: &Decimal) -> (r: Option<Decimal>)
        ensures
            option_view(r) == (if product_overflows(self@, other@) { None } else { Some(decimal_product(self@, other@)) }),
    {
        if self.scale == i64::MIN {
            return None;
        }
        if !self.is_one() {
            if other.scale == i64::MIN {
                return None;
            }
            if !other.is_one() {
                let s = self.scale as i128 + other.scale as i128;
                if s < i64::MIN as i128 || s > i64::MAX as i128 {
                    return None;
                }
            }
        }
        Some(big_mul(self, other))
    }

    /// The quotient by a non-zero divisor, or `None` where `BigDecimal`'s
    /// scale arithmetic overflows: comparing a divisor of scale `i64::MIN`
    /// with one, subtracting the scales, or counting the digits shifted and
    /// produced.
    pub fn checked_div(&self, other: &Decimal) -> (r: Option<Decimal>)
        requires
            other@.0 != 0,
        ensures
            option_view(r) == quotient_result(self@, other@),
            other@.0 == 1 && self@.0 != 0 && other@.1 != i64::MIN ==> option_view(r) == (if fits_i64(self@.1 - other@.1) {
                Some((self@.0, self@.1 - other@.1))
            } else {
                None::<(int, int)>
            }),
    {
        if self.is_zero() {
            return Some(self.with_scale(self.scale));
        }
        if other.scale == i64::MIN {
            return None;
        }
        if other.is_one() {
            return Some(self.with_scale(self.scale));
        }
        let d = self.scale as i128 - other.scale as i128;
        if d < i64::MIN as i128 || d > i64::MAX as i128 {
            return None;
        }
        let q = big_div(&self.with_scale(0), &other.with_scale(0));
        let s = q.scale as i128 + d;
        if s < i64::MIN as i128 || s > i64::MAX as i128 {
            return None;
        }
        let r = q.with_scale(s as i64);
        proof {
            assert(decimal_quotient((self@.0, self@.1), (other@.0, other@.1)) == (q@.0, q@.1 + self@.1 - other@.1));
        }
        Some(r)
    }

    /// The text `BigDecimal` displays for this number.
    pub fn to_text(&self) -> (r: String)
        ensures
            r@ == decimal_text(self@),
    {
        big_to_string(self)
    }
}

proof fn lemma_limbs_zero(limbs: Seq<u32>)
    requires
        forall|k: int| 0 <= k < limbs.len() ==> limbs[k] == 0,
    ensures
        limbs_value(limbs) == 0,
    decreases limbs.len(),
{
    if limbs.len() > 0 {
        lemma_limbs_zero(limbs.drop_first());
    }
}

proof fn lemma_limbs_nonzero(limbs: Seq<u32>, i: int)
    requires
        0 <= i < limbs.len(),
        limbs[i] != 0,
    ensures
        limbs_value(limbs) != 0,
    decreases limbs.len(),
{
    if i > 0 {
        lemma_limbs_nonzero(limbs.drop_first(), i - 1);
    }
}

// ---------------------------------------------------------------------------
// Laws: the stated sums, differences and products are exact

/// The mantissa of `d` written at the scale `s` (at least `d`'s own scale).
pub open spec fn at_scale(d: (int, int), s: int) -> int {
    d.0 * ten_pow((s - d.1) as nat)
}

proof fn lemma_ten_pow_add(x: nat, y: nat)
    ensures
        ten_pow(x + y) == ten_pow(x) * ten_pow(y),
    decreases x,
{
    if x > 0 {
        lemma_ten_pow_add((x - 1) as nat, y);
        assert(ten_pow(x + y) == 10 * ten_pow((x - 1 + y) as nat));
        assert(10 * (ten_pow((x - 1) as nat) * ten_pow(y)) == (10 * ten_pow((x - 1) as nat)) * ten_pow(y))
            by (nonlinear_arith);
    }
}

proof fn lemma_rescale(m: int, d: int, s: int, t: int)
    requires
        d <= s <= t,
    ensures
        m * ten_pow((s - d) as nat) * ten_pow((t - s) as nat) == m * ten_pow((t - d) as nat),
{
    lemma_ten_pow_add((s - d) as nat, (t - s) as nat);
    assert((s - d) as nat + (t - s) as nat == (t - d) as nat);
    assert(m * ten_pow((s - d) as nat) * ten_pow((t - s) as nat) == m * (ten_pow((s - d) as nat) * ten_pow((t - s) as nat)))
        by (nonlinear_arith);
}

/// Addition is exact: at any common scale, the sum's mantissa is the sum
/// of the operands' mantissas.
pub proof fn law_sum_is_exact(a: (int, int), b: (int, int), s: int)
    requires
        s >= max_scale(a, b),
    ensures
        at_scale(decimal_sum(a, b), s) == at_scale(a, s) + at_scale(b, s),
{
    let m = max_scale(a, b);
    let x = rescaled(a, m);
    let y = rescaled(b, m);
    let p = ten_pow((s - m) as nat);
    assert((x + y) * p == x * p + y * p) by (nonlinear_arith);
    lemma_rescale(a.0, a.1, m, s);
    lemma_rescale(b.0, b.1, m, s);
}

/// Subtraction is exact: at any common scale, the difference's mantissa
/// is the difference of the operands' mantissas.
pub proof fn law_difference_is_exact(a: (int, int), b: (int, int), s: int)
    requires
        s >= max_scale(a, b),
    ensures
        at_scale(decimal_difference(a, b), s) == at_scale(a, s) - at_scale(b, s),
{
    let m = max_scale(a, b);
    let x = rescaled(a, m);
    let y = rescaled(b, m);
    let p = ten_pow((s - m) as nat);
    assert((x - y) * p == x * p - y * p) by (nonlinear_arith);
    lemma_rescale(a.0, a.1, m, s);
    lemma_rescale(b.0, b.1, m, s);
}

/// Multiplication is exact: the product written at the sum of two scales is
/// the product of the factors written at those scales.
pub proof fn law_product_is_exact(a: (int, int), b: (int, int), s1: int, s2: int)
    requires
        s1 >= a.1,
        s2 >= b.1,
    ensures
        decimal_product(a, b).1 <= s1 + s2,
        at_scale(decimal_product(a, b), s1 + s2) == at_scale(a, s1) * at_scale(b, s2),
{
    let pa = ten_pow((s1 - a.1) as nat);
    let pb = ten_pow((s2 - b.1) as nat);
    if is_one(a) {
        // a = 10^(a.1) at scale a.1, so a at scale s1 is 10^s1
        lemma_ten_pow_add(a.1 as nat, (s1 - a.1) as nat);
        assert(at_scale(a, s1) == ten_pow(s1 as nat));
        lemma_ten_pow_add(s1 as nat, (s2 - b.1) as nat);
        assert((s1 + s2 - b.1) as nat == s1 as nat + (s2 - b.1) as nat);
        assert(b.0 * (ten_pow(s1 as nat) * pb) == ten_pow(s1 as nat) * (b.0 * pb)) by (nonlinear_arith);
    } else if is_one(b) {
        lemma_ten_pow_add(b.1 as nat, (s2 - b.1) as nat);
        assert(at_scale(b, s2) == ten_pow(s2 as nat));
        lemma_ten_pow_add((s1 - a.1) as nat, s2 as nat);
        assert((s1 + s2 - a.1) as nat == (s1 - a.1) as nat + s2 as nat);
        assert(a.0 * (pa * ten_pow(s2 as nat)) == (a.0 * pa) * ten_pow(s2 as nat)) by (nonlinear_arith);
    } else {
        lemma_ten_pow_add((s1 - a.1) as nat, (s2 - b.1) as nat);
        assert((s1 + s2 - (a.1 + b.1)) as nat == (s1 - a.1) as nat + (s2 - b.1) as nat);
        assert((a.0 * b.0) * (pa * pb) == (a.0 * pa) * (b.0 * pb)) by (nonlinear_arith);
    }
}


// ---------------------------------------------------------------------------
// The text of a decimal reads back as the same number

/// Every character is a decimal digit.
pub open spec fn all_digits(s: Seq<char>) -> bool {
    forall|i: int| 0 <= i < s.len() ==> is_digit(#[trigger] s[i])
}

proof fn lemma_nat_text(n: nat)
    ensures
        nat_text(n).len() >= 1,
        all_digits(nat_text(n)),
        digits_value(nat_text(n)) == n,
    decreases n,
{
    let t = nat_text(n);
    if n < 10 {
        assert(t.drop_last() =~= Seq::<char>::empty());
        assert(digits_value(Seq::<char>::empty()) == 0);
        assert(t.last() as int == n + '0' as int);
    } else {
        lemma_nat_text(n / 10);
        assert(t.drop_last() =~= nat_text(n / 10));
        assert(t.last() as int == (n % 10) + '0' as int);
        assert forall|i: int| 0 <= i < t.len() implies is_digit(#[trigger] t[i]) by {
            if i < t.len() - 1 {
                assert(t[i] == nat_text(n / 10)[i]);
            }
        }
        assert(n == (n / 10) * 10 + n % 10);
    }
}

proof fn lemma_digits_value_concat(a: Seq<char>, b: Seq<char>)
    requires
        all_digits(b),
    ensures
        digits_value(a + b) == digits_value(a) * ten_pow(b.len()) + digits_value(b),
    decreases b.len(),
{
    if b.len() == 0 {
        assert(a + b =~= a);
        assert(digits_value(b) == 0);
        assert(ten_pow(0) == 1);
        assert(digits_value(a) * 1 == digits_value(a));
    } else {
        let b0 = b.drop_last();
        assert(is_digit(b[b.len() - 1]));
        lemma_digits_value_concat(a, b0);
        assert((a + b).drop_last() =~= a + b0);
        assert((a + b).last() == b.last());
        let x = digits_value(a) as int;
        let y = digits_value(b0) as int;
        let p = ten_pow(b0.len());
        let d = b.last() as int - '0' as int;
        assert(digits_value(a + b) == digits_value(a + b0) * 10 + d);
        assert(digits_value(b) == y * 10 + d);
        assert(ten_pow(b.len()) == 10 * p);
        assert((x * p + y) * 10 + d == x * (10 * p) + (y * 10 + d)) by (nonlinear_arith);
    }
}

proof fn lemma_digits_value_zeros(k: nat)
    ensures
        digits_value(zeros(k)) == 0,
        all_digits(zeros(k)),
    decreases k,
{
    if k > 0 {
        lemma_digits_value_zeros((k - 1) as nat);
        assert(zeros(k).drop_last() =~= zeros((k - 1) as nat));
    } else {
        assert(zeros(k) =~= Seq::<char>::empty());
    }
}

proof fn lemma_digits_run(s: Seq<char>, i: int, k: int)
    requires
        0 <= i <= k <= s.len(),
        forall|x: int| i <= x < k ==> is_digit(#[trigger] s[x]),
        k == s.len() || !is_digit(s[k]),
    ensures
        digits_end(s, i) == k,
    decreases k - i,
{
    if i < k {
        lemma_digits_run(s, i + 1, k);
    }
}

proof fn lemma_no_exponent_mark(s: Seq<char>, i: int)
    requires
        0 <= i <= s.len(),
        forall|x: int| 0 <= x < s.len() ==> #[trigger] s[x] != 'e' && s[x] != 'E',
    ensures
        first_exponent_mark(s, i) == s.len(),
    decreases s.len() - i,
{
    if i < s.len() {
        lemma_no_exponent_mark(s, i + 1);
    }
}

proof fn lemma_signed_digits(pre: Seq<char>, w: Seq<char>)
    requires
        pre == seq!['-'] || pre.len() == 0,
        w.len() > 0,
        is_digit(w[0]),
    ensures
        signed_value(pre + w) == (if pre.len() == 1 { -(digits_value(w) as int) } else { digits_value(w) as int }),
{
    let s = pre + w;
    if pre.len() == 1 {
        assert(s[0] == '-');
        assert(s.subrange(1, s.len() as int) =~= w);
    } else {
        assert(s[0] == w[0]);
        assert(s.subrange(0, s.len() as int) =~= w);
    }
}

#[verifier::spinoff_prover]
#[verifier::rlimit(100)]
proof fn lemma_text_reads_back_small(v: (int, int))
    requires
        v.1 >= nat_text(if v.0 < 0 { (-v.0) as nat } else { v.0 as nat }).len(),
    ensures
        is_num_literal(decimal_text(v)),
        literal_readable(decimal_text(v)),
        literal_value(decimal_text(v)) == (if v.1 >= 0 { v } else { (v.0 * ten_pow((-v.1) as nat), 0int) }),
{
    let n: nat = if v.0 < 0 { (-v.0) as nat } else { v.0 as nat };
    let a = nat_text(n);
    let len_a = a.len() as int;
    lemma_nat_text(n);
    let pre: Seq<char> = if v.0 < 0 { seq!['-'] } else { Seq::empty() };
    let p = pre.len() as int;
    let u = unsigned_text(v);
    let t = decimal_text(v);
    assert(t =~= pre + u);
    let sc = v.1;
    let signed_n: int = if v.0 < 0 { -(n as int) } else { n as int };
    assert(signed_n == v.0);
    let k = (sc - len_a) as nat;
    lemma_digits_value_zeros(k);
    let w = seq!['0'] + zeros(k) + a;
    assert(u =~= seq!['0', '.'] + zeros(k) + a);
    assert(t[p] == '0');
    assert(t[p + 1] == '.');
    assert forall|x: int| p + 2 <= x < t.len() implies is_digit(#[trigger] t[x]) by {
        if x < p + 2 + k {
            assert(t[x] == zeros(k)[x - p - 2]);
        } else {
            assert(t[x] == a[x - p - 2 - k]);
        }
    }
    assert forall|x: int| 0 <= x < t.len() implies #[trigger] t[x] != 'e' && t[x] != 'E' by {
        if x >= p + 2 {
            assert(is_digit(t[x]));
        }
    }
    lemma_digits_run(t, p, p + 1);
    lemma_digits_run(t, p + 2, t.len() as int);
    lemma_no_exponent_mark(t, 0);
    let digits = t.subrange(0, p + 1) + t.subrange(p + 2, t.len() as int);
    assert(digits =~= pre + w);
    assert(seq!['0'] + zeros(k) =~= zeros(k + 1));
    lemma_digits_value_zeros(k + 1);
    lemma_digits_value_concat(seq!['0'] + zeros(k), a);
    lemma_signed_digits(pre, w);
}

#[verifier::spinoff_prover]
#[verifier::rlimit(100)]
proof fn lemma_text_reads_back_integer(v: (int, int))
    requires
        v.1 <= 0,
    ensures
        is_num_literal(decimal_text(v)),
        literal_readable(decimal_text(v)),
        literal_value(decimal_text(v)) == (if v.1 >= 0 { v } else { (v.0 * ten_pow((-v.1) as nat), 0int) }),
{
    let n: nat = if v.0 < 0 { (-v.0) as nat } else { v.0 as nat };
    let a = nat_text(n);
    let len_a = a.len() as int;
    lemma_nat_text(n);
    let pre: Seq<char> = if v.0 < 0 { seq!['-'] } else { Seq::empty() };
    let p = pre.len() as int;
    let u = unsigned_text(v);
    let t = decimal_text(v);
    assert(t =~= pre + u);
    let sc = v.1;
    let signed_n: int = if v.0 < 0 { -(n as int) } else { n as int };
    assert(signed_n == v.0);
    let k = (-sc) as nat;
    lemma_digits_value_zeros(k);
    let w = a + zeros(k);
    assert(u =~= w) by {
        if sc == 0 {
            assert(a + zeros(0) =~= a);
        }
    }
    assert forall|x: int| p <= x < t.len() implies is_digit(#[trigger] t[x]) by {
        if x < p + len_a {
            assert(t[x] == a[x - p]);
        } else {
            assert(t[x] == zeros(k)[x - p - len_a]);
        }
    }
    assert forall|x: int| 0 <= x < t.len() implies #[trigger] t[x] != 'e' && t[x] != 'E' by {
        if x >= p {
            assert(is_digit(t[x]));
        }
    }
    lemma_digits_run(t, p, t.len() as int);
    lemma_no_exponent_mark(t, 0);
    let digits = t.subrange(0, t.len() as int) + t.subrange(t.len() as int, t.len() as int);
    assert(digits =~= pre + w);
    lemma_digits_value_concat(a, zeros(k));
    lemma_signed_digits(pre, w);
    assert(signed_n * ten_pow(k) == (if v.0 < 0 { -((n * ten_pow(k)) as int) } else { (n * ten_pow(k)) as int })) by (nonlinear_arith)
        requires signed_n == (if v.0 < 0 { -(n as int) } else { n as int });
    if sc == 0 {
        assert(ten_pow(0) == 1);
    }
}

#[verifier::spinoff_prover]
#[verifier::rlimit(100)]
proof fn lemma_text_reads_back_point(v: (int, int))
    requires
        0 < v.1 < nat_text(if v.0 < 0 { (-v.0) as nat } else { v.0 as nat }).len(),
    ensures
        is_num_literal(decimal_text(v)),
        literal_readable(decimal_text(v)),
        literal_value(decimal_text(v)) == (if v.1 >= 0 { v } else { (v.0 * ten_pow((-v.1) as nat), 0int) }),
{
    let n: nat = if v.0 < 0 { (-v.0) as nat } else { v.0 as nat };
    let a = nat_text(n);
    let len_a = a.len() as int;
    lemma_nat_text(n);
    let pre: Seq<char> = if v.0 < 0 { seq!['-'] } else { Seq::empty() };
    let p = pre.len() as int;
    let u = unsigned_text(v);
    let t = decimal_text(v);
    assert(t =~= pre + u);
    let sc = v.1;
    let signed_n: int = if v.0 < 0 { -(n as int) } else { n as int };
    assert(signed_n == v.0);
    let loc = len_a - sc;
    assert(0 < loc < len_a);
    assert(u =~= a.subrange(0, loc) + seq!['.'] + a.subrange(loc, len_a));
    assert forall|x: int| p <= x < p + loc implies is_digit(#[trigger] t[x]) by {
        assert(t[x] == a[x - p]);
    }
    assert(t[p + loc] == '.');
    assert forall|x: int| p + loc + 1 <= x < t.len() implies is_digit(#[trigger] t[x]) by {
        assert(t[x] == a[x - p - 1]);
    }
    assert forall|x: int| 0 <= x < t.len() implies #[trigger] t[x] != 'e' && t[x] != 'E' by {
        if p <= x < p + loc {
            assert(is_digit(t[x]));
        } else if x > p + loc {
            assert(is_digit(t[x]));
        }
    }
    lemma_digits_run(t, p, p + loc);
    lemma_digits_run(t, p + loc + 1, t.len() as int);
    lemma_no_exponent_mark(t, 0);
    let digits = t.subrange(0, p + loc) + t.subrange(p + loc + 1, t.len() as int);
    assert(digits =~= pre + a);
    lemma_signed_digits(pre, a);
}

/// The text `BigDecimal` writes for a decimal is a decimal literal, holds no
/// exponent, and reads back as the same number: at the same scale where that
/// scale is not negative, and at scale 0 (the trailing zeros written out)
/// where it is.
pub proof fn law_text_reads_back(v: (int, int))
    ensures
        is_num_literal(decimal_text(v)),
        literal_readable(decimal_text(v)),
        literal_value(decimal_text(v)) == (if v.1 >= 0 { v } else { (v.0 * ten_pow((-v.1) as nat), 0int) }),
{
    let n: nat = if v.0 < 0 { (-v.0) as nat } else { v.0 as nat };
    if v.1 >= nat_text(n).len() {
        lemma_text_reads_back_small(v);
    } else if v.1 <= 0 {
        lemma_text_reads_back_integer(v);
    } else {
        lemma_text_reads_back_point(v);
    }
}

} // verus!
