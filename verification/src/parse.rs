//! Parsers for the plain-text pseudo-file formats.
//!
//! Three formats occur: the ambient light sensor file, a parenthesized
//! comma-separated tuple whose first field is a decimal number; the
//! power-supply flag, a decimal integer; and the capacity files, an unsigned
//! decimal integer. All three are modelled byte for byte: the specification
//! functions below define trimming, tuple splitting and the number grammar
//! over `Seq<u8>`, and each executable parser returns exactly the value the
//! specification assigns, or `None` exactly where the text is rejected.
//!
//! A decimal number is read into thousandths (milli-units): fraction digits
//! beyond the third are ignored. A number whose integer part has more than
//! fifteen significant digits is rejected, as is an integer outside the
//! 32-bit range — such inputs do not occur on real sensor or capacity files.

use vstd::prelude::*;
use vstd::slice::slice_subrange;

verus! {

/// ASCII whitespace as trimmed from the file contents.
pub open spec fn is_ascii_ws(b: u8) -> bool {
    b == 32 || b == 9 || b == 10 || b == 13 || b == 11 || b == 12
}

/// An opening or closing parenthesis.
pub open spec fn is_paren(b: u8) -> bool {
    b == 40 || b == 41
}

/// An ASCII decimal digit.
pub open spec fn is_ascii_digit(b: u8) -> bool {
    48 <= b <= 57
}

/// A leading sign.
pub open spec fn is_sign(b: u8) -> bool {
    b == 43 || b == 45
}

/// `s` without its leading whitespace.
pub open spec fn trim_start(s: Seq<u8>) -> Seq<u8>
    decreases s.len(),
{
    if s.len() > 0 && is_ascii_ws(s[0]) {
        trim_start(s.drop_first())
    } else {
        s
    }
}

/// `s` without its trailing whitespace.
pub open spec fn trim_end(s: Seq<u8>) -> Seq<u8>
    decreases s.len(),
{
    if s.len() > 0 && is_ascii_ws(s[s.len() - 1]) {
        trim_end(s.drop_last())
    } else {
        s
    }
}

/// `s` without surrounding whitespace.
pub open spec fn trimmed(s: Seq<u8>) -> Seq<u8> {
    trim_end(trim_start(s))
}

/// `s` without its leading parentheses.
pub open spec fn parens_start(s: Seq<u8>) -> Seq<u8>
    decreases s.len(),
{
    if s.len() > 0 && is_paren(s[0]) {
        parens_start(s.drop_first())
    } else {
        s
    }
}

/// `s` without its trailing parentheses.
pub open spec fn parens_end(s: Seq<u8>) -> Seq<u8>
    decreases s.len(),
{
    if s.len() > 0 && is_paren(s[s.len() - 1]) {
        parens_end(s.drop_last())
    } else {
        s
    }
}

/// `s` without surrounding parentheses.
pub open spec fn strip_parens(s: Seq<u8>) -> Seq<u8> {
    parens_end(parens_start(s))
}

/// What stands before the first `stop` byte (all of `s` if none occurs).
pub open spec fn split_head(s: Seq<u8>, stop: u8) -> Seq<u8>
    decreases s.len(),
{
    if s.len() == 0 || s[0] == stop {
        Seq::empty()
    } else {
        seq![s[0]] + split_head(s.drop_first(), stop)
    }
}

/// What stands after the first `stop` byte (empty if none occurs).
pub open spec fn split_tail(s: Seq<u8>, stop: u8) -> Seq<u8>
    decreases s.len(),
{
    if s.len() == 0 {
        Seq::empty()
    } else if s[0] == stop {
        s.drop_first()
    } else {
        split_tail(s.drop_first(), stop)
    }
}

/// The first field of the sensor tuple: surrounding whitespace and
/// parentheses stripped, then everything before the first comma.
pub open spec fn sensor_token(s: Seq<u8>) -> Seq<u8> {
    split_head(strip_parens(trimmed(s)), 44)
}

/// All bytes of `s` are decimal digits.
pub open spec fn all_digits(s: Seq<u8>) -> bool {
    forall|i: int| 0 <= i < s.len() ==> is_ascii_digit(#[trigger] s[i])
}

/// The value of a digit string read in base ten (0 when empty).
pub open spec fn digits_val(s: Seq<u8>) -> int
    decreases s.len(),
{
    if s.len() == 0 {
        0
    } else {
        digits_val(s.drop_last()) * 10 + (s.last() - 48)
    }
}

/// Ten to the `n`th power.
pub open spec fn pow10(n: nat) -> int
    decreases n,
{
    if n == 0 {
        1int
    } else {
        10 * pow10((n - 1) as nat)
    }
}

/// `s` without its leading zero digits.
pub open spec fn strip_zeros(s: Seq<u8>) -> Seq<u8>
    decreases s.len(),
{
    if s.len() > 0 && s[0] == 48 {
        strip_zeros(s.drop_first())
    } else {
        s
    }
}

/// The token without its one leading sign, if any.
pub open spec fn magnitude(t: Seq<u8>) -> Seq<u8> {
    if t.len() > 0 && is_sign(t[0]) {
        t.drop_first()
    } else {
        t
    }
}

/// The token carries a minus sign.
pub open spec fn is_negative(t: Seq<u8>) -> bool {
    t.len() > 0 && t[0] == 45
}

/// The token is a well-formed decimal number: an optional sign, then digits
/// with at most one point somewhere among them, and at least one digit.
pub open spec fn wf_decimal(t: Seq<u8>) -> bool {
    let u = magnitude(t);
    let ip = split_head(u, 46);
    let fp = split_tail(u, 46);
    all_digits(ip) && all_digits(fp) && (ip.len() > 0 || fp.len() > 0)
}

/// The integer part has at most fifteen significant digits, so the value in
/// milli-units fits comfortably in a 64-bit integer.
pub open spec fn decimal_fits(t: Seq<u8>) -> bool {
    strip_zeros(split_head(magnitude(t), 46)).len() <= 15
}

/// The value of the fraction digits in thousandths: the first three digits,
/// padded with zeros when fewer are given; further digits are ignored.
pub open spec fn frac_milli(f: Seq<u8>) -> int {
    if f.len() >= 3 {
        digits_val(f.subrange(0, 3))
    } else {
        digits_val(f) * pow10((3 - f.len()) as nat)
    }
}

/// The value of a well-formed decimal token in milli-units.
pub open spec fn decimal_milli(t: Seq<u8>) -> int {
    let u = magnitude(t);
    let mag = digits_val(split_head(u, 46)) * 1000 + frac_milli(split_tail(u, 46));
    if is_negative(t) {
        -mag
    } else {
        mag
    }
}

/// What the sensor file contents denote: the ambient light level in
/// milli-units, or nothing when the first field is not a decimal number the
/// parser accepts.
pub open spec fn light_milli_of(s: Seq<u8>) -> Option<int> {
    let t = sensor_token(s);
    if wf_decimal(t) && decimal_fits(t) {
        Some(decimal_milli(t))
    } else {
        None
    }
}

/// The token is a well-formed integer: an optional sign and then at least
/// one digit.
pub open spec fn wf_integer(t: Seq<u8>) -> bool {
    magnitude(t).len() > 0 && all_digits(magnitude(t))
}

/// The signed value of a well-formed integer token.
pub open spec fn integer_val(t: Seq<u8>) -> int {
    if is_negative(t) {
        -digits_val(magnitude(t))
    } else {
        digits_val(magnitude(t))
    }
}

/// What the power-supply file contents denote: the flag value, or nothing
/// when the trimmed text is not an integer in the 32-bit signed range.
pub open spec fn power_flag_of(s: Seq<u8>) -> Option<int> {
    let t = trimmed(s);
    if wf_integer(t) && -0x8000_0000 <= integer_val(t) <= 0x7fff_ffff {
        Some(integer_val(t))
    } else {
        None
    }
}

/// What a capacity file's contents denote: the unsigned value, or nothing
/// when the trimmed text is not plain digits within the 32-bit range.
pub open spec fn capacity_of(s: Seq<u8>) -> Option<int> {
    let t = trimmed(s);
    if t.len() > 0 && all_digits(t) && digits_val(t) <= 0xffff_ffff {
        Some(digits_val(t))
    } else {
        None
    }
}

/// A digit string's value is non-negative and below ten to its length.
pub proof fn lemma_digits_val_bound(s: Seq<u8>)
    requires
        all_digits(s),
    ensures
        0 <= digits_val(s) < pow10(s.len()),
    decreases s.len(),
{
    if s.len() > 0 {
        assert(forall|i: int| 0 <= i < s.drop_last().len() ==> s.drop_last()[i] == s[i]);
        lemma_digits_val_bound(s.drop_last());
        assert(pow10(s.len()) == 10 * pow10((s.len() - 1) as nat));
        assert(48 <= s.last() <= 57);
    }
}

/// A nonempty digit string that does not start with zero is at least ten to
/// one less than its length.
pub proof fn lemma_digits_val_lower(s: Seq<u8>)
    requires
        all_digits(s),
        s.len() > 0,
        s[0] != 48,
    ensures
        digits_val(s) >= pow10((s.len() - 1) as nat),
    decreases s.len(),
{
    if s.len() == 1 {
        assert(49 <= s[0] <= 57);
    } else {
        assert(s.drop_last()[0] == s[0]);
        assert(forall|i: int| 0 <= i < s.drop_last().len() ==> s.drop_last()[i] == s[i]);
        lemma_digits_val_lower(s.drop_last());
        assert(digits_val(s.drop_last()) >= pow10((s.len() - 2) as nat));
        assert(pow10((s.len() - 1) as nat) == 10 * pow10((s.len() - 2) as nat));
        assert(48 <= s.last() <= 57);
        assert(digits_val(s) == digits_val(s.drop_last()) * 10 + (s.last() - 48));
        assert(digits_val(s.drop_last()) * 10 >= pow10((s.len() - 2) as nat) * 10);
    }
}

/// A string of zero digits has value zero.
pub proof fn lemma_digits_val_zeros(s: Seq<u8>)
    requires
        forall|i: int| 0 <= i < s.len() ==> s[i] == 48,
    ensures
        digits_val(s) == 0,
    decreases s.len(),
{
    if s.len() > 0 {
        assert(forall|i: int| 0 <= i < s.drop_last().len() ==> s.drop_last()[i] == s[i]);
        lemma_digits_val_zeros(s.drop_last());
    }
}

/// Leading zero digits do not change a digit string's value.
pub proof fn lemma_digits_val_leading_zeros(s: Seq<u8>, c: int)
    requires
        0 <= c <= s.len(),
        forall|k: int| 0 <= k < c ==> s[k] == 48,
    ensures
        digits_val(s) == digits_val(s.subrange(c, s.len() as int)),
    decreases s.len(),
{
    if c == s.len() {
        lemma_digits_val_zeros(s);
    } else {
        let r = s.subrange(c, s.len() as int);
        if s.len() > 0 {
            assert(forall|i: int| 0 <= i < s.drop_last().len() ==> s.drop_last()[i] == s[i]);
            lemma_digits_val_leading_zeros(s.drop_last(), c);
            assert(s.drop_last().subrange(c, s.len() - 1) =~= r.drop_last());
            assert(r.last() == s.last());
        }
    }
}

/// Ten to a power is at least one.
pub proof fn lemma_pow10_pos(n: nat)
    ensures
        pow10(n) >= 1,
    decreases n,
{
    if n > 0 {
        lemma_pow10_pos((n - 1) as nat);
    }
}

/// Ten to a power grows with the exponent.
pub proof fn lemma_pow10_le(a: nat, b: nat)
    requires
        a <= b,
    ensures
        pow10(a) <= pow10(b),
    decreases b,
{
    if a < b {
        lemma_pow10_le(a, (b - 1) as nat);
        lemma_pow10_pos((b - 1) as nat);
    }
}

/// Where the first `stop` byte stands at position `c`, the head of the split
/// is the prefix before it and the tail is the suffix after it.
pub proof fn lemma_split_at(s: Seq<u8>, stop: u8, c: int)
    requires
        0 <= c <= s.len(),
        forall|k: int| 0 <= k < c ==> s[k] != stop,
        c == s.len() || s[c] == stop,
    ensures
        split_head(s, stop) == s.subrange(0, c),
        split_tail(s, stop) == if c == s.len() {
            Seq::<u8>::empty()
        } else {
            s.subrange(c + 1, s.len() as int)
        },
    decreases c, s.len(),
{
    if c == 0 {
        if s.len() == 0 {
            assert(split_head(s, stop) =~= s.subrange(0, 0));
        } else {
            assert(s[0] == stop);
            assert(split_head(s, stop) =~= s.subrange(0, 0));
            assert(split_tail(s, stop) =~= s.subrange(1, s.len() as int));
        }
    } else {
        assert(s[0] != stop);
        let d = s.drop_first();
        assert(forall|k: int| 0 <= k < c - 1 ==> d[k] == s[k + 1]);
        lemma_split_at(d, stop, c - 1);
        assert(d.subrange(0, c - 1) =~= s.subrange(1, c));
        assert(split_head(s, stop) =~= s.subrange(0, c));
        if c < s.len() {
            assert(d.subrange(c, d.len() as int) =~= s.subrange(c + 1, s.len() as int));
        }
    }
}

/// The handful of concrete powers of ten the parsers bound values with.
pub proof fn lemma_pow10_vals()
    ensures
        pow10(0) == 1,
        pow10(1) == 10,
        pow10(2) == 100,
        pow10(3) == 1000,
        pow10(10) == 10000000000,
        pow10(15) == 1000000000000000,
{
    reveal_with_fuel(pow10, 16);
}

/// Where the first non-zero byte stands at position `c`, stripping leading
/// zeros leaves the suffix from `c` on.
pub proof fn lemma_strip_zeros_at(s: Seq<u8>, c: int)
    requires
        0 <= c <= s.len(),
        forall|k: int| 0 <= k < c ==> s[k] == 48,
        c == s.len() || s[c] != 48,
    ensures
        strip_zeros(s) == s.subrange(c, s.len() as int),
    decreases c,
{
    if c == 0 {
        assert(strip_zeros(s) =~= s.subrange(0, s.len() as int));
    } else {
        let d = s.drop_first();
        assert(forall|k: int| 0 <= k < c - 1 ==> d[k] == s[k + 1]);
        lemma_strip_zeros_at(d, c - 1);
        assert(d.subrange(c - 1, d.len() as int) =~= s.subrange(c, s.len() as int));
    }
}

/// The slice without surrounding ASCII whitespace.
#[verifier::loop_isolation(false)]
pub fn trim_ws(s: &[u8]) -> (r: &[u8])
    ensures
        r@ == trimmed(s@),
{
    let n: usize = s.len();
    proof {
        assert(s@.subrange(0, n as int) =~= s@);
    }
    let mut lo: usize = 0;
    while lo < n && (s[lo] == 32 || s[lo] == 9 || s[lo] == 10 || s[lo] == 13 || s[lo] == 11
        || s[lo] == 12)
        invariant
            lo <= n,
            trim_start(s@) == trim_start(s@.subrange(lo as int, n as int)),
        decreases n - lo,
    {
        proof {
            let sub = s@.subrange(lo as int, n as int);
            assert(sub[0] == s@[lo as int]);
            assert(sub.drop_first() =~= s@.subrange(lo as int + 1, n as int));
        }
        lo = lo + 1;
    }
    proof {
        let sub = s@.subrange(lo as int, n as int);
        if lo < n {
            assert(sub[0] == s@[lo as int]);
        }
        assert(trim_start(s@) == sub);
    }
    let mut hi: usize = n;
    while hi > lo && (s[hi - 1] == 32 || s[hi - 1] == 9 || s[hi - 1] == 10 || s[hi - 1] == 13
        || s[hi - 1] == 11 || s[hi - 1] == 12)
        invariant
            lo <= hi <= n,
            trim_end(s@.subrange(lo as int, n as int)) == trim_end(
                s@.subrange(lo as int, hi as int),
            ),
        decreases hi,
    {
        proof {
            let sub = s@.subrange(lo as int, hi as int);
            assert(sub[sub.len() - 1] == s@[hi as int - 1]);
            assert(sub.drop_last() =~= s@.subrange(lo as int, hi as int - 1));
        }
        hi = hi - 1;
    }
    proof {
        let sub = s@.subrange(lo as int, hi as int);
        if hi > lo {
            assert(sub[sub.len() - 1] == s@[hi as int - 1]);
        }
        assert(trim_end(s@.subrange(lo as int, n as int)) == sub);
    }
    slice_subrange(s, lo, hi)
}

/// The slice without surrounding parentheses.
#[verifier::loop_isolation(false)]
pub fn trim_parens(s: &[u8]) -> (r: &[u8])
    ensures
        r@ == strip_parens(s@),
{
    let n: usize = s.len();
    proof {
        assert(s@.subrange(0, n as int) =~= s@);
    }
    let mut lo: usize = 0;
    while lo < n && (s[lo] == 40 || s[lo] == 41)
        invariant
            lo <= n,
            parens_start(s@) == parens_start(s@.subrange(lo as int, n as int)),
        decreases n - lo,
    {
        proof {
            let sub = s@.subrange(lo as int, n as int);
            assert(sub[0] == s@[lo as int]);
            assert(sub.drop_first() =~= s@.subrange(lo as int + 1, n as int));
        }
        lo = lo + 1;
    }
    proof {
        let sub = s@.subrange(lo as int, n as int);
        if lo < n {
            assert(sub[0] == s@[lo as int]);
        }
        assert(parens_start(s@) == sub);
    }
    let mut hi: usize = n;
    while hi > lo && (s[hi - 1] == 40 || s[hi - 1] == 41)
        invariant
            lo <= hi <= n,
            parens_end(s@.subrange(lo as int, n as int)) == parens_end(
                s@.subrange(lo as int, hi as int),
            ),
        decreases hi,
    {
        proof {
            let sub = s@.subrange(lo as int, hi as int);
            assert(sub[sub.len() - 1] == s@[hi as int - 1]);
            assert(sub.drop_last() =~= s@.subrange(lo as int, hi as int - 1));
        }
        hi = hi - 1;
    }
    proof {
        let sub = s@.subrange(lo as int, hi as int);
        if hi > lo {
            assert(sub[sub.len() - 1] == s@[hi as int - 1]);
        }
        assert(parens_end(s@.subrange(lo as int, n as int)) == sub);
    }
    slice_subrange(s, lo, hi)
}

/// Everything before the first comma (all of `s` if none occurs).
#[verifier::loop_isolation(false)]
pub fn first_field(s: &[u8]) -> (r: &[u8])
    ensures
        r@ == split_head(s@, 44),
{
    let n: usize = s.len();
    let mut c: usize = 0;
    while c < n && s[c] != 44
        invariant
            c <= n,
            forall|k: int| 0 <= k < c ==> s@[k] != 44,
        decreases n - c,
    {
        c = c + 1;
    }
    proof {
        lemma_split_at(s@, 44, c as int);
    }
    slice_subrange(s, 0, c)
}

/// A decimal token read into milli-units: `Some` with the exact value where
/// the grammar and the significant-digit bound accept the token, `None`
/// everywhere else.
#[verifier::loop_isolation(false)]
#[verifier::rlimit(100)]
pub fn parse_decimal_milli(t: &[u8]) -> (r: Option<i64>)
    ensures
        match r {
            Some(v) => wf_decimal(t@) && decimal_fits(t@) && v as int == decimal_milli(t@),
            None => !(wf_decimal(t@) && decimal_fits(t@)),
        },
{
    let n: usize = t.len();
    let neg: bool;
    let start: usize;
    if n > 0 && (t[0] == 43 || t[0] == 45) {
        neg = t[0] == 45;
        start = 1;
    } else {
        neg = false;
        start = 0;
    }
    let u: &[u8] = slice_subrange(t, start, n);
    proof {
        assert(u@ =~= magnitude(t@));
        assert(neg == is_negative(t@));
    }
    let un: usize = u.len();
    let mut d: usize = 0;
    while d < un && u[d] != 46
        invariant
            d <= un,
            forall|k: int| 0 <= k < d ==> u@[k] != 46,
        decreases un - d,
    {
        d = d + 1;
    }
    proof {
        lemma_split_at(u@, 46, d as int);
    }
    let ip: &[u8] = slice_subrange(u, 0, d);
    let fp: &[u8] = if d < un {
        slice_subrange(u, d + 1, un)
    } else {
        slice_subrange(u, un, un)
    };
    proof {
        assert(ip@ == split_head(u@, 46));
        assert(fp@ =~= split_tail(u@, 46));
    }
    let ipn: usize = ip.len();
    let fpn: usize = fp.len();
    if ipn == 0 && fpn == 0 {
        return None;
    }
    let mut z: usize = 0;
    while z < ipn && ip[z] == 48
        invariant
            z <= ipn,
            forall|k: int| 0 <= k < z ==> ip@[k] == 48,
        decreases ipn - z,
    {
        z = z + 1;
    }
    proof {
        lemma_strip_zeros_at(ip@, z as int);
    }
    if ipn - z > 15 {
        return None;
    }
    let mut v: i64 = 0;
    let mut k: usize = z;
    while k < ipn
        invariant
            z <= k <= ipn,
            ipn - z <= 15,
            forall|q: int| z <= q < k ==> is_ascii_digit(ip@[q]),
            v == digits_val(ip@.subrange(z as int, k as int)),
            0 <= v < pow10((k - z) as nat),
        decreases ipn - k,
    {
        let b: u8 = ip[k];
        if b < 48 || b > 57 {
            proof {
                assert(!is_ascii_digit(ip@[k as int]));
            }
            return None;
        }
        proof {
            lemma_pow10_vals();
            lemma_pow10_le((k - z + 1) as nat, 15nat);
            assert(pow10((k - z + 1) as nat) == 10 * pow10((k - z) as nat));
            assert(ip@.subrange(z as int, k as int + 1).drop_last() =~= ip@.subrange(
                z as int,
                k as int,
            ));
            assert(ip@.subrange(z as int, k as int + 1).last() == b);
        }
        v = v * 10 + ((b - 48) as i64);
        k = k + 1;
    }
    proof {
        lemma_digits_val_leading_zeros(ip@, z as int);
        assert(ip@.subrange(z as int, ipn as int) == strip_zeros(ip@));
        assert(v == digits_val(ip@));
        lemma_pow10_le((ipn - z) as nat, 15nat);
        lemma_pow10_vals();
        assert(v < 1000000000000000);
        assert forall|q: int| 0 <= q < ip@.len() implies is_ascii_digit(#[trigger] ip@[q]) by {
            if q < z {
                assert(ip@[q] == 48);
            }
        }
        assert(all_digits(ip@));
    }
    let mut fv: i64 = 0;
    let mut cnt: usize = 0;
    let mut j: usize = 0;
    while j < fpn
        invariant
            j <= fpn,
            cnt == (if j < 3 { j } else { 3usize }),
            forall|q: int| 0 <= q < j ==> is_ascii_digit(fp@[q]),
            fv == digits_val(fp@.subrange(0, cnt as int)),
            0 <= fv < pow10(cnt as nat),
        decreases fpn - j,
    {
        let b: u8 = fp[j];
        if b < 48 || b > 57 {
            proof {
                assert(!is_ascii_digit(fp@[j as int]));
            }
            return None;
        }
        if cnt < 3 {
            proof {
                lemma_pow10_vals();
                lemma_pow10_le((cnt + 1) as nat, 3nat);
                assert(pow10((cnt + 1) as nat) == 10 * pow10(cnt as nat));
                assert(cnt == j);
                assert(fp@.subrange(0, cnt as int + 1).drop_last() =~= fp@.subrange(
                    0,
                    cnt as int,
                ));
                assert(fp@.subrange(0, cnt as int + 1).last() == b);
            }
            fv = fv * 10 + ((b - 48) as i64);
            cnt = cnt + 1;
        }
        j = j + 1;
    }
    proof {
        assert(all_digits(fp@));
    }
    let ghost base: int = cnt as int;
    proof {
        lemma_pow10_vals();
        assert(fv == digits_val(fp@.subrange(0, base)) * pow10((cnt - base) as nat));
    }
    while cnt < 3
        invariant
            base <= cnt <= 3,
            fv == digits_val(fp@.subrange(0, base)) * pow10((cnt - base) as nat),
            0 <= fv < pow10(cnt as nat),
        decreases 3 - cnt,
    {
        proof {
            lemma_pow10_vals();
            lemma_pow10_le(cnt as nat, 2nat);
            let dvb = digits_val(fp@.subrange(0, base));
            assert(pow10((cnt + 1 - base) as nat) == 10 * pow10((cnt - base) as nat));
            assert(dvb * (10 * pow10((cnt - base) as nat)) == (dvb * pow10(
                (cnt - base) as nat,
            )) * 10) by (nonlinear_arith);
            assert(pow10((cnt + 1) as nat) == 10 * pow10(cnt as nat));
        }
        fv = fv * 10;
        cnt = cnt + 1;
    }
    proof {
        lemma_pow10_vals();
        if fpn >= 3 {
            assert(base == 3);
            assert(fv == frac_milli(fp@));
        } else {
            assert(base == fpn as int);
            assert(fp@.subrange(0, base) =~= fp@);
            assert(fv == frac_milli(fp@));
        }
        assert(0 <= fv < 1000);
        assert(wf_decimal(t@));
        assert(decimal_fits(t@));
    }
    let mag: i64 = v * 1000 + fv;
    proof {
        assert(mag == decimal_milli(t@) || mag == -decimal_milli(t@));
    }
    let out: i64 = if neg {
        -mag
    } else {
        mag
    };
    Some(out)
}

/// The ambient light reading in milli-units: the sensor text trimmed and
/// unparenthesized, its first comma-separated field read as a decimal
/// number. `None` exactly where the specification rejects the contents.
pub fn parse_light_milli(s: &[u8]) -> (r: Option<i64>)
    ensures
        match r {
            Some(v) => light_milli_of(s@) == Some(v as int),
            None => light_milli_of(s@) is None,
        },
{
    let t = trim_ws(s);
    let p = trim_parens(t);
    let tok = first_field(p);
    proof {
        assert(tok@ == sensor_token(s@));
    }
    parse_decimal_milli(tok)
}

/// The power-supply flag: the trimmed text read as a signed 32-bit integer,
/// `Some(true)` exactly when it denotes 1, `None` exactly where the
/// specification rejects the contents.
#[verifier::loop_isolation(false)]
pub fn parse_power_online(s: &[u8]) -> (r: Option<bool>)
    ensures
        match r {
            Some(b) => power_flag_of(s@) is Some && (b <==> power_flag_of(s@) == Some(1int)),
            None => power_flag_of(s@) is None,
        },
{
    let t: &[u8] = trim_ws(s);
    let n: usize = t.len();
    let neg: bool;
    let start: usize;
    if n > 0 && (t[0] == 43 || t[0] == 45) {
        neg = t[0] == 45;
        start = 1;
    } else {
        neg = false;
        start = 0;
    }
    let u: &[u8] = slice_subrange(t, start, n);
    proof {
        assert(u@ =~= magnitude(t@));
        assert(neg == is_negative(t@));
    }
    let un: usize = u.len();
    if un == 0 {
        return None;
    }
    let mut i: usize = 0;
    while i < un
        invariant
            i <= un,
            forall|q: int| 0 <= q < i ==> is_ascii_digit(u@[q]),
        decreases un - i,
    {
        let b: u8 = u[i];
        if b < 48 || b > 57 {
            proof {
                assert(!is_ascii_digit(u@[i as int]));
            }
            return None;
        }
        i = i + 1;
    }
    proof {
        assert(all_digits(u@));
    }
    let mut z: usize = 0;
    while z < un && u[z] == 48
        invariant
            z <= un,
            forall|q: int| 0 <= q < z ==> u@[q] == 48,
        decreases un - z,
    {
        z = z + 1;
    }
    proof {
        lemma_strip_zeros_at(u@, z as int);
        lemma_digits_val_leading_zeros(u@, z as int);
    }
    if un - z > 10 {
        proof {
            let w = u@.subrange(z as int, un as int);
            assert(w[0] == u@[z as int]);
            lemma_digits_val_lower(w);
            lemma_pow10_le(10nat, (w.len() - 1) as nat);
            lemma_pow10_vals();
        }
        return None;
    }
    let mut v: i64 = 0;
    let mut k: usize = z;
    while k < un
        invariant
            z <= k <= un,
            un - z <= 10,
            v == digits_val(u@.subrange(z as int, k as int)),
            0 <= v < pow10((k - z) as nat),
        decreases un - k,
    {
        let b: u8 = u[k];
        proof {
            assert(is_ascii_digit(u@[k as int]));
            lemma_pow10_vals();
            lemma_pow10_le((k - z + 1) as nat, 10nat);
            assert(pow10((k - z + 1) as nat) == 10 * pow10((k - z) as nat));
            assert(u@.subrange(z as int, k as int + 1).drop_last() =~= u@.subrange(
                z as int,
                k as int,
            ));
            assert(u@.subrange(z as int, k as int + 1).last() == b);
        }
        v = v * 10 + ((b - 48) as i64);
        k = k + 1;
    }
    proof {
        assert(v == digits_val(u@));
    }
    if neg {
        if v > 2147483648 {
            return None;
        }
    } else {
        if v > 2147483647 {
            return None;
        }
    }
    Some(!neg && v == 1)
}

/// A capacity file's value: the trimmed text read as an unsigned 32-bit
/// integer, `None` exactly where the specification rejects the contents.
#[verifier::loop_isolation(false)]
pub fn parse_capacity(s: &[u8]) -> (r: Option<u32>)
    ensures
        match r {
            Some(v) => capacity_of(s@) == Some(v as int),
            None => capacity_of(s@) is None,
        },
{
    let t: &[u8] = trim_ws(s);
    let n: usize = t.len();
    if n == 0 {
        return None;
    }
    let mut i: usize = 0;
    while i < n
        invariant
            i <= n,
            forall|q: int| 0 <= q < i ==> is_ascii_digit(t@[q]),
        decreases n - i,
    {
        let b: u8 = t[i];
        if b < 48 || b > 57 {
            proof {
                assert(!is_ascii_digit(t@[i as int]));
            }
            return None;
        }
        i = i + 1;
    }
    proof {
        assert(all_digits(t@));
    }
    let mut z: usize = 0;
    while z < n && t[z] == 48
        invariant
            z <= n,
            forall|q: int| 0 <= q < z ==> t@[q] == 48,
        decreases n - z,
    {
        z = z + 1;
    }
    proof {
        lemma_strip_zeros_at(t@, z as int);
        lemma_digits_val_leading_zeros(t@, z as int);
    }
    if n - z > 10 {
        proof {
            let w = t@.subrange(z as int, n as int);
            assert(w[0] == t@[z as int]);
            lemma_digits_val_lower(w);
            lemma_pow10_le(10nat, (w.len() - 1) as nat);
            lemma_pow10_vals();
        }
        return None;
    }
    let mut v: i64 = 0;
    let mut k: usize = z;
    while k < n
        invariant
            z <= k <= n,
            n - z <= 10,
            v == digits_val(t@.subrange(z as int, k as int)),
            0 <= v < pow10((k - z) as nat),
        decreases n - k,
    {
        let b: u8 = t[k];
        proof {
            assert(is_ascii_digit(t@[k as int]));
            lemma_pow10_vals();
            lemma_pow10_le((k - z + 1) as nat, 10nat);
            assert(pow10((k - z + 1) as nat) == 10 * pow10((k - z) as nat));
            assert(t@.subrange(z as int, k as int + 1).drop_last() =~= t@.subrange(
                z as int,
                k as int,
            ));
            assert(t@.subrange(z as int, k as int + 1).last() == b);
        }
        v = v * 10 + ((b - 48) as i64);
        k = k + 1;
    }
    proof {
        assert(v == digits_val(t@));
    }
    if v > 4294967295 {
        return None;
    }
    Some(v as u32)
}

} // verus!
