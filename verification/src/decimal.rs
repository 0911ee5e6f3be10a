//! Exact decimal amounts: parsing of ASCII decimal strings (digits with at
//! most one dot) and exact numeric comparison, with the magnitude modelled as
//! an integer numerator over a power-of-ten scale.

use vstd::prelude::*;

verus! {

/// Ten raised to the power `n`.
pub open spec fn pow10(n: nat) -> nat
    decreases n,
{
    if n == 0 {
        1
    } else {
        10 * pow10((n - 1) as nat)
    }
}

/// Every element is a digit value, below ten.
pub open spec fn is_digit_seq(s: Seq<u8>) -> bool {
    forall|i: int| 0 <= i < s.len() ==> s[i] < 10
}

/// The number that a big-endian sequence of digit values denotes.
pub open spec fn digits_val(s: Seq<u8>) -> nat
    decreases s.len(),
{
    if s.len() == 0 {
        0
    } else {
        (s[0] as nat) * pow10((s.len() - 1) as nat) + digits_val(s.skip(1))
    }
}

proof fn lemma_pow10_pos(n: nat)
    ensures
        pow10(n) >= 1,
    decreases n,
{
    if n > 0 {
        lemma_pow10_pos((n - 1) as nat);
    }
}

proof fn lemma_pow10_adds(a: nat, b: nat)
    ensures
        pow10(a + b) == pow10(a) * pow10(b),
    decreases a,
{
    if a == 0 {
        assert(pow10(0) == 1);
    } else {
        lemma_pow10_adds((a - 1) as nat, b);
        assert((a + b - 1) as nat == (a - 1) as nat + b);
        assert(pow10(a + b) == 10 * pow10((a + b - 1) as nat));
        assert(pow10(a) == 10 * pow10((a - 1) as nat));
        assert(10 * (pow10((a - 1) as nat) * pow10(b)) == (10 * pow10((a - 1) as nat)) * pow10(b))
            by (nonlinear_arith);
    }
}

proof fn lemma_pow10_mono(a: nat, b: nat)
    requires
        a <= b,
    ensures
        pow10(a) <= pow10(b),
    decreases b,
{
    if a < b {
        lemma_pow10_mono(a, (b - 1) as nat);
        lemma_pow10_pos((b - 1) as nat);
    }
}

proof fn lemma_digits_val_bound(s: Seq<u8>)
    requires
        is_digit_seq(s),
    ensures
        digits_val(s) < pow10(s.len()),
    decreases s.len(),
{
    if s.len() == 0 {
    } else {
        let rest = s.skip(1);
        assert(forall|i: int| 0 <= i < rest.len() ==> rest[i] == s[i + 1]);
        lemma_digits_val_bound(rest);
        let p = pow10((s.len() - 1) as nat);
        lemma_pow10_pos((s.len() - 1) as nat);
        assert((s[0] as nat) * p + digits_val(rest) < 10 * p) by (nonlinear_arith)
            requires
                (s[0] as nat) < 10,
                digits_val(rest) < p,
                p >= 1;
        assert(pow10(s.len()) == 10 * p);
    }
}

proof fn lemma_digits_val_lower(s: Seq<u8>)
    requires
        s.len() > 0,
        s[0] > 0,
    ensures
        digits_val(s) >= pow10((s.len() - 1) as nat),
{
    let p = pow10((s.len() - 1) as nat);
    assert((s[0] as nat) * p >= 1 * p) by (nonlinear_arith)
        requires
            (s[0] as nat) >= 1,
            p >= 0;
}

proof fn lemma_digits_val_strip(s: Seq<u8>, k: int)
    requires
        0 <= k <= s.len(),
        forall|i: int| 0 <= i < k ==> s[i] == 0,
    ensures
        digits_val(s) == digits_val(s.skip(k)),
    decreases k,
{
    if k == 0 {
        assert(s.skip(0) =~= s);
    } else {
        assert(digits_val(s) == digits_val(s.skip(1)));
        assert(s.skip(1).skip(k - 1) =~= s.skip(k));
        assert(forall|i: int| 0 <= i < k - 1 ==> s.skip(1)[i] == s[i + 1]);
        lemma_digits_val_strip(s.skip(1), k - 1);
    }
}

proof fn lemma_digits_val_concat(x: Seq<u8>, y: Seq<u8>)
    ensures
        digits_val(x + y) == digits_val(x) * pow10(y.len()) + digits_val(y),
    decreases x.len(),
{
    if x.len() == 0 {
        assert(x + y =~= y);
        assert(digits_val(x) == 0);
        assert(digits_val(x) * pow10(y.len()) == 0) by (nonlinear_arith)
            requires
                digits_val(x) == 0;
        assert(digits_val(x + y) == digits_val(y));
    } else {
        assert((x + y).skip(1) =~= x.skip(1) + y);
        lemma_digits_val_concat(x.skip(1), y);
        let n = (x.len() + y.len() - 1) as nat;
        let m = (x.len() - 1) as nat;
        lemma_pow10_adds(m, y.len());
        assert(pow10(n) == pow10(m) * pow10(y.len()));
        assert((x + y).len() == x.len() + y.len());
        assert((x + y)[0] == x[0]);
        assert(digits_val(x) == (x[0] as nat) * pow10(m) + digits_val(x.skip(1)));
        assert(digits_val(x + y) == ((x + y)[0] as nat) * pow10(n) + digits_val((x + y).skip(1)));
        assert(digits_val(x + y) == (x[0] as nat) * (pow10(m) * pow10(y.len()))
            + digits_val(x.skip(1)) * pow10(y.len()) + digits_val(y));
        assert(digits_val(x + y) == digits_val(x) * pow10(y.len()) + digits_val(y))
            by (nonlinear_arith)
            requires
                digits_val(x + y) == (x[0] as nat) * (pow10(m) * pow10(y.len())) + digits_val(
                    x.skip(1),
                ) * pow10(y.len()) + digits_val(y),
                digits_val(x) == (x[0] as nat) * pow10(m) + digits_val(x.skip(1));
    }
}

proof fn lemma_prefix_dominates(a: Seq<u8>, b: Seq<u8>, i: int)
    requires
        a.len() == b.len(),
        is_digit_seq(a),
        is_digit_seq(b),
        0 <= i < a.len(),
        a.subrange(0, i) == b.subrange(0, i),
        a[i] > b[i],
    ensures
        digits_val(a) > digits_val(b),
{
    assert(a =~= a.subrange(0, i) + a.skip(i));
    assert(b =~= b.subrange(0, i) + b.skip(i));
    lemma_digits_val_concat(a.subrange(0, i), a.skip(i));
    lemma_digits_val_concat(b.subrange(0, i), b.skip(i));
    let sa = a.skip(i);
    let sb = b.skip(i);
    assert(forall|j: int| 0 <= j < sa.len() ==> sa[j] == a[i + j]);
    assert(forall|j: int| 0 <= j < sb.len() ==> sb[j] == b[i + j]);
    let m = (sa.len() - 1) as nat;
    assert(sa.len() == sb.len());
    assert(forall|j: int| 0 <= j < sb.skip(1).len() ==> sb.skip(1)[j] == sb[j + 1]);
    lemma_digits_val_bound(sb.skip(1));
    assert(digits_val(sa) >= (sa[0] as nat) * pow10(m));
    assert(digits_val(sb) == (sb[0] as nat) * pow10(m) + digits_val(sb.skip(1)));
    assert((sa[0] as nat) * pow10(m) >= (sb[0] as nat) * pow10(m) + pow10(m)) by (nonlinear_arith)
        requires
            (sa[0] as nat) >= (sb[0] as nat) + 1,
            pow10(m) >= 0;
    assert(digits_val(sa) > digits_val(sb));
    assert(digits_val(a.subrange(0, i)) == digits_val(b.subrange(0, i)));
    assert(digits_val(a) == digits_val(a.subrange(0, i)) * pow10(sa.len()) + digits_val(sa));
    assert(digits_val(b) == digits_val(b.subrange(0, i)) * pow10(sb.len()) + digits_val(sb));
}

/// ASCII code of the decimal point.
pub const DOT: u8 = 46;

/// ASCII code of the digit zero.
pub const ZERO: u8 = 48;

/// `c` is an ASCII digit.
pub open spec fn is_dec_digit(c: u8) -> bool {
    48 <= c <= 57
}

/// `s` is a well-formed non-negative decimal string: every character is a
/// digit or a dot, at most one dot occurs, and at least one digit occurs.
pub open spec fn is_decimal_str(s: Seq<u8>) -> bool {
    &&& forall|i: int| 0 <= i < s.len() ==> is_dec_digit(s[i]) || s[i] == DOT
    &&& forall|i: int, j: int|
        0 <= i < s.len() && 0 <= j < s.len() && s[i] == DOT && s[j] == DOT ==> i == j
    &&& exists|i: int| 0 <= i < s.len() && is_dec_digit(s[i])
}

/// The digit values (each below ten) of a sequence of ASCII digit characters.
pub open spec fn digit_values(s: Seq<u8>) -> Seq<u8> {
    Seq::new(s.len(), |i: int| (s[i] - ZERO) as u8)
}

/// Whether `s` contains a dot.
pub open spec fn has_dot(s: Seq<u8>) -> bool {
    exists|i: int| 0 <= i < s.len() && s[i] == DOT
}

/// The position of the dot of `s`; meaningful when exactly one dot occurs.
pub open spec fn dot_index(s: Seq<u8>) -> int {
    choose|i: int| 0 <= i < s.len() && s[i] == DOT
}

/// The digit values before the dot (the whole string when no dot occurs).
pub open spec fn int_part(s: Seq<u8>) -> Seq<u8> {
    if has_dot(s) {
        digit_values(s.subrange(0, dot_index(s)))
    } else {
        digit_values(s)
    }
}

/// The digit values after the dot (empty when no dot occurs).
pub open spec fn frac_part(s: Seq<u8>) -> Seq<u8> {
    if has_dot(s) {
        digit_values(s.subrange(dot_index(s) + 1, s.len() as int))
    } else {
        Seq::empty()
    }
}

/// Exact comparison of two decimal magnitudes by cross-multiplication: the
/// amount with integer digits `ia` and fractional digits `fa` is at least the
/// one with `ib` and `fb` when the numerators, brought to a common scale,
/// compare that way.
pub open spec fn dec_ge(ia: Seq<u8>, fa: Seq<u8>, ib: Seq<u8>, fb: Seq<u8>) -> bool {
    digits_val(ia + fa) * pow10(fb.len()) >= digits_val(ib + fb) * pow10(fa.len())
}

/// A parsed non-negative decimal amount: integer digits and fractional
/// digits, each a digit value below ten.
pub struct Amount {
    /// Digit values of the integer part, most significant first.
    pub int_digits: Vec<u8>,
    /// Digit values of the fractional part, most significant first.
    pub frac_digits: Vec<u8>,
}

impl Amount {
    /// Every stored digit is a value below ten.
    pub open spec fn wf(&self) -> bool {
        is_digit_seq(self.int_digits@) && is_digit_seq(self.frac_digits@)
    }
}

/// Stateless decimal-string parser.
pub struct DecimalParser;

impl DecimalParser {
    /// Parses an ASCII byte string as a non-negative decimal number. Returns
    /// `None` exactly on malformed input: a character outside digits and the
    /// dot, a second dot, or a string with no digit at all.
    pub fn parse(data: &Vec<u8>) -> (r: Option<Amount>)
        ensures
            r.is_some() <==> is_decimal_str(data@),
            match r {
                Some(a) => a.wf() && a.int_digits@ == int_part(data@) && a.frac_digits@
                    == frac_part(data@),
                None => true,
            },
    {
        let mut int_digits: Vec<u8> = Vec::new();
        let mut frac_digits: Vec<u8> = Vec::new();
        let mut dot_found: bool = false;
        let mut dot_pos: usize = 0;
        let mut seen_digit: bool = false;
        let mut i: usize = 0;
        while i < data.len()
            invariant
                i <= data@.len(),
                forall|j: int| 0 <= j < i ==> is_dec_digit(data@[j]) || data@[j] == DOT,
                !dot_found ==> (forall|j: int| 0 <= j < i ==> data@[j] != DOT),
                !dot_found ==> int_digits@ == digit_values(data@.subrange(0, i as int)),
                !dot_found ==> frac_digits@ == Seq::<u8>::empty(),
                dot_found ==> dot_pos < i && data@[dot_pos as int] == DOT,
                dot_found ==> (forall|j: int| 0 <= j < i && j != dot_pos ==> data@[j] != DOT),
                dot_found ==> int_digits@ == digit_values(data@.subrange(0, dot_pos as int)),
                dot_found ==> frac_digits@ == digit_values(
                    data@.subrange(dot_pos + 1, i as int),
                ),
                seen_digit <==> (exists|j: int| 0 <= j < i && is_dec_digit(data@[j])),
            decreases data@.len() - i,
        {
            let c = data[i];
            if c == DOT {
                if dot_found {
                    proof {
                        assert(data@[dot_pos as int] == DOT && data@[i as int] == DOT && dot_pos
                            != i as int);
                        assert(!is_decimal_str(data@));
                    }
                    return None;
                }
                dot_found = true;
                dot_pos = i;
                proof {
                    assert(int_digits@ == digit_values(data@.subrange(0, dot_pos as int)));
                    assert(frac_digits@ =~= digit_values(data@.subrange(dot_pos + 1, i + 1)));
                }
            } else if c >= ZERO && c <= 57 {
                if dot_found {
                    frac_digits.push(c - ZERO);
                    proof {
                        assert(frac_digits@ =~= digit_values(data@.subrange(dot_pos + 1, i + 1)));
                    }
                } else {
                    int_digits.push(c - ZERO);
                    proof {
                        assert(int_digits@ =~= digit_values(data@.subrange(0, i + 1)));
                    }
                }
                seen_digit = true;
            } else {
                proof {
                    assert(!(is_dec_digit(data@[i as int]) || data@[i as int] == DOT));
                    assert(!is_decimal_str(data@));
                }
                return None;
            }
            i = i + 1;
        }
        if !seen_digit {
            proof {
                assert(forall|j: int| 0 <= j < data@.len() ==> !is_dec_digit(data@[j]));
                assert(!is_decimal_str(data@));
            }
            return None;
        }
        proof {
            assert(is_decimal_str(data@));
            if dot_found {
                assert(has_dot(data@));
                let d = dot_index(data@);
                assert(0 <= d < data@.len() && data@[d] == DOT);
                assert(d == dot_pos as int);
                assert(frac_digits@ == digit_values(data@.subrange(dot_pos + 1, data@.len() as int)));
            } else {
                assert(!has_dot(data@));
                assert(int_digits@ == digit_values(data@.subrange(0, data@.len() as int)));
                assert(data@.subrange(0, data@.len() as int) =~= data@);
            }
            assert(forall|j: int|
                0 <= j < int_digits@.len() ==> int_digits@[j] < 10);
            assert(forall|j: int|
                0 <= j < frac_digits@.len() ==> frac_digits@[j] < 10);
        }
        Some(Amount { int_digits, frac_digits })
    }
}

proof fn lemma_digits_val_zeros(k: nat)
    ensures
        digits_val(crate::hash::zero_bytes(k)) == 0,
{
    let z = crate::hash::zero_bytes(k);
    lemma_digits_val_strip(z, k as int);
    assert(z.skip(k as int) =~= Seq::<u8>::empty());
}

proof fn lemma_scaled_compare(a: nat, b: nat, u: nat, v: nat, p: nat)
    by (nonlinear_arith)
    requires
        u < p,
        v < p,
    ensures
        (a * p + u >= b * p + v) <==> (a > b || (a == b && u >= v)),
{
}

proof fn lemma_mul_ge_iff(x: nat, y: nat, c: nat)
    by (nonlinear_arith)
    requires
        c >= 1,
    ensures
        (x * c >= y * c) <==> (x >= y),
{
}

/// Compares two big-endian digit sequences by value: returns 1, 0 or -1 as
/// the first is greater than, equal to, or less than the second.
#[verifier::loop_isolation(false)]
fn cmp_digits(a: &Vec<u8>, b: &Vec<u8>) -> (r: i8)
    requires
        is_digit_seq(a@),
        is_digit_seq(b@),
    ensures
        -1 <= r <= 1,
        r == 1 ==> digits_val(a@) > digits_val(b@),
        r == 0 ==> digits_val(a@) == digits_val(b@),
        r == -1 ==> digits_val(a@) < digits_val(b@),
{
    let mut ia: usize = 0;
    while ia < a.len() && a[ia] == 0
        invariant
            ia <= a@.len(),
            forall|j: int| 0 <= j < ia ==> a@[j] == 0,
        decreases a@.len() - ia,
    {
        ia = ia + 1;
    }
    let mut ib: usize = 0;
    while ib < b.len() && b[ib] == 0
        invariant
            ib <= b@.len(),
            forall|j: int| 0 <= j < ib ==> b@[j] == 0,
        decreases b@.len() - ib,
    {
        ib = ib + 1;
    }
    proof {
        lemma_digits_val_strip(a@, ia as int);
        lemma_digits_val_strip(b@, ib as int);
    }
    let ghost sa = a@.skip(ia as int);
    let ghost sb = b@.skip(ib as int);
    proof {
        assert(forall|j: int| 0 <= j < sa.len() ==> sa[j] == a@[ia + j]);
        assert(forall|j: int| 0 <= j < sb.len() ==> sb[j] == b@[ib + j]);
        lemma_digits_val_bound(sa);
        lemma_digits_val_bound(sb);
    }
    let ea = a.len() - ia;
    let eb = b.len() - ib;
    if ea > eb {
        proof {
            lemma_digits_val_lower(sa);
            lemma_pow10_mono(eb as nat, (ea - 1) as nat);
        }
        return 1;
    }
    if ea < eb {
        proof {
            lemma_digits_val_lower(sb);
            lemma_pow10_mono(ea as nat, (eb - 1) as nat);
        }
        return -1;
    }
    let mut j: usize = 0;
    while j < ea
        invariant
            j <= ea,
            forall|t: int| 0 <= t < j ==> #[trigger] a@[ia + t] == b@[ib + t],
        decreases ea - j,
    {
        let x = a[ia + j];
        let y = b[ib + j];
        if x > y {
            proof {
                assert(sa.subrange(0, j as int) =~= sb.subrange(0, j as int));
                lemma_prefix_dominates(sa, sb, j as int);
            }
            return 1;
        }
        if x < y {
            proof {
                assert(sb.subrange(0, j as int) =~= sa.subrange(0, j as int));
                lemma_prefix_dominates(sb, sa, j as int);
            }
            return -1;
        }
        j = j + 1;
    }
    proof {
        assert(sa =~= sb);
    }
    0
}

/// Appends zero digits to `v` until it has length `n`.
#[verifier::loop_isolation(false)]
fn pad_zeros(v: &mut Vec<u8>, n: usize)
    requires
        old(v)@.len() <= n,
    ensures
        final(v)@ == old(v)@ + crate::hash::zero_bytes((n - old(v)@.len()) as nat),
{
    while v.len() < n
        invariant
            old(v)@.len() <= v@.len() <= n,
            v@ == old(v)@ + crate::hash::zero_bytes((v@.len() - old(v)@.len()) as nat),
        decreases n - v@.len(),
    {
        v.push(0u8);
        proof {
            assert(v@ =~= old(v)@ + crate::hash::zero_bytes((v@.len() - old(v)@.len()) as nat));
        }
    }
}

impl Amount {
    /// Exact numeric comparison: whether this amount is at least `other`.
    pub fn at_least(&self, other: &Amount) -> (r: bool)
        requires
            self.wf(),
            other.wf(),
        ensures
            r == dec_ge(self.int_digits@, self.frac_digits@, other.int_digits@,
                other.frac_digits@),
    {
        let cint = cmp_digits(&self.int_digits, &other.int_digits);
        let fa_len = self.frac_digits.len();
        let fb_len = other.frac_digits.len();
        let l = if fa_len > fb_len {
            fa_len
        } else {
            fb_len
        };
        let mut fa_pad: Vec<u8> = Vec::new();
        crate::hash::push_bytes(&mut fa_pad, &self.frac_digits);
        pad_zeros(&mut fa_pad, l);
        let mut fb_pad: Vec<u8> = Vec::new();
        crate::hash::push_bytes(&mut fb_pad, &other.frac_digits);
        pad_zeros(&mut fb_pad, l);
        proof {
            assert(Seq::<u8>::empty() + self.frac_digits@ =~= self.frac_digits@);
            assert(Seq::<u8>::empty() + other.frac_digits@ =~= other.frac_digits@);
            assert(forall|j: int|
                0 <= j < fa_pad@.len() ==> fa_pad@[j] < 10);
            assert(forall|j: int|
                0 <= j < fb_pad@.len() ==> fb_pad@[j] < 10);
        }
        let cfrac = cmp_digits(&fa_pad, &fb_pad);
        let r = cint == 1 || (cint == 0 && cfrac >= 0);
        proof {
            let ia = self.int_digits@;
            let fa = self.frac_digits@;
            let ib = other.int_digits@;
            let fb = other.frac_digits@;
            let aa = digits_val(ia);
            let bb = digits_val(ib);
            let xa = digits_val(fa);
            let xb = digits_val(fb);
            let na = digits_val(ia + fa);
            let nb = digits_val(ib + fb);
            let m = (fa.len() + fb.len() - l) as nat;
            let xx = digits_val(fa_pad@);
            let yy = digits_val(fb_pad@);

            // The padded fractions denote the original fractions at scale `l`.
            lemma_digits_val_concat(fa, crate::hash::zero_bytes((l - fa.len()) as nat));
            lemma_digits_val_concat(fb, crate::hash::zero_bytes((l - fb.len()) as nat));
            lemma_digits_val_zeros((l - fa.len()) as nat);
            lemma_digits_val_zeros((l - fb.len()) as nat);
            assert(xx == xa * pow10((l - fa.len()) as nat));
            assert(yy == xb * pow10((l - fb.len()) as nat));

            // `cfrac` decides `xa * pow10(fb.len()) >= xb * pow10(fa.len())`.
            lemma_pow10_adds((l - fa.len()) as nat, m);
            lemma_pow10_adds((l - fb.len()) as nat, m);
            lemma_pow10_pos(m);
            assert((l - fa.len()) as nat + m == fb.len());
            assert((l - fb.len()) as nat + m == fa.len());
            assert(xx * pow10(m) == xa * pow10(fb.len())) by (nonlinear_arith)
                requires
                    xx == xa * pow10((l - fa.len()) as nat),
                    pow10((l - fa.len()) as nat) * pow10(m) == pow10(fb.len() as nat);
            assert(yy * pow10(m) == xb * pow10(fa.len())) by (nonlinear_arith)
                requires
                    yy == xb * pow10((l - fb.len()) as nat),
                    pow10((l - fb.len()) as nat) * pow10(m) == pow10(fa.len() as nat);
            lemma_mul_ge_iff(xx, yy, pow10(m));
            assert((xx >= yy) <==> (xa * pow10(fb.len()) >= xb * pow10(fa.len())));

            // Numerators split into integer and fractional contributions.
            lemma_digits_val_concat(ia, fa);
            lemma_digits_val_concat(ib, fb);
            lemma_pow10_adds(fa.len(), fb.len());
            lemma_digits_val_bound(fa);
            lemma_digits_val_bound(fb);
            lemma_pow10_pos(fa.len());
            lemma_pow10_pos(fb.len());
            let p = pow10(fa.len() + fb.len());
            assert(na * pow10(fb.len()) == aa * p + xa * pow10(fb.len())) by (nonlinear_arith)
                requires
                    na == aa * pow10(fa.len() as nat) + xa,
                    p == pow10(fa.len() as nat) * pow10(fb.len() as nat);
            assert(nb * pow10(fa.len()) == bb * p + xb * pow10(fa.len())) by (nonlinear_arith)
                requires
                    nb == bb * pow10(fb.len() as nat) + xb,
                    p == pow10(fa.len() as nat) * pow10(fb.len() as nat);
            assert(xa * pow10(fb.len()) < p) by (nonlinear_arith)
                requires
                    xa < pow10(fa.len() as nat),
                    pow10(fb.len() as nat) >= 1,
                    p == pow10(fa.len() as nat) * pow10(fb.len() as nat);
            assert(xb * pow10(fa.len()) < p) by (nonlinear_arith)
                requires
                    xb < pow10(fb.len() as nat),
                    pow10(fa.len() as nat) >= 1,
                    p == pow10(fa.len() as nat) * pow10(fb.len() as nat);
            lemma_scaled_compare(aa, bb, xa * pow10(fb.len()), xb * pow10(fa.len()), p);
            assert(dec_ge(ia, fa, ib, fb) <==> (aa > bb || (aa == bb && xa * pow10(fb.len())
                >= xb * pow10(fa.len()))));
            assert(r == (aa > bb || (aa == bb && xx >= yy)));
        }
        r
    }
}

} // verus!
