//! Ordering of dotted version strings.
//!
//! A version string is split on dots into segments. Purely numeric segments
//! compare by their numeric value; a numeric segment outranks a non-numeric
//! one; two non-numeric segments compare lexicographically by character code.
//! The shorter segment list is padded with zero segments, so `"24"` and
//! `"24.0"` are equal. The order is total over all strings: malformed and
//! empty strings simply fall into the non-numeric case.
#![allow(unused_imports)]
use vstd::prelude::*;

use crate::text::split_on;
use crate::text::split_on_exec;
use crate::text::chars_of;

verus! {

/// Outcome of comparing two version strings.
#[derive(Clone, Copy, PartialEq, Eq, Structural, Debug)]
pub enum Cmp {
    Less,
    Equal,
    Greater,
}

/// The mirror image of an outcome, for antisymmetry statements.
pub open spec fn flip(c: Cmp) -> Cmp {
    match c {
        Cmp::Less => Cmp::Greater,
        Cmp::Equal => Cmp::Equal,
        Cmp::Greater => Cmp::Less,
    }
}

pub open spec fn is_digit(c: char) -> bool {
    48 <= c as u32 && c as u32 <= 57
}

pub open spec fn digit_val(c: char) -> int {
    c as u32 - 48
}

pub open spec fn all_digits(s: Seq<char>) -> bool {
    forall|i: int| 0 <= i < s.len() ==> is_digit(s[i])
}

/// A segment is numeric when it is non-empty and all digits.
pub open spec fn is_numeric(s: Seq<char>) -> bool {
    s.len() > 0 && all_digits(s)
}

/// The numeric value of a digit string, most significant digit first.
pub open spec fn seg_val(s: Seq<char>) -> int
    decreases s.len(),
{
    if s.len() == 0 {
        0
    } else {
        seg_val(s.drop_last()) * 10 + digit_val(s.last())
    }
}

pub open spec fn cmp_int(x: int, y: int) -> Cmp {
    if x < y {
        Cmp::Less
    } else if x == y {
        Cmp::Equal
    } else {
        Cmp::Greater
    }
}

/// Lexicographic comparison by character code.
pub open spec fn lex_cmp(a: Seq<char>, b: Seq<char>) -> Cmp
    decreases a.len(),
{
    if a.len() == 0 && b.len() == 0 {
        Cmp::Equal
    } else if a.len() == 0 {
        Cmp::Less
    } else if b.len() == 0 {
        Cmp::Greater
    } else if (a[0] as u32) < (b[0] as u32) {
        Cmp::Less
    } else if (a[0] as u32) > (b[0] as u32) {
        Cmp::Greater
    } else {
        lex_cmp(a.skip(1), b.skip(1))
    }
}

/// One segment pair: numeric against numeric by value, numeric outranks
/// non-numeric, otherwise lexicographic.
pub open spec fn seg_cmp(a: Seq<char>, b: Seq<char>) -> Cmp {
    if is_numeric(a) && is_numeric(b) {
        cmp_int(seg_val(a), seg_val(b))
    } else if is_numeric(b) {
        Cmp::Less
    } else if is_numeric(a) {
        Cmp::Greater
    } else {
        lex_cmp(a, b)
    }
}

/// The zero segment that pads the shorter version.
pub open spec fn zero_seg() -> Seq<char> {
    seq!['0']
}

/// Segment lists compared pairwise, the shorter padded with zero segments.
pub open spec fn segs_cmp(a: Seq<Seq<char>>, b: Seq<Seq<char>>) -> Cmp
    decreases a.len() + b.len(),
{
    if a.len() == 0 && b.len() == 0 {
        Cmp::Equal
    } else {
        let ha = if a.len() > 0 { a[0] } else { zero_seg() };
        let hb = if b.len() > 0 { b[0] } else { zero_seg() };
        let ta = if a.len() > 0 { a.skip(1) } else { a };
        let tb = if b.len() > 0 { b.skip(1) } else { b };
        if seg_cmp(ha, hb) == Cmp::Equal {
            segs_cmp(ta, tb)
        } else {
            seg_cmp(ha, hb)
        }
    }
}

/// How two version strings are ordered.
pub open spec fn spec_compare(a: Seq<char>, b: Seq<char>) -> Cmp {
    segs_cmp(split_on(a, '.'), split_on(b, '.'))
}

proof fn lemma_lex_refl(a: Seq<char>)
    ensures
        lex_cmp(a, a) == Cmp::Equal,
    decreases a.len(),
{
    if a.len() > 0 {
        lemma_lex_refl(a.skip(1));
    }
}

proof fn lemma_lex_antisym(a: Seq<char>, b: Seq<char>)
    ensures
        lex_cmp(b, a) == flip(lex_cmp(a, b)),
    decreases a.len(),
{
    if a.len() > 0 && b.len() > 0 && a[0] as u32 == b[0] as u32 {
        lemma_lex_antisym(a.skip(1), b.skip(1));
    }
}

proof fn lemma_seg_refl(a: Seq<char>)
    ensures
        seg_cmp(a, a) == Cmp::Equal,
{
    if !is_numeric(a) {
        lemma_lex_refl(a);
    }
}

proof fn lemma_seg_antisym(a: Seq<char>, b: Seq<char>)
    ensures
        seg_cmp(b, a) == flip(seg_cmp(a, b)),
{
    if !is_numeric(a) && !is_numeric(b) {
        lemma_lex_antisym(a, b);
    }
}

proof fn lemma_segs_refl(x: Seq<Seq<char>>)
    ensures
        segs_cmp(x, x) == Cmp::Equal,
    decreases x.len(),
{
    if x.len() > 0 {
        lemma_seg_refl(x[0]);
        lemma_segs_refl(x.skip(1));
    }
}

proof fn lemma_segs_antisym(x: Seq<Seq<char>>, y: Seq<Seq<char>>)
    ensures
        segs_cmp(y, x) == flip(segs_cmp(x, y)),
    decreases x.len() + y.len(),
{
    if x.len() == 0 && y.len() == 0 {
    } else {
        let hx = if x.len() > 0 { x[0] } else { zero_seg() };
        let hy = if y.len() > 0 { y[0] } else { zero_seg() };
        let tx = if x.len() > 0 { x.skip(1) } else { x };
        let ty = if y.len() > 0 { y.skip(1) } else { y };
        lemma_seg_antisym(hx, hy);
        if seg_cmp(hx, hy) == Cmp::Equal {
            lemma_segs_antisym(tx, ty);
        }
    }
}

proof fn lemma_lex_trans(a: Seq<char>, b: Seq<char>, c: Seq<char>)
    requires
        lex_cmp(a, b) != Cmp::Greater,
        lex_cmp(b, c) != Cmp::Greater,
    ensures
        lex_cmp(a, c) != Cmp::Greater,
        lex_cmp(a, b) == Cmp::Less || lex_cmp(b, c) == Cmp::Less ==> lex_cmp(a, c)
            == Cmp::Less,
    decreases a.len() + b.len() + c.len(),
{
    if a.len() == 0 {
        if c.len() == 0 {
            assert(lex_cmp(b, c) != Cmp::Less);
        }
    } else {
        assert(b.len() > 0);
        assert(c.len() > 0);
        if (a[0] as u32) == (b[0] as u32) && (b[0] as u32) == (c[0] as u32) {
            lemma_lex_trans(a.skip(1), b.skip(1), c.skip(1));
        }
    }
}

proof fn lemma_seg_trans(a: Seq<char>, b: Seq<char>, c: Seq<char>)
    requires
        seg_cmp(a, b) != Cmp::Greater,
        seg_cmp(b, c) != Cmp::Greater,
    ensures
        seg_cmp(a, c) != Cmp::Greater,
        seg_cmp(a, b) == Cmp::Less || seg_cmp(b, c) == Cmp::Less ==> seg_cmp(a, c)
            == Cmp::Less,
{
    if !is_numeric(a) && !is_numeric(b) && !is_numeric(c) {
        lemma_lex_trans(a, b, c);
    }
}

proof fn lemma_segs_trans(x: Seq<Seq<char>>, y: Seq<Seq<char>>, z: Seq<Seq<char>>)
    requires
        segs_cmp(x, y) != Cmp::Greater,
        segs_cmp(y, z) != Cmp::Greater,
    ensures
        segs_cmp(x, z) != Cmp::Greater,
        segs_cmp(x, y) == Cmp::Less || segs_cmp(y, z) == Cmp::Less ==> segs_cmp(x, z)
            == Cmp::Less,
    decreases x.len() + y.len() + z.len(),
{
    if x.len() == 0 && y.len() == 0 && z.len() == 0 {
    } else {
        let hx = if x.len() > 0 { x[0] } else { zero_seg() };
        let hy = if y.len() > 0 { y[0] } else { zero_seg() };
        let hz = if z.len() > 0 { z[0] } else { zero_seg() };
        let tx = if x.len() > 0 { x.skip(1) } else { x };
        let ty = if y.len() > 0 { y.skip(1) } else { y };
        let tz = if z.len() > 0 { z.skip(1) } else { z };
        lemma_seg_trans(hx, hy, hz);
        if seg_cmp(hx, hy) == Cmp::Equal && seg_cmp(hy, hz) == Cmp::Equal {
            lemma_seg_antisym(hx, hy);
            lemma_seg_antisym(hy, hz);
            lemma_seg_trans(hz, hy, hx);
            lemma_seg_antisym(hx, hz);
            assert(seg_cmp(hx, hz) == Cmp::Equal);
            lemma_segs_trans(tx, ty, tz);
        }
    }
}

/// The order is transitive: chains of "not newer" compose, and strictly
/// older anywhere in the chain keeps the whole chain strictly older.
pub proof fn lemma_compare_transitive(a: Seq<char>, b: Seq<char>, c: Seq<char>)
    requires
        spec_compare(a, b) != Cmp::Greater,
        spec_compare(b, c) != Cmp::Greater,
    ensures
        spec_compare(a, c) != Cmp::Greater,
        spec_compare(a, b) == Cmp::Less || spec_compare(b, c) == Cmp::Less ==> spec_compare(
            a,
            c,
        ) == Cmp::Less,
{
    lemma_segs_trans(split_on(a, '.'), split_on(b, '.'), split_on(c, '.'));
}

/// The order is reflexive: every string, well formed or not, equals itself.
pub proof fn lemma_compare_reflexive(a: Seq<char>)
    ensures
        spec_compare(a, a) == Cmp::Equal,
{
    lemma_segs_refl(split_on(a, '.'));
}

/// The order is total and antisymmetric: swapping the arguments mirrors the
/// outcome, so one side is greater exactly when the other is less, and
/// equality is mutual.
pub proof fn lemma_compare_antisymmetric(a: Seq<char>, b: Seq<char>)
    ensures
        spec_compare(b, a) == flip(spec_compare(a, b)),
        spec_compare(a, b) == Cmp::Greater <==> spec_compare(b, a) == Cmp::Less,
        spec_compare(a, b) == Cmp::Equal <==> spec_compare(b, a) == Cmp::Equal,
{
    lemma_segs_antisym(split_on(a, '.'), split_on(b, '.'));
}

pub open spec fn pow10(n: nat) -> int
    decreases n,
{
    if n == 0 {
        1
    } else {
        10 * pow10((n - 1) as nat)
    }
}

proof fn lemma_pow10_pos(n: nat)
    ensures
        pow10(n) >= 1,
    decreases n,
{
    if n > 0 {
        lemma_pow10_pos((n - 1) as nat);
    }
}

proof fn lemma_pow10_mono(m: nat, n: nat)
    requires
        m <= n,
    ensures
        pow10(m) <= pow10(n),
    decreases n,
{
    if m < n {
        lemma_pow10_mono(m, (n - 1) as nat);
        lemma_pow10_pos((n - 1) as nat);
    }
}

proof fn lemma_seg_val_bounds(s: Seq<char>)
    requires
        all_digits(s),
    ensures
        0 <= seg_val(s),
        seg_val(s) < pow10(s.len()),
    decreases s.len(),
{
    if s.len() > 0 {
        lemma_seg_val_bounds(s.drop_last());
    }
}

/// A digit string without a leading zero reaches its full magnitude.
proof fn lemma_seg_val_lower(s: Seq<char>)
    requires
        all_digits(s),
        s.len() >= 1,
        digit_val(s[0]) >= 1,
    ensures
        seg_val(s) >= pow10((s.len() - 1) as nat),
    decreases s.len(),
{
    if s.len() == 1 {
        assert(s.drop_last() =~= Seq::<char>::empty());
        assert(seg_val(Seq::<char>::empty()) == 0);
        assert(seg_val(s) == digit_val(s[0]));
    } else {
        assert(digit_val(s.drop_last()[0]) >= 1);
        lemma_seg_val_lower(s.drop_last());
        assert(is_digit(s[s.len() - 1]));
        assert(digit_val(s.last()) >= 0);
        assert(pow10((s.len() - 1) as nat) == 10 * pow10((s.len() - 2) as nat));
        assert(seg_val(s) == seg_val(s.drop_last()) * 10 + digit_val(s.last()));
    }
}

/// Leading zeros do not change a digit string's value.
proof fn lemma_seg_val_skip_zeros(s: Seq<char>, z: int)
    requires
        all_digits(s),
        0 <= z <= s.len(),
        forall|j: int| 0 <= j < z ==> digit_val(s[j]) == 0,
    ensures
        seg_val(s.skip(z)) == seg_val(s),
    decreases s.len(),
{
    if s.len() == 0 {
        assert(s.skip(z) =~= s);
    } else if z == s.len() {
        assert(s.skip(z) =~= Seq::<char>::empty());
        assert(digit_val(s.last()) == 0);
        lemma_seg_val_skip_zeros(s.drop_last(), z - 1);
        assert(s.drop_last().skip(z - 1) =~= Seq::<char>::empty());
    } else {
        assert(s.skip(z).drop_last() =~= s.drop_last().skip(z));
        assert(s.skip(z).last() == s.last());
        lemma_seg_val_skip_zeros(s.drop_last(), z);
    }
}

/// A digit string's value splits at any cut into high and low parts.
proof fn lemma_seg_val_split(s: Seq<char>, k: int)
    requires
        0 <= k <= s.len(),
    ensures
        seg_val(s) == seg_val(s.take(k)) * pow10((s.len() - k) as nat) + seg_val(s.skip(k)),
    decreases s.len(),
{
    if k == s.len() {
        assert(s.take(k) =~= s);
        assert(s.skip(k) =~= Seq::<char>::empty());
    } else {
        let t = s.drop_last();
        assert(s.take(k) =~= t.take(k));
        assert(s.skip(k).drop_last() =~= t.skip(k));
        assert(s.skip(k).last() == s.last());
        assert(s.skip(k).len() == s.len() - k >= 1);
        lemma_seg_val_split(t, k);
        let x = seg_val(t.take(k));
        let p = pow10((t.len() - k) as nat);
        let y = seg_val(t.skip(k));
        let d = digit_val(s.last());
        assert(seg_val(t) == x * p + y);
        assert(seg_val(s) == seg_val(t) * 10 + d);
        assert((x * p + y) * 10 + d == x * (p * 10) + (y * 10 + d)) by (nonlinear_arith);
        assert(seg_val(s.skip(k)) == y * 10 + d);
        assert(pow10((s.len() - k) as nat) == 10 * p);
        assert(x * (p * 10) == x * (10 * p));
        assert(seg_val(s) == x * pow10((s.len() - k) as nat) + seg_val(s.skip(k)));
    }
}

#[verifier::loop_isolation(false)]
fn is_numeric_exec(s: &Vec<char>) -> (r: bool)
    ensures
        r == is_numeric(s@),
{
    if s.len() == 0 {
        return false;
    }
    let mut i: usize = 0;
    while i < s.len()
        invariant
            i <= s@.len(),
            forall|j: int| 0 <= j < i ==> is_digit(s@[j]),
        decreases s@.len() - i,
    {
        let c = s[i] as u32;
        if c < 48 || c > 57 {
            assert(!is_digit(s@[i as int]));
            return false;
        }
        assert(is_digit(s@[i as int]));
        i = i + 1;
    }
    true
}

#[verifier::loop_isolation(false)]
fn lex_cmp_exec(a: &Vec<char>, b: &Vec<char>) -> (r: Cmp)
    ensures
        r == lex_cmp(a@, b@),
{
    let n = if a.len() < b.len() { a.len() } else { b.len() };
    proof {
        assert(a@.skip(0) =~= a@);
        assert(b@.skip(0) =~= b@);
    }
    let mut i: usize = 0;
    while i < n
        invariant
            i <= n,
            lex_cmp(a@, b@) == lex_cmp(a@.skip(i as int), b@.skip(i as int)),
        decreases n - i,
    {
        let x = a[i] as u32;
        let y = b[i] as u32;
        proof {
            assert(a@.skip(i as int)[0] == a@[i as int]);
            assert(b@.skip(i as int)[0] == b@[i as int]);
        }
        if x < y {
            return Cmp::Less;
        }
        if x > y {
            return Cmp::Greater;
        }
        proof {
            assert(a@.skip(i as int).skip(1) =~= a@.skip(i + 1));
            assert(b@.skip(i as int).skip(1) =~= b@.skip(i + 1));
        }
        i = i + 1;
    }
    proof {
        if a@.len() < b@.len() {
            assert(a@.skip(i as int) =~= Seq::<char>::empty());
            assert(b@.skip(i as int).len() > 0);
        } else if a@.len() > b@.len() {
            assert(b@.skip(i as int) =~= Seq::<char>::empty());
            assert(a@.skip(i as int).len() > 0);
        } else {
            assert(a@.skip(i as int) =~= Seq::<char>::empty());
            assert(b@.skip(i as int) =~= Seq::<char>::empty());
        }
    }
    if a.len() < b.len() {
        Cmp::Less
    } else if a.len() > b.len() {
        Cmp::Greater
    } else {
        Cmp::Equal
    }
}

/// Numeric comparison of two digit strings of any length: strip leading
/// zeros, then the longer one is larger, then the first differing digit
/// decides.
#[verifier::loop_isolation(false)]
fn num_cmp_exec(a: &Vec<char>, b: &Vec<char>) -> (r: Cmp)
    requires
        is_numeric(a@),
        is_numeric(b@),
    ensures
        r == cmp_int(seg_val(a@), seg_val(b@)),
{
    let mut za: usize = 0;
    while za < a.len() - 1 && a[za] as u32 == 48
        invariant
            za < a@.len(),
            forall|j: int| 0 <= j < za ==> digit_val(a@[j]) == 0,
        decreases a@.len() - za,
    {
        za = za + 1;
    }
    let mut zb: usize = 0;
    while zb < b.len() - 1 && b[zb] as u32 == 48
        invariant
            zb < b@.len(),
            forall|j: int| 0 <= j < zb ==> digit_val(b@[j]) == 0,
        decreases b@.len() - zb,
    {
        zb = zb + 1;
    }
    let ghost sa = a@.skip(za as int);
    let ghost sb = b@.skip(zb as int);
    proof {
        lemma_seg_val_skip_zeros(a@, za as int);
        lemma_seg_val_skip_zeros(b@, zb as int);
        assert(sa.len() >= 1 && sb.len() >= 1);
        assert(sa.len() >= 2 ==> digit_val(sa[0]) >= 1);
        assert(sb.len() >= 2 ==> digit_val(sb[0]) >= 1);
        assert(all_digits(sa) && all_digits(sb));
    }
    let la = a.len() - za;
    let lb = b.len() - zb;
    if la < lb {
        proof {
            lemma_seg_val_bounds(sa);
            lemma_seg_val_lower(sb);
            lemma_pow10_mono(la as nat, (lb - 1) as nat);
        }
        return Cmp::Less;
    }
    if la > lb {
        proof {
            lemma_seg_val_bounds(sb);
            lemma_seg_val_lower(sa);
            lemma_pow10_mono(lb as nat, (la - 1) as nat);
        }
        return Cmp::Greater;
    }
    let mut k: usize = 0;
    while k < la
        invariant
            k <= la,
            la == lb,
            za + la == a@.len(),
            zb + lb == b@.len(),
            za < a@.len(),
            zb < b@.len(),
            sa == a@.skip(za as int),
            sb == b@.skip(zb as int),
            all_digits(sa),
            all_digits(sb),
            seg_val(sa) == seg_val(a@),
            seg_val(sb) == seg_val(b@),
            forall|j: int| 0 <= j < k ==> digit_val(sa[j]) == digit_val(sb[j]),
        decreases la - k,
    {
        let ca = a[za + k] as u32;
        let cb = b[zb + k] as u32;
        proof {
            assert(sa[k as int] == a@[za + k]);
            assert(sb[k as int] == b@[zb + k]);
        }
        if ca != cb {
            proof {
                lemma_first_digit_decides(sa, sb, k as int);
            }
            if ca < cb {
                return Cmp::Less;
            } else {
                return Cmp::Greater;
            }
        }
        k = k + 1;
    }
    proof {
        lemma_seg_val_same_digits(sa, sb);
    }
    Cmp::Equal
}

/// Digit strings with the same digit values have the same value.
proof fn lemma_seg_val_same_digits(x: Seq<char>, y: Seq<char>)
    requires
        x.len() == y.len(),
        forall|j: int| 0 <= j < x.len() ==> digit_val(x[j]) == digit_val(y[j]),
    ensures
        seg_val(x) == seg_val(y),
    decreases x.len(),
{
    if x.len() > 0 {
        assert(forall|j: int|
            0 <= j < x.drop_last().len() ==> digit_val(x.drop_last()[j]) == digit_val(
                y.drop_last()[j],
            ));
        lemma_seg_val_same_digits(x.drop_last(), y.drop_last());
        assert(digit_val(x.last()) == digit_val(y.last()));
    }
}

/// Equal-length digit strings with a common prefix: the first differing
/// digit decides the value order.
proof fn lemma_first_digit_decides(sa: Seq<char>, sb: Seq<char>, k: int)
    requires
        all_digits(sa),
        all_digits(sb),
        sa.len() == sb.len(),
        0 <= k < sa.len(),
        forall|j: int| 0 <= j < k ==> digit_val(sa[j]) == digit_val(sb[j]),
        digit_val(sa[k]) != digit_val(sb[k]),
    ensures
        digit_val(sa[k]) < digit_val(sb[k]) ==> seg_val(sa) < seg_val(sb),
        digit_val(sa[k]) > digit_val(sb[k]) ==> seg_val(sa) > seg_val(sb),
{
    lemma_seg_val_split(sa, k);
    lemma_seg_val_split(sb, k);
    assert(forall|j: int|
        0 <= j < k ==> digit_val(sa.take(k)[j]) == digit_val(sb.take(k)[j]));
    lemma_seg_val_same_digits(sa.take(k), sb.take(k));
    let m = (sa.len() - k) as nat;
    let ra = sa.skip(k);
    let rb = sb.skip(k);
    lemma_seg_val_split(ra, 1);
    lemma_seg_val_split(rb, 1);
    assert(ra.take(1) =~= seq![sa[k]]);
    assert(rb.take(1) =~= seq![sb[k]]);
    assert(seq![sa[k]].drop_last() =~= Seq::<char>::empty());
    assert(seq![sb[k]].drop_last() =~= Seq::<char>::empty());
    assert(seg_val(Seq::<char>::empty()) == 0);
    assert(seg_val(seq![sa[k]]) == digit_val(sa[k]));
    assert(seg_val(seq![sb[k]]) == digit_val(sb[k]));
    assert(all_digits(ra.skip(1)) && all_digits(rb.skip(1)));
    lemma_seg_val_bounds(ra.skip(1));
    lemma_seg_val_bounds(rb.skip(1));
    lemma_pow10_pos((m - 1) as nat);
    let p = pow10((m - 1) as nat);
    assert(seg_val(ra) == digit_val(sa[k]) * p + seg_val(ra.skip(1)));
    assert(seg_val(rb) == digit_val(sb[k]) * p + seg_val(rb.skip(1)));
    if digit_val(sa[k]) < digit_val(sb[k]) {
        assert(digit_val(sa[k]) * p + p <= digit_val(sb[k]) * p) by (nonlinear_arith)
            requires
                digit_val(sa[k]) + 1 <= digit_val(sb[k]),
                p >= 1,
        ;
        assert(seg_val(ra) < seg_val(rb));
    }
    if digit_val(sa[k]) > digit_val(sb[k]) {
        assert(digit_val(sb[k]) * p + p <= digit_val(sa[k]) * p) by (nonlinear_arith)
            requires
                digit_val(sb[k]) + 1 <= digit_val(sa[k]),
                p >= 1,
        ;
        assert(seg_val(rb) < seg_val(ra));
    }
}

fn seg_cmp_exec(a: &Vec<char>, b: &Vec<char>) -> (r: Cmp)
    ensures
        r == seg_cmp(a@, b@),
{
    let na = is_numeric_exec(a);
    let nb = is_numeric_exec(b);
    if na && nb {
        num_cmp_exec(a, b)
    } else if nb {
        Cmp::Less
    } else if na {
        Cmp::Greater
    } else {
        lex_cmp_exec(a, b)
    }
}

/// How two version strings are ordered, executably.
#[verifier::loop_isolation(false)]
pub fn compare(a: &str, b: &str) -> (r: Cmp)
    ensures
        r == spec_compare(a@, b@),
{
    let av = chars_of(a);
    let bv = chars_of(b);
    let sa = split_on_exec(&av, '.');
    let sb = split_on_exec(&bv, '.');
    let ghost ga = split_on(a@, '.');
    let ghost gb = split_on(b@, '.');
    let zero: Vec<char> = vec!['0'];
    proof {
        assert(zero@ =~= zero_seg());
        assert(ga.skip(0) =~= ga);
        assert(gb.skip(0) =~= gb);
    }
    let n = if sa.len() > sb.len() { sa.len() } else { sb.len() };
    let mut i: usize = 0;
    while i < n
        invariant
            i <= n,
            n == if ga.len() > gb.len() { ga.len() } else { gb.len() },
            sa@.len() == ga.len(),
            sb@.len() == gb.len(),
            forall|j: int| 0 <= j < ga.len() ==> sa@[j]@ == ga[j],
            forall|j: int| 0 <= j < gb.len() ==> sb@[j]@ == gb[j],
            zero@ == zero_seg(),
            spec_compare(a@, b@) == segs_cmp(
                ga.skip(if i <= ga.len() { i as int } else { ga.len() as int }),
                gb.skip(if i <= gb.len() { i as int } else { gb.len() as int }),
            ),
        decreases n - i,
    {
        let seg_a = if i < sa.len() { &sa[i] } else { &zero };
        let seg_b = if i < sb.len() { &sb[i] } else { &zero };
        let c = seg_cmp_exec(seg_a, seg_b);
        let ghost ia: int = if i <= ga.len() { i as int } else { ga.len() as int };
        let ghost ib: int = if i <= gb.len() { i as int } else { gb.len() as int };
        proof {
            let ra = ga.skip(ia);
            let rb = gb.skip(ib);
            if i < ga.len() {
                assert(ra[0] == ga[i as int]);
                assert(ra.skip(1) =~= ga.skip(ia + 1));
            } else {
                assert(ra =~= Seq::<Seq<char>>::empty());
            }
            if i < gb.len() {
                assert(rb[0] == gb[i as int]);
                assert(rb.skip(1) =~= gb.skip(ib + 1));
            } else {
                assert(rb =~= Seq::<Seq<char>>::empty());
            }
            assert(ga.skip(ga.len() as int) =~= Seq::<Seq<char>>::empty());
            assert(gb.skip(gb.len() as int) =~= Seq::<Seq<char>>::empty());
        }
        match c {
            Cmp::Equal => {},
            _ => {
                return c;
            },
        }
        i = i + 1;
    }
    proof {
        assert(ga.skip(ga.len() as int) =~= Seq::<Seq<char>>::empty());
        assert(gb.skip(gb.len() as int) =~= Seq::<Seq<char>>::empty());
    }
    Cmp::Equal
}

} // verus!
