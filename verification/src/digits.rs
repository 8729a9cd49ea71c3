//! Natural numbers of any size, held as decimal digits with the most
//! significant digit first.
//!
//! Everything here works on plain `Vec<u8>` values whose elements are all
//! below ten. The meaning of such a vector is given by [`value`]; the
//! executable functions are specified against it.
use vstd::prelude::*;

verus! {

/// Ten to the power `k`.
pub open spec fn pow10(k: nat) -> nat
    decreases k,
{
    if k == 0 {
        1
    } else {
        10 * pow10((k - 1) as nat)
    }
}

/// Every element is a decimal digit.
pub open spec fn all_digits(s: Seq<u8>) -> bool {
    forall|i: int| 0 <= i < s.len() ==> #[trigger] s[i] < 10
}

/// The number that the digits `s` denote, most significant digit first.
/// The empty sequence denotes zero.
pub open spec fn value(s: Seq<u8>) -> nat
    decreases s.len(),
{
    if s.len() == 0 {
        0
    } else {
        value(s.drop_last()) * 10 + s.last() as nat
    }
}

/// No leading zero. Each natural number has exactly one canonical digit
/// sequence; zero is the empty one.
pub open spec fn is_canonical(s: Seq<u8>) -> bool {
    s.len() == 0 || s[0] != 0
}

/// `k` zero digits.
pub open spec fn zeros(k: nat) -> Seq<u8> {
    Seq::new(k, |i: int| 0u8)
}

pub proof fn lemma_pow10_positive(k: nat)
    ensures
        pow10(k) > 0,
    decreases k,
{
    if k > 0 {
        lemma_pow10_positive((k - 1) as nat);
    }
}

pub proof fn lemma_pow10_add(a: nat, b: nat)
    ensures
        pow10(a + b) == pow10(a) * pow10(b),
    decreases a,
{
    if a == 0 {
        assert(pow10(0) == 1);
        assert(1 * pow10(b) == pow10(b));
    } else {
        lemma_pow10_add((a - 1) as nat, b);
        let x = pow10((a - 1) as nat);
        let y = pow10(b);
        assert(pow10(a + b) == 10 * pow10((a - 1 + b) as nat));
        assert(10 * (x * y) == (10 * x) * y) by (nonlinear_arith);
    }
}

pub proof fn lemma_pow10_monotonic(a: nat, b: nat)
    requires
        a <= b,
    ensures
        pow10(a) <= pow10(b),
    decreases b,
{
    if a < b {
        lemma_pow10_monotonic(a, (b - 1) as nat);
        lemma_pow10_positive((b - 1) as nat);
    }
}

pub proof fn lemma_value_push(s: Seq<u8>, d: u8)
    ensures
        value(s.push(d)) == value(s) * 10 + d as nat,
{
    assert(s.push(d).drop_last() =~= s);
}

pub proof fn lemma_value_concat(a: Seq<u8>, b: Seq<u8>)
    ensures
        value(a + b) == value(a) * pow10(b.len()) + value(b),
    decreases b.len(),
{
    if b.len() == 0 {
        assert(a + b =~= a);
        assert(value(a) * 1 == value(a));
    } else {
        let front = b.drop_last();
        lemma_value_concat(a, front);
        assert((a + b).drop_last() =~= a + front);
        assert((a + b).last() == b.last());
        let va = value(a);
        let p = pow10(front.len());
        let vf = value(front);
        assert(pow10(b.len()) == 10 * p);
        assert((va * p + vf) * 10 == va * (10 * p) + vf * 10) by (nonlinear_arith);
    }
}

pub proof fn lemma_value_bound(s: Seq<u8>)
    requires
        all_digits(s),
    ensures
        value(s) < pow10(s.len()),
    decreases s.len(),
{
    if s.len() > 0 {
        let front = s.drop_last();
        assert(all_digits(front)) by {
            assert forall|i: int| 0 <= i < front.len() implies #[trigger] front[i] < 10 by {
                assert(front[i] == s[i]);
            }
        }
        lemma_value_bound(front);
        assert(s.last() < 10);
    }
}

pub proof fn lemma_value_zeros(s: Seq<u8>)
    requires
        forall|i: int| 0 <= i < s.len() ==> #[trigger] s[i] == 0,
    ensures
        value(s) == 0,
    decreases s.len(),
{
    if s.len() > 0 {
        let front = s.drop_last();
        assert forall|i: int| 0 <= i < front.len() implies #[trigger] front[i] == 0 by {
            assert(front[i] == s[i]);
        }
        lemma_value_zeros(front);
        assert(s.last() == s[s.len() - 1]);
    }
}

/// A canonical, non-empty digit sequence denotes at least `10^(len - 1)`.
pub proof fn lemma_value_lower_bound(s: Seq<u8>)
    requires
        s.len() > 0,
        s[0] != 0,
    ensures
        value(s) >= pow10((s.len() - 1) as nat),
    decreases s.len(),
{
    if s.len() == 1 {
        assert(s.drop_last().len() == 0);
        assert(value(s.drop_last()) == 0);
        assert(s.last() == s[0]);
    } else {
        let front = s.drop_last();
        assert(front[0] == s[0]);
        lemma_value_lower_bound(front);
    }
}

/// Of two digit sequences of one length, the one with the smaller digit at
/// the first place where they differ denotes the smaller number.
pub proof fn lemma_first_difference(a: Seq<u8>, b: Seq<u8>, p: int)
    requires
        all_digits(a),
        all_digits(b),
        a.len() == b.len(),
        0 <= p < a.len(),
        forall|q: int| 0 <= q < p ==> a[q] == b[q],
        a[p] < b[p],
    ensures
        value(a) < value(b),
{
    let n = a.len() as int;
    let a_head = a.subrange(0, p + 1);
    let a_tail = a.subrange(p + 1, n);
    let b_head = b.subrange(0, p + 1);
    let b_tail = b.subrange(p + 1, n);
    assert(a =~= a_head + a_tail);
    assert(b =~= b_head + b_tail);
    lemma_value_concat(a_head, a_tail);
    lemma_value_concat(b_head, b_tail);
    assert(all_digits(a_tail)) by {
        assert forall|i: int| 0 <= i < a_tail.len() implies #[trigger] a_tail[i] < 10 by {
            assert(a_tail[i] == a[p + 1 + i]);
        }
    }
    lemma_value_bound(a_tail);
    assert(a_head.drop_last() =~= b_head.drop_last());
    assert(a_head.last() == a[p]);
    assert(b_head.last() == b[p]);
    let x = value(a_head);
    let y = value(b_head);
    let scale = pow10(a_tail.len());
    assert(x + 1 <= y);
    assert(a_tail.len() == b_tail.len());
    assert(x * scale + scale <= y * scale) by (nonlinear_arith)
        requires
            x + 1 <= y,
    ;
}

/// The first place from `from` on at which two sequences of one length
/// differ, when they agree before `from` and are not the same.
proof fn first_difference_from(a: Seq<u8>, b: Seq<u8>, from: int) -> (p: int)
    requires
        a.len() == b.len(),
        a != b,
        0 <= from <= a.len(),
        forall|q: int| 0 <= q < from ==> a[q] == b[q],
    ensures
        0 <= p < a.len(),
        a[p] != b[p],
        forall|q: int| 0 <= q < p ==> a[q] == b[q],
    decreases a.len() - from,
{
    if from == a.len() {
        assert(a =~= b);
        0
    } else if a[from] != b[from] {
        from
    } else {
        first_difference_from(a, b, from + 1)
    }
}

/// Two canonical digit sequences that denote one number are the same.
pub proof fn lemma_canonical_unique(a: Seq<u8>, b: Seq<u8>)
    requires
        all_digits(a),
        all_digits(b),
        is_canonical(a),
        is_canonical(b),
        value(a) == value(b),
    ensures
        a == b,
{
    if a.len() < b.len() {
        lemma_value_bound(a);
        lemma_value_lower_bound(b);
        lemma_pow10_monotonic(a.len(), (b.len() - 1) as nat);
    } else if b.len() < a.len() {
        lemma_value_bound(b);
        lemma_value_lower_bound(a);
        lemma_pow10_monotonic(b.len(), (a.len() - 1) as nat);
    } else if a != b {
        let p = first_difference_from(a, b, 0);
        if a[p] < b[p] {
            lemma_first_difference(a, b, p);
        } else {
            lemma_first_difference(b, a, p);
        }
    }
}

/// Leading zeros change nothing.
pub proof fn lemma_value_padded(k: nat, s: Seq<u8>)
    requires
        all_digits(s),
    ensures
        value(zeros(k) + s) == value(s),
        all_digits(zeros(k) + s),
{
    lemma_value_concat(zeros(k), s);
    lemma_value_zeros(zeros(k));
    assert(0 * pow10(s.len()) == 0);
    let padded = zeros(k) + s;
    assert forall|i: int| 0 <= i < padded.len() implies #[trigger] padded[i] < 10 by {
        if i >= k {
            assert(padded[i] == s[i - k]);
        }
    }
}

/// Zeros at the end multiply by a power of ten.
pub proof fn lemma_value_shifted(s: Seq<u8>, k: nat)
    ensures
        value(s + zeros(k)) == value(s) * pow10(k),
{
    lemma_value_concat(s, zeros(k));
    lemma_value_zeros(zeros(k));
}

/// The value of the digits from `i` on, by the digit at `i` and the rest.
pub proof fn lemma_value_from(s: Seq<u8>, i: int)
    requires
        0 <= i < s.len(),
    ensures
        value(s.subrange(i, s.len() as int)) == s[i] as nat * pow10((s.len() - i - 1) as nat)
            + value(s.subrange(i + 1, s.len() as int)),
{
    let n = s.len() as int;
    let one = s.subrange(i, i + 1);
    let rest = s.subrange(i + 1, n);
    assert(s.subrange(i, n) =~= one + rest);
    lemma_value_concat(one, rest);
    assert(one.drop_last().len() == 0);
    assert(value(one.drop_last()) == 0);
    assert(one.last() == s[i]);
}

/// The digits of `v` without its leading zeros.
pub(crate) fn trim(v: &Vec<u8>) -> (r: Vec<u8>)
    requires
        all_digits(v@),
    ensures
        all_digits(r@),
        is_canonical(r@),
        value(r@) == value(v@),
        r@.len() <= v@.len(),
        is_canonical(v@) ==> r@ == v@,
{
    let n = v.len();
    let mut k: usize = 0;
    while k < n && v[k] == 0
        invariant
            k <= n,
            n == v.len(),
            forall|i: int| 0 <= i < k ==> v@[i] == 0,
        decreases n - k,
    {
        k += 1;
    }
    let mut r: Vec<u8> = Vec::new();
    let mut i: usize = k;
    while i < n
        invariant
            k <= i <= n,
            n == v.len(),
            r@ == v@.subrange(k as int, i as int),
        decreases n - i,
    {
        r.push(v[i]);
        i += 1;
    }
    proof {
        let head = v@.subrange(0, k as int);
        let tail = v@.subrange(k as int, n as int);
        assert(v@ =~= head + tail);
        lemma_value_concat(head, tail);
        lemma_value_zeros(head);
        assert(0 * pow10(tail.len()) == 0);
        assert forall|j: int| 0 <= j < r@.len() implies #[trigger] r@[j] < 10 by {
            assert(r@[j] == v@[k + j]);
        }
        if is_canonical(v@) {
            assert(r@ =~= v@);
        }
    }
    r
}

/// `a` followed by `k` zeros: `a` times `10^k`.
pub(crate) fn shift(a: &Vec<u8>, k: usize) -> (r: Vec<u8>)
    requires
        all_digits(a@),
    ensures
        all_digits(r@),
        r@ == a@ + zeros(k as nat),
        value(r@) == value(a@) * pow10(k as nat),
{
    let n = a.len();
    let mut r: Vec<u8> = Vec::new();
    let mut i: usize = 0;
    while i < n
        invariant
            i <= n,
            n == a.len(),
            r@ == a@.subrange(0, i as int),
        decreases n - i,
    {
        r.push(a[i]);
        i += 1;
    }
    assert(r@ =~= a@);
    let mut j: usize = 0;
    while j < k
        invariant
            j <= k,
            r@ == a@ + zeros(j as nat),
        decreases k - j,
    {
        r.push(0);
        assert(r@ =~= a@ + zeros((j + 1) as nat));
        j += 1;
    }
    proof {
        lemma_value_shifted(a@, k as nat);
        assert forall|i: int| 0 <= i < r@.len() implies #[trigger] r@[i] < 10 by {
            if i < a@.len() {
                assert(r@[i] == a@[i]);
            }
        }
    }
    r
}

/// Whether `a` denotes a smaller number than `b`.
pub(crate) fn less_than(a: &Vec<u8>, b: &Vec<u8>) -> (r: bool)
    requires
        all_digits(a@),
        all_digits(b@),
    ensures
        r == (value(a@) < value(b@)),
{
    let la = a.len();
    let lb = b.len();
    let n = if la > lb { la } else { lb };
    let oa = n - la;
    let ob = n - lb;
    let ghost pa = zeros(oa as nat) + a@;
    let ghost pb = zeros(ob as nat) + b@;
    proof {
        lemma_value_padded(oa as nat, a@);
        lemma_value_padded(ob as nat, b@);
    }
    let mut p: usize = 0;
    while p < n
        invariant
            p <= n,
            la == a.len(),
            lb == b.len(),
            oa == n - la,
            ob == n - lb,
            pa == zeros(oa as nat) + a@,
            pb == zeros(ob as nat) + b@,
            all_digits(pa),
            all_digits(pb),
            value(pa) == value(a@),
            value(pb) == value(b@),
            forall|q: int| 0 <= q < p ==> pa[q] == pb[q],
        decreases n - p,
    {
        let da = if p < oa { 0u8 } else { a[p - oa] };
        let db = if p < ob { 0u8 } else { b[p - ob] };
        assert(da == pa[p as int]);
        assert(db == pb[p as int]);
        if da < db {
            proof {
                lemma_first_difference(pa, pb, p as int);
            }
            return true;
        }
        if da > db {
            proof {
                lemma_first_difference(pb, pa, p as int);
            }
            return false;
        }
        p += 1;
    }
    assert(pa =~= pb);
    false
}

/// `a - b`, in as many digits as `a` has.
pub(crate) fn subtract(a: &Vec<u8>, b: &Vec<u8>) -> (r: Vec<u8>)
    requires
        all_digits(a@),
        all_digits(b@),
        b@.len() <= a@.len(),
        value(b@) <= value(a@),
    ensures
        all_digits(r@),
        r@.len() == a@.len(),
        value(r@) == value(a@) - value(b@),
{
    let n = a.len();
    let off = n - b.len();
    let ghost pb = zeros(off as nat) + b@;
    proof {
        lemma_value_padded(off as nat, b@);
    }
    let mut r: Vec<u8> = Vec::new();
    let mut i: usize = 0;
    while i < n
        invariant
            i <= n,
            n == a.len(),
            r@ == a@.subrange(0, i as int),
        decreases n - i,
    {
        r.push(a[i]);
        i += 1;
    }
    assert(r@ =~= a@);
    let mut borrow: u8 = 0;
    let mut j: usize = 0;
    assert(r@.subrange(n as int, n as int).len() == 0);
    assert(pb.subrange(n as int, n as int).len() == 0);
    assert(a@.subrange(n as int, n as int).len() == 0);
    while j < n
        invariant
            j <= n,
            n == a.len(),
            off == n - b.len(),
            pb == zeros(off as nat) + b@,
            all_digits(a@),
            all_digits(pb),
            all_digits(r@),
            r@.len() == n,
            borrow <= 1,
            forall|q: int| 0 <= q < n - j ==> r@[q] == a@[q],
            value(r@.subrange(n - j, n as int)) + value(pb.subrange(n - j, n as int)) == value(
                a@.subrange(n - j, n as int),
            ) + borrow * pow10(j as nat),
        decreases n - j,
    {
        let idx = n - 1 - j;
        let da = a[idx];
        let db = if idx < off { 0u8 } else { b[idx - off] };
        assert(db == pb[idx as int]);
        assert(db < 10);
        let take = db + borrow;
        let d: u8;
        let next: u8;
        if da >= take {
            d = da - take;
            next = 0;
        } else {
            d = da + 10 - take;
            next = 1;
        }
        let ghost before = r@;
        r.set(idx, d);
        proof {
            let hi = n as int;
            assert(r@.subrange(idx + 1, hi) =~= before.subrange(idx + 1, hi));
            lemma_value_from(r@, idx as int);
            lemma_value_from(pb, idx as int);
            lemma_value_from(a@, idx as int);
            let unit = pow10(j as nat);
            assert(pow10((j + 1) as nat) == 10 * unit);
            assert((d + db + borrow) * unit == (da + 10 * next) * unit);
            assert((d + db + borrow) * unit == d * unit + db * unit + borrow * unit)
                by (nonlinear_arith);
            assert((da + 10 * next) * unit == da * unit + next * (10 * unit)) by (nonlinear_arith);
            assert forall|q: int| 0 <= q < r@.len() implies #[trigger] r@[q] < 10 by {
                if q != idx {
                    assert(r@[q] == before[q]);
                }
            }
        }
        borrow = next;
        j += 1;
    }
    proof {
        assert(r@.subrange(0, n as int) =~= r@);
        assert(pb.subrange(0, n as int) =~= pb);
        assert(a@.subrange(0, n as int) =~= a@);
        lemma_value_bound(r@);
        if borrow == 1 {
            assert(1 * pow10(n as nat) == pow10(n as nat));
        } else {
            assert(0 * pow10(n as nat) == 0);
        }
    }
    r
}

/// `n` is `d` times a whole number. Zero is a multiple of every number, and
/// the only multiple of zero.
pub open spec fn is_multiple(n: int, d: int) -> bool {
    exists|k: int| n == #[trigger] (k * d)
}

/// With a remainder below the divisor, divisibility is a zero remainder.
pub proof fn lemma_multiple_by_remainder(n: int, d: int, q: int, r: int)
    requires
        n == q * d + r,
        0 <= r < d,
    ensures
        is_multiple(n, d) <==> r == 0,
{
    if r == 0 {
        assert(n == q * d);
    }
    if is_multiple(n, d) {
        let k = choose|k: int| n == #[trigger] (k * d);
        assert(k * d - q * d == (k - q) * d) by (nonlinear_arith);
        assert((k - q) * d == r);
        assert(r == 0) by (nonlinear_arith)
            requires
                (k - q) * d == r,
                0 <= r < d,
        ;
    }
}

/// Whether `a` denotes zero.
pub(crate) fn is_zero(a: &Vec<u8>) -> (r: bool)
    requires
        all_digits(a@),
    ensures
        r == (value(a@) == 0),
{
    let t = trim(a);
    proof {
        if t@.len() > 0 {
            lemma_value_lower_bound(t@);
            lemma_pow10_positive((t@.len() - 1) as nat);
        }
    }
    t.len() == 0
}

/// What is left of `a` after taking `b` away as often as it goes.
pub(crate) fn remainder(a: &Vec<u8>, b: &Vec<u8>) -> (r: Vec<u8>)
    requires
        all_digits(a@),
        all_digits(b@),
        value(b@) > 0,
    ensures
        all_digits(r@),
        is_canonical(r@),
        value(r@) < value(b@),
        exists|q: int| value(a@) == #[trigger] (q * value(b@)) + value(r@),
{
    let divisor = trim(b);
    let n = a.len();
    let mut r: Vec<u8> = Vec::new();
    let ghost mut q: int = 0;
    let mut i: usize = 0;
    assert(a@.subrange(0, 0).len() == 0);
    assert(0 * value(divisor@) == 0);
    while i < n
        invariant
            i <= n,
            n == a.len(),
            all_digits(a@),
            all_digits(divisor@),
            is_canonical(divisor@),
            value(divisor@) == value(b@),
            value(divisor@) > 0,
            all_digits(r@),
            is_canonical(r@),
            value(r@) < value(divisor@),
            value(a@.subrange(0, i as int)) == q * value(divisor@) + value(r@),
        decreases n - i,
    {
        let ghost low = r@;
        r.push(a[i]);
        proof {
            lemma_value_push(low, a@[i as int]);
            assert(a@.subrange(0, i + 1) =~= a@.subrange(0, i as int).push(a@[i as int]));
            lemma_value_push(a@.subrange(0, i as int), a@[i as int]);
            let d = value(divisor@) as int;
            assert((q * d + value(low)) * 10 == (q * 10) * d + value(low) * 10)
                by (nonlinear_arith);
            q = q * 10;
            assert forall|k: int| 0 <= k < r@.len() implies #[trigger] r@[k] < 10 by {
                if k < low.len() {
                    assert(r@[k] == low[k]);
                }
            }
        }
        while !less_than(&r, &divisor)
            invariant
                i < n,
                all_digits(divisor@),
                is_canonical(divisor@),
                value(divisor@) > 0,
                all_digits(r@),
                value(a@.subrange(0, i + 1)) == q * value(divisor@) + value(r@),
            decreases value(r@),
        {
            proof {
                lemma_value_bound(r@);
                lemma_value_lower_bound(divisor@);
                if r@.len() < divisor@.len() {
                    lemma_pow10_monotonic(r@.len(), (divisor@.len() - 1) as nat);
                }
                let d = value(divisor@) as int;
                assert((q + 1) * d == q * d + d) by (nonlinear_arith);
                q = q + 1;
            }
            r = subtract(&r, &divisor);
        }
        r = trim(&r);
        i += 1;
    }
    assert(a@.subrange(0, n as int) =~= a@);
    r
}

/// Whether `a` is a multiple of `b`.
pub(crate) fn is_divisible(a: &Vec<u8>, b: &Vec<u8>) -> (r: bool)
    requires
        all_digits(a@),
        all_digits(b@),
    ensures
        r == is_multiple(value(a@) as int, value(b@) as int),
{
    if is_zero(b) {
        let zero = is_zero(a);
        proof {
            if zero {
                assert(value(a@) as int == 0 * (value(b@) as int));
            }
            if is_multiple(value(a@) as int, value(b@) as int) {
                let k = choose|k: int| value(a@) as int == #[trigger] (k * (value(b@) as int));
                assert(k * 0 == 0);
            }
        }
        zero
    } else {
        let rest = remainder(a, b);
        proof {
            let q = choose|q: int| value(a@) == #[trigger] (q * value(b@)) + value(rest@);
            lemma_multiple_by_remainder(
                value(a@) as int,
                value(b@) as int,
                q,
                value(rest@) as int,
            );
        }
        is_zero(&rest)
    }
}

/// The canonical digits of `x`.
pub(crate) fn digits_of(x: u128) -> (r: Vec<u8>)
    ensures
        all_digits(r@),
        is_canonical(r@),
        value(r@) == x,
    decreases x,
{
    if x == 0 {
        Vec::new()
    } else {
        let mut r = digits_of(x / 10);
        let ghost high = r@;
        let d: u8 = (x % 10) as u8;
        r.push(d);
        proof {
            lemma_value_push(high, d);
            assert forall|k: int| 0 <= k < r@.len() implies #[trigger] r@[k] < 10 by {
                if k < high.len() {
                    assert(r@[k] == high[k]);
                }
            }
            if high.len() > 0 {
                assert(r@[0] == high[0]);
            }
        }
        r
    }
}

/// The decimal fraction `m / 10^k` in its shortest form: zeros at the end
/// of `m` are taken out of `m` and `k` alike, as long as `k` is not zero.
pub open spec fn reduced(m: nat, k: nat) -> (nat, nat)
    decreases k,
{
    if k > 0 && m % 10 == 0 {
        reduced(m / 10, (k - 1) as nat)
    } else {
        (m, k)
    }
}

/// Zero has no digits behind the point.
pub proof fn lemma_reduced_zero(k: nat)
    ensures
        reduced(0, k) == (0nat, 0nat),
    decreases k,
{
    if k > 0 {
        lemma_reduced_zero((k - 1) as nat);
    }
}

/// The last digit is the remainder by ten, the digits before it the quotient.
pub proof fn lemma_value_last(s: Seq<u8>)
    requires
        all_digits(s),
        s.len() > 0,
    ensures
        value(s) % 10 == s.last(),
        value(s) / 10 == value(s.drop_last()),
{
    assert(s.last() < 10);
    let front = value(s.drop_last()) as int;
    let last = s.last() as int;
    assert((front * 10 + last) % 10 == last && (front * 10 + last) / 10 == front)
        by (nonlinear_arith)
        requires
            0 <= last < 10,
    ;
}

/// The shortest form of `digits / 10^limit`: the canonical digits of its
/// numerator, and what is left of `limit`.
pub(crate) fn strip(digits: &Vec<u8>, limit: usize) -> (r: (Vec<u8>, usize))
    requires
        all_digits(digits@),
    ensures
        all_digits(r.0@),
        is_canonical(r.0@),
        (value(r.0@), r.1 as nat) == reduced(value(digits@), limit as nat),
        r.1 <= limit,
        r.1 > 0 ==> r.0@.len() > 0 && r.0@.last() != 0,
{
    let mut end: usize = digits.len();
    let mut scale: usize = limit;
    assert(digits@.subrange(0, end as int) =~= digits@);
    while scale > 0 && end > 0 && digits[end - 1] == 0
        invariant
            end <= digits.len(),
            scale <= limit,
            all_digits(digits@),
            reduced(value(digits@.subrange(0, end as int)), scale as nat) == reduced(
                value(digits@),
                limit as nat,
            ),
        decreases scale,
    {
        proof {
            let current = digits@.subrange(0, end as int);
            assert(all_digits(current)) by {
                assert forall|i: int| 0 <= i < current.len() implies #[trigger] current[i] < 10 by {
                    assert(current[i] == digits@[i]);
                }
            }
            lemma_value_last(current);
            assert(current.drop_last() =~= digits@.subrange(0, end - 1));
        }
        end -= 1;
        scale -= 1;
    }
    if end == 0 {
        proof {
            assert(digits@.subrange(0, 0).len() == 0);
            lemma_reduced_zero(scale as nat);
        }
        scale = 0;
    }
    let mut kept: Vec<u8> = Vec::new();
    let mut i: usize = 0;
    while i < end
        invariant
            i <= end <= digits.len(),
            kept@ == digits@.subrange(0, i as int),
        decreases end - i,
    {
        kept.push(digits[i]);
        i += 1;
    }
    proof {
        assert(all_digits(kept@)) by {
            assert forall|i: int| 0 <= i < kept@.len() implies #[trigger] kept@[i] < 10 by {
                assert(kept@[i] == digits@[i]);
            }
        }
        if scale > 0 {
            lemma_value_last(kept@);
        }
    }
    let numerator = trim(&kept);
    proof {
        if scale > 0 {
            lemma_value_last(kept@);
            if numerator@.len() == 0 {
                assert(value(numerator@) == 0);
            } else {
                lemma_value_last(numerator@);
            }
        }
    }
    (numerator, scale)
}

/// Whether `a` and `b` hold the same digits.
pub(crate) fn same(a: &Vec<u8>, b: &Vec<u8>) -> (r: bool)
    ensures
        r == (a@ == b@),
{
    if a.len() != b.len() {
        return false;
    }
    let n = a.len();
    let mut i: usize = 0;
    while i < n
        invariant
            i <= n,
            n == a.len(),
            n == b.len(),
            forall|j: int| 0 <= j < i ==> a@[j] == b@[j],
        decreases n - i,
    {
        if a[i] != b[i] {
            return false;
        }
        i += 1;
    }
    assert(a@ =~= b@);
    true
}

/// The sign of a product does not matter to divisibility.
pub proof fn lemma_multiple_signs(n: int, d: int)
    ensures
        is_multiple(-n, d) == is_multiple(n, d),
        is_multiple(n, -d) == is_multiple(n, d),
{
    if is_multiple(n, d) {
        let k = choose|k: int| n == #[trigger] (k * d);
        assert(-n == (-k) * d) by (nonlinear_arith)
            requires
                n == k * d,
        ;
        assert(n == (-k) * (-d)) by (nonlinear_arith)
            requires
                n == k * d,
        ;
    }
    if is_multiple(-n, d) {
        let k = choose|k: int| -n == #[trigger] (k * d);
        assert(n == (-k) * d) by (nonlinear_arith)
            requires
                -n == k * d,
        ;
    }
    if is_multiple(n, -d) {
        let k = choose|k: int| n == #[trigger] (k * (-d));
        assert(n == (-k) * d) by (nonlinear_arith)
            requires
                n == k * (-d),
        ;
    }
}

/// A multiple of a multiple of ten ends in a zero.
pub proof fn lemma_multiple_of_tens(n: int, d: int, k: nat)
    requires
        k > 0,
        is_multiple(n, d * pow10(k)),
    ensures
        n % 10 == 0,
{
    let q = choose|q: int| n == #[trigger] (q * (d * pow10(k)));
    let rest = pow10((k - 1) as nat) as int;
    assert(pow10(k) == 10 * rest);
    assert(q * (d * (10 * rest)) == (q * d * rest) * 10) by (nonlinear_arith);
    vstd::arithmetic::div_mod::lemma_mod_multiples_basic(q * d * rest, 10);
}

/// The canonical digits of `n`.
pub open spec fn canonical_digits(n: nat) -> Seq<u8>
    decreases n,
{
    if n == 0 {
        Seq::empty()
    } else {
        canonical_digits(n / 10).push((n % 10) as u8)
    }
}

pub proof fn lemma_canonical_digits(n: nat)
    ensures
        all_digits(canonical_digits(n)),
        is_canonical(canonical_digits(n)),
        value(canonical_digits(n)) == n,
    decreases n,
{
    if n > 0 {
        let high = canonical_digits(n / 10);
        let all = canonical_digits(n);
        lemma_canonical_digits(n / 10);
        lemma_value_push(high, (n % 10) as u8);
        assert forall|k: int| 0 <= k < all.len() implies #[trigger] all[k] < 10 by {
            if k < high.len() {
                assert(all[k] == high[k]);
            }
        }
        if high.len() > 0 {
            assert(all[0] == high[0]);
        }
    }
}

/// Canonical digits are the canonical digits of what they denote.
pub proof fn lemma_canonical_digits_of_value(s: Seq<u8>)
    requires
        all_digits(s),
        is_canonical(s),
    ensures
        s == canonical_digits(value(s)),
{
    lemma_canonical_digits(value(s));
    lemma_canonical_unique(s, canonical_digits(value(s)));
}

/// A copy of the digits.
pub(crate) fn copy(a: &Vec<u8>) -> (r: Vec<u8>)
    ensures
        r@ == a@,
{
    let n = a.len();
    let mut r: Vec<u8> = Vec::new();
    let mut i: usize = 0;
    while i < n
        invariant
            i <= n,
            n == a.len(),
            r@ == a@.subrange(0, i as int),
        decreases n - i,
    {
        r.push(a[i]);
        i += 1;
    }
    assert(r@ =~= a@);
    r
}

/// `base` to the power `e`.
pub open spec fn power(base: nat, e: nat) -> nat
    decreases e,
{
    if e == 0 {
        1
    } else {
        base * power(base, (e - 1) as nat)
    }
}

/// `a` times the digit `f`.
pub(crate) fn times_small(a: &Vec<u8>, f: u8) -> (r: Vec<u8>)
    requires
        all_digits(a@),
        f < 10,
    ensures
        all_digits(r@),
        value(r@) == f * value(a@),
{
    let n = a.len();
    let mut r: Vec<u8> = Vec::new();
    r.push(0);
    let mut i: usize = 0;
    while i < n
        invariant
            i <= n,
            n == a.len(),
            r@ == seq![0u8] + a@.subrange(0, i as int),
        decreases n - i,
    {
        r.push(a[i]);
        assert(r@ =~= seq![0u8] + a@.subrange(0, i + 1));
        i += 1;
    }
    let ghost padded = r@;
    proof {
        assert(a@.subrange(0, n as int) =~= a@);
        assert(padded =~= zeros(1) + a@);
        lemma_value_padded(1, a@);
    }
    let total = r.len();
    assert(total == n + 1);
    let mut carry: u8 = 0;
    let mut j: usize = 0;
    assert(r@.subrange(total as int, total as int).len() == 0);
    assert(padded.subrange(total as int, total as int).len() == 0);
    assert(f * 0 == 0);
    while j < total
        invariant
            j <= total,
            total == r@.len(),
            total == padded.len(),
            all_digits(padded),
            padded[0] == 0,
            f < 10,
            carry < 10,
            j == total ==> carry == 0,
            forall|q: int| 0 <= q < total - j ==> r@[q] == padded[q],
            forall|q: int| total - j <= q < total ==> (#[trigger] r@[q]) < 10,
            value(r@.subrange(total - j, total as int)) + carry * pow10(j as nat) == f * value(
                padded.subrange(total - j, total as int),
            ),
        decreases total - j,
    {
        let idx = total - 1 - j;
        let d = r[idx];
        assert(d == padded[idx as int]);
        assert(d < 10);
        assert(f * d <= 81) by (nonlinear_arith)
            requires
                f < 10,
                d < 10,
        ;
        let t: u8 = f * d + carry;
        let low: u8 = t % 10;
        let next: u8 = t / 10;
        let ghost before = r@;
        r.set(idx, low);
        proof {
            let hi = total as int;
            assert(r@.subrange(idx + 1, hi) =~= before.subrange(idx + 1, hi));
            lemma_value_from(r@, idx as int);
            lemma_value_from(padded, idx as int);
            let unit = pow10(j as nat);
            assert(pow10((j + 1) as nat) == 10 * unit);
            let rest = value(padded.subrange(idx + 1, hi));
            assert(low + 10 * next == f * d + carry);
            assert(low * unit + next * (10 * unit) == (f * d + carry) * unit) by (nonlinear_arith)
                requires
                    low + 10 * next == f * d + carry,
            ;
            assert(f * (d * unit + rest) == (f * d) * unit + f * rest) by (nonlinear_arith);
            assert((f * d + carry) * unit == (f * d) * unit + carry * unit) by (nonlinear_arith);
            if idx == 0 {
                assert(d == 0);
                assert(f * 0 == 0);
                assert(next == 0);
            }
        }
        carry = next;
        j += 1;
    }
    proof {
        assert(r@.subrange(0, total as int) =~= r@);
        assert(padded.subrange(0, total as int) =~= padded);
        assert(0 * pow10(total as nat) == 0);
    }
    r
}

/// `a` times `f` to the power `e`, in canonical digits.
pub(crate) fn times_power(a: &Vec<u8>, f: u8, e: usize) -> (r: Vec<u8>)
    requires
        all_digits(a@),
        f < 10,
    ensures
        all_digits(r@),
        is_canonical(r@),
        value(r@) == value(a@) * power(f as nat, e as nat),
{
    let mut r = trim(a);
    let mut i: usize = 0;
    assert(value(a@) * 1 == value(a@));
    while i < e
        invariant
            i <= e,
            f < 10,
            all_digits(r@),
            is_canonical(r@),
            value(r@) == value(a@) * power(f as nat, i as nat),
        decreases e - i,
    {
        let ghost before = value(r@);
        let next = times_small(&r, f);
        r = trim(&next);
        proof {
            let p = power(f as nat, i as nat);
            assert(power(f as nat, (i + 1) as nat) == f * p);
            assert(f * (value(a@) * p) == value(a@) * (f * p)) by (nonlinear_arith);
        }
        i += 1;
    }
    r
}

} // verus!
