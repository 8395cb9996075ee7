//! Shortest positional decimal form of a double.
//!
//! The raw text of a number (`num::text_of_bits`) carries enough significant
//! digits to read back exactly, but not the fewest. This module decomposes
//! that text into sign, significant digits and a decimal exponent, then
//! searches k = 1, 2, … for the shortest rounding of the digits — trying the
//! nearest candidates below and above — whose positional rendering the
//! numeric reader maps back to the same bits, and renders the winner
//! positionally. Every step but the reader itself is verified; the reader is
//! the one already trusted in `num`.

use vstd::prelude::*;

use crate::num;

verus! {

/// A decimal digit.
pub open spec fn digit(c: char) -> bool {
    '0' <= c && c <= '9'
}

/// The digit one higher; only meaningful below '9'.
pub open spec fn next_digit(c: char) -> char {
    match c {
        '0' => '1',
        '1' => '2',
        '2' => '3',
        '3' => '4',
        '4' => '5',
        '5' => '6',
        '6' => '7',
        '7' => '8',
        _ => '9',
    }
}

/// The value of one digit.
pub open spec fn digit_val(c: char) -> int {
    match c {
        '0' => 0,
        '1' => 1,
        '2' => 2,
        '3' => 3,
        '4' => 4,
        '5' => 5,
        '6' => 6,
        '7' => 7,
        '8' => 8,
        _ => 9,
    }
}

/// `n` zero characters.
pub open spec fn zeros(n: int) -> Seq<char>
    decreases n,
{
    if n <= 0 {
        Seq::empty()
    } else {
        zeros(n - 1).push('0')
    }
}

/// The digits with their trailing zeros dropped.
pub open spec fn strip_zeros(ds: Seq<char>) -> Seq<char>
    decreases ds.len(),
{
    if ds.len() > 0 && ds.last() == '0' {
        strip_zeros(ds.drop_last())
    } else {
        ds
    }
}

/// The digit string one higher: the nearest decimal of the same length
/// above, growing by one digit on all nines.
pub open spec fn incr(ds: Seq<char>) -> Seq<char>
    decreases ds.len(),
{
    if ds.len() == 0 {
        seq!['1']
    } else if ds.last() == '9' {
        incr(ds.drop_last()).push('0')
    } else {
        ds.drop_last().push(next_digit(ds.last()))
    }
}

/// The positional rendering of `0.ds × 10^e`, sign first: all digits before
/// the point where `e` reaches past them, a point inside them where it
/// falls within, and a leading `0.` with padding zeros where it is not
/// positive.
pub open spec fn render(neg: bool, ds: Seq<char>, e: int) -> Seq<char> {
    let body = if e >= ds.len() {
        ds + zeros(e - ds.len())
    } else if e >= 1 {
        ds.take(e) + seq!['.'] + ds.skip(e)
    } else {
        seq!['0', '.'] + zeros(-e) + ds
    };
    if neg {
        seq!['-'] + body
    } else {
        body
    }
}

/// The first position at or after `i` that holds no digit.
pub open spec fn scan_digits(s: Seq<char>, i: int) -> int
    decreases s.len() - i,
{
    if i < 0 || i >= s.len() || !digit(s[i]) {
        i
    } else {
        scan_digits(s, i + 1)
    }
}

/// The number the digits from `i` up to `j` spell.
pub open spec fn digits_val(s: Seq<char>, i: int, j: int) -> int
    decreases j - i,
{
    if i >= j {
        0
    } else {
        digits_val(s, i, j - 1) * 10 + digit_val(s[j - 1])
    }
}

/// The number of leading zero characters.
pub open spec fn leading_zeros(s: Seq<char>, i: int) -> int
    decreases s.len() - i,
{
    if i < 0 || i >= s.len() || s[i] != '0' {
        i
    } else {
        leading_zeros(s, i + 1)
    }
}

/// The sign, significant digits and decimal exponent that a printed finite
/// nonzero number spells: `Some((neg, ds, e))` with `ds` free of leading and
/// trailing zeros means the value is `0.ds × 10^e`. Texts of any other
/// shape — and exponents of more than six digits — yield nothing.
pub open spec fn decomp(s: Seq<char>) -> Option<(bool, Seq<char>, int)> {
    let neg = s.len() > 0 && s[0] == '-';
    let i0: int = if neg { 1 } else { 0 };
    let a = scan_digits(s, i0);
    let has_pt = a < s.len() && s[a] == '.';
    let b = if has_pt { scan_digits(s, a + 1) } else { a };
    let digits = s.subrange(i0, a) + if has_pt { s.subrange(a + 1, b) } else { Seq::empty() };
    if digits.len() == 0 {
        None
    } else {
        let e10: Option<int> = if b == s.len() {
            Some(0)
        } else if s[b] == 'E' {
            let esign = b + 1 < s.len() && (s[b + 1] == '-' || s[b + 1] == '+');
            let eneg = b + 1 < s.len() && s[b + 1] == '-';
            let e0: int = if esign { b + 2 } else { b + 1 };
            let c = scan_digits(s, e0);
            if c == s.len() && e0 < c <= e0 + 6 {
                Some(if eneg { -digits_val(s, e0, c) } else { digits_val(s, e0, c) })
            } else {
                None
            }
        } else {
            None
        };
        match e10 {
            None => None,
            Some(ex) => {
                let lz = leading_zeros(digits, 0);
                if lz >= digits.len() {
                    None
                } else {
                    let ds = strip_zeros(digits.skip(lz));
                    Some((neg, ds, ex + (a - i0) - lz))
                }
            },
        }
    }
}

/// The shortest-first search: at each width `k` the candidates are the
/// digits rounded down and up; where both read back, the nearer one by the
/// first dropped digit wins. At the full width the digits themselves are
/// the last candidate; if even they do not read back, the raw text stands.
pub open spec fn choose_text(b: u64, neg: bool, ds: Seq<char>, e: int, k: int) -> Seq<char>
    decreases ds.len() - k,
{
    if k < 1 || k >= ds.len() {
        let f = render(neg, strip_zeros(ds), e);
        if num::bits_of_text(f) == Some(b) {
            f
        } else {
            num::text_of_bits(b)
        }
    } else {
        let fl = render(neg, strip_zeros(ds.take(k)), e);
        let up = incr(ds.take(k));
        let cl = if up.len() == k + 1 {
            render(neg, strip_zeros(up), e + 1)
        } else {
            render(neg, strip_zeros(up), e)
        };
        let fok = num::bits_of_text(fl) == Some(b);
        let cok = num::bits_of_text(cl) == Some(b);
        if fok && cok {
            if '5' <= ds[k] {
                cl
            } else {
                fl
            }
        } else if fok {
            fl
        } else if cok {
            cl
        } else {
            choose_text(b, neg, ds, e, k + 1)
        }
    }
}

/// The printed form of a number's bits: NaN, the infinities and the zeros
/// print as the raw reader text; any other double prints as the shortest
/// positional decimal that reads back to the same bits, found by
/// `choose_text` over the decomposition of the raw text.
pub open spec fn num_display(b: u64) -> Seq<char> {
    if num::is_nan_bits(b) || num::is_inf_bits(b) || num::is_zero_bits(b) {
        num::text_of_bits(b)
    } else {
        match decomp(num::text_of_bits(b)) {
            None => num::text_of_bits(b),
            Some((neg, ds, e)) => choose_text(b, neg, ds, e, 1),
        }
    }
}

/// Every character of `zeros` is the digit zero.
pub proof fn lemma_zeros_chars(n: int)
    ensures
        zeros(n).len() == if n <= 0 { 0int } else { n },
        forall|i: int| 0 <= i < zeros(n).len() ==> zeros(n)[i] == '0',
    decreases n,
{
    if n > 0 {
        lemma_zeros_chars(n - 1);
    }
}

/// Stripping keeps digits digits and a nonzero head nonzero.
pub proof fn lemma_strip_zeros_chars(ds: Seq<char>)
    requires
        forall|i: int| 0 <= i < ds.len() ==> digit(ds[i]),
    ensures
        strip_zeros(ds).len() <= ds.len(),
        forall|i: int| 0 <= i < strip_zeros(ds).len() ==> digit(strip_zeros(ds)[i]),
        forall|i: int| 0 <= i < strip_zeros(ds).len() ==> strip_zeros(ds)[i] == ds[i],
        strip_zeros(ds).len() > 0 ==> strip_zeros(ds).last() != '0',
        ds.len() > 0 && ds[0] != '0' ==> strip_zeros(ds).len() > 0,
    decreases ds.len(),
{
    if ds.len() > 0 && ds.last() == '0' {
        lemma_strip_zeros_chars(ds.drop_last());
        assert(forall|i: int| 0 <= i < ds.drop_last().len() ==> ds.drop_last()[i] == ds[i]);
    }
}

/// Incrementing keeps digits digits, never empties, never yields all
/// zeros, and grows by at most one digit.
pub proof fn lemma_incr_chars(ds: Seq<char>)
    requires
        forall|i: int| 0 <= i < ds.len() ==> digit(ds[i]),
        ds.len() > 0 ==> ds[0] != '0',
    ensures
        incr(ds).len() == ds.len() || incr(ds).len() == ds.len() + 1,
        incr(ds).len() >= 1,
        forall|i: int| 0 <= i < incr(ds).len() ==> digit(incr(ds)[i]),
        incr(ds)[0] != '0',
    decreases ds.len(),
{
    if ds.len() > 0 {
        if ds.last() == '9' {
            lemma_incr_chars(ds.drop_last());
        } else {
            if ds.len() == 1 {
                assert(incr(ds)[0] == next_digit(ds.last()));
            } else {
                assert(incr(ds)[0] == ds[0]);
            }
        }
    }
}

/// Decides `digit`.
fn is_digit(c: char) -> (r: bool)
    ensures
        r == digit(c),
{
    '0' <= c && c <= '9'
}

/// Computes `next_digit`.
fn next_digit_x(c: char) -> (r: char)
    ensures
        r == next_digit(c),
{
    match c {
        '0' => '1',
        '1' => '2',
        '2' => '3',
        '3' => '4',
        '4' => '5',
        '5' => '6',
        '6' => '7',
        '7' => '8',
        _ => '9',
    }
}

/// Computes `scan_digits`.
pub(crate) fn scan(s: &Vec<char>, from: usize) -> (r: usize)
    requires
        from <= s@.len(),
    ensures
        r == scan_digits(s@, from as int),
        from <= r <= s@.len(),
{
    let mut i = from;
    while i < s.len() && is_digit(s[i])
        invariant
            from <= i <= s@.len(),
            scan_digits(s@, from as int) == scan_digits(s@, i as int),
        decreases s@.len() - i,
    {
        i = i + 1;
    }
    i
}

/// The characters of `s` from `from` up to `to`, as their own row.
fn copy_range(s: &Vec<char>, from: usize, to: usize) -> (r: Vec<char>)
    requires
        from <= to <= s@.len(),
    ensures
        r@ == s@.subrange(from as int, to as int),
{
    let mut out: Vec<char> = Vec::new();
    let mut i = from;
    while i < to
        invariant
            from <= i <= to <= s@.len(),
            out@ =~= s@.subrange(from as int, i as int),
        decreases to - i,
    {
        out.push(s[i]);
        proof {
            assert(out@ =~= s@.subrange(from as int, i + 1));
        }
        i = i + 1;
    }
    out
}

/// Computes `strip_zeros`.
fn strip_vec(ds: Vec<char>) -> (r: Vec<char>)
    ensures
        r@ == strip_zeros(ds@),
{
    let mut v = ds;
    while v.len() > 0 && v[v.len() - 1] == '0'
        invariant
            strip_zeros(v@) == strip_zeros(ds@),
        decreases v@.len(),
    {
        v.pop();
    }
    v
}

/// Computes `incr` of the first `k` characters.
fn incr_upto(ds: &Vec<char>, k: usize) -> (r: Vec<char>)
    requires
        k <= ds@.len(),
    ensures
        r@ == incr(ds@.take(k as int)),
    decreases k,
{
    if k == 0 {
        let mut out: Vec<char> = Vec::new();
        out.push('1');
        proof {
            assert(out@ =~= seq!['1']);
        }
        out
    } else if ds[k - 1] == '9' {
        let mut out = incr_upto(ds, k - 1);
        out.push('0');
        proof {
            assert(ds@.take(k as int).drop_last() =~= ds@.take(k - 1));
            assert(ds@.take(k as int).last() == ds@[k - 1]);
        }
        out
    } else {
        let mut out = copy_range(ds, 0, k - 1);
        out.push(next_digit_x(ds[k - 1]));
        proof {
            assert(ds@.take(k as int).drop_last() =~= ds@.take(k - 1));
            assert(ds@.take(k - 1) =~= ds@.subrange(0, k - 1));
            assert(ds@.take(k as int).last() == ds@[k - 1]);
        }
        out
    }
}

/// Computes `render`.
fn render_text(neg: bool, ds: &Vec<char>, e: i128) -> (r: Vec<char>)
    requires
        -0x2_0000_0000_0000_0000_0000 <= e <= 0x2_0000_0000_0000_0000_0000,
    ensures
        r@ == render(neg, ds@, e as int),
{
    let mut out: Vec<char> = Vec::new();
    if neg {
        out.push('-');
    }
    let ghost head = out@;
    proof {
        assert(neg ==> head =~= seq!['-']);
        assert(!neg ==> head =~= Seq::<char>::empty());
    }
    let n = ds.len();
    if e >= n as i128 {
        let mut i: usize = 0;
        while i < n
            invariant
                i <= n,
                n == ds@.len(),
                out@ =~= head + ds@.take(i as int),
            decreases n - i,
        {
            out.push(ds[i]);
            proof {
                assert(out@ =~= head + ds@.take(i + 1));
            }
            i = i + 1;
        }
        proof {
            assert(ds@.take(n as int) =~= ds@);
        }
        let mut z: i128 = e - n as i128;
        let ghost z0 = e - n as int;
        while z > 0
            invariant
                0 <= z <= z0,
                out@ =~= head + ds@ + zeros(z0 - z),
            decreases z,
        {
            out.push('0');
            proof {
                assert(zeros(z0 - z + 1) =~= zeros(z0 - z).push('0'));
                assert(out@ =~= head + ds@ + zeros(z0 - (z - 1)));
            }
            z = z - 1;
        }
        proof {
            assert(out@ =~= head + (ds@ + zeros(e - ds@.len())));
        }
        out
    } else if e >= 1 {
        let cut = e as usize;
        let mut i: usize = 0;
        while i < cut
            invariant
                i <= cut <= n,
                n == ds@.len(),
                cut == e,
                out@ =~= head + ds@.take(i as int),
            decreases cut - i,
        {
            out.push(ds[i]);
            proof {
                assert(out@ =~= head + ds@.take(i + 1));
            }
            i = i + 1;
        }
        out.push('.');
        let ghost mid = head + ds@.take(e as int) + seq!['.'];
        proof {
            assert(out@ =~= mid);
        }
        let mut j = cut;
        while j < n
            invariant
                cut <= j <= n,
                n == ds@.len(),
                cut == e,
                mid == head + ds@.take(e as int) + seq!['.'],
                out@ =~= mid + ds@.subrange(cut as int, j as int),
            decreases n - j,
        {
            out.push(ds[j]);
            proof {
                assert(out@ =~= mid + ds@.subrange(cut as int, j + 1));
            }
            j = j + 1;
        }
        proof {
            assert(ds@.subrange(cut as int, n as int) =~= ds@.skip(e as int));
            assert(out@ =~= head + (ds@.take(e as int) + seq!['.'] + ds@.skip(e as int)));
        }
        out
    } else {
        out.push('0');
        out.push('.');
        let ghost mid = head + seq!['0', '.'];
        proof {
            assert(out@ =~= mid);
        }
        let mut z: i128 = -e;
        let ghost z0 = -e as int;
        while z > 0
            invariant
                0 <= z <= z0,
                mid == head + seq!['0', '.'],
                out@ =~= mid + zeros(z0 - z),
            decreases z,
        {
            out.push('0');
            proof {
                assert(zeros(z0 - z + 1) =~= zeros(z0 - z).push('0'));
                assert(out@ =~= mid + zeros(z0 - (z - 1)));
            }
            z = z - 1;
        }
        let ghost mid2 = mid + zeros(z0);
        let mut i: usize = 0;
        while i < n
            invariant
                i <= n,
                n == ds@.len(),
                mid2 == mid + zeros(z0),
                out@ =~= mid2 + ds@.take(i as int),
            decreases n - i,
        {
            out.push(ds[i]);
            proof {
                assert(out@ =~= mid2 + ds@.take(i + 1));
            }
            i = i + 1;
        }
        proof {
            assert(ds@.take(n as int) =~= ds@);
            assert(out@ =~= head + (seq!['0', '.'] + zeros(-e as int) + ds@));
        }
        out
    }
}

/// Ten to the `k`th.
pub open spec fn p10(k: int) -> int
    decreases k,
{
    if k <= 0 {
        1
    } else {
        10 * p10(k - 1)
    }
}

/// A digit string spells fewer than ten-to-its-length.
proof fn lemma_digits_val_bound(s: Seq<char>, i: int, j: int)
    ensures
        0 <= digits_val(s, i, j) < p10(j - i),
    decreases j - i,
{
    if i < j {
        lemma_digits_val_bound(s, i, j - 1);
    }
}

/// Computes `digits_val` over at most six digits.
fn digits_value(s: &Vec<char>, from: usize, to: usize) -> (r: i128)
    requires
        from <= to <= s@.len(),
        to - from <= 6,
        forall|i: int| from <= i < to ==> digit(s@[i]),
    ensures
        r == digits_val(s@, from as int, to as int),
        0 <= r < 1000000,
{
    proof {
        reveal_with_fuel(p10, 8);
        lemma_digits_val_bound(s@, from as int, to as int);
    }
    let mut acc: i128 = 0;
    let mut j = from;
    while j < to
        invariant
            from <= j <= to <= s@.len(),
            to - from <= 6,
            forall|i: int| from <= i < to ==> digit(s@[i]),
            acc == digits_val(s@, from as int, j as int),
            0 <= acc < p10(j - from),
            p10(to - from) <= 1000000,
        decreases to - j,
    {
        proof {
            reveal_with_fuel(p10, 8);
            lemma_digits_val_bound(s@, from as int, j as int);
            assert(p10(j - from) <= p10(to - from)) by {
                lemma_p10_mono(j - from, to - from);
            }
        }
        let d: i128 = match s[j] {
            '0' => 0,
            '1' => 1,
            '2' => 2,
            '3' => 3,
            '4' => 4,
            '5' => 5,
            '6' => 6,
            '7' => 7,
            '8' => 8,
            _ => 9,
        };
        proof {
            assert(d == digit_val(s@[j as int]));
        }
        acc = acc * 10 + d;
        j = j + 1;
        proof {
            lemma_digits_val_bound(s@, from as int, j as int);
            lemma_p10_mono(j - from, to - from);
        }
    }
    proof {
        reveal_with_fuel(p10, 8);
        lemma_p10_mono(to - from, 6);
    }
    acc
}

/// Ten-to-the is positive.
proof fn lemma_p10_pos(k: int)
    ensures
        p10(k) >= 1,
    decreases k,
{
    if k > 0 {
        lemma_p10_pos(k - 1);
    }
}

/// Ten-to-the is monotone.
proof fn lemma_p10_mono(a: int, c: int)
    requires
        a <= c,
    ensures
        p10(a) <= p10(c),
        p10(a) >= 1,
    decreases c - a,
{
    lemma_p10_pos(a);
    if a < c {
        lemma_p10_mono(a, c - 1);
    }
}

/// Computes `decomp`.
#[verifier::rlimit(100)]
fn decompose(s: &Vec<char>) -> (r: Option<(bool, Vec<char>, i128)>)
    ensures
        match r {
            Some(p) => decomp(s@) == Some((p.0, p.1@, p.2 as int))
                && -0x1_0000_0000_0000_0000_0000 <= p.2 <= 0x1_0000_0000_0000_0000_0000,
            None => decomp(s@) is None,
        },
{
    let neg = s.len() > 0 && s[0] == '-';
    let i0: usize = if neg { 1 } else { 0 };
    let a = scan(s, i0);
    let has_pt = a < s.len() && s[a] == '.';
    let b = if has_pt { scan(s, a + 1) } else { a };
    let mut digits = copy_range(s, i0, a);
    if has_pt {
        let frac = copy_range(s, a + 1, b);
        let mut i: usize = 0;
        let ghost whole = s@.subrange(i0 as int, a as int) + s@.subrange(a + 1, b as int);
        while i < frac.len()
            invariant
                i <= frac@.len(),
                frac@ == s@.subrange(a + 1, b as int),
                whole == s@.subrange(i0 as int, a as int) + s@.subrange(a + 1, b as int),
                digits@ =~= s@.subrange(i0 as int, a as int) + frac@.take(i as int),
            decreases frac@.len() - i,
        {
            digits.push(frac[i]);
            proof {
                assert(digits@ =~= s@.subrange(i0 as int, a as int) + frac@.take(i + 1));
            }
            i = i + 1;
        }
        proof {
            assert(frac@.take(frac@.len() as int) =~= frac@);
        }
    } else {
        proof {
            assert(digits@ =~= s@.subrange(i0 as int, a as int) + Seq::<char>::empty());
        }
    }
    if digits.len() == 0 {
        return None;
    }
    let ex: i128;
    if b == s.len() {
        ex = 0;
    } else if s[b] == 'E' {
        let esign = b + 1 < s.len() && (s[b + 1] == '-' || s[b + 1] == '+');
        let eneg = b + 1 < s.len() && s[b + 1] == '-';
        let e0 = if esign { b + 2 } else { b + 1 };
        if e0 > s.len() {
            return None;
        }
        let c = scan(s, e0);
        if c == s.len() && e0 < c && c - e0 <= 6 {
            proof {
                lemma_scan_digits_span(s@, e0 as int);
            }
            let v = digits_value(s, e0, c);
            ex = if eneg { -v } else { v };
        } else {
            return None;
        }
    } else {
        return None;
    }
    let mut lz: usize = 0;
    while lz < digits.len() && digits[lz] == '0'
        invariant
            lz <= digits@.len(),
            leading_zeros(digits@, 0) == leading_zeros(digits@, lz as int),
        decreases digits@.len() - lz,
    {
        lz = lz + 1;
    }
    if lz >= digits.len() {
        return None;
    }
    let suffix = copy_range(&digits, lz, digits.len());
    proof {
        assert(suffix@ =~= digits@.skip(lz as int));
    }
    let ds = strip_vec(suffix);
    let e: i128 = ex + a as i128 - i0 as i128 - lz as i128;
    Some((neg, ds, e))
}

/// Computes `choose_text`, asking the numeric reader about each candidate.
fn pick_text(b: u64, neg: bool, ds: &Vec<char>, e: i128) -> (r: String)
    requires
        ds@.len() >= 1,
        -0x1_0000_0000_0000_0000_0000 <= e <= 0x1_0000_0000_0000_0000_0000,
    ensures
        r@ == choose_text(b, neg, ds@, e as int, 1),
{
    let n = ds.len();
    let mut k: usize = 1;
    while k < n
        invariant
            1 <= k,
            n == ds@.len(),
            -0x1_0000_0000_0000_0000_0000 <= e <= 0x1_0000_0000_0000_0000_0000,
            choose_text(b, neg, ds@, e as int, 1) == choose_text(b, neg, ds@, e as int, k as int),
        decreases n - k,
    {
        let fl = render_text(neg, &strip_vec(copy_range(ds, 0, k)), e);
        proof {
            assert(ds@.subrange(0, k as int) =~= ds@.take(k as int));
        }
        let up = incr_upto(ds, k);
        let cl = if up.len() == k + 1 {
            render_text(neg, &strip_vec(up), e + 1)
        } else {
            render_text(neg, &strip_vec(up), e)
        };
        let flt = crate::num::chars_to_string(&fl);
        let clt = crate::num::chars_to_string(&cl);
        let fok = match crate::num::num_parse(&flt) {
            Some(m) => m == b,
            None => false,
        };
        let cok = match crate::num::num_parse(&clt) {
            Some(m) => m == b,
            None => false,
        };
        if fok && cok {
            if '5' <= ds[k] {
                return clt;
            } else {
                return flt;
            }
        } else if fok {
            return flt;
        } else if cok {
            return clt;
        }
        k = k + 1;
    }
    let fl = render_text(neg, &strip_vec(copy_range(ds, 0, n)), e);
    proof {
        assert(ds@.subrange(0, n as int) =~= ds@);
    }
    let flt = crate::num::chars_to_string(&fl);
    let fok = match crate::num::num_parse(&flt) {
        Some(m) => m == b,
        None => false,
    };
    if fok {
        flt
    } else {
        crate::num::chars_to_string(&crate::num::num_text(b))
    }
}

/// The printed form of a number's bits, as `num_display` defines it: the
/// shortest positional decimal that reads back to the same bits, with NaN,
/// the infinities and the zeros printed as the reader text itself.
pub fn format_num(b: u64) -> (r: String)
    ensures
        r@ == num_display(b),
{
    let t = crate::num::num_text(b);
    let nan = (b >> 52) & 0x7FF == 0x7FF && b & 0xF_FFFF_FFFF_FFFF != 0;
    let inf = (b >> 52) & 0x7FF == 0x7FF && b & 0xF_FFFF_FFFF_FFFF == 0;
    let zero = b & 0x7FFF_FFFF_FFFF_FFFF == 0;
    if nan || inf || zero {
        return crate::num::chars_to_string(&t);
    }
    match decompose(&t) {
        None => crate::num::chars_to_string(&t),
        Some((neg, ds, e)) => {
            proof {
                assert(decomp(t@) matches Some(p) && p.1.len() >= 1) by {
                    lemma_decomp_digits(t@);
                }
            }
            pick_text(b, neg, &ds, e)
        },
    }
}

/// A successful decomposition yields digits only, at least one, with
/// nonzero head and tail.
pub proof fn lemma_decomp_digits(s: Seq<char>)
    ensures
        decomp(s) matches Some(p) ==> {
            &&& p.1.len() >= 1
            &&& (forall|i: int| 0 <= i < p.1.len() ==> digit(p.1[i]))
            &&& p.1[0] != '0'
            &&& p.1.last() != '0'
        },
{
    if decomp(s) is Some {
        let neg = s.len() > 0 && s[0] == '-';
        let i0: int = if neg { 1 } else { 0 };
        let a = scan_digits(s, i0);
        let has_pt = a < s.len() && s[a] == '.';
        let b2 = if has_pt { scan_digits(s, a + 1) } else { a };
        let digits = s.subrange(i0, a) + if has_pt {
            s.subrange(a + 1, b2)
        } else {
            Seq::empty()
        };
        lemma_scan_digits_span(s, i0);
        if has_pt {
            lemma_scan_digits_span(s, a + 1);
        }
        let lz = leading_zeros(digits, 0);
        lemma_leading_zeros_span(digits, 0);
        assert(forall|i: int| 0 <= i < digits.len() ==> digit(digits[i]));
        if 0 <= lz < digits.len() {
            assert(digits.skip(lz)[0] == digits[lz]);
            assert(forall|i: int| 0 <= i < digits.skip(lz).len() ==> digit(digits.skip(lz)[i]));
            lemma_strip_zeros_chars(digits.skip(lz));
            let ds = strip_zeros(digits.skip(lz));
            if ds.len() > 0 {
                assert(ds[0] == digits.skip(lz)[0]);
            }
        }
    }
}

/// A rendering is never empty, is made of digits, the point and the minus
/// sign, and ends in a digit.
pub proof fn lemma_render_ok(neg: bool, ds: Seq<char>, e: int)
    requires
        ds.len() > 0,
        forall|i: int| 0 <= i < ds.len() ==> digit(ds[i]),
    ensures
        render(neg, ds, e).len() > 0,
        forall|i: int| 0 <= i < render(neg, ds, e).len() ==> (digit(render(neg, ds, e)[i])
            || render(neg, ds, e)[i] == '.' || render(neg, ds, e)[i] == '-'),
        digit(render(neg, ds, e).last()),
{
    lemma_zeros_chars(e - ds.len());
    lemma_zeros_chars(-e);
    let body = if e >= ds.len() {
        ds + zeros(e - ds.len())
    } else if e >= 1 {
        ds.take(e) + seq!['.'] + ds.skip(e)
    } else {
        seq!['0', '.'] + zeros(-e) + ds
    };
    assert forall|i: int| 0 <= i < body.len() implies (digit(body[i]) || body[i] == '.') by {
        if e >= ds.len() {
            if i < ds.len() {
                assert(body[i] == ds[i]);
            } else {
                assert(body[i] == zeros(e - ds.len())[i - ds.len()]);
            }
        } else if e >= 1 {
            if i < e {
                assert(body[i] == ds.take(e)[i]);
            } else if i == e {
                assert(body[i] == '.');
            } else {
                assert(body[i] == ds.skip(e)[i - e - 1]);
            }
        } else {
            if i < 2 {
            } else if i < 2 + zeros(-e).len() {
                assert(body[i] == zeros(-e)[i - 2]);
            } else {
                assert(body[i] == ds[i - 2 - zeros(-e).len()]);
            }
        }
    }
    assert(digit(body.last())) by {
        if e >= ds.len() {
            if e > ds.len() {
                assert(body.last() == zeros(e - ds.len()).last());
            } else {
                assert(body.last() == ds.last());
            }
        } else if e >= 1 {
            assert(body.last() == ds.skip(e).last());
            assert(ds.skip(e).last() == ds.last());
        } else {
            assert(body.last() == ds.last());
        }
    }
    if neg {
        assert(render(neg, ds, e) == seq!['-'] + body);
        assert(forall|i: int| 0 <= i < body.len() ==> render(neg, ds, e)[i + 1] == body[i]);
        assert(render(neg, ds, e).last() == body.last());
    }
}

/// Whatever the search yields is non-empty numeric text that does not end
/// in a point and reads back to the bits it was searched for.
pub proof fn lemma_choose_ok(b: u64, neg: bool, ds: Seq<char>, e: int, k: int)
    requires
        num::num_text_ok(b),
        ds.len() >= 1,
        forall|i: int| 0 <= i < ds.len() ==> digit(ds[i]),
        ds[0] != '0',
    ensures
        ({
            let t = choose_text(b, neg, ds, e, k);
            &&& t.len() > 0
            &&& (forall|i: int| 0 <= i < t.len() ==> num::numeric_text_char(t[i]))
            &&& t.last() != '.'
            &&& num::bits_of_text(t) == Some(b)
        }),
    decreases ds.len() - k,
{
    lemma_strip_zeros_chars(ds);
    if k < 1 || k >= ds.len() {
        let sd = strip_zeros(ds);
        lemma_render_ok(neg, sd, e);
        let f = render(neg, sd, e);
        assert(forall|i: int| 0 <= i < f.len() ==> num::numeric_text_char(f[i]));
    } else {
        assert(ds.take(k)[0] == ds[0]);
        assert(forall|i: int| 0 <= i < k ==> digit(ds.take(k)[i]));
        lemma_strip_zeros_chars(ds.take(k));
        let fd = strip_zeros(ds.take(k));
        lemma_render_ok(neg, fd, e);
        let fl = render(neg, fd, e);
        assert(forall|i: int| 0 <= i < fl.len() ==> num::numeric_text_char(fl[i]));
        lemma_incr_chars(ds.take(k));
        let up = incr(ds.take(k));
        lemma_strip_zeros_chars(up);
        let cd = strip_zeros(up);
        let ce: int = if up.len() == k + 1 {
            e + 1
        } else {
            e
        };
        lemma_render_ok(neg, cd, ce);
        let cl = render(neg, cd, ce);
        assert(forall|i: int| 0 <= i < cl.len() ==> num::numeric_text_char(cl[i]));
        let fok = num::bits_of_text(fl) == Some(b);
        let cok = num::bits_of_text(cl) == Some(b);
        if !(fok || cok) {
            lemma_choose_ok(b, neg, ds, e, k + 1);
        }
    }
}

/// The printed form of a number is non-empty numeric text that does not end
/// in a point, and — NaN aside — reads back to the same bits; everything the
/// printing wrapper's contract gives of the raw text carries over to the
/// shortest form.
pub proof fn lemma_num_display_ok(b: u64)
    requires
        num::num_text_ok(b),
    ensures
        num_display(b).len() > 0,
        forall|i: int| 0 <= i < num_display(b).len() ==> num::numeric_text_char(
            num_display(b)[i],
        ),
        num_display(b)[num_display(b).len() - 1] != '.',
        !num::is_nan_bits(b) ==> num::bits_of_text(num_display(b)) == Some(b),
{
    if num::is_nan_bits(b) || num::is_inf_bits(b) || num::is_zero_bits(b) {
    } else {
        match decomp(num::text_of_bits(b)) {
            None => {},
            Some(p) => {
                lemma_decomp_digits(num::text_of_bits(b));
                lemma_choose_ok(b, p.0, p.1, p.2, 1);
                assert(choose_text(b, p.0, p.1, p.2, 1).last() == num_display(
                    b,
                )[num_display(b).len() - 1]);
            },
        }
    }
}

/// A scan over digits runs to the first position that holds none.
pub proof fn lemma_scan_digits_stops(s: Seq<char>, i: int, j: int)
    requires
        0 <= i <= j <= s.len(),
        forall|x: int| i <= x < j ==> digit(s[x]),
        j < s.len() ==> !digit(s[j]),
    ensures
        scan_digits(s, i) == j,
    decreases j - i,
{
    if i < j {
        lemma_scan_digits_stops(s, i + 1, j);
    }
}

/// Everything scanned over is a digit, and nothing stands before the stop.
pub proof fn lemma_scan_digits_span(s: Seq<char>, i: int)
    requires
        0 <= i,
    ensures
        i <= scan_digits(s, i) <= s.len() || scan_digits(s, i) == i,
        forall|j: int| i <= j < scan_digits(s, i) ==> digit(s[j]),
    decreases s.len() - i,
{
    if 0 <= i < s.len() && digit(s[i]) {
        lemma_scan_digits_span(s, i + 1);
    }
}

/// Everything before the leading-zero stop is a zero.
pub proof fn lemma_leading_zeros_span(s: Seq<char>, i: int)
    requires
        0 <= i,
    ensures
        i <= leading_zeros(s, i) <= s.len() || leading_zeros(s, i) == i,
        forall|j: int| i <= j < leading_zeros(s, i) ==> s[j] == '0',
        leading_zeros(s, i) < s.len() ==> s[leading_zeros(s, i)] != '0',
    decreases s.len() - i,
{
    if 0 <= i < s.len() && s[i] == '0' {
        lemma_leading_zeros_span(s, i + 1);
    }
}

} // verus!
