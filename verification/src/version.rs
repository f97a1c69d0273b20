//! Dotted numeric version strings and their ordering.
//!
//! A version string is split on `.` into segments; segments are compared as
//! integers, and a shorter version is padded with zero segments, so that
//! `"1.2"` and `"1.2.0"` are equal.  A string with an empty or non-numeric
//! segment is not a valid version; comparing anything against such a string
//! yields `Less`, a deliberately conservative fallback so that a malformed
//! version can never present itself as newer.

use vstd::prelude::*;

verus! {

/// Result of comparing two version strings.
#[derive(Clone, Copy, PartialEq, Eq, Structural, Debug)]
pub enum Order {
    Less,
    Equal,
    Greater,
}

pub open spec fn is_digit(c: char) -> bool {
    48 <= c as int && c as int <= 57
}

pub open spec fn digit_val(c: char) -> nat {
    (c as int - 48) as nat
}

/// A valid numeric segment: non-empty, all decimal digits.
pub open spec fn seg_valid(t: Seq<char>) -> bool {
    t.len() > 0 && forall|i: int| 0 <= i < t.len() ==> is_digit(#[trigger] t[i])
}

/// All characters are decimal digits (the empty sequence counts, with value 0).
pub open spec fn all_digits(t: Seq<char>) -> bool {
    forall|i: int| 0 <= i < t.len() ==> is_digit(#[trigger] t[i])
}

pub open spec fn pow10(n: nat) -> nat
    decreases n,
{
    if n == 0 {
        1
    } else {
        10 * pow10((n - 1) as nat)
    }
}

/// Numeric value of a digit sequence, most significant digit first.
pub open spec fn seg_value(t: Seq<char>) -> nat
    decreases t.len(),
{
    if t.len() == 0 {
        0
    } else {
        seg_value(t.drop_last()) * 10 + digit_val(t.last())
    }
}

/// Split a character sequence on a separator.  Splitting the empty sequence
/// gives one empty piece, matching how `"".split('.')` behaves.
pub open spec fn split_on(s: Seq<char>, sep: char) -> Seq<Seq<char>>
    decreases s.len(),
{
    if s.len() == 0 {
        seq![Seq::<char>::empty()]
    } else if s[0] == sep {
        seq![Seq::<char>::empty()] + split_on(s.drop_first(), sep)
    } else {
        let rest = split_on(s.drop_first(), sep);
        seq![seq![s[0]] + rest[0]] + rest.drop_first()
    }
}

/// A syntactically valid dotted numeric version: every `.`-separated segment
/// is a non-empty run of digits.
pub open spec fn valid_version(s: Seq<char>) -> bool {
    forall|i: int| 0 <= i < split_on(s, '.').len() ==> seg_valid(#[trigger] split_on(s, '.')[i])
}

/// Value of segment `i`, with missing trailing segments read as 0.
pub open spec fn seg_num(segs: Seq<Seq<char>>, i: int) -> nat {
    if 0 <= i < segs.len() {
        seg_value(segs[i])
    } else {
        0
    }
}

/// Compare two segment lists position by position from index `i`, padding the
/// shorter list with zeros.
pub open spec fn cmp_segs(a: Seq<Seq<char>>, b: Seq<Seq<char>>, i: int) -> Order
    decreases (if a.len() > b.len() { a.len() } else { b.len() }) - i,
{
    if i >= a.len() && i >= b.len() {
        Order::Equal
    } else if seg_num(a, i) < seg_num(b, i) {
        Order::Less
    } else if seg_num(a, i) > seg_num(b, i) {
        Order::Greater
    } else {
        cmp_segs(a, b, i + 1)
    }
}

/// The comparison this library offers: numeric, segment-wise, zero-padded;
/// `Less` as the conservative fallback when either side is not a valid
/// version.
pub open spec fn spec_compare(a: Seq<char>, b: Seq<char>) -> Order {
    if valid_version(a) && valid_version(b) {
        cmp_segs(split_on(a, '.'), split_on(b, '.'), 0)
    } else {
        Order::Less
    }
}

// ---------------------------------------------------------------------------
// Facts about split_on
// ---------------------------------------------------------------------------

pub proof fn lemma_split_len(s: Seq<char>, sep: char)
    ensures
        split_on(s, sep).len() >= 1,
    decreases s.len(),
{
    if s.len() == 0 {
    } else if s[0] == sep {
        lemma_split_len(s.drop_first(), sep);
    } else {
        lemma_split_len(s.drop_first(), sep);
    }
}

/// A sequence without the separator splits into exactly itself.
pub proof fn lemma_split_no_sep(s: Seq<char>, sep: char)
    requires
        forall|j: int| 0 <= j < s.len() ==> s[j] != sep,
    ensures
        split_on(s, sep) == seq![s],
    decreases s.len(),
{
    if s.len() == 0 {
        assert(Seq::<char>::empty() =~= s);
    } else {
        lemma_split_no_sep(s.drop_first(), sep);
        assert(seq![s[0]] + s.drop_first() =~= s);
        assert(split_on(s, sep) =~= seq![s]);
    }
}

/// Splitting at the first separator: everything before it is the first piece,
/// and the rest splits independently.
pub proof fn lemma_split_first_sep(s: Seq<char>, sep: char, i: int)
    requires
        0 <= i < s.len(),
        s[i] == sep,
        forall|j: int| 0 <= j < i ==> s[j] != sep,
    ensures
        split_on(s, sep) == seq![s.subrange(0, i)] + split_on(
            s.subrange(i + 1, s.len() as int),
            sep,
        ),
    decreases i,
{
    if i == 0 {
        assert(s.subrange(0, 0) =~= Seq::<char>::empty());
        assert(s.subrange(1, s.len() as int) =~= s.drop_first());
        assert(split_on(s, sep) =~= seq![s.subrange(0, i)] + split_on(
            s.subrange(i + 1, s.len() as int),
            sep,
        ));
    } else {
        let s1 = s.drop_first();
        lemma_split_first_sep(s1, sep, i - 1);
        let rest = split_on(s1, sep);
        assert(rest == seq![s1.subrange(0, i - 1)] + split_on(
            s1.subrange(i, s1.len() as int),
            sep,
        ));
        assert(rest[0] == s1.subrange(0, i - 1));
        assert(seq![s[0]] + s1.subrange(0, i - 1) =~= s.subrange(0, i));
        assert(rest.drop_first() =~= split_on(s1.subrange(i, s1.len() as int), sep));
        assert(s1.subrange(i, s1.len() as int) =~= s.subrange(i + 1, s.len() as int));
        assert(split_on(s, sep) =~= seq![s.subrange(0, i)] + split_on(
            s.subrange(i + 1, s.len() as int),
            sep,
        ));
    }
}

/// No occurrence of the dot separator.
pub open spec fn no_dot(t: Seq<char>) -> bool {
    forall|j: int| 0 <= j < t.len() ==> t[j] != '.'
}

/// Join pieces with a `'.'` between each pair.
pub open spec fn join_dots(segs: Seq<Seq<char>>) -> Seq<char>
    decreases segs.len(),
{
    if segs.len() == 0 {
        Seq::empty()
    } else if segs.len() == 1 {
        segs[0]
    } else {
        join_dots(segs.drop_last()) + seq!['.'] + segs.last()
    }
}

/// Splitting distributes over a separator placed between two parts.
pub proof fn lemma_split_concat(a: Seq<char>, b: Seq<char>, sep: char)
    ensures
        split_on(a + seq![sep] + b, sep) == split_on(a, sep) + split_on(b, sep),
    decreases a.len(),
{
    let s = a + seq![sep] + b;
    if a.len() == 0 {
        assert(s[0] == sep);
        assert(s.drop_first() =~= b);
        assert(split_on(a, sep) =~= seq![Seq::<char>::empty()]);
        assert(split_on(s, sep) =~= split_on(a, sep) + split_on(b, sep));
    } else {
        let a1 = a.drop_first();
        lemma_split_concat(a1, b, sep);
        assert(s.drop_first() =~= a1 + seq![sep] + b);
        lemma_split_len(a1, sep);
        if a[0] == sep {
            assert(split_on(s, sep) =~= split_on(a, sep) + split_on(b, sep));
        } else {
            assert((split_on(a1, sep) + split_on(b, sep))[0] == split_on(a1, sep)[0]);
            assert((split_on(a1, sep) + split_on(b, sep)).drop_first() =~= split_on(
                a1,
                sep,
            ).drop_first() + split_on(b, sep));
            assert(split_on(s, sep) =~= split_on(a, sep) + split_on(b, sep));
        }
    }
}

/// Splitting undoes joining, as long as no piece contains a dot.
pub proof fn lemma_split_join(segs: Seq<Seq<char>>)
    requires
        segs.len() >= 1,
        forall|i: int| 0 <= i < segs.len() ==> no_dot(#[trigger] segs[i]),
    ensures
        split_on(join_dots(segs), '.') == segs,
    decreases segs.len(),
{
    if segs.len() == 1 {
        lemma_split_no_sep(segs[0], '.');
        assert(split_on(join_dots(segs), '.') =~= segs);
    } else {
        let front = segs.drop_last();
        lemma_split_join(front);
        lemma_split_concat(join_dots(front), segs.last(), '.');
        lemma_split_no_sep(segs.last(), '.');
        assert(front + seq![segs.last()] =~= segs);
        assert(split_on(join_dots(segs), '.') =~= segs);
    }
}

/// Joining valid numeric segments yields a valid version whose segments are
/// exactly the ones joined.
pub proof fn lemma_join_valid(segs: Seq<Seq<char>>)
    requires
        segs.len() >= 1,
        forall|i: int| 0 <= i < segs.len() ==> seg_valid(#[trigger] segs[i]),
    ensures
        valid_version(join_dots(segs)),
        split_on(join_dots(segs), '.') == segs,
{
    assert forall|i: int| 0 <= i < segs.len() implies no_dot(#[trigger] segs[i]) by {
        assert(forall|j: int| 0 <= j < segs[i].len() ==> is_digit(#[trigger] segs[i][j]));
    }
    lemma_split_join(segs);
}

// ---------------------------------------------------------------------------
// Facts about segment values
// ---------------------------------------------------------------------------

pub proof fn lemma_pow10_pos(n: nat)
    ensures
        pow10(n) >= 1,
    decreases n,
{
    if n > 0 {
        lemma_pow10_pos((n - 1) as nat);
    }
}

pub proof fn lemma_pow10_mono(m: nat, n: nat)
    requires
        m <= n,
    ensures
        pow10(m) <= pow10(n),
    decreases n,
{
    if m < n {
        lemma_pow10_mono(m, (n - 1) as nat);
        lemma_pow10_pos((n - 1) as nat);
    }
}

pub proof fn lemma_seg_value_bound(t: Seq<char>)
    requires
        all_digits(t),
    ensures
        seg_value(t) < pow10(t.len()),
    decreases t.len(),
{
    if t.len() == 0 {
    } else {
        assert(all_digits(t.drop_last()));
        lemma_seg_value_bound(t.drop_last());
        assert(digit_val(t.last()) <= 9);
    }
}

pub proof fn lemma_seg_value_concat(a: Seq<char>, b: Seq<char>)
    ensures
        seg_value(a + b) == seg_value(a) * pow10(b.len()) + seg_value(b),
    decreases b.len(),
{
    if b.len() == 0 {
        assert(a + b =~= a);
        assert(seg_value(a) * 1 == seg_value(a)) by (nonlinear_arith);
    } else {
        lemma_seg_value_concat(a, b.drop_last());
        assert((a + b).drop_last() =~= a + b.drop_last());
        assert((a + b).last() == b.last());
        let va = seg_value(a);
        let p = pow10((b.len() - 1) as nat);
        assert(seg_value(a + b) == (va * p + seg_value(b.drop_last())) * 10 + digit_val(b.last()));
        assert((va * p + seg_value(b.drop_last())) * 10 == va * (p * 10) + seg_value(b.drop_last())
            * 10) by (nonlinear_arith);
        assert(pow10(b.len()) == 10 * p);
        assert(va * (p * 10) == va * pow10(b.len())) by (nonlinear_arith)
            requires
                p * 10 == pow10(b.len()),
        ;
    }
}

pub proof fn lemma_seg_value_msb(t: Seq<char>)
    requires
        t.len() > 0,
    ensures
        seg_value(t) == digit_val(t[0]) * pow10((t.len() - 1) as nat) + seg_value(t.drop_first()),
{
    let h = seq![t[0]];
    assert(t =~= h + t.drop_first());
    lemma_seg_value_concat(h, t.drop_first());
    assert(h.drop_last() =~= Seq::<char>::empty());
    assert(seg_value(Seq::<char>::empty()) == 0);
    assert(h.last() == t[0]);
    assert(seg_value(h) == seg_value(h.drop_last()) * 10 + digit_val(h.last()));
    assert(seg_value(h) == digit_val(t[0]));
}

/// Leading zeros do not change a segment's value.
pub proof fn lemma_strip_zeros(t: Seq<char>, k: int)
    requires
        0 <= k <= t.len(),
        forall|j: int| 0 <= j < k ==> t[j] == '0',
    ensures
        seg_value(t) == seg_value(t.subrange(k, t.len() as int)),
    decreases k,
{
    if k == 0 {
        assert(t.subrange(0, t.len() as int) =~= t);
    } else {
        lemma_seg_value_msb(t);
        let p = pow10((t.len() - 1) as nat);
        assert(digit_val('0') == 0);
        assert(seg_value(t) == digit_val(t[0]) * p + seg_value(t.drop_first()));
        assert(digit_val(t[0]) * p == 0) by (nonlinear_arith)
            requires
                digit_val(t[0]) == 0,
        ;
        assert(seg_value(t) == seg_value(t.drop_first()));
        lemma_strip_zeros(t.drop_first(), k - 1);
        assert(t.drop_first().subrange(k - 1, t.drop_first().len() as int) =~= t.subrange(
            k,
            t.len() as int,
        ));
    }
}

/// A digit run with a non-zero leading digit is at least `pow10(len - 1)`.
pub proof fn lemma_seg_value_lower(t: Seq<char>)
    requires
        t.len() > 0,
        is_digit(t[0]),
        t[0] != '0',
    ensures
        seg_value(t) >= pow10((t.len() - 1) as nat),
{
    lemma_seg_value_msb(t);
    let d = digit_val(t[0]);
    let p = pow10((t.len() - 1) as nat);
    assert(d >= 1);
    assert(d * p >= p) by (nonlinear_arith)
        requires
            d >= 1,
            p >= 0,
    ;
}

/// With no leading zeros, a strictly shorter digit run has a strictly smaller
/// value.
pub proof fn lemma_digits_shorter_smaller(x: Seq<char>, y: Seq<char>)
    requires
        all_digits(x),
        all_digits(y),
        x.len() < y.len(),
        y.len() > 0 && y[0] != '0',
    ensures
        seg_value(x) < seg_value(y),
{
    lemma_seg_value_bound(x);
    lemma_pow10_mono(x.len(), (y.len() - 1) as nat);
    lemma_seg_value_lower(y);
}

/// Equal-length digit runs compare by their first differing digit.
pub proof fn lemma_digits_first_diff(x: Seq<char>, y: Seq<char>, j: int)
    requires
        all_digits(x),
        all_digits(y),
        x.len() == y.len(),
        0 <= j < x.len(),
        x.subrange(0, j) == y.subrange(0, j),
        digit_val(x[j]) < digit_val(y[j]),
    ensures
        seg_value(x) < seg_value(y),
{
    let n = x.len() as int;
    let px = x.subrange(0, j);
    let sx = x.subrange(j, n);
    let sy = y.subrange(j, n);
    assert(x =~= px + sx);
    assert(y =~= px + sy);
    lemma_seg_value_concat(px, sx);
    lemma_seg_value_concat(px, sy);
    lemma_seg_value_msb(sx);
    lemma_seg_value_msb(sy);
    assert(all_digits(sx.drop_first()));
    lemma_seg_value_bound(sx.drop_first());
    let p = pow10((sx.len() - 1) as nat);
    let dx = digit_val(sx[0]);
    let dy = digit_val(sy[0]);
    assert(sx[0] == x[j] && sy[0] == y[j]);
    assert(seg_value(sx) < seg_value(sy)) by (nonlinear_arith)
        requires
            seg_value(sx) == dx * p + seg_value(sx.drop_first()),
            seg_value(sy) == dy * p + seg_value(sy.drop_first()),
            seg_value(sx.drop_first()) < p,
            seg_value(sy.drop_first()) >= 0,
            dx < dy,
    ;
}

// ---------------------------------------------------------------------------
// Executable splitting
// ---------------------------------------------------------------------------

/// Split a string on a separator character, as `str::split` does.
pub fn split_char(s: &str, sep: char) -> (parts: Vec<String>)
    ensures
        parts.deep_view() == split_on(s@, sep),
{
    let n = s.unicode_len();
    let mut parts: Vec<String> = Vec::new();
    let mut start: usize = 0;
    let mut i: usize = 0;
    proof {
        assert(s@.subrange(0, n as int) =~= s@);
        assert(parts.deep_view() + split_on(s@, sep) =~= split_on(s@, sep));
    }
    while i < n
        invariant
            n == s@.len(),
            start <= i <= n,
            forall|j: int| start <= j < i ==> s@[j] != sep,
            parts.deep_view() + split_on(s@.subrange(start as int, n as int), sep) == split_on(
                s@,
                sep,
            ),
        decreases n - i,
    {
        if s.get_char(i) == sep {
            let piece = s.substring_char(start, i).to_owned();
            proof {
                let tail = s@.subrange(start as int, n as int);
                lemma_split_first_sep(tail, sep, i - start);
                assert(tail.subrange(0, i - start) =~= s@.subrange(start as int, i as int));
                assert(tail.subrange(i - start + 1, tail.len() as int) =~= s@.subrange(
                    i + 1,
                    n as int,
                ));
            }
            let ghost old_parts = parts.deep_view();
            parts.push(piece);
            proof {
                assert(parts.deep_view() =~= old_parts.push(s@.subrange(start as int, i as int)));
                assert(parts.deep_view() + split_on(s@.subrange(i + 1, n as int), sep) =~= (
                old_parts + split_on(s@.subrange(start as int, n as int), sep)));
            }
            start = i + 1;
        }
        i = i + 1;
    }
    let piece = s.substring_char(start, n).to_owned();
    proof {
        lemma_split_no_sep(s@.subrange(start as int, n as int), sep);
    }
    let ghost old_parts = parts.deep_view();
    parts.push(piece);
    proof {
        assert(parts.deep_view() =~= old_parts.push(s@.subrange(start as int, n as int)));
        assert(parts.deep_view() =~= split_on(s@, sep));
    }
    parts
}

// ---------------------------------------------------------------------------
// Executable comparison
// ---------------------------------------------------------------------------

pub open spec fn ord_of(a: nat, b: nat) -> Order {
    if a < b {
        Order::Less
    } else if a > b {
        Order::Greater
    } else {
        Order::Equal
    }
}

/// Number of leading `'0'` characters.
fn count_zeros(s: &str) -> (k: usize)
    ensures
        k <= s@.len(),
        forall|j: int| 0 <= j < k ==> s@[j] == '0',
        k < s@.len() ==> s@[k as int] != '0',
{
    let n = s.unicode_len();
    let mut k: usize = 0;
    while k < n
        invariant
            k <= n,
            n == s@.len(),
            forall|j: int| 0 <= j < k ==> s@[j] == '0',
        decreases n - k,
    {
        if s.get_char(k) != '0' {
            return k;
        }
        k = k + 1;
    }
    k
}

/// Compare two digit runs by numeric value (leading zeros ignored).
fn cmp_digit_str(x: &str, y: &str) -> (r: Order)
    requires
        all_digits(x@),
        all_digits(y@),
    ensures
        r == ord_of(seg_value(x@), seg_value(y@)),
{
    let nx = x.unicode_len();
    let ny = y.unicode_len();
    let kx = count_zeros(x);
    let ky = count_zeros(y);
    let ghost sx = x@.subrange(kx as int, nx as int);
    let ghost sy = y@.subrange(ky as int, ny as int);
    proof {
        lemma_strip_zeros(x@, kx as int);
        lemma_strip_zeros(y@, ky as int);
        assert(all_digits(sx));
        assert(all_digits(sy));
    }
    let lx = nx - kx;
    let ly = ny - ky;
    if lx < ly {
        proof {
            lemma_digits_shorter_smaller(sx, sy);
        }
        return Order::Less;
    }
    if ly < lx {
        proof {
            lemma_digits_shorter_smaller(sy, sx);
        }
        return Order::Greater;
    }
    let mut i: usize = 0;
    while i < lx
        invariant
            i <= lx,
            lx == ly,
            kx + lx == nx,
            ky + ly == ny,
            nx == x@.len(),
            ny == y@.len(),
            all_digits(sx),
            all_digits(sy),
            sx == x@.subrange(kx as int, nx as int),
            sy == y@.subrange(ky as int, ny as int),
            sx.len() == lx,
            sy.len() == ly,
            seg_value(x@) == seg_value(sx),
            seg_value(y@) == seg_value(sy),
            forall|j: int| 0 <= j < i ==> sx[j] == sy[j],
        decreases lx - i,
    {
        let cx = x.get_char(kx + i);
        let cy = y.get_char(ky + i);
        if cx != cy {
            proof {
                assert(sx[i as int] == cx);
                assert(sy[i as int] == cy);
                assert(sx.subrange(0, i as int) =~= sy.subrange(0, i as int));
                if (cx as u32) < (cy as u32) {
                    lemma_digits_first_diff(sx, sy, i as int);
                } else {
                    lemma_digits_first_diff(sy, sx, i as int);
                }
            }
            if (cx as u32) < (cy as u32) {
                return Order::Less;
            } else {
                return Order::Greater;
            }
        }
        i = i + 1;
    }
    proof {
        assert(sx =~= sy);
    }
    Order::Equal
}

/// Check that every piece of a split version string is a numeric segment.
fn segments_valid(parts: &Vec<String>) -> (r: bool)
    ensures
        r == (forall|i: int|
            0 <= i < parts.deep_view().len() ==> seg_valid(#[trigger] parts.deep_view()[i])),
{
    let mut i: usize = 0;
    while i < parts.len()
        invariant
            i <= parts.len(),
            forall|j: int| 0 <= j < i ==> seg_valid(#[trigger] parts.deep_view()[j]),
        decreases parts.len() - i,
    {
        if !is_valid_segment(parts[i].as_str()) {
            proof {
                assert(parts.deep_view()[i as int] == parts@[i as int]@);
            }
            return false;
        }
        proof {
            assert(parts.deep_view()[i as int] == parts@[i as int]@);
        }
        i = i + 1;
    }
    true
}

/// A non-empty, all-digit piece.
pub(crate) fn is_valid_segment(s: &str) -> (r: bool)
    ensures
        r == seg_valid(s@),
{
    let n = s.unicode_len();
    if n == 0 {
        return false;
    }
    let mut i: usize = 0;
    while i < n
        invariant
            i <= n,
            n == s@.len(),
            n > 0,
            forall|j: int| 0 <= j < i ==> is_digit(#[trigger] s@[j]),
        decreases n - i,
    {
        let c = s.get_char(i);
        if (c as u32) < 48 || (c as u32) > 57 {
            proof {
                assert(!is_digit(s@[i as int]));
            }
            return false;
        }
        i = i + 1;
    }
    true
}

/// Compare two version strings: numeric, segment by segment, missing trailing
/// segments read as 0, and `Less` when either side is not a valid dotted
/// numeric version (the conservative fallback).
pub fn compare(a: &str, b: &str) -> (r: Order)
    ensures
        r == spec_compare(a@, b@),
{
    let sa = split_char(a, '.');
    let sb = split_char(b, '.');
    if !segments_valid(&sa) || !segments_valid(&sb) {
        return Order::Less;
    }
    let ghost ga = split_on(a@, '.');
    let ghost gb = split_on(b@, '.');
    let la = sa.len();
    let lb = sb.len();
    let maxl = if la > lb {
        la
    } else {
        lb
    };
    let mut i: usize = 0;
    while i < maxl
        invariant
            i <= maxl,
            la <= maxl,
            lb <= maxl,
            maxl == la || maxl == lb,
            sa.deep_view() == ga,
            sb.deep_view() == gb,
            la == sa.len(),
            lb == sb.len(),
            la == ga.len(),
            lb == gb.len(),
            valid_version(a@),
            valid_version(b@),
            ga == split_on(a@, '.'),
            gb == split_on(b@, '.'),
            cmp_segs(ga, gb, 0) == cmp_segs(ga, gb, i as int),
        decreases maxl - i,
    {
        let ca: &str = if i < la {
            sa[i].as_str()
        } else {
            ""
        };
        let cb: &str = if i < lb {
            sb[i].as_str()
        } else {
            ""
        };
        proof {
            reveal_strlit("");
            assert(""@ =~= Seq::<char>::empty());
            if i < la {
                assert(ca@ == ga[i as int]);
            }
            if i < lb {
                assert(cb@ == gb[i as int]);
            }
            assert(seg_value(ca@) == seg_num(ga, i as int));
            assert(seg_value(cb@) == seg_num(gb, i as int));
            assert(all_digits(ca@));
            assert(all_digits(cb@));
        }
        let ord = cmp_digit_str(ca, cb);
        if ord == Order::Equal {
            i = i + 1;
        } else {
            return ord;
        }
    }
    Order::Equal
}

// ---------------------------------------------------------------------------
// The comparison is an order: laws the resolver builds on
// ---------------------------------------------------------------------------

pub proof fn lemma_cmp_segs_refl(a: Seq<Seq<char>>, i: int)
    ensures
        cmp_segs(a, a, i) == Order::Equal,
    decreases a.len() - i,
{
    if i < a.len() {
        lemma_cmp_segs_refl(a, i + 1);
    }
}

pub proof fn lemma_cmp_segs_trans_gt(a: Seq<Seq<char>>, b: Seq<Seq<char>>, c: Seq<Seq<char>>, i: int)
    requires
        cmp_segs(a, b, i) == Order::Greater,
        cmp_segs(b, c, i) == Order::Greater,
    ensures
        cmp_segs(a, c, i) == Order::Greater,
    decreases a.len() + b.len() + c.len() - i,
{
    if seg_num(a, i) == seg_num(b, i) && seg_num(b, i) == seg_num(c, i) {
        lemma_cmp_segs_trans_gt(a, b, c, i + 1);
    }
}

pub proof fn lemma_cmp_segs_eq_congr(a: Seq<Seq<char>>, b: Seq<Seq<char>>, c: Seq<Seq<char>>, i: int)
    requires
        cmp_segs(a, b, i) == Order::Equal,
    ensures
        cmp_segs(a, c, i) == cmp_segs(b, c, i),
        cmp_segs(c, a, i) == cmp_segs(c, b, i),
    decreases a.len() + b.len() + c.len() - i,
{
    assert(seg_num(a, i) == seg_num(b, i));
    if i >= a.len() && i >= b.len() && i >= c.len() {
    } else {
        assert(cmp_segs(a, b, i + 1) == Order::Equal);
        lemma_cmp_segs_eq_congr(a, b, c, i + 1);
    }
}

/// Every version equals itself (when it is a valid version at all; the
/// conservative fallback makes a malformed string compare `Less`, even to
/// itself).
pub proof fn lemma_compare_reflexive(a: Seq<char>)
    requires
        valid_version(a),
    ensures
        spec_compare(a, a) == Order::Equal,
{
    lemma_cmp_segs_refl(split_on(a, '.'), 0);
}

proof fn lemma_cmp_segs_zero_pad(a: Seq<Seq<char>>, z: Seq<char>, i: int)
    requires
        seg_value(z) == 0,
    ensures
        cmp_segs(a, a.push(z), i) == Order::Equal,
    decreases a.len() + 1 - i,
{
    if i < a.len() + 1 {
        lemma_cmp_segs_zero_pad(a, z, i + 1);
    }
}

/// Appending a `.0` segment does not change a version: `"1.2"` equals
/// `"1.2.0"`, and so on for any valid version.
pub proof fn lemma_compare_trailing_zero(a: Seq<char>)
    requires
        valid_version(a),
    ensures
        valid_version(a + seq!['.', '0']),
        spec_compare(a, a + seq!['.', '0']) == Order::Equal,
{
    let z = seq!['0'];
    lemma_split_concat(a, z, '.');
    assert(a + seq!['.', '0'] =~= a + seq!['.'] + z);
    lemma_split_no_sep(z, '.');
    assert(z.drop_last() =~= Seq::<char>::empty());
    assert(seg_value(z) == seg_value(Seq::<char>::empty()) * 10 + digit_val('0'));
    assert(seg_value(z) == 0);
    assert(seg_valid(z));
    let sa = split_on(a, '.');
    let sp = split_on(a + seq!['.', '0'], '.');
    assert(sp == sa + seq![z]);
    assert(sp =~= sa.push(z));
    assert forall|i: int| 0 <= i < sp.len() implies seg_valid(#[trigger] sp[i]) by {
        if i < sa.len() {
            assert(sp[i] == sa[i]);
        } else {
            assert(sp[i] == z);
        }
    }
    lemma_cmp_segs_zero_pad(sa, z, 0);
}

/// Strict "newer than" is transitive.
pub proof fn lemma_compare_trans_greater(a: Seq<char>, b: Seq<char>, c: Seq<char>)
    requires
        spec_compare(a, b) == Order::Greater,
        spec_compare(b, c) == Order::Greater,
    ensures
        spec_compare(a, c) == Order::Greater,
{
    lemma_cmp_segs_trans_gt(split_on(a, '.'), split_on(b, '.'), split_on(c, '.'), 0);
}

/// Equal versions compare the same way against any third version.
pub proof fn lemma_compare_equal_congr(a: Seq<char>, b: Seq<char>, c: Seq<char>)
    requires
        spec_compare(a, b) == Order::Equal,
    ensures
        spec_compare(a, c) == spec_compare(b, c),
        spec_compare(c, a) == spec_compare(c, b),
{
    if valid_version(c) {
        lemma_cmp_segs_eq_congr(split_on(a, '.'), split_on(b, '.'), split_on(c, '.'), 0);
    }
}

} // verus!
