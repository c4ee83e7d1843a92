//! The canonical total order on values: variant rank first, then payload.
//!
//! The order decides map-key uniqueness, set deduplication, and the
//! canonical (sorted) print order of map and set literals. Floating-point
//! literals are compared by sign and exact decimal magnitude, so two
//! literals are equal exactly when their canonical forms coincide; in
//! particular `-0.0` sorts strictly below `0.0`, the way a bit-level float
//! order does.

use vstd::prelude::*;

use core::cmp::Ordering;

use crate::deep_of_pairs;
use crate::deep_of_seq;
use crate::SpecValue;
use crate::Value;

verus! {

broadcast use vstd::std_specs::vec::group_vec_axioms, vstd::seq::axiom_seq_index_decreases;

/// Position of each variant in the cross-variant order.
pub open spec fn rank(v: SpecValue) -> int {
    match v {
        SpecValue::Nil => 0,
        SpecValue::Boolean(_) => 1,
        SpecValue::Str(_) => 2,
        SpecValue::Char(_) => 3,
        SpecValue::Symbol(_) => 4,
        SpecValue::Keyword(_) => 5,
        SpecValue::Integer(_) => 6,
        SpecValue::Float(_, _, _) => 7,
        SpecValue::List(_) => 8,
        SpecValue::Vector(_) => 9,
        SpecValue::Mapping(_) => 10,
        SpecValue::SetOf(_) => 11,
        SpecValue::Tagged(_, _) => 12,
    }
}

/// The opposite ordering.
pub open spec fn flip(o: Ordering) -> Ordering {
    match o {
        Ordering::Less => Ordering::Greater,
        Ordering::Equal => Ordering::Equal,
        Ordering::Greater => Ordering::Less,
    }
}

/// Comparison of two integers.
pub open spec fn cmp_int(a: int, b: int) -> Ordering {
    if a < b {
        Ordering::Less
    } else if a > b {
        Ordering::Greater
    } else {
        Ordering::Equal
    }
}

/// Lexicographic comparison of character sequences by code point, starting
/// at position `i`; a strict prefix sorts first.
pub open spec fn cmp_chars_from(a: Seq<char>, b: Seq<char>, i: nat) -> Ordering
    decreases a.len() - i,
{
    if i >= a.len() || i >= b.len() {
        cmp_int(a.len() as int, b.len() as int)
    } else if a[i as int] != b[i as int] {
        cmp_int(a[i as int] as u32 as int, b[i as int] as u32 as int)
    } else {
        cmp_chars_from(a, b, i + 1)
    }
}

/// Lexicographic comparison of character sequences by code point.
pub open spec fn cmp_chars(a: Seq<char>, b: Seq<char>) -> Ordering {
    cmp_chars_from(a, b, 0)
}

/// Comparison of two canonical whole-number digit runs: without leading
/// zeros, the longer run is the larger number, and runs of equal length
/// compare lexicographically.
pub open spec fn cmp_whole_digits(a: Seq<char>, b: Seq<char>) -> Ordering {
    if a.len() != b.len() {
        cmp_int(a.len() as int, b.len() as int)
    } else {
        cmp_chars(a, b)
    }
}

/// Comparison of two canonical decimal literals: sign first, then whole
/// part, then fractional part; both magnitude comparisons flip for two
/// negative numbers. With no trailing zeros in the fractional part,
/// lexicographic comparison of the fractions agrees with numeric order.
pub open spec fn cmp_float(
    na: bool,
    wa: Seq<char>,
    fa: Seq<char>,
    nb: bool,
    wb: Seq<char>,
    fb: Seq<char>,
) -> Ordering {
    if na != nb {
        if na {
            Ordering::Less
        } else {
            Ordering::Greater
        }
    } else {
        let mag = if cmp_whole_digits(wa, wb) != Ordering::Equal {
            cmp_whole_digits(wa, wb)
        } else {
            cmp_chars(fa, fb)
        };
        if na {
            flip(mag)
        } else {
            mag
        }
    }
}

/// Comparison of two values in the canonical total order.
pub open spec fn cmp_value(a: SpecValue, b: SpecValue) -> Ordering
    decreases a, 0int,
{
    if rank(a) != rank(b) {
        cmp_int(rank(a), rank(b))
    } else {
        match (a, b) {
            (SpecValue::Boolean(x), SpecValue::Boolean(y)) => {
                if x == y {
                    Ordering::Equal
                } else if y {
                    Ordering::Less
                } else {
                    Ordering::Greater
                }
            },
            (SpecValue::Str(x), SpecValue::Str(y)) => cmp_chars(x, y),
            (SpecValue::Char(x), SpecValue::Char(y)) => cmp_int(x as u32 as int, y as u32 as int),
            (SpecValue::Symbol(x), SpecValue::Symbol(y)) => cmp_chars(x, y),
            (SpecValue::Keyword(x), SpecValue::Keyword(y)) => cmp_chars(x, y),
            (SpecValue::Integer(x), SpecValue::Integer(y)) => cmp_int(x, y),
            (SpecValue::Float(nx, wx, fx), SpecValue::Float(ny, wy, fy)) => cmp_float(
                nx,
                wx,
                fx,
                ny,
                wy,
                fy,
            ),
            (SpecValue::List(x), SpecValue::List(y)) => cmp_elems(x, y, 0),
            (SpecValue::Vector(x), SpecValue::Vector(y)) => cmp_elems(x, y, 0),
            (SpecValue::Mapping(x), SpecValue::Mapping(y)) => cmp_entries(x, y, 0),
            (SpecValue::SetOf(x), SpecValue::SetOf(y)) => cmp_elems(x, y, 0),
            (SpecValue::Tagged(tx, vx), SpecValue::Tagged(ty, vy)) => {
                if cmp_chars(tx, ty) != Ordering::Equal {
                    cmp_chars(tx, ty)
                } else {
                    cmp_value(*vx, *vy)
                }
            },
            _ => Ordering::Equal,
        }
    }
}

/// Lexicographic, elementwise comparison of value sequences from position
/// `i`; a strict prefix sorts first.
pub open spec fn cmp_elems(x: Seq<SpecValue>, y: Seq<SpecValue>, i: nat) -> Ordering
    decreases x, x.len() - i,
{
    if i >= x.len() || i >= y.len() {
        cmp_int(x.len() as int, y.len() as int)
    } else if cmp_value(x[i as int], y[i as int]) != Ordering::Equal {
        cmp_value(x[i as int], y[i as int])
    } else {
        cmp_elems(x, y, i + 1)
    }
}

/// Lexicographic, pairwise comparison of key-value sequences from position
/// `i`: each pair compares by key, then value.
pub open spec fn cmp_entries(
    x: Seq<(SpecValue, SpecValue)>,
    y: Seq<(SpecValue, SpecValue)>,
    i: nat,
) -> Ordering
    decreases x, x.len() - i,
{
    if i >= x.len() || i >= y.len() {
        cmp_int(x.len() as int, y.len() as int)
    } else if cmp_value(x[i as int].0, y[i as int].0) != Ordering::Equal {
        cmp_value(x[i as int].0, y[i as int].0)
    } else if cmp_value(x[i as int].1, y[i as int].1) != Ordering::Equal {
        cmp_value(x[i as int].1, y[i as int].1)
    } else {
        cmp_entries(x, y, i + 1)
    }
}

/// Distinct characters have distinct code points.
proof fn lemma_char_code_injective(x: char, y: char)
    requires
        x != y,
    ensures
        x as u32 != y as u32,
{
}

/// Swapping the sides of a character comparison flips its outcome.
pub proof fn lemma_cmp_chars_antisym(a: Seq<char>, b: Seq<char>, i: nat)
    ensures
        cmp_chars_from(b, a, i) == flip(cmp_chars_from(a, b, i)),
    decreases a.len() - i,
{
    if i < a.len() && i < b.len() && a[i as int] == b[i as int] {
        lemma_cmp_chars_antisym(a, b, i + 1);
    }
}

/// Swapping the sides of a float comparison flips its outcome.
proof fn lemma_cmp_float_antisym(
    na: bool,
    wa: Seq<char>,
    fa: Seq<char>,
    nb: bool,
    wb: Seq<char>,
    fb: Seq<char>,
)
    ensures
        cmp_float(nb, wb, fb, na, wa, fa) == flip(cmp_float(na, wa, fa, nb, wb, fb)),
{
    lemma_cmp_chars_antisym(wa, wb, 0);
    lemma_cmp_chars_antisym(fa, fb, 0);
}

/// Swapping the sides of a value comparison flips its outcome: the order
/// is antisymmetric.
pub proof fn lemma_cmp_value_antisym(a: SpecValue, b: SpecValue)
    ensures
        cmp_value(b, a) == flip(cmp_value(a, b)),
    decreases a, 0int,
{
    if rank(a) == rank(b) {
        match (a, b) {
            (SpecValue::Str(x), SpecValue::Str(y)) => lemma_cmp_chars_antisym(x, y, 0),
            (SpecValue::Symbol(x), SpecValue::Symbol(y)) => lemma_cmp_chars_antisym(x, y, 0),
            (SpecValue::Keyword(x), SpecValue::Keyword(y)) => lemma_cmp_chars_antisym(x, y, 0),
            (SpecValue::Float(nx, wx, fx), SpecValue::Float(ny, wy, fy)) => {
                lemma_cmp_float_antisym(nx, wx, fx, ny, wy, fy);
            },
            (SpecValue::List(x), SpecValue::List(y)) => lemma_cmp_elems_antisym(x, y, 0),
            (SpecValue::Vector(x), SpecValue::Vector(y)) => lemma_cmp_elems_antisym(x, y, 0),
            (SpecValue::Mapping(x), SpecValue::Mapping(y)) => lemma_cmp_entries_antisym(x, y, 0),
            (SpecValue::SetOf(x), SpecValue::SetOf(y)) => lemma_cmp_elems_antisym(x, y, 0),
            (SpecValue::Tagged(tx, vx), SpecValue::Tagged(ty, vy)) => {
                lemma_cmp_chars_antisym(tx, ty, 0);
                lemma_cmp_value_antisym(*vx, *vy);
            },
            _ => {},
        }
    }
}

/// Swapping the sides of an elementwise sequence comparison flips its
/// outcome.
pub proof fn lemma_cmp_elems_antisym(x: Seq<SpecValue>, y: Seq<SpecValue>, i: nat)
    ensures
        cmp_elems(y, x, i) == flip(cmp_elems(x, y, i)),
    decreases x, x.len() - i,
{
    if i < x.len() && i < y.len() {
        lemma_cmp_value_antisym(x[i as int], y[i as int]);
        if cmp_value(x[i as int], y[i as int]) == Ordering::Equal {
            lemma_cmp_elems_antisym(x, y, i + 1);
        }
    }
}

/// Swapping the sides of a pairwise entry comparison flips its outcome.
pub proof fn lemma_cmp_entries_antisym(
    x: Seq<(SpecValue, SpecValue)>,
    y: Seq<(SpecValue, SpecValue)>,
    i: nat,
)
    ensures
        cmp_entries(y, x, i) == flip(cmp_entries(x, y, i)),
    decreases x, x.len() - i,
{
    if i < x.len() && i < y.len() {
        lemma_cmp_value_antisym(x[i as int].0, y[i as int].0);
        lemma_cmp_value_antisym(x[i as int].1, y[i as int].1);
        if cmp_value(x[i as int].0, y[i as int].0) == Ordering::Equal && cmp_value(
            x[i as int].1,
            y[i as int].1,
        ) == Ordering::Equal {
            lemma_cmp_entries_antisym(x, y, i + 1);
        }
    }
}

/// Two character sequences compare as equal exactly when they are the
/// same sequence.
pub proof fn lemma_cmp_chars_eq_iff(a: Seq<char>, b: Seq<char>)
    ensures
        (cmp_chars(a, b) == Ordering::Equal) <==> a == b,
{
    lemma_cmp_chars_eq(a, b, 0);
    if a.len() == b.len() && (forall|j: int| 0 <= j < a.len() ==> a[j] == b[j]) {
        assert(a =~= b);
    }
}

/// Two value sequences compare as equal exactly when they are the same
/// sequence.
pub proof fn lemma_cmp_elems_eq_iff(x: Seq<SpecValue>, y: Seq<SpecValue>)
    ensures
        (cmp_elems(x, y, 0) == Ordering::Equal) <==> x == y,
    decreases x, x.len() + 1int,
{
    lemma_cmp_elems_eq(x, y, 0);
    if x.len() == y.len() && (forall|j: int| 0 <= j < x.len() ==> x[j] == y[j]) {
        assert(x =~= y);
    }
}

/// Two entry sequences compare as equal exactly when they are the same
/// sequence.
pub proof fn lemma_cmp_entries_eq_iff(x: Seq<(SpecValue, SpecValue)>, y: Seq<(SpecValue, SpecValue)>)
    ensures
        (cmp_entries(x, y, 0) == Ordering::Equal) <==> x == y,
    decreases x, x.len() + 1int,
{
    lemma_cmp_entries_eq(x, y, 0);
    if x.len() == y.len() && (forall|j: int| 0 <= j < x.len() ==> x[j] == y[j]) {
        assert(x =~= y);
    }
}

/// Two values compare as equal exactly when they are the same value: the
/// order decides equality.
pub proof fn lemma_cmp_value_eq(a: SpecValue, b: SpecValue)
    ensures
        (cmp_value(a, b) == Ordering::Equal) <==> a == b,
    decreases a, 0int,
{
    if rank(a) == rank(b) {
        match (a, b) {
            (SpecValue::Str(x), SpecValue::Str(y)) => lemma_cmp_chars_eq_iff(x, y),
            (SpecValue::Symbol(x), SpecValue::Symbol(y)) => lemma_cmp_chars_eq_iff(x, y),
            (SpecValue::Keyword(x), SpecValue::Keyword(y)) => lemma_cmp_chars_eq_iff(x, y),
            (SpecValue::Float(nx, wx, fx), SpecValue::Float(ny, wy, fy)) => {
                lemma_cmp_chars_eq_iff(wx, wy);
                lemma_cmp_chars_eq_iff(fx, fy);
            },
            (SpecValue::List(x), SpecValue::List(y)) => lemma_cmp_elems_eq_iff(x, y),
            (SpecValue::Vector(x), SpecValue::Vector(y)) => lemma_cmp_elems_eq_iff(x, y),
            (SpecValue::Mapping(x), SpecValue::Mapping(y)) => lemma_cmp_entries_eq_iff(x, y),
            (SpecValue::SetOf(x), SpecValue::SetOf(y)) => lemma_cmp_elems_eq_iff(x, y),
            (SpecValue::Tagged(tx, vx), SpecValue::Tagged(ty, vy)) => {
                lemma_cmp_chars_eq_iff(tx, ty);
                lemma_cmp_value_eq(*vx, *vy);
            },
            _ => {},
        }
    }
}

/// Two character sequences compare as equal from `i` exactly when they
/// agree on every position from `i` and have the same length.
pub proof fn lemma_cmp_chars_eq(a: Seq<char>, b: Seq<char>, i: nat)
    ensures
        (cmp_chars_from(a, b, i) == Ordering::Equal) <==> (a.len() == b.len() && forall|j: int|
            i <= j < a.len() ==> a[j] == b[j]),
    decreases a.len() - i,
{
    if i >= a.len() || i >= b.len() {
    } else if a[i as int] != b[i as int] {
        lemma_char_code_injective(a[i as int], b[i as int]);
        if a.len() == b.len() && (forall|j: int| i <= j < a.len() ==> a[j] == b[j]) {
            assert(a[i as int] == b[i as int]);
        }
    } else {
        lemma_cmp_chars_eq(a, b, i + 1);
        if a.len() == b.len() && (forall|j: int| i + 1 <= j < a.len() ==> a[j] == b[j]) {
            assert forall|j: int| i <= j < a.len() implies a[j] == b[j] by {
                if j > i {
                    assert(a[j] == b[j]);
                }
            }
        }
    }
}

/// Two value sequences compare as equal from `i` exactly when they agree
/// on every position from `i` and have the same length.
pub proof fn lemma_cmp_elems_eq(x: Seq<SpecValue>, y: Seq<SpecValue>, i: nat)
    ensures
        (cmp_elems(x, y, i) == Ordering::Equal) <==> (x.len() == y.len() && forall|j: int|
            i <= j < x.len() ==> x[j] == y[j]),
    decreases x, x.len() - i,
{
    if i < x.len() && i < y.len() {
        lemma_cmp_value_eq(x[i as int], y[i as int]);
        if cmp_value(x[i as int], y[i as int]) == Ordering::Equal {
            lemma_cmp_elems_eq(x, y, i + 1);
        }
    }
}

/// Two entry sequences compare as equal from `i` exactly when they agree
/// on every position from `i` and have the same length.
pub proof fn lemma_cmp_entries_eq(
    x: Seq<(SpecValue, SpecValue)>,
    y: Seq<(SpecValue, SpecValue)>,
    i: nat,
)
    ensures
        (cmp_entries(x, y, i) == Ordering::Equal) <==> (x.len() == y.len() && forall|j: int|
            i <= j < x.len() ==> x[j] == y[j]),
    decreases x, x.len() - i,
{
    if i < x.len() && i < y.len() {
        lemma_cmp_value_eq(x[i as int].0, y[i as int].0);
        lemma_cmp_value_eq(x[i as int].1, y[i as int].1);
        if cmp_value(x[i as int].0, y[i as int].0) == Ordering::Equal && cmp_value(
            x[i as int].1,
            y[i as int].1,
        ) == Ordering::Equal {
            lemma_cmp_entries_eq(x, y, i + 1);
        }
    }
}

/// Strictly smaller-than is transitive on character sequences.
proof fn lemma_cmp_chars_trans(a: Seq<char>, b: Seq<char>, c: Seq<char>, i: nat)
    requires
        cmp_chars_from(a, b, i) == Ordering::Less,
        cmp_chars_from(b, c, i) == Ordering::Less,
    ensures
        cmp_chars_from(a, c, i) == Ordering::Less,
    decreases a.len() - i,
{
    if i < a.len() && i < b.len() && i < c.len() && a[i as int] == b[i as int] && b[i as int]
        == c[i as int] {
        lemma_cmp_chars_trans(a, b, c, i + 1);
    }
}

/// Strictly smaller-than is transitive on canonical whole-digit runs.
proof fn lemma_cmp_whole_trans(a: Seq<char>, b: Seq<char>, c: Seq<char>)
    requires
        cmp_whole_digits(a, b) == Ordering::Less,
        cmp_whole_digits(b, c) == Ordering::Less,
    ensures
        cmp_whole_digits(a, c) == Ordering::Less,
{
    if a.len() == b.len() && b.len() == c.len() {
        lemma_cmp_chars_trans(a, b, c, 0);
    } else if a.len() == b.len() {
        lemma_cmp_chars_eq(a, b, 0);
    } else if b.len() == c.len() {
        lemma_cmp_chars_eq(b, c, 0);
    }
}

/// Strictly smaller-than is transitive on canonical decimal literals.
proof fn lemma_cmp_float_trans(
    na: bool,
    wa: Seq<char>,
    fa: Seq<char>,
    nb: bool,
    wb: Seq<char>,
    fb: Seq<char>,
    nc: bool,
    wc: Seq<char>,
    fc: Seq<char>,
)
    requires
        cmp_float(na, wa, fa, nb, wb, fb) == Ordering::Less,
        cmp_float(nb, wb, fb, nc, wc, fc) == Ordering::Less,
    ensures
        cmp_float(na, wa, fa, nc, wc, fc) == Ordering::Less,
{
    if na == nb && nb == nc {
        if !na {
            if cmp_whole_digits(wa, wb) == Ordering::Equal {
                lemma_cmp_chars_eq_iff(wa, wb);
            }
            if cmp_whole_digits(wb, wc) == Ordering::Equal {
                lemma_cmp_chars_eq_iff(wb, wc);
            }
            if cmp_whole_digits(wa, wb) == Ordering::Less && cmp_whole_digits(wb, wc)
                == Ordering::Less {
                lemma_cmp_whole_trans(wa, wb, wc);
            }
            if cmp_whole_digits(wa, wb) == Ordering::Equal && cmp_whole_digits(wb, wc)
                == Ordering::Equal {
                lemma_cmp_chars_trans(fa, fb, fc, 0);
            }
        } else {
            // Both magnitudes run the other way: `b` is strictly below `a`
            // and `c` strictly below `b`.
            if cmp_whole_digits(wb, wa) == Ordering::Equal {
                lemma_cmp_chars_eq_iff(wb, wa);
            }
            if cmp_whole_digits(wc, wb) == Ordering::Equal {
                lemma_cmp_chars_eq_iff(wc, wb);
            }
            lemma_cmp_chars_antisym(wa, wb, 0);
            lemma_cmp_chars_antisym(wb, wc, 0);
            lemma_cmp_chars_antisym(wa, wc, 0);
            lemma_cmp_chars_antisym(fa, fb, 0);
            lemma_cmp_chars_antisym(fb, fc, 0);
            lemma_cmp_chars_antisym(fa, fc, 0);
            if cmp_whole_digits(wc, wb) == Ordering::Less && cmp_whole_digits(wb, wa)
                == Ordering::Less {
                lemma_cmp_whole_trans(wc, wb, wa);
            }
            if cmp_whole_digits(wc, wb) == Ordering::Equal && cmp_whole_digits(wb, wa)
                == Ordering::Equal {
                lemma_cmp_chars_trans(fc, fb, fa, 0);
            }
        }
    }
}

/// Strictly smaller-than is transitive: with antisymmetry and the
/// equality decision, the canonical order is a strict total order.
pub proof fn lemma_cmp_value_trans(a: SpecValue, b: SpecValue, c: SpecValue)
    requires
        cmp_value(a, b) == Ordering::Less,
        cmp_value(b, c) == Ordering::Less,
    ensures
        cmp_value(a, c) == Ordering::Less,
    decreases a, 0int,
{
    if rank(a) == rank(b) && rank(b) == rank(c) {
        match (a, b, c) {
            (SpecValue::Str(x), SpecValue::Str(y), SpecValue::Str(z)) => {
                lemma_cmp_chars_trans(x, y, z, 0);
            },
            (SpecValue::Symbol(x), SpecValue::Symbol(y), SpecValue::Symbol(z)) => {
                lemma_cmp_chars_trans(x, y, z, 0);
            },
            (SpecValue::Keyword(x), SpecValue::Keyword(y), SpecValue::Keyword(z)) => {
                lemma_cmp_chars_trans(x, y, z, 0);
            },
            (
                SpecValue::Float(nx, wx, fx),
                SpecValue::Float(ny, wy, fy),
                SpecValue::Float(nz, wz, fz),
            ) => {
                lemma_cmp_float_trans(nx, wx, fx, ny, wy, fy, nz, wz, fz);
            },
            (SpecValue::List(x), SpecValue::List(y), SpecValue::List(z)) => {
                lemma_cmp_elems_trans(x, y, z, 0);
            },
            (SpecValue::Vector(x), SpecValue::Vector(y), SpecValue::Vector(z)) => {
                lemma_cmp_elems_trans(x, y, z, 0);
            },
            (SpecValue::Mapping(x), SpecValue::Mapping(y), SpecValue::Mapping(z)) => {
                lemma_cmp_entries_trans(x, y, z, 0);
            },
            (SpecValue::SetOf(x), SpecValue::SetOf(y), SpecValue::SetOf(z)) => {
                lemma_cmp_elems_trans(x, y, z, 0);
            },
            (
                SpecValue::Tagged(tx, vx),
                SpecValue::Tagged(ty, vy),
                SpecValue::Tagged(tz, vz),
            ) => {
                if cmp_chars(tx, ty) == Ordering::Equal {
                    lemma_cmp_chars_eq_iff(tx, ty);
                }
                if cmp_chars(ty, tz) == Ordering::Equal {
                    lemma_cmp_chars_eq_iff(ty, tz);
                }
                if cmp_chars(tx, ty) == Ordering::Less && cmp_chars(ty, tz) == Ordering::Less {
                    lemma_cmp_chars_trans(tx, ty, tz, 0);
                }
                if cmp_chars(tx, ty) == Ordering::Equal && cmp_chars(ty, tz) == Ordering::Equal {
                    lemma_cmp_value_trans(*vx, *vy, *vz);
                }
            },
            _ => {},
        }
    }
}

/// Strictly smaller-than is transitive on value sequences.
proof fn lemma_cmp_elems_trans(x: Seq<SpecValue>, y: Seq<SpecValue>, z: Seq<SpecValue>, i: nat)
    requires
        cmp_elems(x, y, i) == Ordering::Less,
        cmp_elems(y, z, i) == Ordering::Less,
    ensures
        cmp_elems(x, z, i) == Ordering::Less,
    decreases x, x.len() - i,
{
    if i < x.len() && i < y.len() && i < z.len() {
        let rxy = cmp_value(x[i as int], y[i as int]);
        let ryz = cmp_value(y[i as int], z[i as int]);
        if rxy == Ordering::Equal {
            lemma_cmp_value_eq(x[i as int], y[i as int]);
        }
        if ryz == Ordering::Equal {
            lemma_cmp_value_eq(y[i as int], z[i as int]);
        }
        if rxy == Ordering::Less && ryz == Ordering::Less {
            lemma_cmp_value_trans(x[i as int], y[i as int], z[i as int]);
        }
        if rxy == Ordering::Equal && ryz == Ordering::Equal {
            lemma_cmp_elems_trans(x, y, z, i + 1);
        }
    }
}

/// Strictly smaller-than is transitive on entry sequences.
proof fn lemma_cmp_entries_trans(
    x: Seq<(SpecValue, SpecValue)>,
    y: Seq<(SpecValue, SpecValue)>,
    z: Seq<(SpecValue, SpecValue)>,
    i: nat,
)
    requires
        cmp_entries(x, y, i) == Ordering::Less,
        cmp_entries(y, z, i) == Ordering::Less,
    ensures
        cmp_entries(x, z, i) == Ordering::Less,
    decreases x, x.len() - i,
{
    if i < x.len() && i < y.len() && i < z.len() {
        let kxy = cmp_value(x[i as int].0, y[i as int].0);
        let kyz = cmp_value(y[i as int].0, z[i as int].0);
        if kxy == Ordering::Equal {
            lemma_cmp_value_eq(x[i as int].0, y[i as int].0);
        }
        if kyz == Ordering::Equal {
            lemma_cmp_value_eq(y[i as int].0, z[i as int].0);
        }
        if kxy == Ordering::Less && kyz == Ordering::Less {
            lemma_cmp_value_trans(x[i as int].0, y[i as int].0, z[i as int].0);
        }
        if kxy == Ordering::Equal && kyz == Ordering::Equal {
            let vxy = cmp_value(x[i as int].1, y[i as int].1);
            let vyz = cmp_value(y[i as int].1, z[i as int].1);
            if vxy == Ordering::Equal {
                lemma_cmp_value_eq(x[i as int].1, y[i as int].1);
            }
            if vyz == Ordering::Equal {
                lemma_cmp_value_eq(y[i as int].1, z[i as int].1);
            }
            if vxy == Ordering::Less && vyz == Ordering::Less {
                lemma_cmp_value_trans(x[i as int].1, y[i as int].1, z[i as int].1);
            }
            if vxy == Ordering::Equal && vyz == Ordering::Equal {
                lemma_cmp_entries_trans(x, y, z, i + 1);
            }
        }
    }
}

/// Whether the elements of `xs` are strictly increasing in the canonical
/// total order (and so, in particular, pairwise distinct).
pub open spec fn strictly_sorted(xs: Seq<SpecValue>) -> bool {
    forall|j: int| 0 <= j < xs.len() - 1 ==> #[trigger] cmp_value(xs[j], xs[j + 1]) == Ordering::Less
}

/// Whether the keys of `ps` are strictly increasing in the canonical total
/// order (and so, in particular, pairwise distinct).
pub open spec fn strictly_sorted_keys(ps: Seq<(SpecValue, SpecValue)>) -> bool {
    forall|j: int| 0 <= j < ps.len() - 1 ==> #[trigger] cmp_value(ps[j].0, ps[j + 1].0) == Ordering::Less
}

/// In a strictly sorted run, any earlier element is strictly below any
/// later one.
proof fn lemma_sorted_pair(xs: Seq<SpecValue>, j: int, k: int)
    requires
        strictly_sorted(xs),
        0 <= j < k < xs.len(),
    ensures
        cmp_value(xs[j], xs[k]) == Ordering::Less,
    decreases k - j,
{
    if k > j + 1 {
        lemma_sorted_pair(xs, j, k - 1);
        assert(cmp_value(xs[k - 1], xs[k - 1 + 1]) == Ordering::Less);
        lemma_cmp_value_trans(xs[j], xs[k - 1], xs[k]);
    } else {
        assert(cmp_value(xs[j], xs[j + 1]) == Ordering::Less);
    }
}

/// The elements of a strictly sorted run are pairwise distinct: a set
/// literal in canonical form holds no element twice.
pub proof fn lemma_sorted_distinct(xs: Seq<SpecValue>)
    requires
        strictly_sorted(xs),
    ensures
        forall|j: int, k: int| 0 <= j < k < xs.len() ==> xs[j] != xs[k],
{
    assert forall|j: int, k: int| 0 <= j < k < xs.len() implies xs[j] != xs[k] by {
        lemma_sorted_pair(xs, j, k);
        lemma_cmp_value_eq(xs[j], xs[k]);
    }
}

/// In a strictly key-sorted entry run, any earlier key is strictly below
/// any later one.
proof fn lemma_sorted_key_pair(ps: Seq<(SpecValue, SpecValue)>, j: int, k: int)
    requires
        strictly_sorted_keys(ps),
        0 <= j < k < ps.len(),
    ensures
        cmp_value(ps[j].0, ps[k].0) == Ordering::Less,
    decreases k - j,
{
    if k > j + 1 {
        lemma_sorted_key_pair(ps, j, k - 1);
        assert(cmp_value(ps[k - 1].0, ps[k - 1 + 1].0) == Ordering::Less);
        lemma_cmp_value_trans(ps[j].0, ps[k - 1].0, ps[k].0);
    } else {
        assert(cmp_value(ps[j].0, ps[j + 1].0) == Ordering::Less);
    }
}

/// The keys of a strictly key-sorted entry run are pairwise distinct: a
/// map literal in canonical form binds no key twice.
pub proof fn lemma_sorted_keys_distinct(ps: Seq<(SpecValue, SpecValue)>)
    requires
        strictly_sorted_keys(ps),
    ensures
        forall|j: int, k: int| 0 <= j < k < ps.len() ==> ps[j].0 != ps[k].0,
{
    assert forall|j: int, k: int| 0 <= j < k < ps.len() implies ps[j].0 != ps[k].0 by {
        lemma_sorted_key_pair(ps, j, k);
        lemma_cmp_value_eq(ps[j].0, ps[k].0);
    }
}

/// Whether a decimal literal is in canonical form: at least one whole
/// digit, no leading zero on a multi-digit whole part, no trailing zero on
/// the fraction, and nothing but decimal digits in either part.
pub open spec fn canonical_float(neg: bool, whole: Seq<char>, frac: Seq<char>) -> bool {
    &&& whole.len() >= 1
    &&& (forall|j: int| 0 <= j < whole.len() ==> '0' <= #[trigger] whole[j] && whole[j] <= '9')
    &&& (whole.len() > 1 ==> whole[0] != '0')
    &&& (forall|j: int| 0 <= j < frac.len() ==> '0' <= #[trigger] frac[j] && frac[j] <= '9')
    &&& (frac.len() > 0 ==> frac[frac.len() - 1] != '0')
}

/// Whether a value is in canonical form: every map literal in it holds its
/// entries strictly sorted by key, every set literal its elements strictly
/// sorted, and every floating-point literal its canonical decimal form.
/// The reader only ever yields canonical values.
pub open spec fn canonical(v: SpecValue) -> bool
    decreases v, 1int,
{
    match v {
        SpecValue::Float(neg, whole, frac) => canonical_float(neg, whole, frac),
        SpecValue::List(xs) => all_canonical(xs),
        SpecValue::Vector(xs) => all_canonical(xs),
        SpecValue::Mapping(ps) => strictly_sorted_keys(ps) && all_entries_canonical(ps),
        SpecValue::SetOf(xs) => strictly_sorted(xs) && all_canonical(xs),
        SpecValue::Tagged(_, b) => canonical(*b),
        _ => true,
    }
}

/// Whether every element of `xs` is canonical.
pub open spec fn all_canonical(xs: Seq<SpecValue>) -> bool
    decreases xs, 0int,
{
    forall|j: int| 0 <= j < xs.len() ==> canonical(#[trigger] xs[j])
}

/// Whether every key and value of `ps` is canonical.
pub open spec fn all_entries_canonical(ps: Seq<(SpecValue, SpecValue)>) -> bool
    decreases ps, 0int,
{
    forall|j: int| 0 <= j < ps.len() ==> canonical(#[trigger] ps[j].0) && canonical(ps[j].1)
}

/// Comparison of two strings, character by character.
fn cmp_str_exec(a: &str, b: &str) -> (r: Ordering)
    ensures
        r == cmp_chars(a@, b@),
{
    let alen = a.unicode_len();
    let blen = b.unicode_len();
    let mut i: usize = 0;
    loop
        invariant
            i <= alen,
            i <= blen,
            alen == a@.len(),
            blen == b@.len(),
            cmp_chars(a@, b@) == cmp_chars_from(a@, b@, i as nat),
        decreases alen - i,
    {
        if i >= alen || i >= blen {
            return if alen < blen {
                Ordering::Less
            } else if alen > blen {
                Ordering::Greater
            } else {
                Ordering::Equal
            };
        }
        let ca = a.get_char(i);
        let cb = b.get_char(i);
        if ca != cb {
            return if (ca as u32) < (cb as u32) {
                Ordering::Less
            } else {
                Ordering::Greater
            };
        }
        i = i + 1;
    }
}

/// Comparison of two canonical whole-number digit runs.
fn cmp_whole_exec(a: &str, b: &str) -> (r: Ordering)
    ensures
        r == cmp_whole_digits(a@, b@),
{
    let alen = a.unicode_len();
    let blen = b.unicode_len();
    if alen < blen {
        Ordering::Less
    } else if alen > blen {
        Ordering::Greater
    } else {
        cmp_str_exec(a, b)
    }
}

/// Comparison of two canonical decimal literals.
fn cmp_float_exec(a: &crate::FloatLit, b: &crate::FloatLit) -> (r: Ordering)
    ensures
        r == cmp_float(a.negative, a.whole@, a.frac@, b.negative, b.whole@, b.frac@),
{
    if a.negative != b.negative {
        if a.negative {
            Ordering::Less
        } else {
            Ordering::Greater
        }
    } else {
        let mut mag = cmp_whole_exec(a.whole.as_str(), b.whole.as_str());
        if matches!(mag, Ordering::Equal) {
            mag = cmp_str_exec(a.frac.as_str(), b.frac.as_str());
        }
        if a.negative {
            match mag {
                Ordering::Less => Ordering::Greater,
                Ordering::Equal => Ordering::Equal,
                Ordering::Greater => Ordering::Less,
            }
        } else {
            mag
        }
    }
}

impl Value {
    /// Which position this node's variant takes in the cross-variant order.
    fn rank_exec(&self) -> (r: u32)
        ensures
            r as int == rank(self@),
    {
        match self {
            Value::Nil => 0,
            Value::Boolean(_) => 1,
            Value::String(_) => 2,
            Value::Char(_) => 3,
            Value::Symbol(_) => 4,
            Value::Keyword(_) => 5,
            Value::Integer(_) => 6,
            Value::Float(_) => 7,
            Value::List(_) => 8,
            Value::Vector(_) => 9,
            Value::Mapping(_) => 10,
            Value::SetOf(_) => 11,
            Value::Tagged(_, _) => 12,
        }
    }

    /// Compares two values in the canonical total order.
    pub fn compare(&self, other: &Value) -> (r: Ordering)
        ensures
            r == cmp_value(self@, other@),
        decreases self, 0int,
    {
        let ra = self.rank_exec();
        let rb = other.rank_exec();
        if ra != rb {
            return if ra < rb {
                Ordering::Less
            } else {
                Ordering::Greater
            };
        }
        match (self, other) {
            (Value::Boolean(x), Value::Boolean(y)) => {
                if x == y {
                    Ordering::Equal
                } else if *y {
                    Ordering::Less
                } else {
                    Ordering::Greater
                }
            },
            (Value::String(x), Value::String(y)) => cmp_str_exec(x.as_str(), y.as_str()),
            (Value::Char(x), Value::Char(y)) => {
                if (*x as u32) < (*y as u32) {
                    Ordering::Less
                } else if (*x as u32) > (*y as u32) {
                    Ordering::Greater
                } else {
                    Ordering::Equal
                }
            },
            (Value::Symbol(x), Value::Symbol(y)) => cmp_str_exec(x.as_str(), y.as_str()),
            (Value::Keyword(x), Value::Keyword(y)) => cmp_str_exec(x.as_str(), y.as_str()),
            (Value::Integer(x), Value::Integer(y)) => {
                if *x < *y {
                    Ordering::Less
                } else if *x > *y {
                    Ordering::Greater
                } else {
                    Ordering::Equal
                }
            },
            (Value::Float(x), Value::Float(y)) => cmp_float_exec(x, y),
            (Value::List(x), Value::List(y)) => cmp_vec_exec(x, y),
            (Value::Vector(x), Value::Vector(y)) => cmp_vec_exec(x, y),
            (Value::Mapping(x), Value::Mapping(y)) => cmp_pairs_exec(x, y),
            (Value::SetOf(x), Value::SetOf(y)) => cmp_vec_exec(x, y),
            (Value::Tagged(tx, vx), Value::Tagged(ty, vy)) => {
                let t = cmp_str_exec(tx.as_str(), ty.as_str());
                if matches!(t, Ordering::Equal) {
                    vx.compare(vy)
                } else {
                    t
                }
            },
            _ => {
                proof {
                    assert(rank(self@) == rank(other@));
                }
                Ordering::Equal
            },
        }
    }
}

/// Lexicographic comparison of two element vectors.
fn cmp_vec_exec(x: &Vec<Value>, y: &Vec<Value>) -> (r: Ordering)
    ensures
        r == cmp_elems(deep_of_seq(x@), deep_of_seq(y@), 0),
    decreases x, 0int,
{
    proof {
        crate::lemma_deep_of_seq(x@);
        crate::lemma_deep_of_seq(y@);
    }
    let ghost dx = deep_of_seq(x@);
    let ghost dy = deep_of_seq(y@);
    let mut i: usize = 0;
    loop
        invariant
            i <= x.len(),
            i <= y.len(),
            dx == deep_of_seq(x@),
            dy == deep_of_seq(y@),
            dx.len() == x.len(),
            dy.len() == y.len(),
            forall|j: int| 0 <= j < x.len() ==> dx[j] == x@[j].deep(),
            forall|j: int| 0 <= j < y.len() ==> dy[j] == y@[j].deep(),
            cmp_elems(dx, dy, 0) == cmp_elems(dx, dy, i as nat),
        decreases x.len() - i,
    {
        if i >= x.len() || i >= y.len() {
            return if x.len() < y.len() {
                Ordering::Less
            } else if x.len() > y.len() {
                Ordering::Greater
            } else {
                Ordering::Equal
            };
        }
        let c = x[i].compare(&y[i]);
        if !matches!(c, Ordering::Equal) {
            return c;
        }
        i = i + 1;
    }
}

/// Lexicographic comparison of two key-value pair vectors.
fn cmp_pairs_exec(x: &Vec<(Value, Value)>, y: &Vec<(Value, Value)>) -> (r: Ordering)
    ensures
        r == cmp_entries(deep_of_pairs(x@), deep_of_pairs(y@), 0),
    decreases x, 0int,
{
    proof {
        crate::lemma_deep_of_pairs(x@);
        crate::lemma_deep_of_pairs(y@);
    }
    let ghost dx = deep_of_pairs(x@);
    let ghost dy = deep_of_pairs(y@);
    let mut i: usize = 0;
    loop
        invariant
            i <= x.len(),
            i <= y.len(),
            dx == deep_of_pairs(x@),
            dy == deep_of_pairs(y@),
            dx.len() == x.len(),
            dy.len() == y.len(),
            forall|j: int| 0 <= j < x.len() ==> dx[j] == (x@[j].0.deep(), x@[j].1.deep()),
            forall|j: int| 0 <= j < y.len() ==> dy[j] == (y@[j].0.deep(), y@[j].1.deep()),
            cmp_entries(dx, dy, 0) == cmp_entries(dx, dy, i as nat),
        decreases x.len() - i,
    {
        if i >= x.len() || i >= y.len() {
            return if x.len() < y.len() {
                Ordering::Less
            } else if x.len() > y.len() {
                Ordering::Greater
            } else {
                Ordering::Equal
            };
        }
        let ck = x[i].0.compare(&y[i].0);
        if !matches!(ck, Ordering::Equal) {
            return ck;
        }
        let cv = x[i].1.compare(&y[i].1);
        if !matches!(cv, Ordering::Equal) {
            return cv;
        }
        i = i + 1;
    }
}

} // verus!
