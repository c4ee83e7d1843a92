//! The printer: a pure, total rendering of a [`Value`] back to text.
//!
//! The whole rendering is written down as the spec-level printer
//! [`print_spec`]; the executable [`print`] is proved to return exactly that
//! text. Map entries and set elements are stored in canonical order, so they
//! print in the canonical order of the total order on values.
//!
//! Escaping policy: inside a printed string literal both `"` and `\` are
//! escaped (so every printed string reads back to the same value); other
//! characters, control characters included, are printed as they are. A
//! character value prints as `\` followed by the literal character, never
//! re-collapsed into a named form such as `newline`. A floating-point
//! literal prints as its canonical decimal form, `digits.digits`, with `0`
//! standing in for an empty fraction.

use vstd::prelude::*;

use crate::chars_to_string;
use crate::deep_of_pairs;
use crate::deep_of_seq;
use crate::SpecValue;
use crate::Value;

verus! {

broadcast use vstd::std_specs::vec::group_vec_axioms, vstd::seq::axiom_seq_index_decreases;

/// The decimal digit character for `d`.
pub open spec fn digit_char(d: int) -> char {
    if d == 0 {
        '0'
    } else if d == 1 {
        '1'
    } else if d == 2 {
        '2'
    } else if d == 3 {
        '3'
    } else if d == 4 {
        '4'
    } else if d == 5 {
        '5'
    } else if d == 6 {
        '6'
    } else if d == 7 {
        '7'
    } else if d == 8 {
        '8'
    } else {
        '9'
    }
}

/// The decimal digits of the nonnegative number `n`, most significant
/// first.
pub open spec fn dec_digits(n: int) -> Seq<char>
    decreases n,
{
    if n < 10 {
        seq![digit_char(n)]
    } else {
        dec_digits(n / 10).push(digit_char(n % 10))
    }
}

/// The decimal text of the integer `n`: its digits, with a leading `-` when
/// it is negative.
pub open spec fn int_text(n: int) -> Seq<char> {
    if n < 0 {
        seq!['-'] + dec_digits(-n)
    } else {
        dec_digits(n)
    }
}

/// `c` as it appears inside a printed string literal: `"` and `\` behind a
/// backslash, every other character as it is.
pub open spec fn esc_char(c: char) -> Seq<char> {
    if c == '"' || c == '\\' {
        seq!['\\', c]
    } else {
        seq![c]
    }
}

/// The body of a printed string literal: each character escaped.
pub open spec fn escape_str(s: Seq<char>) -> Seq<char>
    decreases s.len(),
{
    if s.len() == 0 {
        Seq::empty()
    } else {
        escape_str(s.subrange(0, s.len() - 1)) + esc_char(s[s.len() - 1])
    }
}

/// The canonical text of a floating-point literal: sign, whole digits, `.`,
/// and the fraction digits (`0` when the fraction is empty).
pub open spec fn float_text(neg: bool, whole: Seq<char>, frac: Seq<char>) -> Seq<char> {
    (if neg {
        seq!['-']
    } else {
        Seq::empty()
    }) + whole + seq!['.'] + (if frac.len() == 0 {
        seq!['0']
    } else {
        frac
    })
}

/// The text that `v` prints as. This is the whole rendering rule of the
/// notation.
pub open spec fn print_spec(v: SpecValue) -> Seq<char>
    decreases v, 1int,
{
    match v {
        SpecValue::Nil => "nil"@,
        SpecValue::Boolean(b) => if b {
            "true"@
        } else {
            "false"@
        },
        SpecValue::Str(s) => seq!['"'] + escape_str(s) + seq!['"'],
        SpecValue::Char(c) => seq!['\\', c],
        SpecValue::Symbol(s) => s,
        SpecValue::Keyword(s) => seq![':'] + s,
        SpecValue::Integer(n) => int_text(n),
        SpecValue::Float(neg, whole, frac) => float_text(neg, whole, frac),
        SpecValue::List(xs) => seq!['('] + join_elems(xs) + seq![')'],
        SpecValue::Vector(xs) => seq!['['] + join_elems(xs) + seq![']'],
        SpecValue::Mapping(ps) => seq!['{'] + join_pairs(ps) + seq!['}'],
        SpecValue::SetOf(xs) => seq!['#', '{'] + join_elems(xs) + seq!['}'],
        SpecValue::Tagged(t, v) => seq!['#'] + t + seq![' '] + print_spec(*v),
    }
}

/// The elements of a container, printed and joined by `, `.
pub open spec fn join_elems(xs: Seq<SpecValue>) -> Seq<char>
    decreases xs, 0int,
{
    if xs.len() == 0 {
        Seq::empty()
    } else if xs.len() == 1 {
        print_spec(xs[0])
    } else {
        join_elems(xs.subrange(0, xs.len() - 1)) + ", "@ + print_spec(xs[xs.len() - 1])
    }
}

/// The entries of a map, each printed as `key value`, joined by `, `.
pub open spec fn join_pairs(ps: Seq<(SpecValue, SpecValue)>) -> Seq<char>
    decreases ps, 0int,
{
    if ps.len() == 0 {
        Seq::empty()
    } else if ps.len() == 1 {
        print_spec(ps[0].0) + seq![' '] + print_spec(ps[0].1)
    } else {
        join_pairs(ps.subrange(0, ps.len() - 1)) + ", "@ + print_spec(ps[ps.len() - 1].0)
            + seq![' '] + print_spec(ps[ps.len() - 1].1)
    }
}

/// Appends the characters of `lit` to `out`.
fn push_str(out: &mut Vec<char>, lit: &str)
    ensures
        final(out)@ == old(out)@ + lit@,
{
    let n = lit.unicode_len();
    let mut j: usize = 0;
    while j < n
        invariant
            j <= n,
            n == lit@.len(),
            out@ == old(out)@ + lit@.subrange(0, j as int),
        decreases n - j,
    {
        out.push(lit.get_char(j));
        proof {
            assert(lit@.subrange(0, j + 1 as int) =~= lit@.subrange(0, j as int).push(
                lit@[j as int],
            ));
            assert(out@ =~= old(out)@ + lit@.subrange(0, j + 1 as int));
        }
        j = j + 1;
    }
    proof {
        assert(lit@.subrange(0, n as int) =~= lit@);
        assert(out@ =~= old(out)@ + lit@);
    }
}

/// The decimal digit character for `d`.
fn digit_char_exec(d: u64) -> (c: char)
    requires
        d < 10,
    ensures
        c == digit_char(d as int),
{
    if d == 0 {
        '0'
    } else if d == 1 {
        '1'
    } else if d == 2 {
        '2'
    } else if d == 3 {
        '3'
    } else if d == 4 {
        '4'
    } else if d == 5 {
        '5'
    } else if d == 6 {
        '6'
    } else if d == 7 {
        '7'
    } else if d == 8 {
        '8'
    } else {
        '9'
    }
}

/// Appends the decimal digits of `m` to `out`, most significant first.
fn push_u64_digits(out: &mut Vec<char>, m: u64)
    ensures
        final(out)@ == old(out)@ + dec_digits(m as int),
    decreases m,
{
    if m < 10 {
        out.push(digit_char_exec(m));
        proof {
            assert(out@ =~= old(out)@ + dec_digits(m as int));
        }
    } else {
        push_u64_digits(out, m / 10);
        out.push(digit_char_exec(m % 10));
        proof {
            assert(out@ =~= old(out)@ + dec_digits(m as int));
        }
    }
}

/// Appends the decimal text of `n` to `out`.
fn push_i64(out: &mut Vec<char>, n: i64)
    ensures
        final(out)@ == old(out)@ + int_text(n as int),
{
    if n < 0 {
        out.push('-');
        let m: u64 = if n == i64::MIN {
            9223372036854775808u64
        } else {
            (-n) as u64
        };
        push_u64_digits(out, m);
        proof {
            assert(out@ =~= old(out)@ + int_text(n as int));
        }
    } else {
        push_u64_digits(out, n as u64);
    }
}

/// Appends what `v` prints as to `out`.
fn print_into(v: &Value, out: &mut Vec<char>)
    ensures
        final(out)@ == old(out)@ + print_spec(v@),
    decreases v, 1int,
{
    match v {
        Value::Nil => {
            push_str(out, "nil");
        },
        Value::Boolean(b) => {
            if *b {
                push_str(out, "true");
            } else {
                push_str(out, "false");
            }
        },
        Value::String(s) => {
            out.push('"');
            let ghost base = out@;
            let n = s.as_str().unicode_len();
            let mut j: usize = 0;
            while j < n
                invariant
                    j <= n,
                    n == s@.len(),
                    out@ == base + escape_str(s@.subrange(0, j as int)),
                decreases n - j,
            {
                let c = s.as_str().get_char(j);
                if c == '"' || c == '\\' {
                    out.push('\\');
                    out.push(c);
                } else {
                    out.push(c);
                }
                proof {
                    assert(s@.subrange(0, j + 1 as int).subrange(0, j as int) =~= s@.subrange(
                        0,
                        j as int,
                    ));
                    assert(out@ =~= base + escape_str(s@.subrange(0, j + 1 as int)));
                }
                j = j + 1;
            }
            out.push('"');
            proof {
                assert(s@.subrange(0, n as int) =~= s@);
                assert(out@ =~= old(out)@ + print_spec(v@));
            }
        },
        Value::Char(c) => {
            out.push('\\');
            out.push(*c);
            proof {
                assert(out@ =~= old(out)@ + print_spec(v@));
            }
        },
        Value::Symbol(s) => {
            push_str(out, s.as_str());
        },
        Value::Keyword(s) => {
            out.push(':');
            push_str(out, s.as_str());
            proof {
                assert(out@ =~= old(out)@ + print_spec(v@));
            }
        },
        Value::Integer(n) => {
            push_i64(out, *n);
        },
        Value::Float(f) => {
            if f.negative {
                out.push('-');
            }
            push_str(out, f.whole.as_str());
            out.push('.');
            if f.frac.as_str().unicode_len() == 0 {
                out.push('0');
            } else {
                push_str(out, f.frac.as_str());
            }
            proof {
                assert(out@ =~= old(out)@ + print_spec(v@));
            }
        },
        Value::List(xs) => {
            out.push('(');
            print_elems_into(xs, out);
            out.push(')');
            proof {
                assert(out@ =~= old(out)@ + print_spec(v@));
            }
        },
        Value::Vector(xs) => {
            out.push('[');
            print_elems_into(xs, out);
            out.push(']');
            proof {
                assert(out@ =~= old(out)@ + print_spec(v@));
            }
        },
        Value::Mapping(ps) => {
            out.push('{');
            print_pairs_into(ps, out);
            out.push('}');
            proof {
                assert(out@ =~= old(out)@ + print_spec(v@));
            }
        },
        Value::SetOf(xs) => {
            out.push('#');
            out.push('{');
            print_elems_into(xs, out);
            out.push('}');
            proof {
                assert(out@ =~= old(out)@ + print_spec(v@));
            }
        },
        Value::Tagged(t, inner) => {
            out.push('#');
            push_str(out, t.as_str());
            out.push(' ');
            print_into(&**inner, out);
            proof {
                assert(out@ =~= old(out)@ + print_spec(v@));
            }
        },
    }
}

/// Appends the elements of a container, joined by `, `, to `out`.
fn print_elems_into(xs: &Vec<Value>, out: &mut Vec<char>)
    ensures
        final(out)@ == old(out)@ + join_elems(deep_of_seq(xs@)),
    decreases xs, 0int,
{
    proof {
        crate::lemma_deep_of_seq(xs@);
    }
    let ghost d = deep_of_seq(xs@);
    let ghost base = out@;
    let n = xs.len();
    let mut j: usize = 0;
    while j < n
        invariant
            j <= n,
            n == xs@.len(),
            d == deep_of_seq(xs@),
            d.len() == n,
            forall|t: int| 0 <= t < n ==> d[t] == xs@[t].deep(),
            base == old(out)@,
            out@ == base + join_elems(d.subrange(0, j as int)),
        decreases n - j,
    {
        if j > 0 {
            push_str(out, ", ");
        }
        print_into(&xs[j], out);
        proof {
            assert(d.subrange(0, j + 1 as int).subrange(0, j as int) =~= d.subrange(0, j as int));
            assert(d.subrange(0, j + 1 as int)[j as int] == d[j as int]);
            assert(out@ =~= base + join_elems(d.subrange(0, j + 1 as int)));
        }
        j = j + 1;
    }
    proof {
        assert(d.subrange(0, n as int) =~= d);
    }
}

/// Appends the entries of a map, each as `key value`, joined by `, `, to
/// `out`.
fn print_pairs_into(ps: &Vec<(Value, Value)>, out: &mut Vec<char>)
    ensures
        final(out)@ == old(out)@ + join_pairs(deep_of_pairs(ps@)),
    decreases ps, 0int,
{
    proof {
        crate::lemma_deep_of_pairs(ps@);
    }
    let ghost d = deep_of_pairs(ps@);
    let ghost base = out@;
    let n = ps.len();
    let mut j: usize = 0;
    while j < n
        invariant
            j <= n,
            n == ps@.len(),
            d == deep_of_pairs(ps@),
            d.len() == n,
            forall|t: int| 0 <= t < n ==> d[t] == (ps@[t].0.deep(), ps@[t].1.deep()),
            base == old(out)@,
            out@ == base + join_pairs(d.subrange(0, j as int)),
        decreases n - j,
    {
        if j > 0 {
            push_str(out, ", ");
        }
        print_into(&ps[j].0, out);
        out.push(' ');
        print_into(&ps[j].1, out);
        proof {
            assert(d.subrange(0, j + 1 as int).subrange(0, j as int) =~= d.subrange(0, j as int));
            assert(d.subrange(0, j + 1 as int)[j as int] == d[j as int]);
            assert(out@ =~= base + join_pairs(d.subrange(0, j + 1 as int)));
        }
        j = j + 1;
    }
    proof {
        assert(d.subrange(0, n as int) =~= d);
    }
}

/// Renders `v` as text: exactly the characters that [`print_spec`] gives
/// for its mathematical value.
pub fn print(v: Value) -> (r: String)
    ensures
        r@ == print_spec(v@),
{
    let mut out: Vec<char> = Vec::new();
    print_into(&v, &mut out);
    chars_to_string(&out)
}

} // verus!
