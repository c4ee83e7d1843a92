//! Laws that tie the reader and the printer together, stated over the
//! spec-level reader and printer and proved for every input.

use vstd::prelude::*;

use core::cmp::Ordering;

use crate::parser::digit_pred;
use crate::parser::digit_val;
use crate::parser::digits_val;
use crate::parser::is_digit;
use crate::parser::is_sep;
use crate::parser::scan_len;
use crate::parser::sep_pred;
use crate::parser::spec_read;
use crate::parser::close_for;
use crate::parser::spec_read_elems;
use crate::parser::spec_read_number;
use crate::parser::spec_read_string_body;
use crate::parser::symbol_head_char;
use crate::parser::tag_pred;
use crate::parser::ElemsOutcome;
use crate::parser::ReadOutcome;
use crate::parser::DEPTH_LIMIT;
use crate::order::all_canonical;
use crate::order::all_entries_canonical;
use crate::order::canonical;
use crate::order::canonical_float;
use crate::order::cmp_value;
use crate::order::lemma_cmp_value_antisym;
use crate::order::lemma_cmp_value_eq;
use crate::order::strictly_sorted;
use crate::order::strictly_sorted_keys;
use crate::parser::build_map;
use crate::parser::build_set;
use crate::parser::canon_whole;
use crate::parser::lemma_scan_len;
use crate::parser::map_insert_from;
use crate::parser::set_insert_from;
use crate::parser::strip_leading_zeros;
use crate::parser::strip_trailing_zeros;
use crate::printer::dec_digits;
use crate::printer::digit_char;
use crate::printer::print_spec;
use crate::SpecValue;

verus! {

/// A scan over characters that all satisfy `p` runs to the end of the
/// input.
pub proof fn lemma_scan_len_all(s: Seq<char>, i: nat, p: spec_fn(char) -> bool)
    requires
        i <= s.len(),
        forall|j: int| i <= j < s.len() ==> p(s[j]),
    ensures
        i + scan_len(s, i, p) == s.len(),
    decreases s.len() - i,
{
    if i < s.len() {
        lemma_scan_len_all(s, i + 1, p);
    }
}

/// The decimal rendering of a nonnegative number is made of digits, and
/// reading those digits back gives the number itself.
pub proof fn lemma_dec_digits_val(m: int)
    requires
        m >= 0,
    ensures
        dec_digits(m).len() >= 1,
        forall|j: int| 0 <= j < dec_digits(m).len() ==> is_digit(#[trigger] dec_digits(m)[j]),
        digits_val(dec_digits(m)) == m,
    decreases m,
{
    if m < 10 {
        assert(is_digit(digit_char(m)));
        assert(digits_val(Seq::<char>::empty()) == 0);
        assert(dec_digits(m).subrange(0, 0) =~= Seq::<char>::empty());
        assert(digits_val(dec_digits(m)) == digits_val(dec_digits(m).subrange(0, 0)) * 10
            + digit_val(dec_digits(m)[0]));
        assert(digit_val(digit_char(m)) == m);
    } else {
        lemma_dec_digits_val(m / 10);
        vstd::arithmetic::div_mod::lemma_fundamental_div_mod(m, 10);
        let prefix = dec_digits(m / 10);
        let whole = dec_digits(m);
        assert(whole == prefix.push(digit_char(m % 10)));
        assert(whole.subrange(0, whole.len() - 1) =~= prefix);
        assert(digit_val(digit_char(m % 10)) == m % 10);
        assert(digits_val(whole) == digits_val(prefix) * 10 + m % 10);
    }
}

/// A digit character is not a separator.
proof fn lemma_digit_not_sep(c: char)
    requires
        is_digit(c),
    ensures
        !is_sep(c),
{
}

/// Reading back the printed text of any signed 64-bit integer yields
/// exactly that integer, consuming the whole text: with `n` standing for
/// the mathematical value of the integer, one read of
/// `print(Value::Integer(n))` from the start returns `Ok(Value::Integer(n))`
/// and ends at the end of the input.
pub proof fn lemma_integer_round_trip(n: i64)
    ensures
        ({
            let s = print_spec(SpecValue::Integer(n as int));
            let step = spec_read(s, 0, DEPTH_LIMIT as nat);
            step.out == ReadOutcome::Val(SpecValue::Integer(n as int)) && step.next == s.len()
        }),
{
    let s = print_spec(SpecValue::Integer(n as int));
    if n >= 0 {
        let m = n as int;
        lemma_dec_digits_val(m);
        assert(s == dec_digits(m));
        assert(is_digit(s[0]));
        lemma_digit_not_sep(s[0]);
        assert(scan_len(s, 0, sep_pred()) == 0);
        assert forall|j: int| 0 <= j < s.len() implies (digit_pred())(s[j]) by {
            assert(is_digit(dec_digits(m)[j]));
        }
        lemma_scan_len_all(s, 0, digit_pred());
        let step = spec_read_number(s, 0, false, 0);
        assert(s.subrange(0, s.len() as int) =~= s);
        assert(digits_val(s.subrange(0, s.len() as int)) == m);
        assert(step.out == ReadOutcome::Val(SpecValue::Integer(m)));
        assert(spec_read(s, 0, DEPTH_LIMIT as nat) == step);
    } else {
        let m = -(n as int);
        lemma_dec_digits_val(m);
        assert(s == seq!['-'] + dec_digits(m));
        assert(s[0] == '-');
        assert(!is_sep('-'));
        assert(scan_len(s, 0, sep_pred()) == 0);
        assert(s.len() == 1 + dec_digits(m).len());
        assert(s[1] == dec_digits(m)[0]);
        assert(is_digit(s[1]));
        assert forall|j: int| 1 <= j < s.len() implies (digit_pred())(s[j]) by {
            assert(s[j] == dec_digits(m)[j - 1]);
            assert(is_digit(dec_digits(m)[j - 1]));
        }
        lemma_scan_len_all(s, 1, digit_pred());
        let step = spec_read_number(s, 0, true, 1);
        assert(s.subrange(1, s.len() as int) =~= dec_digits(m));
        assert(digits_val(s.subrange(1, s.len() as int)) == m);
        assert(!is_digit('-'));
        assert(step.out == ReadOutcome::Val(SpecValue::Integer(n as int)));
        assert(spec_read(s, 0, DEPTH_LIMIT as nat) == step);
    }
}

/// Whether `m` is the message of an error reported because the input ended
/// before a closing delimiter: an unclosed container literal or an
/// unterminated string literal.
pub open spec fn is_unterminated_msg(m: Seq<char>) -> bool {
    m == "unclosed `(`"@ || m == "unclosed `[`"@ || m == "unclosed `{`"@ || m == "unclosed `#{`"@
        || m == "expected closing `\"`, found EOF"@
}

/// No other message of the reader is an unterminated-input message.
proof fn lemma_not_unterminated()
    ensures
        !is_unterminated_msg("exceeded nesting depth limit"@),
        !is_unterminated_msg("integer literal out of range"@),
        !is_unterminated_msg("unrecognized token"@),
        !is_unterminated_msg("odd number of items in a Map"@),
        !is_unterminated_msg("malformed tagged value"@),
        forall|name: Seq<char>|
            !is_unterminated_msg(#[trigger] ("invalid char literal `\\"@ + name + "`"@)),
        forall|e: char|
            !is_unterminated_msg(#[trigger] ("invalid string escape `\\"@ + seq![e] + "`"@)),
{
    reveal_strlit("unclosed `(`");
    reveal_strlit("unclosed `[`");
    reveal_strlit("unclosed `{`");
    reveal_strlit("unclosed `#{`");
    reveal_strlit("expected closing `\"`, found EOF");
    reveal_strlit("exceeded nesting depth limit");
    reveal_strlit("integer literal out of range");
    reveal_strlit("unrecognized token");
    reveal_strlit("odd number of items in a Map");
    reveal_strlit("malformed tagged value");
    reveal_strlit("invalid char literal `\\");
    reveal_strlit("invalid string escape `\\");
    reveal_strlit("`");
    assert("unclosed `(`"@.len() == 12);
    assert("unclosed `[`"@.len() == 12);
    assert("unclosed `{`"@.len() == 12);
    assert("unclosed `#{`"@.len() == 13);
    assert("expected closing `\"`, found EOF"@.len() == 31);
    assert("exceeded nesting depth limit"@.len() == 28);
    assert("integer literal out of range"@.len() == 28);
    assert("unrecognized token"@.len() == 18);
    assert("odd number of items in a Map"@.len() == 28);
    assert("malformed tagged value"@.len() == 22);
    assert("invalid char literal `\\"@.len() == 23);
    assert("invalid string escape `\\"@.len() == 24);
    assert("`"@.len() == 1);
    assert("invalid char literal `\\"@[0] == 'i');
    assert forall|name: Seq<char>|
        !is_unterminated_msg(#[trigger] ("invalid char literal `\\"@ + name + "`"@)) by {
        let m = "invalid char literal `\\"@ + name + "`"@;
        assert(m.len() >= 24);
        assert(m[0] == 'i');
    }
    assert forall|e: char|
        !is_unterminated_msg(#[trigger] ("invalid string escape `\\"@ + seq![e] + "`"@)) by {
        let m = "invalid string escape `\\"@ + seq![e] + "`"@;
        assert(m.len() == 26);
    }
}

/// Reading a string body reports an unterminated-input error only with its
/// end at the input's total length.
proof fn lemma_unterminated_hi_string(s: Seq<char>, i: nat, start: nat, acc: Seq<char>)
    ensures
        spec_read_string_body(s, i, start, acc).out matches ReadOutcome::Fail(f) ==> (
        is_unterminated_msg(f.msg) ==> f.hi == s.len()),
    decreases s.len() - i,
{
    lemma_not_unterminated();
    if i < s.len() && s[i as int] != '"' {
        if s[i as int] == '\\' {
            if i + 1 < s.len() {
                let e = s[i + 1 as int];
                if e == 't' {
                    lemma_unterminated_hi_string(s, i + 2, start, acc.push('\t'));
                } else if e == 'r' {
                    lemma_unterminated_hi_string(s, i + 2, start, acc.push('\r'));
                } else if e == 'n' {
                    lemma_unterminated_hi_string(s, i + 2, start, acc.push('\n'));
                } else if e == '\\' {
                    lemma_unterminated_hi_string(s, i + 2, start, acc.push('\\'));
                } else if e == '"' {
                    lemma_unterminated_hi_string(s, i + 2, start, acc.push('"'));
                }
            }
        } else {
            lemma_unterminated_hi_string(s, i + 1, start, acc.push(s[i as int]));
        }
    }
}

/// Law: an input that ends before a closing parenthesis, bracket, brace or
/// string quote is reported with an error whose `hi` is the input's total
/// length — whenever a read on `s` at `pos` yields an error carrying an
/// unterminated-input message, that error's span runs to the very end of
/// `s`.
pub proof fn lemma_unterminated_hi(s: Seq<char>, pos: nat, depth: nat)
    ensures
        spec_read(s, pos, depth).out matches ReadOutcome::Fail(f) ==> (is_unterminated_msg(f.msg)
            ==> f.hi == s.len()),
    decreases depth, s.len() - pos, 0int,
{
    lemma_not_unterminated();
    let i = pos + scan_len(s, pos, sep_pred());
    if i < s.len() && depth > 0 {
        let c = s[i as int];
        if c == '\\' {
        } else if c == '"' {
            lemma_unterminated_hi_string(s, i + 1, i, Seq::empty());
        } else if c == '(' || c == '[' || c == '{' {
            lemma_unterminated_hi_elems(s, i, c, (i + 1) as nat, (depth - 1) as nat, Seq::empty());
        } else if c == '#' && !is_digit(c) {
            if i + 1 < s.len() && s[i + 1 as int] == '{' {
                lemma_unterminated_hi_elems(
                    s,
                    i,
                    '#',
                    (i + 2) as nat,
                    (depth - 1) as nat,
                    Seq::empty(),
                );
            } else if i + 1 < s.len() && symbol_head_char(s[i + 1 as int]) {
                let e = i + 1 + scan_len(s, (i + 1) as nat, tag_pred());
                lemma_unterminated_hi(s, e, (depth - 1) as nat);
            }
        }
    }
}

/// Collecting container elements reports an unterminated-input error only
/// with its end at the input's total length.
pub proof fn lemma_unterminated_hi_elems(
    s: Seq<char>,
    open_pos: nat,
    open: char,
    pos: nat,
    depth: nat,
    acc: Seq<SpecValue>,
)
    ensures
        spec_read_elems(s, open_pos, open, pos, depth, acc) matches ElemsOutcome::Fail(f, _) ==> (
        is_unterminated_msg(f.msg) ==> f.hi == s.len()),
    decreases depth, s.len() - pos, 1int,
{
    let i = pos + scan_len(s, pos, sep_pred());
    if i < s.len() && s[i as int] != close_for(open) {
        lemma_unterminated_hi(s, i, depth);
        let step = spec_read(s, i, depth);
        match step.out {
            ReadOutcome::Val(v) => {
                if !(step.next <= i || step.next > s.len()) {
                    lemma_unterminated_hi_elems(s, open_pos, open, step.next, depth, acc.push(v));
                }
            },
            _ => {},
        }
    }
}

/// Inserting an element into a strictly sorted run keeps it strictly
/// sorted, provided the scan has already passed only strictly smaller
/// elements.
#[verifier::rlimit(100)]
proof fn lemma_set_insert_from_sorted(elems: Seq<SpecValue>, v: SpecValue, i: nat)
    requires
        strictly_sorted(elems),
        i <= elems.len(),
        i > 0 ==> cmp_value(v, elems[i as int - 1]) == Ordering::Greater,
    ensures
        strictly_sorted(set_insert_from(elems, v, i)),
    decreases elems.len() - i,
{
    let r = set_insert_from(elems, v, i);
    if i >= elems.len() {
        if i > 0 {
            lemma_cmp_value_antisym(v, elems[i as int - 1]);
        }
        assert(strictly_sorted(r));
    } else {
        match cmp_value(v, elems[i as int]) {
            Ordering::Greater => {
                lemma_set_insert_from_sorted(elems, v, i + 1);
            },
            Ordering::Equal => {},
            Ordering::Less => {
                elems.insert_ensures(i as int, v);
                if i > 0 {
                    lemma_cmp_value_antisym(v, elems[i as int - 1]);
                }
                assert forall|j: int|
                    0 <= j < r.len() - 1 implies cmp_value(
                    #[trigger] r[j],
                    r[j + 1],
                ) == Ordering::Less by {
                    if j < i as int - 1 {
                        assert(r[j] == elems[j]);
                        assert(r[j + 1] == elems[j + 1]);
                    } else if j == i as int - 1 {
                        assert(r[j] == elems[j]);
                        assert(r[j + 1] == v);
                    } else if j == i as int {
                        assert(r[j] == v);
                        assert(r[j + 1] == elems[j]);
                    } else {
                        assert(r[j] == elems[j - 1]);
                        assert(r[j + 1] == elems[j]);
                    }
                }
            },
        }
    }
}

/// Inserting a canonical element into a run of canonical elements leaves
/// every element canonical.
#[verifier::rlimit(50)]
proof fn lemma_set_insert_from_elems_canonical(elems: Seq<SpecValue>, v: SpecValue, i: nat)
    requires
        all_canonical(elems),
        canonical(v),
        i <= elems.len(),
    ensures
        all_canonical(set_insert_from(elems, v, i)),
    decreases elems.len() - i,
{
    let r = set_insert_from(elems, v, i);
    if i >= elems.len() {
        assert forall|j: int| 0 <= j < r.len() implies canonical(#[trigger] r[j]) by {
            if j < elems.len() {
                assert(canonical(elems[j]));
            }
        }
    } else {
        match cmp_value(v, elems[i as int]) {
            Ordering::Greater => {
                lemma_set_insert_from_elems_canonical(elems, v, i + 1);
            },
            Ordering::Equal => {},
            Ordering::Less => {
                elems.insert_ensures(i as int, v);
                assert forall|j: int| 0 <= j < r.len() implies canonical(#[trigger] r[j]) by {
                    if j < i as int {
                        assert(r[j] == elems[j]);
                        assert(canonical(elems[j]));
                    } else if j > i as int {
                        assert(r[j] == elems[j - 1]);
                        assert(canonical(elems[j - 1]));
                    }
                }
            },
        }
    }
}

/// Inserting a pair into a strictly key-sorted entry run keeps it strictly
/// key-sorted, provided the scan has already passed only strictly smaller
/// keys.
#[verifier::rlimit(100)]
proof fn lemma_map_insert_from_sorted(
    entries: Seq<(SpecValue, SpecValue)>,
    k: SpecValue,
    v: SpecValue,
    i: nat,
)
    requires
        strictly_sorted_keys(entries),
        i <= entries.len(),
        i > 0 ==> cmp_value(k, entries[i as int - 1].0) == Ordering::Greater,
    ensures
        strictly_sorted_keys(map_insert_from(entries, k, v, i)),
    decreases entries.len() - i,
{
    let r = map_insert_from(entries, k, v, i);
    if i >= entries.len() {
        if i > 0 {
            lemma_cmp_value_antisym(k, entries[i as int - 1].0);
        }
        assert(strictly_sorted_keys(r));
    } else {
        match cmp_value(k, entries[i as int].0) {
            Ordering::Greater => {
                lemma_map_insert_from_sorted(entries, k, v, i + 1);
            },
            Ordering::Equal => {
                lemma_cmp_value_eq(k, entries[i as int].0);
                assert forall|j: int|
                    0 <= j < r.len() - 1 implies cmp_value(
                    #[trigger] r[j].0,
                    r[j + 1].0,
                ) == Ordering::Less by {
                    assert(r[j].0 == entries[j].0);
                    assert(r[j + 1].0 == entries[j + 1].0);
                }
            },
            Ordering::Less => {
                entries.insert_ensures(i as int, (k, v));
                if i > 0 {
                    lemma_cmp_value_antisym(k, entries[i as int - 1].0);
                }
                assert forall|j: int|
                    0 <= j < r.len() - 1 implies cmp_value(
                    #[trigger] r[j].0,
                    r[j + 1].0,
                ) == Ordering::Less by {
                    if j < i as int - 1 {
                        assert(r[j] == entries[j]);
                        assert(r[j + 1] == entries[j + 1]);
                    } else if j == i as int - 1 {
                        assert(r[j] == entries[j]);
                        assert(r[j + 1] == (k, v));
                    } else if j == i as int {
                        assert(r[j] == (k, v));
                        assert(r[j + 1] == entries[j]);
                    } else {
                        assert(r[j] == entries[j - 1]);
                        assert(r[j + 1] == entries[j]);
                    }
                }
            },
        }
    }
}

/// Inserting a canonical pair into a run of canonical entries leaves every
/// entry canonical.
#[verifier::rlimit(50)]
proof fn lemma_map_insert_from_entries_canonical(
    entries: Seq<(SpecValue, SpecValue)>,
    k: SpecValue,
    v: SpecValue,
    i: nat,
)
    requires
        all_entries_canonical(entries),
        canonical(k),
        canonical(v),
        i <= entries.len(),
    ensures
        all_entries_canonical(map_insert_from(entries, k, v, i)),
    decreases entries.len() - i,
{
    let r = map_insert_from(entries, k, v, i);
    if i >= entries.len() {
        assert forall|j: int|
            0 <= j < r.len() implies canonical(#[trigger] r[j].0) && canonical(r[j].1) by {
            if j < entries.len() {
                assert(canonical(entries[j].0) && canonical(entries[j].1));
            }
        }
    } else {
        match cmp_value(k, entries[i as int].0) {
            Ordering::Greater => {
                lemma_map_insert_from_entries_canonical(entries, k, v, i + 1);
            },
            Ordering::Equal => {
                assert forall|j: int|
                    0 <= j < r.len() implies canonical(#[trigger] r[j].0) && canonical(r[j].1) by {
                    if j != i {
                        assert(canonical(entries[j].0) && canonical(entries[j].1));
                    }
                }
            },
            Ordering::Less => {
                entries.insert_ensures(i as int, (k, v));
                assert forall|j: int|
                    0 <= j < r.len() implies canonical(#[trigger] r[j].0) && canonical(r[j].1) by {
                    if j < i as int {
                        assert(r[j] == entries[j]);
                        assert(canonical(entries[j].0) && canonical(entries[j].1));
                    } else if j > i as int {
                        assert(r[j] == entries[j - 1]);
                        assert(canonical(entries[j - 1].0) && canonical(entries[j - 1].1));
                    }
                }
            },
        }
    }
}

/// A set literal built from canonical elements is strictly sorted,
/// deduplicated, and canonical throughout.
pub proof fn lemma_build_set_canonical(items: Seq<SpecValue>)
    requires
        all_canonical(items),
    ensures
        strictly_sorted(build_set(items)),
        all_canonical(build_set(items)),
    decreases items.len(),
{
    if items.len() > 0 {
        let prefix = items.subrange(0, items.len() - 1);
        assert(all_canonical(prefix)) by {
            assert forall|j: int| 0 <= j < prefix.len() implies canonical(#[trigger] prefix[j]) by {
                assert(prefix[j] == items[j]);
            }
        }
        lemma_build_set_canonical(prefix);
        assert(canonical(items[items.len() - 1]));
        lemma_set_insert_from_sorted(build_set(prefix), items[items.len() - 1], 0);
        lemma_set_insert_from_elems_canonical(build_set(prefix), items[items.len() - 1], 0);
    }
}

/// A map literal built from canonical items is strictly sorted by key,
/// with unique keys, and canonical throughout.
pub proof fn lemma_build_map_canonical(items: Seq<SpecValue>)
    requires
        all_canonical(items),
    ensures
        strictly_sorted_keys(build_map(items)),
        all_entries_canonical(build_map(items)),
    decreases items.len(),
{
    if items.len() >= 2 {
        let prefix = items.subrange(0, items.len() - 2);
        assert(all_canonical(prefix)) by {
            assert forall|j: int| 0 <= j < prefix.len() implies canonical(#[trigger] prefix[j]) by {
                assert(prefix[j] == items[j]);
            }
        }
        lemma_build_map_canonical(prefix);
        assert(canonical(items[items.len() - 2]));
        assert(canonical(items[items.len() - 1]));
        lemma_map_insert_from_sorted(
            build_map(prefix),
            items[items.len() - 2],
            items[items.len() - 1],
            0,
        );
        lemma_map_insert_from_entries_canonical(
            build_map(prefix),
            items[items.len() - 2],
            items[items.len() - 1],
            0,
        );
    }
}

/// Stripping leading zeros from a digit run leaves a digit run that does
/// not begin with a zero.
proof fn lemma_strip_leading_zeros_digits(d: Seq<char>)
    requires
        forall|j: int| 0 <= j < d.len() ==> is_digit(#[trigger] d[j]),
    ensures
        forall|j: int|
            0 <= j < strip_leading_zeros(d).len() ==> is_digit(#[trigger] strip_leading_zeros(d)[j]),
        strip_leading_zeros(d).len() > 0 ==> strip_leading_zeros(d)[0] != '0',
    decreases d.len(),
{
    if d.len() > 0 && d[0] == '0' {
        assert forall|j: int| 0 <= j < d.skip(1).len() implies is_digit(#[trigger] d.skip(1)[j]) by {
            assert(d.skip(1)[j] == d[j + 1]);
        }
        lemma_strip_leading_zeros_digits(d.skip(1));
    }
}

/// Stripping trailing zeros from a digit run leaves a digit run that does
/// not end with a zero.
proof fn lemma_strip_trailing_zeros_digits(d: Seq<char>)
    requires
        forall|j: int| 0 <= j < d.len() ==> is_digit(#[trigger] d[j]),
    ensures
        forall|j: int|
            0 <= j < strip_trailing_zeros(d).len() ==> is_digit(
                #[trigger] strip_trailing_zeros(d)[j],
            ),
        strip_trailing_zeros(d).len() > 0 ==> strip_trailing_zeros(d)[strip_trailing_zeros(
            d,
        ).len() - 1] != '0',
    decreases d.len(),
{
    if d.len() > 0 && d[d.len() - 1] == '0' {
        let head = d.subrange(0, d.len() - 1);
        assert forall|j: int| 0 <= j < head.len() implies is_digit(#[trigger] head[j]) by {
            assert(head[j] == d[j]);
        }
        lemma_strip_trailing_zeros_digits(head);
    }
}

/// A numeric literal the reader yields is canonical: an integer, or a
/// float in canonical decimal form.
proof fn lemma_number_canonical(s: Seq<char>, tok_start: nat, neg: bool, d_start: nat)
    requires
        d_start <= s.len(),
    ensures
        spec_read_number(s, tok_start, neg, d_start).out matches ReadOutcome::Val(v)
            ==> canonical(v),
{
    lemma_scan_len(s, d_start, digit_pred());
    let w_end = d_start + scan_len(s, d_start, digit_pred());
    if w_end < s.len() && s[w_end as int] == '.' {
        lemma_scan_len(s, (w_end + 1) as nat, digit_pred());
        let f_end = w_end + 1 + scan_len(s, (w_end + 1) as nat, digit_pred());
        let wdigits = s.subrange(d_start as int, w_end as int);
        let fdigits = s.subrange(w_end + 1 as int, f_end as int);
        assert forall|j: int| 0 <= j < wdigits.len() implies is_digit(#[trigger] wdigits[j]) by {
            assert(wdigits[j] == s[d_start + j]);
            assert((digit_pred())(s[d_start + j]));
        }
        assert forall|j: int| 0 <= j < fdigits.len() implies is_digit(#[trigger] fdigits[j]) by {
            assert(fdigits[j] == s[w_end + 1 + j]);
            assert((digit_pred())(s[w_end + 1 + j]));
        }
        lemma_strip_leading_zeros_digits(wdigits);
        lemma_strip_trailing_zeros_digits(fdigits);
        let whole = canon_whole(wdigits);
        assert(canonical_float(neg, whole, strip_trailing_zeros(fdigits))) by {
            if strip_leading_zeros(wdigits).len() == 0 {
                assert(whole == seq!['0']);
                assert(is_digit(whole[0]));
            }
        }
    }
}

/// The body of a string literal always reads as a string value, which is
/// canonical.
proof fn lemma_string_body_canonical(s: Seq<char>, i: nat, start: nat, acc: Seq<char>)
    ensures
        spec_read_string_body(s, i, start, acc).out matches ReadOutcome::Val(v) ==> canonical(v),
    decreases s.len() - i,
{
    if i < s.len() && s[i as int] != '"' {
        if s[i as int] == '\\' {
            if i + 1 < s.len() {
                let e = s[i + 1 as int];
                if e == 't' {
                    lemma_string_body_canonical(s, i + 2, start, acc.push('\t'));
                } else if e == 'r' {
                    lemma_string_body_canonical(s, i + 2, start, acc.push('\r'));
                } else if e == 'n' {
                    lemma_string_body_canonical(s, i + 2, start, acc.push('\n'));
                } else if e == '\\' {
                    lemma_string_body_canonical(s, i + 2, start, acc.push('\\'));
                } else if e == '"' {
                    lemma_string_body_canonical(s, i + 2, start, acc.push('"'));
                }
            }
        } else {
            lemma_string_body_canonical(s, i + 1, start, acc.push(s[i as int]));
        }
    }
}

/// Law: every value the reader yields is canonical — its map literals hold
/// their entries strictly sorted by unique keys, its set literals hold
/// their elements strictly sorted and deduplicated, and its float literals
/// are in canonical decimal form, recursively throughout the tree.
#[verifier::rlimit(100)]
pub proof fn lemma_read_canonical(s: Seq<char>, pos: nat, depth: nat)
    ensures
        spec_read(s, pos, depth).out matches ReadOutcome::Val(v) ==> canonical(v),
    decreases depth, s.len() - pos, 0int,
{
    let i = pos + scan_len(s, pos, sep_pred());
    if i < s.len() && depth > 0 {
        let c = s[i as int];
        if is_digit(c) {
            lemma_number_canonical(s, i, false, i);
        } else if c == '+' || c == '-' {
            if i + 1 < s.len() && is_digit(s[i + 1 as int]) {
                lemma_number_canonical(s, i, c == '-', (i + 1) as nat);
            }
        } else if c == '.' {
            if i + 1 < s.len() && is_digit(s[i + 1 as int]) {
                lemma_number_canonical(s, i, false, i);
            }
        } else if c == '"' {
            lemma_string_body_canonical(s, i + 1, i, Seq::empty());
        } else if c == '(' || c == '[' || c == '{' {
            lemma_elems_canonical(s, i, c, (i + 1) as nat, (depth - 1) as nat, Seq::empty());
            match spec_read_elems(s, i, c, (i + 1) as nat, (depth - 1) as nat, Seq::empty()) {
                ElemsOutcome::Done(items, _) => {
                    if c == '{' && items.len() % 2 == 0 {
                        lemma_build_map_canonical(items);
                    }
                },
                ElemsOutcome::Fail(_, _) => {},
            }
        } else if c == '#' {
            if i + 1 < s.len() && s[i + 1 as int] == '{' {
                lemma_elems_canonical(s, i, '#', (i + 2) as nat, (depth - 1) as nat, Seq::empty());
                match spec_read_elems(s, i, '#', (i + 2) as nat, (depth - 1) as nat, Seq::empty()) {
                    ElemsOutcome::Done(items, _) => {
                        lemma_build_set_canonical(items);
                    },
                    ElemsOutcome::Fail(_, _) => {},
                }
            } else if i + 1 < s.len() && symbol_head_char(s[i + 1 as int]) {
                let e = i + 1 + scan_len(s, (i + 1) as nat, tag_pred());
                lemma_read_canonical(s, e, (depth - 1) as nat);
            }
        }
    }
}

/// Every element that container collection yields is canonical, given
/// canonical elements collected so far.
proof fn lemma_elems_canonical(
    s: Seq<char>,
    open_pos: nat,
    open: char,
    pos: nat,
    depth: nat,
    acc: Seq<SpecValue>,
)
    requires
        all_canonical(acc),
    ensures
        spec_read_elems(s, open_pos, open, pos, depth, acc) matches ElemsOutcome::Done(items, _)
            ==> all_canonical(items),
    decreases depth, s.len() - pos, 1int,
{
    let i = pos + scan_len(s, pos, sep_pred());
    if i < s.len() && s[i as int] != close_for(open) {
        lemma_read_canonical(s, i, depth);
        let step = spec_read(s, i, depth);
        match step.out {
            ReadOutcome::Val(v) => {
                if !(step.next <= i || step.next > s.len()) {
                    assert(all_canonical(acc.push(v))) by {
                        assert forall|j: int|
                            0 <= j < acc.push(v).len() implies canonical(
                            #[trigger] acc.push(v)[j],
                        ) by {
                            if j < acc.len() {
                                assert(acc.push(v)[j] == acc[j]);
                            }
                        }
                    }
                    lemma_elems_canonical(s, open_pos, open, step.next, depth, acc.push(v));
                }
            },
            _ => {},
        }
    }
}

} // verus!
