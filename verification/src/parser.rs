//! The reader: a recursive-descent parser from text to [`Value`] trees.
//!
//! [`Parser::read`] returns one form at a time: a value, a positioned error
//! (a half-open character-offset span into the input plus a message), or
//! end-of-input. The whole grammar is written down as the spec-level reader
//! [`spec_read`]; the executable parser is proved to return exactly what the
//! spec-level reader says, form for form, cursor move for cursor move.
//!
//! Differences from a reader without a recursion guard: nesting deeper than
//! [`DEPTH_LIMIT`] containers is reported as the parse error
//! `exceeded nesting depth limit` instead of exhausting the call stack, and
//! an integer literal outside the signed 64-bit range is reported as the
//! parse error `integer literal out of range`.

use vstd::prelude::*;

use crate::chars_to_string;
use crate::order::cmp_value;
use crate::SpecValue;
use crate::Value;

use core::cmp::Ordering;

verus! {

broadcast use vstd::std_specs::vec::group_vec_axioms, vstd::seq::axiom_seq_index_decreases;

/// How deep containers and tagged values may nest before the reader reports
/// the `exceeded nesting depth limit` error.
pub const DEPTH_LIMIT: usize = 100;

/// Whether `c` is whitespace (the Unicode `White_Space` set).
pub open spec fn is_ws(c: char) -> bool {
    c == '\u{9}' || c == '\u{a}' || c == '\u{b}' || c == '\u{c}' || c == '\u{d}' || c == ' '
        || c == '\u{85}' || c == '\u{a0}' || c == '\u{1680}' || ('\u{2000}' <= c && c
        <= '\u{200a}') || c == '\u{2028}' || c == '\u{2029}' || c == '\u{202f}' || c == '\u{205f}'
        || c == '\u{3000}'
}

/// Whether `c` separates forms: whitespace or a comma.
pub open spec fn is_sep(c: char) -> bool {
    is_ws(c) || c == ','
}

/// Whether `c` is a decimal digit.
pub open spec fn is_digit(c: char) -> bool {
    '0' <= c && c <= '9'
}

/// Whether `c` can begin a symbol.
pub open spec fn symbol_head_char(c: char) -> bool {
    ('a' <= c && c <= 'z') || ('A' <= c && c <= 'Z') || c == '.' || c == '*' || c == '+' || c
        == '!' || c == '-' || c == '_' || c == '?' || c == '$' || c == '%' || c == '&' || c == '='
        || c == '<' || c == '>' || c == ':'
}

/// Whether `c` can continue a symbol: a symbol head, a digit, `:` or `#`.
pub open spec fn symbol_tail_char(c: char) -> bool {
    symbol_head_char(c) || is_digit(c) || c == ':' || c == '#'
}

/// Whether `c` can continue a tag name: a symbol head or `/`.
pub open spec fn tag_char(c: char) -> bool {
    symbol_head_char(c) || c == '/'
}

/// The separator class, as a predicate value.
pub open spec fn sep_pred() -> spec_fn(char) -> bool {
    |c: char| is_sep(c)
}

/// The digit class, as a predicate value.
pub open spec fn digit_pred() -> spec_fn(char) -> bool {
    |c: char| is_digit(c)
}

/// The symbol-continuation class, as a predicate value.
pub open spec fn symbol_tail_pred() -> spec_fn(char) -> bool {
    |c: char| symbol_tail_char(c)
}

/// The non-whitespace class, as a predicate value.
pub open spec fn not_ws_pred() -> spec_fn(char) -> bool {
    |c: char| !is_ws(c)
}

/// The tag-name class, as a predicate value.
pub open spec fn tag_pred() -> spec_fn(char) -> bool {
    |c: char| tag_char(c)
}

/// How many consecutive characters of `s` starting at `i` satisfy `p`.
pub open spec fn scan_len(s: Seq<char>, i: nat, p: spec_fn(char) -> bool) -> nat
    decreases s.len() - i,
{
    if i >= s.len() || !p(s[i as int]) {
        0
    } else {
        1 + scan_len(s, i + 1, p)
    }
}

/// The numeric value of a digit character.
pub open spec fn digit_val(c: char) -> int {
    c as u32 - 48
}

/// The numeric value of a run of digit characters.
pub open spec fn digits_val(s: Seq<char>) -> int
    decreases s.len(),
{
    if s.len() == 0 {
        0
    } else {
        digits_val(s.subrange(0, s.len() - 1)) * 10 + digit_val(s[s.len() - 1])
    }
}

/// `d` with leading `0` characters removed.
pub open spec fn strip_leading_zeros(d: Seq<char>) -> Seq<char>
    decreases d.len(),
{
    if d.len() > 0 && d[0] == '0' {
        strip_leading_zeros(d.skip(1))
    } else {
        d
    }
}

/// `d` with trailing `0` characters removed.
pub open spec fn strip_trailing_zeros(d: Seq<char>) -> Seq<char>
    decreases d.len(),
{
    if d.len() > 0 && d[d.len() - 1] == '0' {
        strip_trailing_zeros(d.subrange(0, d.len() - 1))
    } else {
        d
    }
}

/// The canonical whole part of a decimal literal: leading zeros stripped,
/// and the empty run read as the single digit `0`.
pub open spec fn canon_whole(d: Seq<char>) -> Seq<char> {
    if strip_leading_zeros(d).len() == 0 {
        seq!['0']
    } else {
        strip_leading_zeros(d)
    }
}

/// A parse error in the model: a half-open character span and a message.
pub struct SpecError {
    pub lo: nat,
    pub hi: nat,
    pub msg: Seq<char>,
}

/// What one call of the spec-level reader yields.
pub enum ReadOutcome {
    /// The input held no further form.
    Eof,
    /// The next form, well formed.
    Val(SpecValue),
    /// The next form was malformed.
    Fail(SpecError),
}

/// The result of one spec-level read: an outcome and the new cursor.
pub struct ReadStep {
    pub out: ReadOutcome,
    pub next: nat,
}

/// What the spec-level collection of container elements yields: the
/// elements up to the closing character and the cursor after it, or an
/// error and the cursor where reading stopped.
pub enum ElemsOutcome {
    Done(Seq<SpecValue>, nat),
    Fail(SpecError, nat),
}

/// The elements inserted one by one into a set in canonical order,
/// deduplicating by the total order.
pub open spec fn build_set(items: Seq<SpecValue>) -> Seq<SpecValue>
    decreases items.len(),
{
    if items.len() == 0 {
        Seq::empty()
    } else {
        set_insert(build_set(items.subrange(0, items.len() - 1)), items[items.len() - 1])
    }
}

/// `v` inserted into the sorted element run `elems`: ignored if an equal
/// element is already present.
pub open spec fn set_insert(elems: Seq<SpecValue>, v: SpecValue) -> Seq<SpecValue> {
    set_insert_from(elems, v, 0)
}

/// `set_insert`, scanning for the insertion point from position `i`.
pub open spec fn set_insert_from(elems: Seq<SpecValue>, v: SpecValue, i: nat) -> Seq<SpecValue>
    decreases elems.len() - i,
{
    if i >= elems.len() {
        elems.push(v)
    } else {
        match cmp_value(v, elems[i as int]) {
            Ordering::Greater => set_insert_from(elems, v, i + 1),
            Ordering::Equal => elems,
            Ordering::Less => elems.insert(i as int, v),
        }
    }
}

/// The key-value pairs of `items`, taken two at a time and inserted one by
/// one into a map in canonical key order; a later pair with an equal key
/// overwrites the earlier one.
pub open spec fn build_map(items: Seq<SpecValue>) -> Seq<(SpecValue, SpecValue)>
    decreases items.len(),
{
    if items.len() < 2 {
        Seq::empty()
    } else {
        map_insert(
            build_map(items.subrange(0, items.len() - 2)),
            items[items.len() - 2],
            items[items.len() - 1],
        )
    }
}

/// The pair `(k, v)` inserted into the sorted entry run `entries`,
/// overwriting the value of an equal key.
pub open spec fn map_insert(
    entries: Seq<(SpecValue, SpecValue)>,
    k: SpecValue,
    v: SpecValue,
) -> Seq<(SpecValue, SpecValue)> {
    map_insert_from(entries, k, v, 0)
}

/// `map_insert`, scanning for the insertion point from position `i`.
pub open spec fn map_insert_from(
    entries: Seq<(SpecValue, SpecValue)>,
    k: SpecValue,
    v: SpecValue,
    i: nat,
) -> Seq<(SpecValue, SpecValue)>
    decreases entries.len() - i,
{
    if i >= entries.len() {
        entries.push((k, v))
    } else {
        match cmp_value(k, entries[i as int].0) {
            Ordering::Greater => map_insert_from(entries, k, v, i + 1),
            Ordering::Equal => entries.update(i as int, (k, v)),
            Ordering::Less => entries.insert(i as int, (k, v)),
        }
    }
}

/// The message of the error reported for an unclosed container opened by
/// `open` (where `#` stands for the set opener `#{`).
pub open spec fn unclosed_msg(open: char) -> Seq<char> {
    if open == '(' {
        "unclosed `(`"@
    } else if open == '[' {
        "unclosed `[`"@
    } else if open == '{' {
        "unclosed `{`"@
    } else {
        "unclosed `#{`"@
    }
}

/// The closing character for the container opened by `open` (where `#`
/// stands for the set opener `#{`).
pub open spec fn close_for(open: char) -> char {
    if open == '(' {
        ')'
    } else if open == '[' {
        ']'
    } else {
        '}'
    }
}

/// The spec-level reading of the digits of a numeric literal whose digit
/// run starts at `d_start`; `tok_start` is where the whole token (with its
/// sign, if any) began, and `neg` whether it carries a minus sign.
pub open spec fn spec_read_number(s: Seq<char>, tok_start: nat, neg: bool, d_start: nat) -> ReadStep {
    let w_end = d_start + scan_len(s, d_start, digit_pred());
    if w_end < s.len() && s[w_end as int] == '.' {
        let f_end = w_end + 1 + scan_len(s, (w_end + 1) as nat, digit_pred());
        ReadStep {
            out: ReadOutcome::Val(
                SpecValue::Float(
                    neg,
                    canon_whole(s.subrange(d_start as int, w_end as int)),
                    strip_trailing_zeros(s.subrange(w_end + 1 as int, f_end as int)),
                ),
            ),
            next: f_end,
        }
    } else {
        let m = digits_val(s.subrange(d_start as int, w_end as int));
        let n = if neg {
            -m
        } else {
            m
        };
        if n < -0x8000_0000_0000_0000 || n > 0x7fff_ffff_ffff_ffff {
            ReadStep {
                out: ReadOutcome::Fail(
                    SpecError { lo: tok_start, hi: w_end, msg: "integer literal out of range"@ },
                ),
                next: w_end,
            }
        } else {
            ReadStep { out: ReadOutcome::Val(SpecValue::Integer(n)), next: w_end }
        }
    }
}

/// The spec-level reading of a character literal whose `\` stands at `i`.
pub open spec fn spec_read_char_lit(s: Seq<char>, i: nat) -> ReadStep {
    let e = i + 1 + scan_len(s, (i + 1) as nat, not_ws_pred());
    let name = s.subrange(i + 1 as int, e as int);
    if name == "newline"@ {
        ReadStep { out: ReadOutcome::Val(SpecValue::Char('\n')), next: e }
    } else if name == "return"@ {
        ReadStep { out: ReadOutcome::Val(SpecValue::Char('\r')), next: e }
    } else if name == "space"@ {
        ReadStep { out: ReadOutcome::Val(SpecValue::Char(' ')), next: e }
    } else if name == "tab"@ {
        ReadStep { out: ReadOutcome::Val(SpecValue::Char('\t')), next: e }
    } else if name.len() == 1 {
        ReadStep { out: ReadOutcome::Val(SpecValue::Char(name[0])), next: e }
    } else {
        ReadStep {
            out: ReadOutcome::Fail(
                SpecError { lo: i, hi: e, msg: "invalid char literal `\\"@ + name + "`"@ },
            ),
            next: e,
        }
    }
}

/// The spec-level reading of the body of a string literal: `i` stands just
/// past the opening quote at `start`, and `acc` holds the characters read
/// so far.
pub open spec fn spec_read_string_body(s: Seq<char>, i: nat, start: nat, acc: Seq<char>) -> ReadStep
    decreases s.len() - i,
{
    if i >= s.len() {
        ReadStep {
            out: ReadOutcome::Fail(
                SpecError { lo: start, hi: s.len(), msg: "expected closing `\"`, found EOF"@ },
            ),
            next: s.len(),
        }
    } else if s[i as int] == '"' {
        ReadStep { out: ReadOutcome::Val(SpecValue::Str(acc)), next: i + 1 }
    } else if s[i as int] == '\\' {
        if i + 1 >= s.len() {
            ReadStep {
                out: ReadOutcome::Fail(
                    SpecError { lo: start, hi: s.len(), msg: "expected closing `\"`, found EOF"@ },
                ),
                next: s.len(),
            }
        } else {
            let e = s[i + 1 as int];
            if e == 't' {
                spec_read_string_body(s, i + 2, start, acc.push('\t'))
            } else if e == 'r' {
                spec_read_string_body(s, i + 2, start, acc.push('\r'))
            } else if e == 'n' {
                spec_read_string_body(s, i + 2, start, acc.push('\n'))
            } else if e == '\\' {
                spec_read_string_body(s, i + 2, start, acc.push('\\'))
            } else if e == '"' {
                spec_read_string_body(s, i + 2, start, acc.push('"'))
            } else {
                ReadStep {
                    out: ReadOutcome::Fail(
                        SpecError {
                            lo: i,
                            hi: i + 2,
                            msg: "invalid string escape `\\"@ + seq![e] + "`"@,
                        },
                    ),
                    next: i + 2,
                }
            }
        }
    } else {
        spec_read_string_body(s, i + 1, start, acc.push(s[i as int]))
    }
}

/// The spec-level reading of a symbol (or `true`, `false`, `nil`) whose
/// first character stands at `i`.
pub open spec fn spec_read_symbol(s: Seq<char>, i: nat) -> ReadStep {
    let e = i + 1 + scan_len(s, (i + 1) as nat, symbol_tail_pred());
    let tok = s.subrange(i as int, e as int);
    if tok == "true"@ {
        ReadStep { out: ReadOutcome::Val(SpecValue::Boolean(true)), next: e }
    } else if tok == "false"@ {
        ReadStep { out: ReadOutcome::Val(SpecValue::Boolean(false)), next: e }
    } else if tok == "nil"@ {
        ReadStep { out: ReadOutcome::Val(SpecValue::Nil), next: e }
    } else {
        ReadStep { out: ReadOutcome::Val(SpecValue::Symbol(tok)), next: e }
    }
}

/// One spec-level read: what the reader yields on `s` at cursor `pos` with
/// `depth` levels of nesting still allowed, and where its cursor stands
/// afterwards. This is the whole grammar of the notation.
pub open spec fn spec_read(s: Seq<char>, pos: nat, depth: nat) -> ReadStep
    decreases depth, s.len() - pos, 0int,
{
    let i = pos + scan_len(s, pos, sep_pred());
    if i >= s.len() {
        ReadStep { out: ReadOutcome::Eof, next: s.len() }
    } else if depth == 0 {
        ReadStep {
            out: ReadOutcome::Fail(
                SpecError { lo: i, hi: i + 1, msg: "exceeded nesting depth limit"@ },
            ),
            next: i + 1,
        }
    } else {
        let c = s[i as int];
        if is_digit(c) {
            spec_read_number(s, i, false, i)
        } else if c == '+' || c == '-' {
            if i + 1 < s.len() && is_digit(s[i + 1 as int]) {
                spec_read_number(s, i, c == '-', (i + 1) as nat)
            } else if i + 1 < s.len() && symbol_tail_char(s[i + 1 as int]) {
                spec_read_symbol(s, i)
            } else if i + 1 >= s.len() || is_sep(s[i + 1 as int]) {
                ReadStep { out: ReadOutcome::Val(SpecValue::Symbol(seq![c])), next: i + 1 }
            } else {
                ReadStep {
                    out: ReadOutcome::Fail(
                        SpecError { lo: i, hi: i + 2, msg: "unrecognized token"@ },
                    ),
                    next: i + 2,
                }
            }
        } else if c == '.' {
            if i + 1 < s.len() && is_digit(s[i + 1 as int]) {
                spec_read_number(s, i, false, i)
            } else {
                spec_read_symbol(s, i)
            }
        } else if c == '\\' {
            spec_read_char_lit(s, i)
        } else if c == '"' {
            spec_read_string_body(s, i + 1, i, Seq::empty())
        } else if c == ':' {
            let e = i + 1 + scan_len(s, (i + 1) as nat, symbol_tail_pred());
            ReadStep {
                out: ReadOutcome::Val(SpecValue::Keyword(s.subrange(i + 1 as int, e as int))),
                next: e,
            }
        } else if c == '(' || c == '[' || c == '{' {
            match spec_read_elems(
                s,
                i,
                c,
                (i + 1) as nat,
                (depth - 1) as nat,
                Seq::empty(),
            ) {
                ElemsOutcome::Done(items, nx) => {
                    if c == '(' {
                        ReadStep { out: ReadOutcome::Val(SpecValue::List(items)), next: nx }
                    } else if c == '[' {
                        ReadStep { out: ReadOutcome::Val(SpecValue::Vector(items)), next: nx }
                    } else {
                        if items.len() % 2 == 1 {
                            ReadStep {
                                out: ReadOutcome::Fail(
                                    SpecError {
                                        lo: i,
                                        hi: nx,
                                        msg: "odd number of items in a Map"@,
                                    },
                                ),
                                next: nx,
                            }
                        } else {
                            ReadStep {
                                out: ReadOutcome::Val(SpecValue::Mapping(build_map(items))),
                                next: nx,
                            }
                        }
                    }
                },
                ElemsOutcome::Fail(e, nx) => ReadStep { out: ReadOutcome::Fail(e), next: nx },
            }
        } else if c == '#' {
            if i + 1 < s.len() && s[i + 1 as int] == '{' {
                match spec_read_elems(
                    s,
                    i,
                    '#',
                    (i + 2) as nat,
                    (depth - 1) as nat,
                    Seq::empty(),
                ) {
                    ElemsOutcome::Done(items, nx) => ReadStep {
                        out: ReadOutcome::Val(SpecValue::SetOf(build_set(items))),
                        next: nx,
                    },
                    ElemsOutcome::Fail(e, nx) => ReadStep { out: ReadOutcome::Fail(e), next: nx },
                }
            } else if i + 1 < s.len() && symbol_head_char(s[i + 1 as int]) {
                let e = i + 1 + scan_len(s, (i + 1) as nat, tag_pred());
                let tag = s.subrange(i + 1 as int, e as int);
                let step = spec_read(s, e, (depth - 1) as nat);
                match step.out {
                    ReadOutcome::Eof => ReadStep {
                        out: ReadOutcome::Fail(
                            SpecError { lo: i + 1, hi: step.next, msg: "malformed tagged value"@ },
                        ),
                        next: step.next,
                    },
                    ReadOutcome::Val(v) => ReadStep {
                        out: ReadOutcome::Val(SpecValue::Tagged(tag, Box::new(v))),
                        next: step.next,
                    },
                    ReadOutcome::Fail(err) => ReadStep {
                        out: ReadOutcome::Fail(err),
                        next: step.next,
                    },
                }
            } else {
                ReadStep {
                    out: ReadOutcome::Fail(
                        SpecError { lo: i, hi: i + 1, msg: "unrecognized token"@ },
                    ),
                    next: i + 1,
                }
            }
        } else if symbol_head_char(c) {
            spec_read_symbol(s, i)
        } else {
            ReadStep {
                out: ReadOutcome::Fail(SpecError { lo: i, hi: i + 1, msg: "unrecognized token"@ }),
                next: i + 1,
            }
        }
    }
}

/// The spec-level collection of container elements: reading forms from
/// `pos` until the closer of `open` (where `#` stands for the set opener
/// `#{`, whose closer is `}`), at element depth `depth`, with `acc` the
/// elements already read. `open_pos` is where the opener stood, for the
/// span of the `unclosed` error.
pub open spec fn spec_read_elems(
    s: Seq<char>,
    open_pos: nat,
    open: char,
    pos: nat,
    depth: nat,
    acc: Seq<SpecValue>,
) -> ElemsOutcome
    decreases depth, s.len() - pos, 1int,
{
    let i = pos + scan_len(s, pos, sep_pred());
    if i >= s.len() {
        ElemsOutcome::Fail(
            SpecError { lo: open_pos, hi: s.len(), msg: unclosed_msg(open) },
            s.len(),
        )
    } else if s[i as int] == close_for(open) {
        ElemsOutcome::Done(acc, i + 1)
    } else {
        let step = spec_read(s, i, depth);
        match step.out {
            ReadOutcome::Val(v) => {
                if step.next <= i || step.next > s.len() {
                    // Cannot occur -- a read that yields a value always moves
                    // the cursor -- but keeps the recursion well founded.
                    ElemsOutcome::Fail(
                        SpecError { lo: open_pos, hi: s.len(), msg: unclosed_msg(open) },
                        s.len(),
                    )
                } else {
                    spec_read_elems(s, open_pos, open, step.next, depth, acc.push(v))
                }
            },
            ReadOutcome::Fail(e) => ElemsOutcome::Fail(e, step.next),
            ReadOutcome::Eof => ElemsOutcome::Fail(
                SpecError { lo: open_pos, hi: s.len(), msg: unclosed_msg(open) },
                s.len(),
            ),
        }
    }
}

/// A scan stops exactly at the end of the input or at the first character
/// out of its class, and every character it passed over is in the class.
pub proof fn lemma_scan_len(s: Seq<char>, i: nat, p: spec_fn(char) -> bool)
    requires
        i <= s.len(),
    ensures
        i + scan_len(s, i, p) <= s.len(),
        forall|j: int| i <= j < i + scan_len(s, i, p) ==> p(s[j]),
        i + scan_len(s, i, p) < s.len() ==> !p(s[(i + scan_len(s, i, p)) as int]),
    decreases s.len() - i,
{
    if i < s.len() && p(s[i as int]) {
        lemma_scan_len(s, i + 1, p);
    }
}

/// A run of digits has a nonnegative value.
pub proof fn lemma_digits_val_nonneg(d: Seq<char>)
    requires
        forall|j: int| 0 <= j < d.len() ==> is_digit(d[j]),
    ensures
        digits_val(d) >= 0,
    decreases d.len(),
{
    if d.len() > 0 {
        lemma_digits_val_nonneg(d.subrange(0, d.len() - 1));
    }
}

/// If the first `k` characters of `d` are `0` and the next one is not,
/// stripping leading zeros drops exactly those `k` characters.
proof fn lemma_strip_leading_zeros_at(d: Seq<char>, k: int)
    requires
        0 <= k <= d.len(),
        forall|j: int| 0 <= j < k ==> d[j] == '0',
        k == d.len() || d[k] != '0',
    ensures
        strip_leading_zeros(d) == d.skip(k),
    decreases k,
{
    if k == 0 {
        assert(d.skip(0) =~= d);
    } else {
        lemma_strip_leading_zeros_at(d.skip(1), k - 1);
        assert(d.skip(1).skip(k - 1) =~= d.skip(k));
    }
}

/// If the characters of `d` from `k` on are `0` and the one before `k` is
/// not, stripping trailing zeros keeps exactly the first `k` characters.
proof fn lemma_strip_trailing_zeros_at(d: Seq<char>, k: int)
    requires
        0 <= k <= d.len(),
        forall|j: int| k <= j < d.len() ==> d[j] == '0',
        k == 0 || d[k - 1] != '0',
    ensures
        strip_trailing_zeros(d) == d.subrange(0, k),
    decreases d.len(),
{
    if k == d.len() {
        assert(d.subrange(0, k) =~= d);
    } else {
        lemma_strip_trailing_zeros_at(d.subrange(0, d.len() - 1), k);
    }
}

/// Reading a string body always yields a value or an error, never
/// end-of-input.
proof fn lemma_string_body_not_eof(s: Seq<char>, i: nat, start: nat, acc: Seq<char>)
    ensures
        !(spec_read_string_body(s, i, start, acc).out is Eof),
    decreases s.len() - i,
{
    if i < s.len() && s[i as int] != '"' {
        if s[i as int] == '\\' {
            if i + 1 < s.len() {
                let e = s[i + 1 as int];
                if e == 't' {
                    lemma_string_body_not_eof(s, i + 2, start, acc.push('\t'));
                } else if e == 'r' {
                    lemma_string_body_not_eof(s, i + 2, start, acc.push('\r'));
                } else if e == 'n' {
                    lemma_string_body_not_eof(s, i + 2, start, acc.push('\n'));
                } else if e == '\\' {
                    lemma_string_body_not_eof(s, i + 2, start, acc.push('\\'));
                } else if e == '"' {
                    lemma_string_body_not_eof(s, i + 2, start, acc.push('"'));
                }
            }
        } else {
            lemma_string_body_not_eof(s, i + 1, start, acc.push(s[i as int]));
        }
    }
}

/// A parse error: a half-open span `[lo, hi)` of character offsets into the
/// input, and a human-readable message.
#[derive(Debug, Clone, PartialEq)]
pub struct Error {
    pub lo: usize,
    pub hi: usize,
    pub message: String,
}

/// Whether the exec result `r` is the one that the spec-level step `step`
/// calls for, with the cursor left at `newpos`.
pub open spec fn step_matches(step: ReadStep, newpos: nat, r: Result<Value, Error>) -> bool {
    newpos == step.next && match step.out {
        ReadOutcome::Eof => false,
        ReadOutcome::Val(sv) => r matches Ok(v) && v@ == sv,
        ReadOutcome::Fail(f) => r matches Err(e) && e.lo as nat == f.lo && e.hi as nat == f.hi
            && e.message@ == f.msg,
    }
}

/// Whether the exec result `r` of one read on `s` at `pos` with nesting
/// budget `depth` is what [`spec_read`] calls for, with the cursor left at
/// `newpos`.
pub open spec fn matches_step(
    s: Seq<char>,
    pos: nat,
    depth: nat,
    newpos: nat,
    r: Option<Result<Value, Error>>,
) -> bool {
    let step = spec_read(s, pos, depth);
    match r {
        None => step.out is Eof && newpos == step.next,
        Some(res) => step_matches(step, newpos, res),
    }
}

/// Whether `c` is whitespace (the Unicode `White_Space` set).
pub fn is_whitespace_char(c: char) -> (b: bool)
    ensures
        b == is_ws(c),
{
    c == '\u{9}' || c == '\u{a}' || c == '\u{b}' || c == '\u{c}' || c == '\u{d}' || c == ' '
        || c == '\u{85}' || c == '\u{a0}' || c == '\u{1680}' || ('\u{2000}' <= c && c
        <= '\u{200a}') || c == '\u{2028}' || c == '\u{2029}' || c == '\u{202f}' || c == '\u{205f}'
        || c == '\u{3000}'
}

/// Whether `c` separates forms: whitespace or a comma.
fn is_sep_char(c: char) -> (b: bool)
    ensures
        b == is_sep(c),
{
    is_whitespace_char(c) || c == ','
}

/// Whether `c` is a decimal digit.
fn is_digit_char(c: char) -> (b: bool)
    ensures
        b == is_digit(c),
{
    '0' <= c && c <= '9'
}

/// Whether `c` can begin a symbol.
pub fn is_symbol_head(c: char) -> (b: bool)
    ensures
        b == symbol_head_char(c),
{
    ('a' <= c && c <= 'z') || ('A' <= c && c <= 'Z') || c == '.' || c == '*' || c == '+' || c
        == '!' || c == '-' || c == '_' || c == '?' || c == '$' || c == '%' || c == '&' || c == '='
        || c == '<' || c == '>' || c == ':'
}

/// Whether `c` can continue a symbol.
pub fn is_symbol_tail(c: char) -> (b: bool)
    ensures
        b == symbol_tail_char(c),
{
    is_symbol_head(c) || is_digit_char(c) || c == ':' || c == '#'
}

/// Whether `c` can continue a tag name.
fn is_tag_char(c: char) -> (b: bool)
    ensures
        b == tag_char(c),
{
    is_symbol_head(c) || c == '/'
}

/// The characters of `s`, in order.
fn str_to_chars(s: &str) -> (v: Vec<char>)
    ensures
        v@ == s@,
{
    let n = s.unicode_len();
    let mut v: Vec<char> = Vec::new();
    let mut j: usize = 0;
    while j < n
        invariant
            j <= n,
            n == s@.len(),
            v@ == s@.subrange(0, j as int),
        decreases n - j,
    {
        v.push(s.get_char(j));
        proof {
            assert(s@.subrange(0, j + 1 as int) =~= s@.subrange(0, j as int).push(s@[j as int]));
        }
        j = j + 1;
    }
    proof {
        assert(s@.subrange(0, n as int) =~= s@);
    }
    v
}

/// The characters `[lo, hi)` of `chars`, as a string.
fn range_to_string(chars: &Vec<char>, lo: usize, hi: usize) -> (r: String)
    requires
        lo <= hi <= chars@.len(),
    ensures
        r@ == chars@.subrange(lo as int, hi as int),
{
    let mut v: Vec<char> = Vec::new();
    let mut j: usize = lo;
    while j < hi
        invariant
            lo <= j <= hi <= chars@.len(),
            v@ == chars@.subrange(lo as int, j as int),
        decreases hi - j,
    {
        v.push(chars[j]);
        proof {
            assert(chars@.subrange(lo as int, j + 1 as int) =~= chars@.subrange(
                lo as int,
                j as int,
            ).push(chars@[j as int]));
        }
        j = j + 1;
    }
    chars_to_string(&v)
}

/// Whether the characters `[lo, hi)` of `chars` are exactly `lit`.
fn range_matches(chars: &Vec<char>, lo: usize, hi: usize, lit: &str) -> (b: bool)
    requires
        lo <= hi <= chars@.len(),
    ensures
        b == (chars@.subrange(lo as int, hi as int) == lit@),
{
    let n = lit.unicode_len();
    if n != hi - lo {
        proof {
            assert(chars@.subrange(lo as int, hi as int).len() == hi - lo);
        }
        return false;
    }
    let mut j: usize = 0;
    while j < n
        invariant
            j <= n,
            n == lit@.len(),
            n == hi - lo,
            lo <= hi <= chars@.len(),
            forall|k: int| 0 <= k < j ==> chars@.subrange(lo as int, hi as int)[k] == lit@[k],
        decreases n - j,
    {
        if chars[lo + j] != lit.get_char(j) {
            proof {
                assert(chars@.subrange(lo as int, hi as int)[j as int] != lit@[j as int]);
            }
            return false;
        }
        j = j + 1;
    }
    proof {
        assert(chars@.subrange(lo as int, hi as int) =~= lit@);
    }
    true
}

/// Whether `c` is of the character class that `kind` consumes.
fn class_matches(kind: ScanKind, c: char) -> (b: bool)
    ensures
        b == (kind.pred())(c),
{
    match kind {
        ScanKind::Separator => is_sep_char(c),
        ScanKind::Digit => is_digit_char(c),
        ScanKind::SymbolTail => is_symbol_tail(c),
        ScanKind::NotWhitespace => !is_whitespace_char(c),
        ScanKind::Tag => is_tag_char(c),
    }
}

/// Which class of characters [`Parser::advance_while`] consumes.
#[derive(Clone, Copy)]
enum ScanKind {
    Separator,
    Digit,
    SymbolTail,
    NotWhitespace,
    Tag,
}

impl ScanKind {
    /// The character class that this scan kind consumes.
    spec fn pred(self) -> spec_fn(char) -> bool {
        match self {
            ScanKind::Separator => sep_pred(),
            ScanKind::Digit => digit_pred(),
            ScanKind::SymbolTail => symbol_tail_pred(),
            ScanKind::NotWhitespace => not_ws_pred(),
            ScanKind::Tag => tag_pred(),
        }
    }
}

/// Inserts `v` into the sorted element vector `elems`, deduplicating by
/// the canonical total order.
fn set_insert_exec(elems: &mut Vec<Value>, v: Value)
    ensures
        crate::deep_of_seq(final(elems)@) == set_insert(crate::deep_of_seq(old(elems)@), v@),
{
    proof {
        crate::lemma_deep_of_seq(old(elems)@);
    }
    let ghost d = crate::deep_of_seq(elems@);
    let mut i: usize = 0;
    loop
        invariant
            elems@ == old(elems)@,
            d == crate::deep_of_seq(old(elems)@),
            d.len() == elems@.len(),
            forall|j: int| 0 <= j < elems@.len() ==> d[j] == elems@[j].deep(),
            i <= elems@.len(),
            set_insert_from(d, v@, 0) == set_insert_from(d, v@, i as nat),
        decreases elems@.len() - i,
    {
        if i >= elems.len() {
            elems.push(v);
            proof {
                assert(elems@.subrange(0, elems@.len() - 1) =~= old(elems)@);
                assert(crate::deep_of_seq(elems@) =~= d.push(v@));
            }
            return ;
        }
        let c = v.compare(&elems[i]);
        if matches!(c, Ordering::Equal) {
            return ;
        }
        if matches!(c, Ordering::Less) {
            elems.insert(i, v);
            proof {
                crate::lemma_deep_of_seq(elems@);
                assert forall|j: int| 0 <= j < elems@.len() implies crate::deep_of_seq(elems@)[j]
                    == d.insert(i as int, v@)[j] by {
                    assert(crate::deep_of_seq(elems@)[j] == elems@[j].deep());
                }
                assert(crate::deep_of_seq(elems@) =~= d.insert(i as int, v@));
            }
            return ;
        }
        i = i + 1;
    }
}

/// Inserts the pair `(k, v)` into the sorted entry vector `entries`,
/// overwriting the value of an equal key.
fn map_insert_exec(entries: &mut Vec<(Value, Value)>, k: Value, v: Value)
    ensures
        crate::deep_of_pairs(final(entries)@) == map_insert(
            crate::deep_of_pairs(old(entries)@),
            k@,
            v@,
        ),
{
    proof {
        crate::lemma_deep_of_pairs(old(entries)@);
    }
    let ghost d = crate::deep_of_pairs(entries@);
    let mut i: usize = 0;
    loop
        invariant
            entries@ == old(entries)@,
            d == crate::deep_of_pairs(old(entries)@),
            d.len() == entries@.len(),
            forall|j: int|
                0 <= j < entries@.len() ==> d[j] == (entries@[j].0.deep(), entries@[j].1.deep()),
            i <= entries@.len(),
            map_insert_from(d, k@, v@, 0) == map_insert_from(d, k@, v@, i as nat),
        decreases entries@.len() - i,
    {
        if i >= entries.len() {
            entries.push((k, v));
            proof {
                assert(entries@.subrange(0, entries@.len() - 1) =~= old(entries)@);
                assert(crate::deep_of_pairs(entries@) =~= d.push((k@, v@)));
            }
            return ;
        }
        let c = k.compare(&entries[i].0);
        if matches!(c, Ordering::Equal) {
            let _ = entries.remove(i);
            entries.insert(i, (k, v));
            proof {
                crate::lemma_deep_of_pairs(entries@);
                assert forall|j: int|
                    0 <= j < entries@.len() implies crate::deep_of_pairs(entries@)[j] == d.update(
                    i as int,
                    (k@, v@),
                )[j] by {
                    assert(crate::deep_of_pairs(entries@)[j] == (
                        entries@[j].0.deep(),
                        entries@[j].1.deep(),
                    ));
                    if j != i {
                        assert(entries@[j] == old(entries)@[j]);
                    }
                }
                assert(crate::deep_of_pairs(entries@) =~= d.update(i as int, (k@, v@)));
            }
            return ;
        }
        if matches!(c, Ordering::Less) {
            entries.insert(i, (k, v));
            proof {
                crate::lemma_deep_of_pairs(entries@);
                assert forall|j: int|
                    0 <= j < entries@.len() implies crate::deep_of_pairs(entries@)[j] == d.insert(
                    i as int,
                    (k@, v@),
                )[j] by {
                    assert(crate::deep_of_pairs(entries@)[j] == (
                        entries@[j].0.deep(),
                        entries@[j].1.deep(),
                    ));
                }
                assert(crate::deep_of_pairs(entries@) =~= d.insert(i as int, (k@, v@)));
            }
            return ;
        }
        i = i + 1;
    }
}

/// Builds the canonical element vector of a set literal from its elements
/// in reading order.
#[verifier::loop_isolation(false)]
fn build_set_exec(items: Vec<Value>) -> (r: Vec<Value>)
    ensures
        crate::deep_of_seq(r@) == build_set(crate::deep_of_seq(items@)),
{
    proof {
        crate::lemma_deep_of_seq(items@);
    }
    let ghost all = crate::deep_of_seq(items@);
    let mut rest = items;
    let mut elems: Vec<Value> = Vec::new();
    let ghost mut j: int = 0;
    loop
        invariant
            0 <= j <= all.len(),
            j + rest@.len() == all.len(),
            crate::deep_of_seq(rest@) == all.skip(j),
            crate::deep_of_seq(elems@) == build_set(all.take(j)),
        decreases rest@.len(),
    {
        if rest.len() == 0 {
            proof {
                assert(all.take(j) =~= all);
            }
            return elems;
        }
        let ghost rest0 = rest@;
        proof {
            crate::lemma_deep_of_seq(rest0);
        }
        let x = rest.remove(0);
        proof {
            assert(x.deep() == crate::deep_of_seq(rest0)[0]);
            assert(x.deep() == all.skip(j)[0]);
            assert(x.deep() == all[j]);
            rest0.remove_ensures(0);
            crate::lemma_deep_of_seq(rest@);
            assert forall|t: int| 0 <= t < rest@.len() implies crate::deep_of_seq(rest@)[t]
                == all.skip(j + 1)[t] by {
                assert(rest@[t] == rest0[t + 1]);
                assert(crate::deep_of_seq(rest0)[t + 1] == rest0[t + 1].deep());
                assert(all.skip(j)[t + 1] == all[j + 1 + t]);
            }
            assert(crate::deep_of_seq(rest@) =~= all.skip(j + 1));
        }
        set_insert_exec(&mut elems, x);
        proof {
            assert(all.take(j + 1).subrange(0, j) =~= all.take(j));
            assert(build_set(all.take(j + 1)) == set_insert(build_set(all.take(j)), all[j]));
            j = j + 1;
        }
    }
}

/// Builds the canonical entry vector of a map literal from its items in
/// reading order, taken two at a time as key-value pairs.
#[verifier::loop_isolation(false)]
fn build_map_exec(items: Vec<Value>) -> (r: Vec<(Value, Value)>)
    requires
        items@.len() % 2 == 0,
    ensures
        crate::deep_of_pairs(r@) == build_map(crate::deep_of_seq(items@)),
{
    proof {
        crate::lemma_deep_of_seq(items@);
    }
    let ghost all = crate::deep_of_seq(items@);
    let mut rest = items;
    let mut entries: Vec<(Value, Value)> = Vec::new();
    let ghost mut j: int = 0;
    loop
        invariant
            0 <= j <= all.len(),
            j % 2 == 0,
            all.len() % 2 == 0,
            j + rest@.len() == all.len(),
            crate::deep_of_seq(rest@) == all.skip(j),
            crate::deep_of_pairs(entries@) == build_map(all.take(j)),
        decreases rest@.len(),
    {
        if rest.len() == 0 {
            proof {
                assert(all.take(j) =~= all);
            }
            return entries;
        }
        let ghost rest0 = rest@;
        proof {
            crate::lemma_deep_of_seq(rest0);
        }
        let k = rest.remove(0);
        proof {
            assert(k.deep() == crate::deep_of_seq(rest0)[0]);
            assert(k.deep() == all.skip(j)[0]);
            assert(k.deep() == all[j]);
            rest0.remove_ensures(0);
            crate::lemma_deep_of_seq(rest@);
            assert forall|t: int| 0 <= t < rest@.len() implies crate::deep_of_seq(rest@)[t]
                == all.skip(j + 1)[t] by {
                assert(rest@[t] == rest0[t + 1]);
                assert(crate::deep_of_seq(rest0)[t + 1] == rest0[t + 1].deep());
                assert(all.skip(j)[t + 1] == all[j + 1 + t]);
            }
            assert(crate::deep_of_seq(rest@) =~= all.skip(j + 1));
        }
        let ghost rest1 = rest@;
        let v = rest.remove(0);
        proof {
            crate::lemma_deep_of_seq(rest1);
            assert(v.deep() == crate::deep_of_seq(rest1)[0]);
            assert(v.deep() == all.skip(j + 1)[0]);
            assert(v.deep() == all[j + 1]);
            rest1.remove_ensures(0);
            crate::lemma_deep_of_seq(rest@);
            assert forall|t: int| 0 <= t < rest@.len() implies crate::deep_of_seq(rest@)[t]
                == all.skip(j + 2)[t] by {
                assert(rest@[t] == rest1[t + 1]);
                assert(crate::deep_of_seq(rest1)[t + 1] == rest1[t + 1].deep());
                assert(all.skip(j + 1)[t + 1] == all[j + 1 + t + 1]);
                assert(all.skip(j + 2)[t] == all[j + 2 + t]);
            }
            assert(crate::deep_of_seq(rest@) =~= all.skip(j + 2));
        }
        map_insert_exec(&mut entries, k, v);
        proof {
            assert(all.take(j + 2).subrange(0, j) =~= all.take(j));
            assert(build_map(all.take(j + 2)) == map_insert(
                build_map(all.take(j)),
                all[j],
                all[j + 1],
            ));
            j = j + 2;
        }
    }
}

/// A `Value::Char` node for `c`.
fn char_value(c: char) -> (v: Value)
    ensures
        v@ == SpecValue::Char(c),
{
    Value::Char(c)
}

/// The canonical decimal literal with sign `neg`, whole digits
/// `[d_start, w_end)` of `chars` and fraction digits `[f_start, f_end)`.
fn make_float_lit(
    chars: &Vec<char>,
    neg: bool,
    d_start: usize,
    w_end: usize,
    f_start: usize,
    f_end: usize,
) -> (lit: crate::FloatLit)
    requires
        d_start <= w_end <= chars@.len(),
        f_start <= f_end <= chars@.len(),
    ensures
        lit.negative == neg,
        lit.whole@ == canon_whole(chars@.subrange(d_start as int, w_end as int)),
        lit.frac@ == strip_trailing_zeros(chars@.subrange(f_start as int, f_end as int)),
{
    let ghost wdigits = chars@.subrange(d_start as int, w_end as int);
    let mut k: usize = d_start;
    while k < w_end && chars[k] == '0'
        invariant
            d_start <= k <= w_end <= chars@.len(),
            forall|j: int| d_start <= j < k ==> chars@[j] == '0',
        decreases w_end - k,
    {
        k = k + 1;
    }
    proof {
        lemma_strip_leading_zeros_at(wdigits, k - d_start);
        assert(wdigits.skip(k - d_start) =~= chars@.subrange(k as int, w_end as int));
    }
    let whole = if k == w_end {
        let z = "0".to_owned();
        proof {
            reveal_strlit("0");
            assert(z@ =~= seq!['0']);
        }
        z
    } else {
        range_to_string(chars, k, w_end)
    };
    let ghost fdigits = chars@.subrange(f_start as int, f_end as int);
    let mut t: usize = f_end;
    while t > f_start && chars[t - 1] == '0'
        invariant
            f_start <= t <= f_end <= chars@.len(),
            forall|j: int| t <= j < f_end ==> chars@[j] == '0',
        decreases t,
    {
        t = t - 1;
    }
    proof {
        lemma_strip_trailing_zeros_at(fdigits, t - f_start);
        assert(fdigits.subrange(0, t - f_start) =~= chars@.subrange(f_start as int, t as int));
    }
    let frac = range_to_string(chars, f_start, t);
    crate::FloatLit { negative: neg, whole, frac }
}

/// A reader over one in-memory text, walked by code point. Each call of
/// [`Parser::read`] pulls the next form; the cursor only moves forward.
pub struct Parser {
    chars: Vec<char>,
    pos: usize,
}

impl Parser {
    /// The input text being read, as characters.
    pub closed spec fn input(&self) -> Seq<char> {
        self.chars@
    }

    /// The character offset the reader stands at.
    pub closed spec fn cursor(&self) -> nat {
        self.pos as nat
    }

    /// The cursor never stands past the end of the input.
    pub open spec fn wf(&self) -> bool {
        self.cursor() <= self.input().len()
    }

    /// A reader over `str`, standing at its start.
    pub fn new(str: &str) -> (p: Parser)
        ensures
            p.wf(),
            p.input() == str@,
            p.cursor() == 0,
    {
        Parser { chars: str_to_chars(str), pos: 0 }
    }

    /// The character under the cursor, if any, without moving.
    fn peek(&self) -> (r: Option<char>)
        requires
            self.wf(),
        ensures
            r == (if self.cursor() < self.input().len() {
                Some(self.input()[self.cursor() as int])
            } else {
                None::<char>
            }),
    {
        if self.pos < self.chars.len() {
            Some(self.chars[self.pos])
        } else {
            None
        }
    }

    /// Moves the cursor past every next character of the given class and
    /// returns where it came to rest: the offset of the first character
    /// that is not of the class, or the input's length.
    fn advance_while(&mut self, kind: ScanKind) -> (end: usize)
        requires
            old(self).wf(),
        ensures
            final(self).wf(),
            final(self).input() == old(self).input(),
            final(self).cursor() == old(self).cursor() + scan_len(
                old(self).input(),
                old(self).cursor(),
                kind.pred(),
            ),
            end as nat == final(self).cursor(),
    {
        let ghost s = self.input();
        let ghost pos0 = self.cursor();
        let ghost p = kind.pred();
        loop
            invariant
                self.wf(),
                s == old(self).input(),
                pos0 == old(self).cursor(),
                p == kind.pred(),
                self.input() == s,
                pos0 <= self.cursor(),
                scan_len(s, pos0, p) == self.cursor() - pos0 + scan_len(s, self.cursor(), p),
            decreases s.len() - self.cursor(),
        {
            let c = match self.peek() {
                Some(c) => c,
                None => {
                    proof {
                        assert(scan_len(s, self.cursor(), p) == 0);
                    }
                    return self.pos;
                },
            };
            proof {
                assert(self.cursor() < s.len());
                assert(self.pos < self.chars.len());
            }
            let go = class_matches(kind, c);
            if !go {
                proof {
                    assert(scan_len(s, self.cursor(), p) == 0);
                }
                return self.pos;
            }
            proof {
                assert(scan_len(s, self.cursor(), p) == 1 + scan_len(s, self.cursor() + 1, p));
            }
            self.pos = self.pos + 1;
        }
    }

    /// Reads a numeric literal. The cursor stands on the first digit, or on
    /// the `.` of a fraction-only float; `tok_start` is where the token
    /// (sign included) began and `neg` whether it carries a minus sign.
    fn read_number_at(&mut self, tok_start: usize, neg: bool) -> (r: Result<Value, Error>)
        requires
            old(self).wf(),
            tok_start <= old(self).cursor(),
            old(self).cursor() < old(self).input().len(),
            is_digit(old(self).input()[old(self).cursor() as int]) || (old(self).input()[old(
                self,
            ).cursor() as int] == '.' && old(self).cursor() + 1 < old(self).input().len()
                && is_digit(old(self).input()[old(self).cursor() as int + 1])),
        ensures
            final(self).wf(),
            final(self).input() == old(self).input(),
            step_matches(
                spec_read_number(old(self).input(), tok_start as nat, neg, old(self).cursor()),
                final(self).cursor(),
                r,
            ),
            final(self).cursor() > old(self).cursor(),
    {
        let ghost s = self.input();
        let d_start = self.pos;
        let w_end = self.advance_while(ScanKind::Digit);
        proof {
            lemma_scan_len(s, d_start as nat, digit_pred());
        }
        let dot = match self.peek() {
            Some(c) => c == '.',
            None => false,
        };
        if dot {
            proof {
                assert(self.cursor() < s.len());
                assert(self.pos < self.chars.len());
            }
            self.pos = self.pos + 1;
            let f_end = self.advance_while(ScanKind::Digit);
            proof {
                lemma_scan_len(s, (w_end + 1) as nat, digit_pred());
            }
            let lit = make_float_lit(&self.chars, neg, d_start, w_end, w_end + 1, f_end);
            Ok(Value::Float(lit))
        } else {
            let ghost wdigits = s.subrange(d_start as int, w_end as int);
            proof {
                assert forall|t: int| 0 <= t < wdigits.len() implies is_digit(wdigits[t]) by {
                    assert(wdigits[t] == s[d_start + t]);
                    assert((digit_pred())(s[d_start + t]));
                }
            }
            let bound: u64 = if neg {
                9223372036854775808
            } else {
                9223372036854775807
            };
            let mut acc: u64 = 0;
            let mut over = false;
            let mut j = d_start;
            while j < w_end
                invariant
                    s == old(self).input(),
                    self.input() == s,
                    self.wf(),
                    d_start <= j <= w_end <= s.len(),
                    wdigits == s.subrange(d_start as int, w_end as int),
                    forall|t: int| 0 <= t < wdigits.len() ==> is_digit(wdigits[t]),
                    bound == if neg {
                        9223372036854775808u64
                    } else {
                        9223372036854775807u64
                    },
                    !over ==> acc as int == digits_val(s.subrange(d_start as int, j as int))
                        && acc <= bound,
                    over ==> digits_val(s.subrange(d_start as int, j as int)) > bound,
                decreases w_end - j,
            {
                let c = self.chars[j];
                proof {
                    assert(c == wdigits[j - d_start]);
                    assert(is_digit(c));
                    assert(s.subrange(d_start as int, j + 1 as int).subrange(0, j - d_start)
                        =~= s.subrange(d_start as int, j as int));
                    assert(digits_val(s.subrange(d_start as int, j + 1 as int)) == digits_val(
                        s.subrange(d_start as int, j as int),
                    ) * 10 + digit_val(s[j as int]));
                    lemma_digits_val_nonneg(s.subrange(d_start as int, j as int));
                }
                let d = (c as u32 - 48) as u64;
                if !over {
                    let wide = (acc as u128) * 10 + (d as u128);
                    if wide > (bound as u128) {
                        over = true;
                    } else {
                        acc = wide as u64;
                    }
                }
                j = j + 1;
            }
            if over {
                Err(
                    Error {
                        lo: tok_start,
                        hi: w_end,
                        message: "integer literal out of range".to_owned(),
                    },
                )
            } else if neg {
                if acc == 9223372036854775808u64 {
                    Ok(Value::Integer(i64::MIN))
                } else {
                    Ok(Value::Integer(-(acc as i64)))
                }
            } else {
                Ok(Value::Integer(acc as i64))
            }
        }
    }

    /// Reads a character literal; the cursor stands on its `\`.
    fn read_char_lit_at(&mut self) -> (r: Result<Value, Error>)
        requires
            old(self).wf(),
            old(self).cursor() < old(self).input().len(),
        ensures
            final(self).wf(),
            final(self).input() == old(self).input(),
            step_matches(
                spec_read_char_lit(old(self).input(), old(self).cursor()),
                final(self).cursor(),
                r,
            ),
            final(self).cursor() > old(self).cursor(),
    {
        let ghost s = self.input();
        let i = self.pos;
        proof {
            assert(self.pos < self.chars.len());
        }
        self.pos = i + 1;
        let e = self.advance_while(ScanKind::NotWhitespace);
        let ghost name = s.subrange(i + 1 as int, e as int);
        if range_matches(&self.chars, i + 1, e, "newline") {
            Ok(char_value('\n'))
        } else if range_matches(&self.chars, i + 1, e, "return") {
            Ok(char_value('\r'))
        } else if range_matches(&self.chars, i + 1, e, "space") {
            Ok(char_value(' '))
        } else if range_matches(&self.chars, i + 1, e, "tab") {
            Ok(char_value('\t'))
        } else if e - (i + 1) == 1 {
            proof {
                assert(name[0] == s[i + 1 as int]);
            }
            Ok(char_value(self.chars[i + 1]))
        } else {
            let mut m = "invalid char literal `\\".to_owned();
            let text = range_to_string(&self.chars, i + 1, e);
            m.append(text.as_str());
            m.append("`");
            Err(Error { lo: i, hi: e, message: m })
        }
    }

    /// Reads a string literal; the cursor stands on its opening quote.
    fn read_string_at(&mut self) -> (r: Result<Value, Error>)
        requires
            old(self).wf(),
            old(self).cursor() < old(self).input().len(),
        ensures
            final(self).wf(),
            final(self).input() == old(self).input(),
            step_matches(
                spec_read_string_body(
                    old(self).input(),
                    old(self).cursor() + 1,
                    old(self).cursor(),
                    Seq::empty(),
                ),
                final(self).cursor(),
                r,
            ),
            final(self).cursor() > old(self).cursor(),
    {
        let ghost s = self.input();
        let start = self.pos;
        proof {
            assert(self.pos < self.chars.len());
        }
        self.pos = start + 1;
        let mut buf: Vec<char> = Vec::new();
        loop
            invariant
                self.wf(),
                s == old(self).input(),
                self.input() == s,
                start == old(self).cursor(),
                start < self.cursor(),
                spec_read_string_body(s, (start + 1) as nat, start as nat, Seq::empty())
                    == spec_read_string_body(s, self.cursor(), start as nat, buf@),
            decreases s.len() - self.cursor(),
        {
            if self.pos >= self.chars.len() {
                proof {
                    assert(self.cursor() >= s.len());
                    assert(self.cursor() == s.len());
                }
                let mut m = "expected closing `\"`, found EOF".to_owned();
                return Err(Error { lo: start, hi: self.pos, message: m });
            }
            let c = self.chars[self.pos];
            if c == '"' {
                self.pos = self.pos + 1;
                return Ok(Value::String(chars_to_string(&buf)));
            } else if c == '\\' {
                if self.pos + 1 >= self.chars.len() {
                    let hi = self.chars.len();
                    self.pos = hi;
                    let m = "expected closing `\"`, found EOF".to_owned();
                    return Err(Error { lo: start, hi, message: m });
                }
                let e = self.chars[self.pos + 1];
                if e == 't' {
                    buf.push('\t');
                } else if e == 'r' {
                    buf.push('\r');
                } else if e == 'n' {
                    buf.push('\n');
                } else if e == '\\' {
                    buf.push('\\');
                } else if e == '"' {
                    buf.push('"');
                } else {
                    let lo = self.pos;
                    self.pos = self.pos + 2;
                    let mut m = "invalid string escape `\\".to_owned();
                    let mut one: Vec<char> = Vec::new();
                    one.push(e);
                    proof {
                        assert(one@ =~= seq![e]);
                    }
                    let text = chars_to_string(&one);
                    m.append(text.as_str());
                    m.append("`");
                    return Err(Error { lo, hi: lo + 2, message: m });
                }
                self.pos = self.pos + 2;
            } else {
                buf.push(c);
                self.pos = self.pos + 1;
            }
        }
    }

    /// Reads a symbol, or the literal `true`, `false` or `nil`; the cursor
    /// stands on the symbol's first character.
    fn read_symbol_at(&mut self) -> (r: Result<Value, Error>)
        requires
            old(self).wf(),
            old(self).cursor() < old(self).input().len(),
        ensures
            final(self).wf(),
            final(self).input() == old(self).input(),
            step_matches(
                spec_read_symbol(old(self).input(), old(self).cursor()),
                final(self).cursor(),
                r,
            ),
            final(self).cursor() > old(self).cursor(),
    {
        let ghost s = self.input();
        let i = self.pos;
        proof {
            assert(self.pos < self.chars.len());
        }
        self.pos = i + 1;
        let e = self.advance_while(ScanKind::SymbolTail);
        if range_matches(&self.chars, i, e, "true") {
            Ok(Value::Boolean(true))
        } else if range_matches(&self.chars, i, e, "false") {
            Ok(Value::Boolean(false))
        } else if range_matches(&self.chars, i, e, "nil") {
            Ok(Value::Nil)
        } else {
            Ok(Value::Symbol(range_to_string(&self.chars, i, e)))
        }
    }

    /// Reads a keyword; the cursor stands on its `:`.
    fn read_keyword_at(&mut self) -> (r: Result<Value, Error>)
        requires
            old(self).wf(),
            old(self).cursor() < old(self).input().len(),
        ensures
            final(self).wf(),
            final(self).input() == old(self).input(),
            ({
                let e = old(self).cursor() + 1 + scan_len(
                    old(self).input(),
                    (old(self).cursor() + 1) as nat,
                    symbol_tail_pred(),
                );
                &&& final(self).cursor() == e
                &&& r matches Ok(v) && v@ == SpecValue::Keyword(
                    old(self).input().subrange(old(self).cursor() + 1 as int, e as int),
                )
            }),
            final(self).cursor() > old(self).cursor(),
    {
        let ghost s = self.input();
        let i = self.pos;
        proof {
            assert(self.pos < self.chars.len());
        }
        self.pos = i + 1;
        let e = self.advance_while(ScanKind::SymbolTail);
        Ok(Value::Keyword(range_to_string(&self.chars, i + 1, e)))
    }

    /// Collects the elements of a container until the closer of `open`
    /// (where `#` stands for the set opener `#{`). The opener stood at
    /// `open_pos`; the cursor stands just past it, and every element is read
    /// with `depth` levels of nesting still allowed.
    fn read_elems_exec(&mut self, depth: usize, open_pos: usize, open: char) -> (r: Result<
        Vec<Value>,
        Error,
    >)
        requires
            old(self).wf(),
        ensures
            final(self).wf(),
            final(self).input() == old(self).input(),
            ({
                let res = spec_read_elems(
                    old(self).input(),
                    open_pos as nat,
                    open,
                    old(self).cursor(),
                    depth as nat,
                    Seq::empty(),
                );
                match r {
                    Ok(items) => res matches ElemsOutcome::Done(its, nx) && crate::deep_of_seq(
                        items@,
                    ) == its && final(self).cursor() == nx,
                    Err(e) => res matches ElemsOutcome::Fail(f, nx) && e.lo as nat == f.lo
                        && e.hi as nat == f.hi && e.message@ == f.msg && final(self).cursor() == nx,
                }
            }),
            final(self).cursor() > old(self).cursor() || r is Err,
        decreases depth, 1int,
    {
        let ghost s = self.input();
        let ghost pos_in = self.cursor();
        let mut items: Vec<Value> = Vec::new();
        loop
            invariant
                self.wf(),
                s == old(self).input(),
                self.input() == s,
                pos_in == old(self).cursor(),
                pos_in <= self.cursor(),
                self.cursor() <= s.len(),
                spec_read_elems(s, open_pos as nat, open, pos_in, depth as nat, Seq::empty())
                    == spec_read_elems(
                    s,
                    open_pos as nat,
                    open,
                    self.cursor(),
                    depth as nat,
                    crate::deep_of_seq(items@),
                ),
            decreases s.len() - self.cursor(),
        {
            let ghost pre = self.cursor();
            self.advance_while(ScanKind::Separator);
            let ghost iq = self.cursor();
            proof {
                lemma_scan_len(s, pre, sep_pred());
            }
            let cq = match self.peek() {
                Some(cq) => cq,
                None => {
                    proof {
                        assert(self.cursor() == s.len());
                    }
                    let m = if open == '(' {
                        "unclosed `(`".to_owned()
                    } else if open == '[' {
                        "unclosed `[`".to_owned()
                    } else if open == '{' {
                        "unclosed `{`".to_owned()
                    } else {
                        "unclosed `#{`".to_owned()
                    };
                    return Err(Error { lo: open_pos, hi: self.pos, message: m });
                },
            };
            let close = if open == '(' {
                ')'
            } else if open == '[' {
                ']'
            } else {
                '}'
            };
            if cq == close {
                proof {
                    assert(self.pos < self.chars.len());
                }
                self.pos = self.pos + 1;
                return Ok(items);
            }
            let sub = self.read_form(depth);
            match sub {
                Some(Ok(v)) => {
                    let ghost prev = items@;
                    items.push(v);
                    proof {
                        assert(items@.subrange(0, prev.len() as int) =~= prev);
                        assert(crate::deep_of_seq(items@) == crate::deep_of_seq(prev).push(v@));
                    }
                },
                Some(Err(e)) => {
                    return Err(e);
                },
                None => {
                    // Cannot occur: a non-separator character stands under
                    // the cursor, so the nested read cannot hit end-of-input.
                    proof {
                        assert(iq < s.len());
                        assert(!is_sep(s[iq as int]));
                        assert(scan_len(s, iq, sep_pred()) == 0);
                        assert(spec_read(s, iq, depth as nat).out is Eof);
                        lemma_string_body_not_eof(s, iq + 1, iq, Seq::empty());
                        assert(!(spec_read(s, iq, depth as nat).out is Eof));
                        assert(false);
                    }
                    return Err(Error { lo: open_pos, hi: self.pos, message: String::new() });
                },
            }
        }
    }

    /// Reads one form with `depth` levels of nesting still allowed.
    fn read_form(&mut self, depth: usize) -> (r: Option<Result<Value, Error>>)
        requires
            old(self).wf(),
        ensures
            final(self).wf(),
            final(self).input() == old(self).input(),
            matches_step(
                old(self).input(),
                old(self).cursor(),
                depth as nat,
                final(self).cursor(),
                r,
            ),
            r matches Some(Ok(_)) ==> final(self).cursor() > old(self).cursor(),
        decreases depth, 0int,
    {
        let ghost s = self.input();
        let ghost pos0 = self.cursor();
        self.advance_while(ScanKind::Separator);
        let ghost i_g = self.cursor();
        let c = match self.peek() {
            Some(c) => c,
            None => {
                proof {
                    assert(self.cursor() == s.len());
                }
                return None;
            },
        };
        let i = self.pos;
        proof {
            assert(self.pos < self.chars.len());
        }
        if depth == 0 {
            self.pos = i + 1;
            return Some(
                Err(
                    Error {
                        lo: i,
                        hi: i + 1,
                        message: "exceeded nesting depth limit".to_owned(),
                    },
                ),
            );
        }
        if is_digit_char(c) {
            return Some(self.read_number_at(i, false));
        }
        if c == '+' || c == '-' {
            if i + 1 < self.chars.len() {
                let f = self.chars[i + 1];
                if is_digit_char(f) {
                    self.pos = i + 1;
                    return Some(self.read_number_at(i, c == '-'));
                }
                if is_symbol_tail(f) {
                    return Some(self.read_symbol_at());
                }
                if is_sep_char(f) {
                    self.pos = i + 1;
                    let mut one: Vec<char> = Vec::new();
                    one.push(c);
                    proof {
                        assert(one@ =~= seq![c]);
                    }
                    return Some(Ok(Value::Symbol(chars_to_string(&one))));
                }
                self.pos = i + 2;
                return Some(
                    Err(Error { lo: i, hi: i + 2, message: "unrecognized token".to_owned() }),
                );
            } else {
                self.pos = i + 1;
                let mut one: Vec<char> = Vec::new();
                one.push(c);
                proof {
                    assert(one@ =~= seq![c]);
                }
                return Some(Ok(Value::Symbol(chars_to_string(&one))));
            }
        }
        if c == '.' {
            let dotted_digit = i + 1 < self.chars.len() && is_digit_char(self.chars[i + 1]);
            if dotted_digit {
                return Some(self.read_number_at(i, false));
            } else {
                return Some(self.read_symbol_at());
            }
        }
        if c == '\\' {
            return Some(self.read_char_lit_at());
        }
        if c == '"' {
            return Some(self.read_string_at());
        }
        if c == ':' {
            return Some(self.read_keyword_at());
        }
        if c == '(' || c == '[' || c == '{' {
            self.pos = i + 1;
            let sub = self.read_elems_exec(depth - 1, i, c);
            match sub {
                Ok(items) => {
                    proof {
                        crate::lemma_deep_of_seq(items@);
                    }
                    if c == '(' {
                        return Some(Ok(Value::List(items)));
                    } else if c == '[' {
                        return Some(Ok(Value::Vector(items)));
                    } else {
                        if items.len() % 2 == 1 {
                            return Some(
                                Err(
                                    Error {
                                        lo: i,
                                        hi: self.pos,
                                        message: "odd number of items in a Map".to_owned(),
                                    },
                                ),
                            );
                        } else {
                            let entries = build_map_exec(items);
                            return Some(Ok(Value::Mapping(entries)));
                        }
                    }
                },
                Err(e) => {
                    return Some(Err(e));
                },
            }
        }
        if c == '#' {
            if i + 1 < self.chars.len() {
                let f = self.chars[i + 1];
                if f == '{' {
                    self.pos = i + 2;
                    let sub = self.read_elems_exec(depth - 1, i, '#');
                    match sub {
                        Ok(items) => {
                            let elems = build_set_exec(items);
                            return Some(Ok(Value::SetOf(elems)));
                        },
                        Err(e) => {
                            return Some(Err(e));
                        },
                    }
                }
                if is_symbol_head(f) {
                    self.pos = i + 1;
                    let e = self.advance_while(ScanKind::Tag);
                    let tag = range_to_string(&self.chars, i + 1, e);
                    let payload = self.read_form(depth - 1);
                    match payload {
                        None => {
                            return Some(
                                Err(
                                    Error {
                                        lo: i + 1,
                                        hi: self.pos,
                                        message: "malformed tagged value".to_owned(),
                                    },
                                ),
                            );
                        },
                        Some(Ok(v)) => {
                            return Some(Ok(Value::Tagged(tag, Box::new(v))));
                        },
                        Some(Err(err)) => {
                            return Some(Err(err));
                        },
                    }
                }
            }
            self.pos = i + 1;
            return Some(
                Err(Error { lo: i, hi: i + 1, message: "unrecognized token".to_owned() }),
            );
        }
        if is_symbol_head(c) {
            return Some(self.read_symbol_at());
        }
        self.pos = i + 1;
        Some(Err(Error { lo: i, hi: i + 1, message: "unrecognized token".to_owned() }))
    }

    /// Reads the next form off the input: `Some(Ok(value))` for a well-formed
    /// form, `Some(Err(error))` for a malformed one, and `None` once the
    /// input (after any trailing whitespace and commas) is exhausted.
    /// Re-reading past the end keeps returning `None`.
    ///
    /// What comes back is exactly what the spec-level reader [`spec_read`]
    /// yields at the current cursor with a nesting budget of [`DEPTH_LIMIT`].
    pub fn read(&mut self) -> (r: Option<Result<Value, Error>>)
        requires
            old(self).wf(),
        ensures
            final(self).wf(),
            final(self).input() == old(self).input(),
            matches_step(
                old(self).input(),
                old(self).cursor(),
                DEPTH_LIMIT as nat,
                final(self).cursor(),
                r,
            ),
    {
        self.read_form(DEPTH_LIMIT)
    }
}

} // verus!
