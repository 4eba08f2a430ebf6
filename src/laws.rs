use vstd::prelude::*;
use crate::unescape::{
    close_brace, code_char, decode_from, emit_then, escape_starts, fixed_run_end, hex_value,
    is_code_point, is_hex_digit, is_octal_digit, octal_run, octal_value, run_value, separated_run,
};

verus! {

proof fn lemma_empty_then(rest: Option<Seq<char>>)
    ensures
        emit_then(seq![], rest) == rest,
{
    if let Some(r) = rest {
        assert(seq![] + r =~= r);
    }
}

proof fn lemma_value_two(s: Seq<char>, p: int)
    requires
        0 <= p,
        p + 2 <= s.len(),
        is_hex_digit(s[p]),
        is_hex_digit(s[p + 1]),
    ensures
        run_value(s.subrange(p, p + 2)) == hex_value(s[p]) * 16 + hex_value(s[p + 1]),
{
    let d = s.subrange(p, p + 2);
    reveal_with_fuel(run_value, 3);
    assert(d.drop_last().drop_last() =~= seq![]);
    assert(d.drop_last().last() == s[p]);
}

/// A line continuation, a backslash directly before CR, LF or CR LF, leaves no character:
/// decoding from the backslash is decoding from after the line terminator.
pub proof fn lemma_line_continuation_vanishes(s: Seq<char>, i: int)
    requires
        escape_starts(s, i),
        s[i + 1] == '\n' || s[i + 1] == '\r',
    ensures
        decode_from(s, i) == decode_from(
            s,
            if s[i + 1] == '\r' && i + 2 < s.len() && s[i + 2] == '\n' {
                i + 3
            } else {
                i + 2
            },
        ),
{
    let e = if s[i + 1] == '\r' && i + 2 < s.len() && s[i + 2] == '\n' {
        i + 3
    } else {
        i + 2
    };
    lemma_empty_then(decode_from(s, e));
}

/// `\xHH` emits the character whose value the two hex digits spell.
pub proof fn lemma_hex_escape(s: Seq<char>, i: int)
    requires
        escape_starts(s, i),
        i + 3 < s.len(),
        s[i + 1] == 'x',
        is_hex_digit(s[i + 2]),
        is_hex_digit(s[i + 3]),
    ensures
        decode_from(s, i) == emit_then(
            seq![code_char(hex_value(s[i + 2]) * 16 + hex_value(s[i + 3]))],
            decode_from(s, i + 4),
        ),
{
    assert(fixed_run_end(s, i + 2, 2) == Some(i + 4)) by {
        reveal_with_fuel(fixed_run_end, 3);
    }
    lemma_value_two(s, i + 2);
}

/// A single underscore between the two digits of `\xH_H` is skipped.
pub proof fn lemma_hex_escape_separator(s: Seq<char>, i: int)
    requires
        escape_starts(s, i),
        i + 4 < s.len(),
        s[i + 1] == 'x',
        is_hex_digit(s[i + 2]),
        s[i + 3] == '_',
        is_hex_digit(s[i + 4]),
    ensures
        decode_from(s, i) == emit_then(
            seq![code_char(hex_value(s[i + 2]) * 16 + hex_value(s[i + 4]))],
            decode_from(s, i + 5),
        ),
{
    assert(fixed_run_end(s, i + 2, 2) == Some(i + 5)) by {
        reveal_with_fuel(fixed_run_end, 3);
    }
    let d = s.subrange(i + 2, i + 5);
    reveal_with_fuel(run_value, 4);
    assert(d.drop_last().drop_last().drop_last() =~= seq![]);
    assert(d.drop_last().drop_last().last() == s[i + 2]);
    assert(d.drop_last().last() == '_');
}

/// An underscore that does not stand between two digits of `\x` fails the literal.
pub proof fn lemma_hex_escape_misplaced_separator(s: Seq<char>, i: int)
    requires
        escape_starts(s, i),
        s[i + 1] == 'x',
        i + 2 < s.len(),
        s[i + 2] == '_' || (is_hex_digit(s[i + 2]) && i + 3 < s.len() && s[i + 3] == '_' && (i
            + 4 >= s.len() || !is_hex_digit(s[i + 4]))),
    ensures
        decode_from(s, i) is None,
{
    reveal_with_fuel(fixed_run_end, 3);
}

/// `\uHHHH` emits the character with the value of its four hex digits; a value that is no
/// scalar value (a lone surrogate) fails the literal.
pub proof fn lemma_unicode_escape(s: Seq<char>, i: int)
    requires
        escape_starts(s, i),
        i + 5 < s.len(),
        s[i + 1] == 'u',
        is_hex_digit(s[i + 2]),
        is_hex_digit(s[i + 3]),
        is_hex_digit(s[i + 4]),
        is_hex_digit(s[i + 5]),
    ensures
        ({
            let v = ((hex_value(s[i + 2]) * 16 + hex_value(s[i + 3])) * 16 + hex_value(s[i + 4]))
                * 16 + hex_value(s[i + 5]);
            if is_code_point(v) {
                decode_from(s, i) == emit_then(seq![code_char(v)], decode_from(s, i + 6))
            } else {
                decode_from(s, i) is None
            }
        }),
{
    assert(fixed_run_end(s, i + 2, 4) == Some(i + 6)) by {
        reveal_with_fuel(fixed_run_end, 5);
    }
    let d = s.subrange(i + 2, i + 6);
    reveal_with_fuel(run_value, 5);
    assert(d.drop_last().drop_last().drop_last().drop_last() =~= seq![]);
    assert(d.drop_last().drop_last().drop_last().last() == s[i + 2]);
    assert(d.drop_last().drop_last().last() == s[i + 3]);
    assert(d.drop_last().last() == s[i + 4]);
    assert(d.last() == s[i + 5]);
}

proof fn lemma_close_brace_at(s: Seq<char>, p: int, k: int)
    requires
        0 <= p <= k < s.len(),
        s[k] == '}',
        forall|j: int| p <= j < k ==> s[j] != '}',
    ensures
        close_brace(s, p) == Some(k),
    decreases k - p,
{
    if p < k {
        lemma_close_brace_at(s, p + 1, k);
    }
}

/// `\u{...}` emits the character with the value of the hex digits up to the first `}`,
/// above U+FFFF too. Digits that are not a run with single underscores between them, or a
/// value that is no scalar value, fail the literal.
pub proof fn lemma_braced_unicode_escape(s: Seq<char>, i: int, k: int)
    requires
        escape_starts(s, i),
        s[i + 1] == 'u',
        i + 2 < s.len(),
        s[i + 2] == '{',
        i + 3 <= k < s.len(),
        s[k] == '}',
        forall|j: int| i + 3 <= j < k ==> s[j] != '}',
    ensures
        ({
            let d = s.subrange(i + 3, k);
            if separated_run(d) && is_code_point(run_value(d)) {
                decode_from(s, i) == emit_then(seq![code_char(run_value(d))], decode_from(s, k + 1))
            } else {
                decode_from(s, i) is None
            }
        }),
{
    lemma_close_brace_at(s, i + 3, k);
}

/// The number that the octal digits of `d` spell.
pub open spec fn octal_number(d: Seq<char>) -> nat
    decreases d.len(),
{
    if d.len() == 0 {
        0
    } else {
        octal_number(d.drop_last()) * 8 + octal_value(d.last())
    }
}

/// A legacy octal escape takes up to three octal digits while their value fits in a byte,
/// and emits the character with that value; an `8` or `9` right after it fails the literal.
pub proof fn lemma_octal_escape(s: Seq<char>, i: int, n: int)
    requires
        0 <= i,
        1 <= n <= 3,
        i + 1 + n <= s.len(),
        s[i] == '\\',
        forall|j: int| i + 1 <= j < i + 1 + n ==> is_octal_digit(#[trigger] s[j]),
        octal_number(s.subrange(i + 1, i + 1 + n)) <= 255,
        n == 3 || i + 1 + n == s.len() || !is_octal_digit(s[i + 1 + n]) || octal_number(
            s.subrange(i + 1, i + 1 + n),
        ) * 8 + octal_value(s[i + 1 + n]) > 255,
    ensures
        ({
            let v = octal_number(s.subrange(i + 1, i + 1 + n));
            let e = i + 1 + n;
            if e < s.len() && (s[e] == '8' || s[e] == '9') {
                decode_from(s, i) is None
            } else {
                decode_from(s, i) == emit_then(seq![code_char(v)], decode_from(s, e))
            }
        }),
{
    let d1 = s.subrange(i + 1, i + 2);
    let d2 = s.subrange(i + 1, i + 3);
    assert(d1.drop_last() =~= seq![]);
    assert(d1.last() == s[i + 1]);
    reveal_with_fuel(octal_number, 2);
    assert(octal_number(d1) == octal_value(s[i + 1]));
    if n >= 2 {
        assert(d2.drop_last() =~= d1);
        assert(d2.last() == s[i + 2]);
        assert(octal_number(d2) == octal_value(s[i + 1]) * 8 + octal_value(s[i + 2]));
    }
    if n == 3 {
        let d3 = s.subrange(i + 1, i + 4);
        assert(d3.drop_last() =~= d2);
        assert(d3.last() == s[i + 3]);
        assert(is_octal_digit(s[i + 3]));
        assert(octal_number(d3) == octal_number(d2) * 8 + octal_value(s[i + 3]));
        assert(octal_number(d2) * 8 <= octal_number(d3));
        assert(octal_value(s[i + 1]) * 8 <= octal_number(d2));
    }
    reveal_with_fuel(octal_run, 3);
}

} // verus!
