use vstd::prelude::*;
use vstd::std_specs::iter::IteratorSpec;
use crate::text::{Text, chars_of};

verus! {

pub open spec fn is_hex_digit(c: char) -> bool {
    ('0' <= c && c <= '9') || ('a' <= c && c <= 'f') || ('A' <= c && c <= 'F')
}

pub open spec fn hex_value(c: char) -> nat {
    if '0' <= c && c <= '9' {
        (c as nat - '0' as nat) as nat
    } else if 'a' <= c && c <= 'f' {
        (c as nat - 'a' as nat + 10) as nat
    } else {
        (c as nat - 'A' as nat + 10) as nat
    }
}

pub open spec fn is_octal_digit(c: char) -> bool {
    '0' <= c && c <= '7'
}

pub open spec fn octal_value(c: char) -> nat {
    (c as nat - '0' as nat) as nat
}

/// A scalar value that a `char` can hold: not above U+10FFFF and not a surrogate.
pub open spec fn is_code_point(v: nat) -> bool {
    v <= 0x10FFFF && !(0xD800 <= v && v <= 0xDFFF)
}

/// The number that the hex digits of `d` spell, underscores skipped.
pub open spec fn run_value(d: Seq<char>) -> nat
    decreases d.len(),
{
    if d.len() == 0 {
        0
    } else if d.last() == '_' {
        run_value(d.drop_last())
    } else {
        run_value(d.drop_last()) * 16 + hex_value(d.last())
    }
}

/// Hex digits, with single underscores allowed only between two digits.
pub open spec fn separated_run(d: Seq<char>) -> bool {
    &&& d.len() > 0
    &&& forall|j: int|
        0 <= j < d.len() ==> is_hex_digit(#[trigger] d[j]) || (d[j] == '_' && 0 < j < d.len() - 1
            && is_hex_digit(d[j - 1]) && is_hex_digit(d[j + 1]))
}

/// Where a run of exactly `n` hex digits starting at `p` ends; a single underscore
/// may stand between two of its digits.
pub open spec fn fixed_run_end(s: Seq<char>, p: int, n: nat) -> Option<int>
    decreases n,
{
    if n == 0 {
        Some(p)
    } else if 0 <= p < s.len() && is_hex_digit(s[p]) {
        if n > 1 && p + 1 < s.len() && s[p + 1] == '_' {
            fixed_run_end(s, p + 2, (n - 1) as nat)
        } else {
            fixed_run_end(s, p + 1, (n - 1) as nat)
        }
    } else {
        None
    }
}

/// The first `}` at or after `p`.
pub open spec fn close_brace(s: Seq<char>, p: int) -> Option<int>
    decreases s.len() - p,
{
    if p < 0 || p >= s.len() {
        None
    } else if s[p] == '}' {
        Some(p)
    } else {
        close_brace(s, p + 1)
    }
}

/// Greedy octal digits from `p`, at most `k` more, while the value stays within a byte:
/// the value and the position after them.
pub open spec fn octal_run(s: Seq<char>, p: int, v: nat, k: nat) -> (nat, int)
    decreases k,
{
    if k > 0 && 0 <= p < s.len() && is_octal_digit(s[p]) && v * 8 + octal_value(s[p]) <= 255 {
        octal_run(s, p + 1, v * 8 + octal_value(s[p]), (k - 1) as nat)
    } else {
        (v, p)
    }
}

pub open spec fn code_char(v: nat) -> char {
    (v as u32) as char
}

/// The escape that starts with the backslash at `i`: what it emits and where it ends,
/// or `None` if it is malformed.
pub open spec fn escape_at(s: Seq<char>, i: int) -> Option<(Seq<char>, int)> {
    let c = s[i + 1];
    if c == 'n' {
        Some((seq!['\n'], i + 2))
    } else if c == 'r' {
        Some((seq!['\r'], i + 2))
    } else if c == 't' {
        Some((seq!['\t'], i + 2))
    } else if c == 'b' {
        Some((seq!['\u{8}'], i + 2))
    } else if c == 'v' {
        Some((seq!['\u{b}'], i + 2))
    } else if c == 'f' {
        Some((seq!['\u{c}'], i + 2))
    } else if c == '\r' {
        if i + 2 < s.len() && s[i + 2] == '\n' {
            Some((seq![], i + 3))
        } else {
            Some((seq![], i + 2))
        }
    } else if c == '\n' {
        Some((seq![], i + 2))
    } else if c == 'x' {
        match fixed_run_end(s, i + 2, 2) {
            Some(e) => Some((seq![code_char(run_value(s.subrange(i + 2, e)))], e)),
            None => None,
        }
    } else if c == 'u' && i + 2 < s.len() && s[i + 2] == '{' {
        match close_brace(s, i + 3) {
            Some(k) => {
                let d = s.subrange(i + 3, k);
                if separated_run(d) && is_code_point(run_value(d)) {
                    Some((seq![code_char(run_value(d))], k + 1))
                } else {
                    None
                }
            },
            None => None,
        }
    } else if c == 'u' {
        match fixed_run_end(s, i + 2, 4) {
            Some(e) => {
                let v = run_value(s.subrange(i + 2, e));
                if is_code_point(v) {
                    Some((seq![code_char(v)], e))
                } else {
                    None
                }
            },
            None => None,
        }
    } else if is_octal_digit(c) {
        let (v, e) = octal_run(s, i + 2, octal_value(c), 2);
        if e < s.len() && (s[e] == '8' || s[e] == '9') {
            None
        } else {
            Some((seq![code_char(v)], e))
        }
    } else {
        Some((seq![c], i + 2))
    }
}

/// `out` followed by what `rest` decoded to; failure stays failure.
pub open spec fn emit_then(out: Seq<char>, rest: Option<Seq<char>>) -> Option<Seq<char>> {
    match rest {
        Some(r) => Some(out + r),
        None => None,
    }
}

/// A backslash that another character follows begins an escape.
pub open spec fn escape_starts(s: Seq<char>, i: int) -> bool {
    0 <= i && i + 1 < s.len() && s[i] == '\\'
}

/// The decoded text of `s` from position `i` on, or `None` if an escape there is malformed.
pub open spec fn decode_from(s: Seq<char>, i: int) -> Option<Seq<char>>
    decreases s.len() - i,
{
    if i < 0 || i >= s.len() {
        Some(seq![])
    } else if escape_starts(s, i) {
        match escape_at(s, i) {
            Some((out, e)) => if i < e <= s.len() {
                emit_then(out, decode_from(s, e))
            } else {
                None
            },
            None => None,
        }
    } else {
        emit_then(seq![s[i]], decode_from(s, i + 1))
    }
}

/// The decoded text of a string literal's interior, or `None` if an escape in it is malformed.
pub open spec fn decode(s: Seq<char>) -> Option<Seq<char>> {
    decode_from(s, 0)
}

pub open spec fn has_escape(s: Seq<char>) -> bool {
    exists|i: int| escape_starts(s, i)
}


pub open spec fn pow16(k: nat) -> nat
    decreases k,
{
    if k == 0 {
        1
    } else {
        16 * pow16((k - 1) as nat)
    }
}

proof fn lemma_run_value_step(s: Seq<char>, p: int, q: int)
    requires
        0 <= p <= q < s.len(),
    ensures
        run_value(s.subrange(p, q + 1)) == if s[q] == '_' {
            run_value(s.subrange(p, q))
        } else {
            run_value(s.subrange(p, q)) * 16 + hex_value(s[q])
        },
{
    assert(s.subrange(p, q + 1).drop_last() =~= s.subrange(p, q));
}

proof fn lemma_run_value_prefix(d: Seq<char>, j: int)
    requires
        0 <= j <= d.len(),
    ensures
        run_value(d.subrange(0, j)) <= run_value(d),
    decreases d.len(),
{
    if j == d.len() {
        assert(d.subrange(0, j) =~= d);
    } else {
        lemma_run_value_prefix(d.drop_last(), j);
        assert(d.drop_last().subrange(0, j) =~= d.subrange(0, j));
    }
}

proof fn lemma_fixed_run_end(s: Seq<char>, p: int, n: nat)
    ensures
        fixed_run_end(s, p, n) matches Some(e) ==> p + n <= e <= s.len() || (n == 0 && e == p),
    decreases n,
{
    if n > 0 && 0 <= p < s.len() && is_hex_digit(s[p]) {
        if n > 1 && p + 1 < s.len() && s[p + 1] == '_' {
            lemma_fixed_run_end(s, p + 2, (n - 1) as nat);
        } else {
            lemma_fixed_run_end(s, p + 1, (n - 1) as nat);
        }
    }
}

proof fn lemma_close_brace(s: Seq<char>, p: int)
    ensures
        close_brace(s, p) matches Some(k) ==> 0 <= p <= k < s.len() && s[k] == '}',
    decreases s.len() - p,
{
    if 0 <= p < s.len() && s[p] != '}' {
        lemma_close_brace(s, p + 1);
    }
}

proof fn lemma_octal_run(s: Seq<char>, p: int, v: nat, k: nat)
    requires
        0 <= p <= s.len(),
    ensures
        p <= octal_run(s, p, v, k).1 <= s.len(),
    decreases k,
{
    if k > 0 && 0 <= p < s.len() && is_octal_digit(s[p]) && v * 8 + octal_value(s[p]) <= 255 {
        lemma_octal_run(s, p + 1, v * 8 + octal_value(s[p]), (k - 1) as nat);
    }
}

/// An escape that is well formed ends past its backslash and within the text.
proof fn lemma_escape_at_advances(s: Seq<char>, i: int)
    requires
        escape_starts(s, i),
    ensures
        escape_at(s, i) matches Some((out, e)) ==> i < e <= s.len(),
{
    lemma_fixed_run_end(s, i + 2, 2);
    lemma_fixed_run_end(s, i + 2, 4);
    lemma_close_brace(s, i + 3);
    lemma_octal_run(s, i + 2, octal_value(s[i + 1]), 2);
}

/// Relies on char::from_u32: `Some` of the character with that value exactly when
/// the value is a Unicode scalar value.
#[verifier::external_body]
fn char_from_u32(v: u32) -> (r: Option<char>)
    ensures
        r is Some <==> is_code_point(v as nat),
        r matches Some(c) ==> c as u32 == v,
{
    char::from_u32(v)
}

fn hex_digit(c: char) -> (r: Option<u32>)
    ensures
        r is Some <==> is_hex_digit(c),
        r matches Some(h) ==> h == hex_value(c) && h < 16,
{
    if '0' <= c && c <= '9' {
        Some(c as u32 - '0' as u32)
    } else if 'a' <= c && c <= 'f' {
        Some(c as u32 - 'a' as u32 + 10)
    } else if 'A' <= c && c <= 'F' {
        Some(c as u32 - 'A' as u32 + 10)
    } else {
        None
    }
}

/// Reads a run of exactly `count` hex digits that starts at `pos`.
fn read_hex(v: &Vec<char>, pos: usize, count: usize) -> (r: Result<(u32, usize), ()>)
    requires
        pos <= v.len(),
        count <= 4,
    ensures
        match fixed_run_end(v@, pos as int, count as nat) {
            Some(e) => r == Ok::<(u32, usize), ()>(
                (run_value(v@.subrange(pos as int, e)) as u32, e as usize),
            ) && run_value(v@.subrange(pos as int, e)) < 0x10000 && (count <= 2 ==> run_value(
                v@.subrange(pos as int, e),
            ) < 0x100),
            None => r is Err,
        },
{
    let mut p: usize = pos;
    let mut k: usize = 0;
    let mut total: u32 = 0;
    proof {
        reveal_with_fuel(pow16, 5);
        assert(v@.subrange(pos as int, pos as int).len() == 0);
    }
    while k < count
        invariant
            pos <= p <= v.len(),
            k <= count <= 4,
            fixed_run_end(v@, pos as int, count as nat) == fixed_run_end(
                v@,
                p as int,
                (count - k) as nat,
            ),
            total as nat == run_value(v@.subrange(pos as int, p as int)),
            total < pow16(k as nat),
            pow16(4) == 0x10000,
            pow16(3) == 0x1000,
            pow16(2) == 0x100,
            pow16(1) == 0x10,
            pow16(0) == 1,
        decreases count - k,
    {
        if p >= v.len() {
            return Err(());
        }
        let h = match hex_digit(v[p]) {
            Some(h) => h,
            None => {
                return Err(());
            },
        };
        proof {
            lemma_run_value_step(v@, pos as int, p as int);
            assert(total * 16 + h < pow16((k + 1) as nat)) by (nonlinear_arith)
                requires
                    total < pow16(k as nat),
                    h < 16,
                    pow16((k + 1) as nat) == 16 * pow16(k as nat),
            ;
        }
        total = total * 16 + h;
        if count - k > 1 && p + 1 < v.len() && v[p + 1] == '_' {
            proof {
                lemma_run_value_step(v@, pos as int, p + 1);
            }
            p = p + 2;
        } else {
            p = p + 1;
        }
        k = k + 1;
    }
    Ok((total, p))
}


/// Reads the hex digits of a braced code point that start at `start`, up to the first `}`.
fn read_braced(v: &Vec<char>, start: usize) -> (r: Result<(u32, usize), ()>)
    requires
        start <= v.len(),
    ensures
        match close_brace(v@, start as int) {
            Some(k) => {
                let d = v@.subrange(start as int, k);
                if separated_run(d) && is_code_point(run_value(d)) {
                    r == Ok::<(u32, usize), ()>((run_value(d) as u32, k as usize))
                } else {
                    r is Err
                }
            },
            None => r is Err,
        },
        r matches Ok((_, k)) ==> k < v.len(),
{
    let mut k: usize = start;
    while k < v.len() && v[k] != '}'
        invariant
            start <= k <= v.len(),
            close_brace(v@, start as int) == close_brace(v@, k as int),
        decreases v.len() - k,
    {
        k = k + 1;
    }
    if k == v.len() || k == start {
        return Err(());
    }
    assert(close_brace(v@, k as int) == Some(k as int));
    let ghost d = v@.subrange(start as int, k as int);
    let mut q: usize = start;
    let mut total: u32 = 0;
    proof {
        assert(v@.subrange(start as int, start as int).len() == 0);
    }
    while q < k
        invariant
            start <= q <= k < v.len(),
            d == v@.subrange(start as int, k as int),
            close_brace(v@, start as int) == Some(k as int),
            d.len() > 0,
            total as nat == run_value(v@.subrange(start as int, q as int)),
            total <= 0x10FFFF,
            forall|j: int|
                0 <= j < q - start ==> is_hex_digit(#[trigger] d[j]) || (d[j] == '_' && 0 < j
                    < d.len() - 1 && is_hex_digit(d[j - 1]) && is_hex_digit(d[j + 1])),
        decreases k - q,
    {
        let c = v[q];
        proof {
            lemma_run_value_step(v@, start as int, q as int);
            assert(d[q - start] == c);
        }
        if c == '_' {
            let ok = q > start && q + 1 < k && hex_digit(v[q - 1]).is_some() && hex_digit(
                v[q + 1],
            ).is_some();
            if !ok {
                assert(!separated_run(d));
                return Err(());
            }
            proof {
                assert(d[q - start - 1] == v@[q - 1]);
                assert(d[q - start + 1] == v@[q + 1]);
            }
        } else {
            match hex_digit(c) {
                Some(h) => {
                    total = total * 16 + h;
                    if total > 0x10FFFF {
                        proof {
                            assert(v@.subrange(start as int, q + 1) =~= d.subrange(
                                0,
                                q + 1 - start,
                            ));
                            lemma_run_value_prefix(d, q + 1 - start);
                        }
                        return Err(());
                    }
                },
                None => {
                    assert(!separated_run(d));
                    return Err(());
                },
            }
        }
        q = q + 1;
    }
    proof {
        assert(v@.subrange(start as int, q as int) == d);
    }
    if char_from_u32(total).is_none() {
        return Err(());
    }
    Ok((total, k))
}


pub open spec fn emitted(oc: Option<char>) -> Seq<char> {
    match oc {
        Some(c) => seq![c],
        None => seq![],
    }
}

/// Decodes the escape whose backslash stands at `i`: the character it emits, if any,
/// and the position after it.
fn escape(v: &Vec<char>, i: usize) -> (r: Result<(Option<char>, usize), ()>)
    requires
        escape_starts(v@, i as int),
    ensures
        match escape_at(v@, i as int) {
            Some((out, e)) => r matches Ok((oc, e2)) && e2 == e && out == emitted(oc),
            None => r is Err,
        },
{
    proof {
        lemma_escape_at_advances(v@, i as int);
    }
    let n = v.len();
    let c = v[i + 1];
    if c == 'n' {
        Ok((Some('\n'), i + 2))
    } else if c == 'r' {
        Ok((Some('\r'), i + 2))
    } else if c == 't' {
        Ok((Some('\t'), i + 2))
    } else if c == 'b' {
        Ok((Some('\u{8}'), i + 2))
    } else if c == 'v' {
        Ok((Some('\u{b}'), i + 2))
    } else if c == 'f' {
        Ok((Some('\u{c}'), i + 2))
    } else if c == '\r' {
        if i + 2 < n && v[i + 2] == '\n' {
            Ok((None, i + 3))
        } else {
            Ok((None, i + 2))
        }
    } else if c == '\n' {
        Ok((None, i + 2))
    } else if c == 'x' {
        match read_hex(v, i + 2, 2) {
            Ok((val, e)) => match char_from_u32(val) {
                Some(ch) => {
                    proof {
                        vstd::utf8::char_u32_cast(ch, val);
                    }
                    Ok((Some(ch), e))
                },
                None => Err(()),
            },
            Err(()) => Err(()),
        }
    } else if c == 'u' && i + 2 < n && v[i + 2] == '{' {
        match read_braced(v, i + 3) {
            Ok((val, k)) => match char_from_u32(val) {
                Some(ch) => {
                    proof {
                        vstd::utf8::char_u32_cast(ch, val);
                    }
                    Ok((Some(ch), k + 1))
                },
                None => Err(()),
            },
            Err(()) => Err(()),
        }
    } else if c == 'u' {
        match read_hex(v, i + 2, 4) {
            Ok((val, e)) => match char_from_u32(val) {
                Some(ch) => {
                    proof {
                        vstd::utf8::char_u32_cast(ch, val);
                    }
                    Ok((Some(ch), e))
                },
                None => Err(()),
            },
            Err(()) => Err(()),
        }
    } else if '0' <= c && c <= '7' {
        let d0: u32 = c as u32 - '0' as u32;
        let mut total: u32 = d0;
        let mut p: usize = i + 2;
        let mut k: usize = 0;
        while k < 2 && p < n && '0' <= v[p] && v[p] <= '7' && total * 8 + (v[p] as u32
            - '0' as u32) <= 255
            invariant
                n == v.len(),
                i + 2 <= p <= n,
                k <= 2,
                total <= 255,
                octal_run(v@, i + 2, d0 as nat, 2) == octal_run(
                    v@,
                    p as int,
                    total as nat,
                    (2 - k) as nat,
                ),
            decreases 2 - k,
        {
            total = total * 8 + (v[p] as u32 - '0' as u32);
            p = p + 1;
            k = k + 1;
        }
        assert(octal_run(v@, p as int, total as nat, (2 - k) as nat) == (total as nat, p as int));
        if p < n && (v[p] == '8' || v[p] == '9') {
            return Err(());
        }
        match char_from_u32(total) {
            Some(ch) => {
                proof {
                    vstd::utf8::char_u32_cast(ch, total);
                }
                Ok((Some(ch), p))
            },
            None => Err(()),
        }
    } else {
        Ok((Some(c), i + 2))
    }
}

/// Relies on String::push: appends one character.
#[verifier::external_body]
fn push_char(s: &mut String, c: char)
    ensures
        final(s)@ == old(s)@.push(c),
{
    s.push(c);
}


proof fn lemma_plain_from(s: Seq<char>, i: int)
    requires
        0 <= i <= s.len(),
        forall|j: int| i <= j ==> !escape_starts(s, j),
    ensures
        decode_from(s, i) == Some(s.subrange(i, s.len() as int)),
    decreases s.len() - i,
{
    if i < s.len() {
        lemma_plain_from(s, i + 1);
        assert(seq![s[i]] + s.subrange(i + 1, s.len() as int) =~= s.subrange(i, s.len() as int));
    } else {
        assert(s.subrange(i, s.len() as int) =~= seq![]);
    }
}

/// Text in which no backslash is followed by another character decodes to itself.
pub proof fn lemma_plain_text_decodes_to_itself(s: Seq<char>)
    requires
        !has_escape(s),
    ensures
        decode(s) == Some(s),
{
    lemma_plain_from(s, 0);
    assert(s.subrange(0, s.len() as int) =~= s);
}

/// Whether `s` holds an escape, found without allocating.
fn contains_escape(s: &str) -> (r: bool)
    ensures
        r == has_escape(s@),
{
    let mut it = s.chars();
    let ghost n: int = 0;
    let mut prev_backslash = false;
    proof {
        vstd::string::axiom_spec_iter(s);
        assert(s@.subrange(0, s@.len() as int) =~= s@);
    }
    loop
        invariant
            it.obeys_prophetic_iter_laws(),
            it.decrease() is Some,
            0 <= n <= s@.len(),
            it.remaining() == s@.subrange(n, s@.len() as int),
            prev_backslash == (n > 0 && s@[n - 1] == '\\'),
            forall|j: int| 0 <= j && j + 1 < n ==> !escape_starts(s@, j),
        decreases it.decrease()->0,
    {
        let ghost before = it;
        match it.next() {
            Some(c) => {
                proof {
                    vstd::string::next_postcondition(&before, &it, Some(c));
                }
                if prev_backslash {
                    assert(escape_starts(s@, n - 1));
                    return true;
                }
                prev_backslash = c == '\\';
                proof {
                    assert(c == s@[n]);
                    n = n + 1;
                    assert(it.remaining() =~= s@.subrange(n, s@.len() as int));
                }
            },
            None => {
                proof {
                    vstd::string::next_postcondition(&before, &it, None);
                    assert(n == s@.len());
                    assert forall|j: int| !escape_starts(s@, j) by {
                        if escape_starts(s@, j) {
                            assert(j + 1 < n);
                        }
                    }
                }
                return false;
            },
        }
    }
}

/// Decodes the escapes of a string literal's interior. Text without an escape is handed
/// back as it is, without allocating; a malformed escape anywhere fails the whole literal.
pub fn unescape<'a>(s: &'a str) -> (r: Result<Text<'a>, ()>)
    ensures
        match decode(s@) {
            Some(d) => r matches Ok(t) && t@ == d,
            None => r is Err,
        },
        !has_escape(s@) ==> r == Ok::<Text<'a>, ()>(Text::Borrowed(s)),
        r matches Ok(Text::Borrowed(b)) ==> b == s,
{
    if !contains_escape(s) {
        proof {
            lemma_plain_text_decodes_to_itself(s@);
        }
        return Ok(Text::Borrowed(s));
    }
    let v = chars_of(s);
    let mut out = String::new();
    let mut i: usize = 0;
    while i < v.len()
        invariant
            v@ == s@,
            i <= v.len(),
            decode(v@) == emit_then(out@, decode_from(v@, i as int)),
        decreases v.len() - i,
    {
        if v[i] == '\\' && i + 1 < v.len() {
            proof {
                lemma_escape_at_advances(v@, i as int);
            }
            match escape(&v, i) {
                Ok((oc, e)) => {
                    let ghost before = out@;
                    if let Some(ch) = oc {
                        push_char(&mut out, ch);
                    }
                    proof {
                        assert(out@ =~= before + emitted(oc));
                        match decode_from(v@, e as int) {
                            Some(rest) => {
                                assert(before + (emitted(oc) + rest) =~= out@ + rest);
                            },
                            None => {},
                        }
                    }
                    i = e;
                },
                Err(()) => {
                    return Err(());
                },
            }
        } else {
            let ghost before = out@;
            push_char(&mut out, v[i]);
            proof {
                match decode_from(v@, i + 1) {
                    Some(rest) => {
                        assert(before + (seq![v@[i as int]] + rest) =~= out@ + rest);
                    },
                    None => {},
                }
            }
            i = i + 1;
        }
    }
    assert(out@ + seq![] =~= out@);
    Ok(Text::Owned(out))
}

} // verus!
