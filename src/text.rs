use vstd::prelude::*;
use vstd::utf8::*;
use vstd::string::*;
use vstd::std_specs::iter::IteratorSpec;

verus! {

broadcast use group_utf8_lib;

/// The characters that the bytes `from..to` of `src` spell.
pub open spec fn span_text(src: &str, from: int, to: int) -> Seq<char> {
    decode_utf8(src.spec_bytes().subrange(from, to))
}

/// `from..to` is a span of `src` that begins and ends on character boundaries.
pub open spec fn valid_span(src: &str, from: int, to: int) -> bool {
    &&& 0 <= from <= to <= src.spec_bytes().len()
    &&& is_char_boundary(src.spec_bytes(), from)
    &&& is_char_boundary(src.spec_bytes(), to)
}

/// Text that is either borrowed from the source buffer or was built anew.
pub enum Text<'a> {
    Borrowed(&'a str),
    Owned(String),
}

impl<'a> Text<'a> {
    pub open spec fn view(&self) -> Seq<char> {
        match self {
            Text::Borrowed(s) => s@,
            Text::Owned(s) => s@,
        }
    }

    pub fn as_str(&self) -> (r: &str)
        ensures
            r@ == self.view(),
    {
        match self {
            Text::Borrowed(s) => s,
            Text::Owned(s) => s.as_str(),
        }
    }

    pub fn is_borrowed(&self) -> (r: bool)
        ensures
            r == (self is Borrowed),
    {
        match self {
            Text::Borrowed(_) => true,
            Text::Owned(_) => false,
        }
    }
}

proof fn lemma_boundary_in_prefix(bytes: Seq<u8>, from: int, to: int)
    requires
        valid_utf8(bytes),
        0 <= from <= to <= bytes.len(),
        is_char_boundary(bytes, from),
        is_char_boundary(bytes, to),
    ensures
        valid_utf8(bytes.subrange(0, to)),
        is_char_boundary(bytes.subrange(0, to), from),
{
    let pre = bytes.subrange(0, to);
    valid_utf8_split(bytes, to);
    if from == to {
        is_char_boundary_start_end_of_seq(pre);
    } else if from > 0 {
        is_char_boundary_iff_not_is_continuation_byte(bytes, from);
        is_char_boundary_iff_not_is_continuation_byte(pre, from);
        assert(pre[from] == bytes[from]);
    }
}

/// The bytes `from..to` of `src`, without copying.
pub fn slice<'a>(src: &'a str, from: usize, to: usize) -> (r: &'a str)
    requires
        valid_span(src, from as int, to as int),
    ensures
        r.spec_bytes() == src.spec_bytes().subrange(from as int, to as int),
        r@ == span_text(src, from as int, to as int),
{
    proof {
        lemma_boundary_in_prefix(src.spec_bytes(), from as int, to as int);
    }
    let (pre, _) = src.split_at(to);
    let (_, r) = pre.split_at(from);
    assert(r.spec_bytes() =~= src.spec_bytes().subrange(from as int, to as int));
    r
}

/// The characters of `s`, in order.
pub fn chars_of(s: &str) -> (r: Vec<char>)
    ensures
        r@ == s@,
{
    let mut out: Vec<char> = Vec::new();
    let mut it = s.chars();
    proof {
        axiom_spec_iter(s);
    }
    loop
        invariant
            it.obeys_prophetic_iter_laws(),
            out@ + it.remaining() == s@,
            it.decrease() is Some,
        ensures
            out@ == s@,
        decreases it.decrease()->0,
    {
        let ghost before = it;
        match it.next() {
            Some(c) => {
                proof {
                    next_postcondition(&before, &it, Some(c));
                }
                out.push(c);
            },
            None => {
                proof {
                    next_postcondition(&before, &it, None);
                    assert(out@ =~= s@);
                }
                break;
            },
        }
    }
    out
}

} // verus!
