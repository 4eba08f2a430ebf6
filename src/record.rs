use vstd::prelude::*;
use vstd::string::*;
use crate::text::{Text, slice, span_text, valid_span};
use crate::unescape::{decode, has_escape, unescape};

verus! {

broadcast use vstd::utf8::group_utf8_lib;

/// What an import site is, as derived from the scanner's dynamic marker and safe flag.
#[derive(Debug, Clone, Copy, PartialEq, Eq, Structural)]
pub enum ImportKind {
    Standard,
    DynamicString,
    DynamicExpression,
    Meta,
}

/// Marker 1 is a static import, marker 2 `import.meta`; any other marker is a dynamic
/// import, whose argument is a plain string literal when the safe flag is set.
pub open spec fn kind_of(dynamic: usize, safe: bool) -> ImportKind {
    if dynamic == 1 {
        ImportKind::Standard
    } else if dynamic == 2 {
        ImportKind::Meta
    } else if safe {
        ImportKind::DynamicString
    } else {
        ImportKind::DynamicExpression
    }
}

/// The decoded text, or the text itself where an escape in it is malformed.
pub open spec fn decoded_or_raw(t: Seq<char>) -> Seq<char> {
    match decode(t) {
        Some(d) => d,
        None => t,
    }
}

/// The span of an import's specifier that is handed to the decoder: a dynamic string
/// import's span holds its quotes, which are left out.
pub open spec fn inner_span(start: int, end: int, kind: ImportKind) -> (int, int) {
    if kind == ImportKind::DynamicString {
        (start + 1, end - 1)
    } else {
        (start, end)
    }
}

/// What `specifier` returns for an import with this span and kind.
pub open spec fn specifier_text(src: &str, start: int, end: int, kind: ImportKind) -> Seq<char> {
    let (a, b) = inner_span(start, end, kind);
    let raw = span_text(src, a, b);
    if kind == ImportKind::Standard || kind == ImportKind::DynamicString {
        decoded_or_raw(raw)
    } else {
        raw
    }
}

/// The conditions under which a scanned import record can be viewed over `src`.
pub open spec fn import_record_ok(
    src: &str,
    start: int,
    end: int,
    statement_start: int,
    statement_end: int,
    assert_index: Option<usize>,
    dynamic: usize,
    safe: bool,
) -> bool {
    &&& valid_span(src, start, end)
    &&& valid_span(src, statement_start, statement_end)
    &&& (kind_of(dynamic, safe) == ImportKind::DynamicString ==> start + 2 <= end && valid_span(
        src,
        start + 1,
        end - 1,
    ))
    &&& (assert_index matches Some(a) ==> a <= src.spec_bytes().len())
}

/// One import site found in a source text, viewed over that text.
pub struct Import<'a> {
    source: &'a str,
    start: usize,
    end: usize,
    statement_start: usize,
    statement_end: usize,
    assert_index: Option<usize>,
    dynamic: usize,
    safe: bool,
}

impl<'a> Import<'a> {
    #[verifier::type_invariant]
    spec fn well_formed(self) -> bool {
        import_record_ok(
            self.source,
            self.start as int,
            self.end as int,
            self.statement_start as int,
            self.statement_end as int,
            self.assert_index,
            self.dynamic,
            self.safe,
        )
    }

    pub closed spec fn source(self) -> &'a str {
        self.source
    }

    pub closed spec fn start(self) -> int {
        self.start as int
    }

    pub closed spec fn end(self) -> int {
        self.end as int
    }

    pub closed spec fn statement_start(self) -> int {
        self.statement_start as int
    }

    pub closed spec fn statement_end(self) -> int {
        self.statement_end as int
    }

    pub closed spec fn assert_index(self) -> Option<usize> {
        self.assert_index
    }

    pub closed spec fn spec_kind(self) -> ImportKind {
        kind_of(self.dynamic, self.safe)
    }

    /// Views a record that the scanner produced over `source`; `None` where its spans do
    /// not fit the text.
    pub fn new(
        source: &'a str,
        start: usize,
        end: usize,
        statement_start: usize,
        statement_end: usize,
        assert_index: Option<usize>,
        dynamic: usize,
        safe: bool,
    ) -> (r: Option<Import<'a>>)
        ensures
            r is Some <==> import_record_ok(
                source,
                start as int,
                end as int,
                statement_start as int,
                statement_end as int,
                assert_index,
                dynamic,
                safe,
            ),
            r matches Some(i) ==> {
                &&& i.source() == source
                &&& i.start() == start
                &&& i.end() == end
                &&& i.statement_start() == statement_start
                &&& i.statement_end() == statement_end
                &&& i.assert_index() == assert_index
                &&& i.spec_kind() == kind_of(dynamic, safe)
            },
    {
        let len = source.as_bytes().len();
        if !(start <= end && end <= len && source.is_char_boundary(start)
            && source.is_char_boundary(end)) {
            return None;
        }
        if !(statement_start <= statement_end && statement_end <= len
            && source.is_char_boundary(statement_start) && source.is_char_boundary(
            statement_end,
        )) {
            return None;
        }
        if dynamic != 1 && dynamic != 2 && safe {
            if !(end - start >= 2 && source.is_char_boundary(start + 1)
                && source.is_char_boundary(end - 1)) {
                return None;
            }
        }
        match assert_index {
            Some(a) => {
                if a > len {
                    return None;
                }
            },
            None => {},
        }
        Some(Import {
            source,
            start,
            end,
            statement_start,
            statement_end,
            assert_index,
            dynamic,
            safe,
        })
    }

    pub fn kind(&self) -> (r: ImportKind)
        ensures
            r == self.spec_kind(),
    {
        if self.dynamic == 1 {
            ImportKind::Standard
        } else if self.dynamic == 2 {
            ImportKind::Meta
        } else if self.safe {
            ImportKind::DynamicString
        } else {
            ImportKind::DynamicExpression
        }
    }

    /// The specifier: a string literal's decoded text (its raw text where an escape in it
    /// is malformed), or an expression's text as it stands.
    pub fn specifier(&self) -> (r: Text<'a>)
        ensures
            r@ == specifier_text(self.source(), self.start(), self.end(), self.spec_kind()),
            ({
                let (a, b) = inner_span(self.start(), self.end(), self.spec_kind());
                !has_escape(span_text(self.source(), a, b)) ==> r is Borrowed
            }),
    {
        proof {
            use_type_invariant(self);
        }
        let kind = self.kind();
        let (start, end) = if kind == ImportKind::DynamicString {
            (self.start + 1, self.end - 1)
        } else {
            (self.start, self.end)
        };
        let s = slice(self.source, start, end);
        if kind == ImportKind::Standard || kind == ImportKind::DynamicString {
            match unescape(s) {
                Ok(t) => t,
                Err(()) => Text::Borrowed(s),
            }
        } else {
            Text::Borrowed(s)
        }
    }

    /// The whole import statement or call, as it stands in the source.
    pub fn statement(&self) -> (r: &'a str)
        ensures
            r.spec_bytes() == self.source().spec_bytes().subrange(
                self.statement_start(),
                self.statement_end(),
            ),
            r@ == span_text(self.source(), self.statement_start(), self.statement_end()),
    {
        proof {
            use_type_invariant(self);
        }
        slice(self.source, self.statement_start, self.statement_end)
    }
}

/// The conditions under which a scanned export record can be viewed over `src`.
pub open spec fn export_record_ok(src: &str, start: int, end: int, local: Option<(usize, usize)>) -> bool {
    &&& valid_span(src, start, end)
    &&& (local matches Some((a, b)) ==> valid_span(src, a as int, b as int))
}

/// One export found in a source text, viewed over that text.
pub struct Export<'a> {
    source: &'a str,
    start: usize,
    end: usize,
    local: Option<(usize, usize)>,
}

impl<'a> Export<'a> {
    #[verifier::type_invariant]
    spec fn well_formed(self) -> bool {
        export_record_ok(self.source, self.start as int, self.end as int, self.local)
    }

    pub closed spec fn source(self) -> &'a str {
        self.source
    }

    pub closed spec fn start(self) -> int {
        self.start as int
    }

    pub closed spec fn end(self) -> int {
        self.end as int
    }

    pub closed spec fn local_span(self) -> Option<(usize, usize)> {
        self.local
    }

    /// Views a record that the scanner produced over `source`; `local` is the span of the
    /// local name, if the export has one. `None` where a span does not fit the text.
    pub fn new(source: &'a str, start: usize, end: usize, local: Option<(usize, usize)>) -> (r:
        Option<Export<'a>>)
        ensures
            r is Some <==> export_record_ok(source, start as int, end as int, local),
            r matches Some(x) ==> {
                &&& x.source() == source
                &&& x.start() == start
                &&& x.end() == end
                &&& x.local_span() == local
            },
    {
        let len = source.as_bytes().len();
        if !(start <= end && end <= len && source.is_char_boundary(start)
            && source.is_char_boundary(end)) {
            return None;
        }
        match local {
            Some((a, b)) => {
                if !(a <= b && b <= len && source.is_char_boundary(a) && source.is_char_boundary(
                    b,
                )) {
                    return None;
                }
            },
            None => {},
        }
        Some(Export { source, start, end, local })
    }

    /// The exported name, as it stands in the source.
    pub fn exported(&self) -> (r: &'a str)
        ensures
            r.spec_bytes() == self.source().spec_bytes().subrange(self.start(), self.end()),
            r@ == span_text(self.source(), self.start(), self.end()),
    {
        proof {
            use_type_invariant(self);
        }
        slice(self.source, self.start, self.end)
    }

    /// The local name that is exported, or `None` where the export binds none of its own.
    pub fn local(&self) -> (r: Option<&'a str>)
        ensures
            match self.local_span() {
                Some((a, b)) => r matches Some(t) && t.spec_bytes()
                    == self.source().spec_bytes().subrange(a as int, b as int) && t@ == span_text(
                    self.source(),
                    a as int,
                    b as int,
                ),
                None => r is None,
            },
    {
        proof {
            use_type_invariant(self);
        }
        match self.local {
            Some((a, b)) => Some(slice(self.source, a, b)),
            None => None,
        }
    }
}

/// A forward walk over the records of one list, in the order the scanner linked them.
pub struct ResultIter<'a, T> {
    items: &'a [T],
    pos: usize,
}

impl<'a, T> ResultIter<'a, T> {
    #[verifier::type_invariant]
    spec fn well_formed(self) -> bool {
        self.pos <= self.items@.len()
    }

    /// The records still to come.
    pub closed spec fn view(self) -> Seq<T> {
        self.items@.subrange(self.pos as int, self.items@.len() as int)
    }

    fn over(items: &'a [T]) -> (r: ResultIter<'a, T>)
        ensures
            r@ == items@,
    {
        let r = ResultIter { items, pos: 0 };
        assert(r@ =~= items@);
        r
    }

    /// The next record, or `None` once the list is done.
    pub fn next(&mut self) -> (r: Option<&'a T>)
        ensures
            old(self)@.len() == 0 ==> r is None && final(self)@ == old(self)@,
            old(self)@.len() > 0 ==> r == Some(&old(self)@[0]) && final(self)@ == old(
                self,
            )@.drop_first(),
    {
        proof {
            use_type_invariant(&*self);
        }
        if self.pos >= self.items.len() {
            return None;
        }
        let items: &'a [T] = self.items;
        let item = &items[self.pos];
        self.pos = self.pos + 1;
        assert(self@ =~= old(self)@.drop_first());
        Some(item)
    }
}

/// The outcome of one successful scan: the import and export records, in the order found.
pub struct LexResult<'a> {
    imports: Vec<Import<'a>>,
    exports: Vec<Export<'a>>,
}

impl<'a> LexResult<'a> {
    pub closed spec fn import_records(self) -> Seq<Import<'a>> {
        self.imports@
    }

    pub closed spec fn export_records(self) -> Seq<Export<'a>> {
        self.exports@
    }

    /// What a scan comes to: its records where it succeeded, its error code where it did not.
    pub fn from_scan(
        succeeded: bool,
        error_code: u32,
        imports: Vec<Import<'a>>,
        exports: Vec<Export<'a>>,
    ) -> (r: Result<LexResult<'a>, usize>)
        ensures
            succeeded ==> (r matches Ok(res) && res.import_records() == imports@
                && res.export_records() == exports@),
            !succeeded ==> r == Err::<LexResult<'a>, usize>(error_code as usize),
    {
        if succeeded {
            Ok(LexResult { imports, exports })
        } else {
            Err(error_code as usize)
        }
    }

    pub fn imports(&self) -> (r: ResultIter<'_, Import<'a>>)
        ensures
            r@ == self.import_records(),
    {
        ResultIter::over(self.imports.as_slice())
    }

    pub fn exports(&self) -> (r: ResultIter<'_, Export<'a>>)
        ensures
            r@ == self.export_records(),
    {
        ResultIter::over(self.exports.as_slice())
    }
}

} // verus!
