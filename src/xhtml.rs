use vstd::prelude::*;
use vstd::string::StringSliceAdditionalSpecFns;
use vstd::slice::slice_subrange;

use crate::error::Error;
use crate::iter::{close_to, found_in, yields, TagIter};

verus! {

/// Whether a tag opens an element, closes one, or stands alone (`<br/>`).
#[derive(Debug, Clone, Copy, PartialEq, Eq, Structural)]
pub enum TType {
    Opening,
    Closing,
    SelfClosing,
}

/// A tag found in `source`: a view into it that copies nothing.
#[derive(Debug, Clone, Copy, PartialEq, Eq)]
pub struct Tag<'src> {
    pub name: &'src [u8],
    pub source: &'src [u8],
    /// Offset of the tag's `<`.
    pub start: usize,
    /// Offset just past the tag's `>`.
    pub end: usize,
    /// The text between the previous scan position and this tag.
    pub before_text: &'src [u8],
    pub kind: TType,
}

impl<'src> Tag<'src> {
    /// The tag lies inside its source.
    pub open spec fn wf(&self) -> bool {
        &&& self.start <= self.end <= self.source@.len()
    }

    /// The first element named `tag` in `source`.
    pub fn get_first(source: &'src [u8], tag: &str) -> (r: Result<Option<Self>, Error>)
        ensures
            exists|st: Seq<(int, Seq<u8>)>, p: int|
                yields(source@, seq![(0int, Seq::<u8>::empty())], 0, seq![tag], true, r, st, p),
            r matches Ok(Some(t)) ==> t.kind != TType::Closing && found_in(t, source@) && t.wf()
                && t.name@ == tag.spec_bytes(),
    {
        let root = Tag::root(source);
        assert(root.name@ =~= Seq::<u8>::empty());
        let mut it = root.iter();
        let targets = vec![tag];
        assert(targets@ =~= seq![tag]);
        assert(it.frames() =~= seq![(0int, Seq::<u8>::empty())]);
        let r = it.next_by_el(targets.as_slice());
        assert(targets@[0] == tag);
        r
    }

    /// The first element named `tag` below this one.
    pub fn get_first_child(&self, tag: &str) -> (r: Result<Option<Self>, Error>)
        requires
            self.wf(),
        ensures
            self.kind != TType::Opening ==> r == Ok::<Option<Self>, Error>(None),
            self.kind == TType::Opening ==> exists|st: Seq<(int, Seq<u8>)>, p: int|
                yields(
                    self.source@,
                    seq![(self.end as int, self.name@)],
                    self.end as int,
                    seq![tag],
                    true,
                    r,
                    st,
                    p,
                ),
            r matches Ok(Some(t)) ==> t.kind != TType::Closing && found_in(t, self.source@)
                && t.wf() && t.name@ == tag.spec_bytes(),
    {
        let mut it = self.iter();
        let targets = vec![tag];
        assert(targets@ =~= seq![tag]);
        let r = it.next_by_el(targets.as_slice());
        assert(targets@[0] == tag);
        r
    }

    /// The tag that closes this one's element, and the text between the two.
    /// A self-closing tag is its own end, with nothing inside.
    pub fn get_end(&self) -> (r: Result<(Tag<'src>, &'src [u8]), Error>)
        requires
            self.wf(),
        ensures
            self.kind == TType::SelfClosing ==> (r matches Ok((t, inner)) && t == *self
                && inner@.len() == 0),
            self.kind == TType::Closing ==> r == Err::<(Tag<'src>, &'src [u8]), Error>(
                Error::UnexpectedEof,
            ),
            self.kind == TType::Opening ==> exists|fuel: nat|
                match #[trigger] close_to(
                    self.source@,
                    seq![(self.end as int, self.name@)],
                    self.end as int,
                    0,
                    fuel,
                ) {
                    Some(Ok((m, from, st, p))) => r matches Ok((t, inner)) && tag_is(
                        t,
                        self.source@,
                        from,
                        m,
                    ) && inner@ == self.source@.subrange(self.end as int, m.start),
                    Some(Err(e)) => r == Err::<(Tag<'src>, &'src [u8]), Error>(e),
                    None => false,
                },
            self.kind == TType::Opening ==> (r matches Ok((t, inner)) ==> found_in(t, self.source@)
                && t.kind == TType::Closing
                && t.name@ == self.name@ && self.end <= t.start && t.wf() && t.source@
                == self.source@ && inner@ == self.source@.subrange(self.end as int, t.start as int)),
    {
        let mut it = self.iter();
        assert(crate::iter::is_first_open(it.frames(), self.end as int, self.name@, 0));
        match it.step_out(self) {
            Err(e) => Err(e),
            Ok(Some(x)) => Ok(x),
            Ok(None) => Ok((*self, slice_subrange(self.source, self.end, self.end))),
        }
    }

    /// The value of the attribute `target_attr`.
    pub fn get_attr(&self, target_attr: &str) -> (r: Result<Option<&'src [u8]>, Error>)
        requires
            self.wf(),
        ensures
            attr_result_is(
                r,
                parse_attr_spec(
                    self.source@.subrange(self.start as int, self.end as int),
                    target_attr.spec_bytes(),
                ),
            ),
    {
        parse_attr(self.repr(), target_attr)
    }

    /// The text between this tag and `tag`, whichever comes first.
    pub fn span_with(&self, tag: &Tag) -> (r: &'src [u8])
        requires
            self.wf(),
            tag.wf(),
            tag.source@ == self.source@,
            self.end <= tag.start || tag.end <= self.start,
        ensures
            self.end <= tag.start ==> r@ == self.source@.subrange(self.end as int, tag.start as int),
            !(self.end <= tag.start) ==> r@ == self.source@.subrange(tag.end as int, self.start as int),
    {
        if self.end <= tag.start {
            slice_subrange(self.source, self.end, tag.start)
        } else {
            slice_subrange(self.source, tag.end, self.start)
        }
    }

    /// The synthetic tag that stands for the whole of `source`: an opening tag
    /// with an empty name, before the first byte.
    pub fn root(source: &'src [u8]) -> (r: Self)
        ensures
            r.wf(),
            r.name@.len() == 0,
            r.source == source,
            r.start == 0 && r.end == 0,
            r.before_text@.len() == 0,
            r.kind == TType::Opening,
    {
        Tag {
            name: slice_subrange(source, 0, 0),
            source,
            start: 0,
            end: 0,
            before_text: slice_subrange(source, 0, 0),
            kind: TType::Opening,
        }
    }

    /// A cursor over the tags after this one, with this one open.
    pub fn iter(&self) -> (r: TagIter<'src>)
        requires
            self.wf(),
        ensures
            r.wf(),
            r.root == *self,
            r.pos == self.end,
            r.frames() == seq![(self.end as int, self.name@)],
    {
        TagIter::new(self)
    }

    /// Offset of the tag's `<`.
    pub fn before(&self) -> (r: usize)
        ensures
            r == self.start,
    {
        self.start
    }

    /// Offset just past the tag's `>`.
    pub fn after(&self) -> (r: usize)
        ensures
            r == self.end,
    {
        self.end
    }

    /// The tag's own markup, from `<` to `>`.
    pub fn repr(&self) -> (r: &'src [u8])
        requires
            self.wf(),
        ensures
            r@ == self.source@.subrange(self.start as int, self.end as int),
    {
        slice_subrange(self.source, self.start, self.end)
    }

    /// The tag's span.
    pub fn span(&self) -> (r: std::ops::Range<usize>)
        ensures
            r.start == self.start && r.end == self.end,
    {
        self.start..self.end
    }
}

/// Where the parts of a tag lie in its source, as the tokenizer defines them.
pub ghost struct TagModel {
    pub name_start: int,
    pub name_end: int,
    pub start: int,
    pub end: int,
    pub kind: TType,
}

/// The first position at or after `from` whose byte satisfies `p`.
pub open spec fn find_from(s: Seq<u8>, from: int, p: spec_fn(u8) -> bool) -> Option<int>
    decreases s.len() - from,
{
    if from < 0 || from >= s.len() {
        None
    } else if p(s[from]) {
        Some(from)
    } else {
        find_from(s, from + 1, p)
    }
}

pub open spec fn is_lt(b: u8) -> bool {
    b == 60u8
}

/// The bytes that end a tag name.
pub open spec fn is_name_end(b: u8) -> bool {
    b == 32u8 || b == 47u8 || b == 9u8 || b == 10u8 || b == 13u8 || b == 62u8
}

/// The position of the `>` that ends a tag, scanning from `pos`; `q` is the
/// quotation mark of the attribute value the scan is inside, if any. Inside
/// quotes `<` and `>` are inert, and a backslash keeps a quotation mark from
/// closing the value.
pub open spec fn tag_close(s: Seq<u8>, pos: int, q: Option<u8>) -> Option<int>
    decreases s.len() - pos,
{
    if pos < 0 || pos >= s.len() {
        None
    } else {
        match q {
            None => if s[pos] == 62u8 {
                Some(pos)
            } else if is_quote(s[pos]) {
                tag_close(s, pos + 1, Some(s[pos]))
            } else {
                tag_close(s, pos + 1, None)
            },
            Some(qq) => if closes_quote(s, qq, pos) {
                tag_close(s, pos + 1, None)
            } else {
                tag_close(s, pos + 1, Some(qq))
            },
        }
    }
}

/// The next tag of `s` at or after `offset`: `Ok(None)` when no `<` is left.
pub open spec fn parse_tag_spec(s: Seq<u8>, offset: int) -> Result<Option<TagModel>, Error> {
    match find_from(s, offset, |b: u8| is_lt(b)) {
        None => Ok(None),
        Some(start) => if start + 1 >= s.len() {
            Err(Error::TagNameUnterminated)
        } else {
            let closing = s[start + 1] == 47u8;
            let name_start = if closing { start + 2 } else { start + 1 };
            match find_from(s, name_start, |b: u8| is_name_end(b)) {
                None => Err(Error::TagNameUnterminated),
                Some(name_end) => match tag_close(s, name_end, None) {
                    None => Err(Error::TagUnterminated),
                    Some(gt) => {
                        let self_closing = s[gt - 1] == 47u8;
                        if closing && self_closing {
                            Err(Error::MixedClosingMarks)
                        } else {
                            Ok(Some(TagModel {
                                name_start,
                                name_end,
                                start,
                                end: gt + 1,
                                kind: if closing {
                                    TType::Closing
                                } else if self_closing {
                                    TType::SelfClosing
                                } else {
                                    TType::Opening
                                },
                            }))
                        }
                    },
                },
            }
        },
    }
}

/// `t` is the tag that `m` describes in `s`, scanned from `offset`.
pub open spec fn tag_is(t: Tag, s: Seq<u8>, offset: int, m: TagModel) -> bool {
    &&& t.source@ == s
    &&& t.name@ == s.subrange(m.name_start, m.name_end)
    &&& t.start == m.start
    &&& t.end == m.end
    &&& t.before_text@ == s.subrange(offset, m.start)
    &&& t.kind == m.kind
}

pub open spec fn is_quote(b: u8) -> bool {
    b == 34u8 || b == 39u8
}

/// Position of the first quotation mark in `s`.
pub open spec fn first_quote_at(s: Seq<u8>, i: int) -> bool {
    0 <= i < s.len() && is_quote(s[i]) && forall|k: int| 0 <= k < i ==> !is_quote(#[trigger] s[k])
}

/// `j` holds a quotation mark `q` that no backslash escapes.
pub open spec fn closes_quote(s: Seq<u8>, q: u8, j: int) -> bool {
    1 <= j < s.len() && s[j] == q && s[j - 1] != 92u8
}

/// The first position after `from` that closes a quotation opened with `q`.
pub open spec fn first_close_at(s: Seq<u8>, q: u8, from: int, j: int) -> bool {
    from < j && closes_quote(s, q, j) && forall|k: int| from < k < j ==> !closes_quote(s, q, k)
}

/// The first position at or after `j` that closes a quotation opened with `q`.
pub open spec fn find_close(s: Seq<u8>, q: u8, j: int) -> Option<int>
    decreases s.len() - j,
{
    if j < 1 || j >= s.len() {
        None
    } else if closes_quote(s, q, j) {
        Some(j)
    } else {
        find_close(s, q, j + 1)
    }
}

/// The first quoted section of `s`, quotation marks included.
pub open spec fn quote_span(s: Seq<u8>) -> Option<(int, int)> {
    match find_from(s, 0, |b: u8| is_quote(b)) {
        None => None,
        Some(i) => match find_close(s, s[i], i + 1) {
            None => None,
            Some(j) => Some((i, j + 1)),
        },
    }
}

/// Finds the first quoted section of `source`: from its opening quotation mark
/// up to and including the first matching mark that no backslash precedes.
pub fn parse_quotes(source: &[u8]) -> (r: Result<std::ops::Range<usize>, Error>)
    ensures
        match r {
            Ok(rg) => first_quote_at(source@, rg.start as int) && first_close_at(
                source@,
                source@[rg.start as int],
                rg.start as int,
                rg.end - 1,
            ),
            Err(e) => e == Error::TagUnterminated && forall|i: int|
                first_quote_at(source@, i) ==> forall|j: int|
                    !first_close_at(source@, source@[i], i, j),
        },
        match (r, quote_span(source@)) {
            (Ok(rg), Some((a, b))) => rg.start == a && rg.end == b,
            (Err(_), None) => true,
            _ => false,
        },
{
    let mut start: usize = 0;
    while start < source.len() && !(source[start] == 34u8 || source[start] == 39u8)
        invariant
            start <= source@.len(),
            forall|k: int| 0 <= k < start ==> !is_quote(#[trigger] source@[k]),
            find_from(source@, 0, |b: u8| is_quote(b)) == find_from(
                source@,
                start as int,
                |b: u8| is_quote(b),
            ),
        decreases source.len() - start,
    {
        start += 1;
    }
    if start == source.len() {
        return Err(Error::TagUnterminated);
    }
    let q = source[start];
    let mut pos: usize = start + 1;
    while pos < source.len() && !(source[pos] == q && source[pos - 1] != 92u8)
        invariant
            first_quote_at(source@, start as int),
            q == source@[start as int],
            start < pos <= source@.len(),
            forall|k: int| start < k < pos ==> !closes_quote(source@, q, k),
            find_from(source@, 0, |b: u8| is_quote(b)) == Some(start as int),
            find_close(source@, q, start + 1) == find_close(source@, q, pos as int),
        decreases source.len() - pos,
    {
        pos += 1;
    }
    if pos == source.len() {
        proof {
            assert forall|i: int| first_quote_at(source@, i) implies forall|j: int|
                !first_close_at(source@, source@[i], i, j) by {
                assert(i == start);
            }
        }
        return Err(Error::TagUnterminated);
    }
    Ok(start..pos + 1)
}


pub open spec fn model_name(s: Seq<u8>, m: TagModel) -> Seq<u8> {
    s.subrange(m.name_start, m.name_end)
}

/// A tag found by `parse_tag_spec` lies after the offset it was sought from,
/// inside the source, and its name inside the tag.
pub proof fn lemma_parse_tag_bounds(s: Seq<u8>, offset: int)
    requires
        0 <= offset <= s.len(),
    ensures
        parse_tag_spec(s, offset) matches Ok(Some(m)) ==> offset <= m.start < m.name_start
            <= m.name_end < m.end <= s.len(),
{
    lemma_find_from_bounds(s, offset, |b: u8| is_lt(b));
    if let Some(start) = find_from(s, offset, |b: u8| is_lt(b)) {
        if start + 1 < s.len() {
            let closing = s[start + 1] == 47u8;
            let name_start = if closing { start + 2 } else { start + 1 };
            lemma_find_from_bounds(s, name_start, |b: u8| is_name_end(b));
            if let Some(name_end) = find_from(s, name_start, |b: u8| is_name_end(b)) {
                lemma_tag_close_bounds(s, name_end, None);
            }
        }
    }
}

pub proof fn lemma_find_from_bounds(s: Seq<u8>, from: int, p: spec_fn(u8) -> bool)
    ensures
        find_from(s, from, p) matches Some(i) ==> from <= i < s.len() && p(s[i]),
    decreases s.len() - from,
{
    if 0 <= from < s.len() && !p(s[from]) {
        lemma_find_from_bounds(s, from + 1, p);
    }
}

pub proof fn lemma_tag_close_bounds(s: Seq<u8>, pos: int, q: Option<u8>)
    ensures
        tag_close(s, pos, q) matches Some(i) ==> pos <= i < s.len(),
    decreases s.len() - pos,
{
    if 0 <= pos < s.len() {
        lemma_tag_close_bounds(s, pos + 1, None);
        if pos < s.len() {
            lemma_tag_close_bounds(s, pos + 1, Some(s[pos]));
        }
        if let Some(qq) = q {
            lemma_tag_close_bounds(s, pos + 1, Some(qq));
        }
    }
}

pub open spec fn is_ws(b: u8) -> bool {
    b == 32u8 || b == 9u8 || b == 10u8 || b == 13u8
}

/// Bytes that may stand in an attribute name.
pub open spec fn is_attr_name_char(b: u8) -> bool {
    !(is_ws(b) || b == 61u8 || b == 62u8 || b == 47u8 || b == 39u8 || b == 34u8)
}

/// The first position at or after `pos` whose byte does not satisfy `p`
/// (the end of `s`, if none).
pub open spec fn skip_while(s: Seq<u8>, pos: int, p: spec_fn(u8) -> bool) -> int
    decreases s.len() - pos,
{
    if pos < 0 || pos >= s.len() {
        pos
    } else if p(s[pos]) {
        skip_while(s, pos + 1, p)
    } else {
        pos
    }
}

/// The attribute list of a tag's inner text `s`, read from `pos` until
/// `target` comes: `name="value"`, `name='value'`, or a bare `name`, which is
/// its own value. A byte that starts none of them is passed over.
pub open spec fn attr_scan(s: Seq<u8>, pos: int, target: Seq<u8>) -> Result<
    Option<Seq<u8>>,
    Error,
>
    decreases s.len() - pos,
{
    if pos < 0 || pos >= s.len() {
        Ok(None)
    } else {
        let pos1 = skip_while(s, pos, |b: u8| is_ws(b));
        let ne = skip_while(s, pos1, |b: u8| is_attr_name_char(b));
        let pos2 = skip_while(s, ne, |b: u8| is_ws(b));
        let name = s.subrange(pos1, ne);
        if pos2 < s.len() && s[pos2] == 61u8 {
            match quote_span(s.subrange(pos2 + 1, s.len() as int)) {
                None => Err(Error::TagUnterminated),
                Some((a, b)) => if name == target {
                    Ok(Some(s.subrange(pos2 + 1 + a + 1, pos2 + 1 + b - 1)))
                } else {
                    let next = pos2 + 1 + b;
                    attr_scan(s, if next > s.len() { s.len() as int } else if next > pos { next } else { pos + 1 }, target)
                },
            }
        } else if name == target {
            Ok(Some(name))
        } else {
            attr_scan(s, if pos2 > s.len() { s.len() as int } else if pos2 > pos { pos2 } else { pos + 1 }, target)
        }
    }
}

/// The value of attribute `target` in the markup `tag` of one tag, `<` to `>`.
pub open spec fn parse_attr_spec(tag: Seq<u8>, target: Seq<u8>) -> Result<Option<Seq<u8>>, Error> {
    if tag.len() < 2 {
        Ok(None)
    } else {
    let inner = tag.subrange(1, tag.len() - 1);
    attr_scan(inner, skip_while(inner, 0, |b: u8| is_attr_name_char(b)), target)
    }
}

pub open spec fn attr_result_is(r: Result<Option<&[u8]>, Error>, v: Result<Option<Seq<u8>>, Error>) -> bool {
    match (r, v) {
        (Ok(None), Ok(None)) => true,
        (Ok(Some(a)), Ok(Some(b))) => a@ == b,
        (Err(e), Err(f)) => e == f,
        _ => false,
    }
}

fn skip_ws(s: &[u8], pos: usize) -> (r: usize)
    requires
        pos <= s@.len(),
    ensures
        r == skip_while(s@, pos as int, |b: u8| is_ws(b)),
        pos <= r <= s@.len(),
{
    let mut i = pos;
    while i < s.len() && (s[i] == 32u8 || s[i] == 9u8 || s[i] == 10u8 || s[i] == 13u8)
        invariant
            pos <= i <= s@.len(),
            skip_while(s@, pos as int, |b: u8| is_ws(b)) == skip_while(s@, i as int, |b: u8| is_ws(b)),
        decreases s.len() - i,
    {
        i += 1;
    }
    i
}

fn skip_attr_name(s: &[u8], pos: usize) -> (r: usize)
    requires
        pos <= s@.len(),
    ensures
        r == skip_while(s@, pos as int, |b: u8| is_attr_name_char(b)),
        pos <= r <= s@.len(),
{
    let mut i = pos;
    while i < s.len() && !(s[i] == 32u8 || s[i] == 9u8 || s[i] == 10u8 || s[i] == 13u8 || s[i]
        == 61u8 || s[i] == 62u8 || s[i] == 47u8 || s[i] == 39u8 || s[i] == 34u8)
        invariant
            pos <= i <= s@.len(),
            skip_while(s@, pos as int, |b: u8| is_attr_name_char(b)) == skip_while(
                s@,
                i as int,
                |b: u8| is_attr_name_char(b),
            ),
        decreases s.len() - i,
    {
        i += 1;
    }
    i
}

/// Reads the value of the attribute `target_attr` from the markup of one tag,
/// `<` to `>`. The tag's own name is passed over first.
pub fn parse_attr<'a>(source: &'a [u8], target_attr: &str) -> (r: Result<Option<&'a [u8]>, Error>)
    ensures
        attr_result_is(r, parse_attr_spec(source@, target_attr.spec_bytes())),
{
    if source.len() < 2 {
        return Ok(None);
    }
    let target = target_attr.as_bytes();
    let inner = slice_subrange(source, 1, source.len() - 1);
    let n = inner.len();
    let mut pos = skip_attr_name(inner, 0);
    while pos < n
        invariant
            n == inner@.len(),
            inner@ == source@.subrange(1, source@.len() - 1),
            pos <= n,
            target@ == target_attr.spec_bytes(),
            parse_attr_spec(source@, target@) == attr_scan(inner@, pos as int, target@),
        decreases n - pos,
    {
        let pos1 = skip_ws(inner, pos);
        let ne = skip_attr_name(inner, pos1);
        let pos2 = skip_ws(inner, ne);
        let name = slice_subrange(inner, pos1, ne);
        let is_target = crate::bytes::bytes_eq(name, target);
        if pos2 < n && inner[pos2] == 61u8 {
            let rest = slice_subrange(inner, pos2 + 1, n);
            let q = match parse_quotes(rest) {
                Ok(q) => q,
                Err(e) => return Err(e),
            };
            if is_target {
                assert(rest@ == inner@.subrange(pos2 + 1, n as int));
                let v = slice_subrange(inner, pos2 + 1 + q.start + 1, pos2 + 1 + q.end - 1);
                assert(v@ =~= inner@.subrange(pos2 + 1 + q.start + 1, pos2 + 1 + q.end - 1));
                return Ok(Some(v));
            }
            let next = pos2 + 1 + q.end;
            pos = if next > n { n } else if next > pos { next } else { pos + 1 };
        } else {
            if is_target {
                return Ok(Some(name));
            }
            pos = if pos2 > n { n } else if pos2 > pos { pos2 } else { pos + 1 };
        }
    }
    Ok(None)
}

/// Reads the next tag of `source` at or after `offset`.
pub fn parse_tag<'src>(source: &'src [u8], offset: usize) -> (r: Result<Option<Tag<'src>>, Error>)
    requires
        offset <= source@.len(),
    ensures
        match (r, parse_tag_spec(source@, offset as int)) {
            (Ok(None), Ok(None)) => true,
            (Ok(Some(t)), Ok(Some(m))) => tag_is(t, source@, offset as int, m),
            (Err(e), Err(f)) => e == f,
            _ => false,
        },
        r matches Ok(Some(t)) ==> t.wf() && offset <= t.start,
{
    proof {
        lemma_parse_tag_bounds(source@, offset as int);
    }
    let s = Ghost(source@);
    let len = source.len();
    let mut start: usize = offset;
    while start < len && source[start] != 60u8
        invariant
            offset <= start <= len == s@.len(),
            s@ == source@,
            find_from(s@, offset as int, |b: u8| is_lt(b)) == find_from(
                s@,
                start as int,
                |b: u8| is_lt(b),
            ),
        decreases len - start,
    {
        start += 1;
    }
    if start == len {
        return Ok(None);
    }
    if start + 1 >= len {
        return Err(Error::TagNameUnterminated);
    }
    let closing = source[start + 1] == 47u8;
    let name_start: usize = if closing { start + 2 } else { start + 1 };
    let mut name_end: usize = name_start;
    while name_end < len && !(source[name_end] == 32u8 || source[name_end] == 47u8
        || source[name_end] == 9u8 || source[name_end] == 10u8 || source[name_end] == 13u8
        || source[name_end] == 62u8)
        invariant
            name_start <= name_end <= len == s@.len(),
            s@ == source@,
            find_from(s@, name_start as int, |b: u8| is_name_end(b)) == find_from(
                s@,
                name_end as int,
                |b: u8| is_name_end(b),
            ),
        decreases len - name_end,
    {
        name_end += 1;
    }
    if name_end == len {
        return Err(Error::TagNameUnterminated);
    }
    let mut pos: usize = name_end;
    let mut quote: Option<u8> = None;
    loop
        invariant
            name_end <= pos <= len == s@.len(),
            s@ == source@,
            tag_close(s@, name_end as int, None) == tag_close(s@, pos as int, quote),
            find_from(s@, name_start as int, |b: u8| is_name_end(b)) == Some(name_end as int),
            find_from(s@, offset as int, |b: u8| is_lt(b)) == Some(start as int),
            start + 1 < len,
            closing == (s@[start + 1] == 47u8),
            name_start == if closing { start + 2 } else { start + 1 },
        ensures
            pos < len,
            tag_close(s@, name_end as int, None) == Some(pos as int),
        decreases len - pos,
    {
        if pos == len {
            return Err(Error::TagUnterminated);
        }
        let b = source[pos];
        match quote {
            None => {
                if b == 62u8 {
                    break;
                } else if b == 34u8 || b == 39u8 {
                    quote = Some(b);
                }
            },
            Some(q) => {
                if pos >= 1 && b == q && source[pos - 1] != 92u8 {
                    quote = None;
                }
            },
        }
        pos += 1;
    }
    let self_closing = source[pos - 1] == 47u8;
    let kind = if closing {
        if self_closing {
            return Err(Error::MixedClosingMarks);
        }
        TType::Closing
    } else if self_closing {
        TType::SelfClosing
    } else {
        TType::Opening
    };
    Ok(
        Some(
            Tag {
                name: slice_subrange(source, name_start, name_end),
                source,
                start,
                end: pos + 1,
                before_text: slice_subrange(source, offset, start),
                kind,
            },
        ),
    )
}

} // verus!

verus! {

/// `s` begins with `p`.
pub open spec fn starts_with(s: Seq<u8>, p: Seq<u8>) -> bool {
    p.len() <= s.len() && s.subrange(0, p.len() as int) == p
}

/// `s` with the entities `&amp;`, `&lt;` and `&gt;` replaced by the
/// characters they stand for; any other `&` stays as it is.
pub open spec fn de_entitified(s: Seq<u8>) -> Seq<u8>
    decreases s.len(),
{
    if s.len() == 0 {
        Seq::empty()
    } else if s[0] == 38u8 && starts_with(s, seq![38u8, 97u8, 109u8, 112u8, 59u8]) {
        seq![38u8] + de_entitified(s.subrange(5, s.len() as int))
    } else if s[0] == 38u8 && starts_with(s, seq![38u8, 108u8, 116u8, 59u8]) {
        seq![60u8] + de_entitified(s.subrange(4, s.len() as int))
    } else if s[0] == 38u8 && starts_with(s, seq![38u8, 103u8, 116u8, 59u8]) {
        seq![62u8] + de_entitified(s.subrange(4, s.len() as int))
    } else {
        seq![s[0]] + de_entitified(s.subrange(1, s.len() as int))
    }
}

/// Whether `s` holds `p` at `i`.
fn holds_at(s: &[u8], i: usize, p: &[u8]) -> (r: bool)
    requires
        i <= s@.len(),
    ensures
        r == starts_with(s@.subrange(i as int, s@.len() as int), p@),
{
    if p.len() > s.len() - i {
        return false;
    }
    let n = s.len();
    let mut k: usize = 0;
    while k < p.len()
        invariant
            n == s@.len(),
            p@.len() <= s@.len() - i,
            i <= s@.len(),
            k <= p@.len(),
            forall|j: int| 0 <= j < k ==> s@[i + j] == p@[j],
        decreases p.len() - k,
    {
        if s[i + k] != p[k] {
            assert(s@.subrange(i as int, s@.len() as int).subrange(0, p@.len() as int)[k as int]
                != p@[k as int]);
            return false;
        }
        k += 1;
    }
    assert(s@.subrange(i as int, s@.len() as int).subrange(0, p@.len() as int) =~= p@);
    true
}

/// Replaces the entities `&amp;`, `&lt;` and `&gt;` of `s`.
pub fn de_entitify(s: &[u8]) -> (r: Vec<u8>)
    ensures
        r@ == de_entitified(s@),
{
    let amp: [u8; 5] = [38u8, 97u8, 109u8, 112u8, 59u8];
    let lt: [u8; 4] = [38u8, 108u8, 116u8, 59u8];
    let gt: [u8; 4] = [38u8, 103u8, 116u8, 59u8];
    assert(amp@ =~= seq![38u8, 97u8, 109u8, 112u8, 59u8]);
    assert(lt@ =~= seq![38u8, 108u8, 116u8, 59u8]);
    assert(gt@ =~= seq![38u8, 103u8, 116u8, 59u8]);
    let mut out: Vec<u8> = Vec::new();
    let mut i: usize = 0;
    assert(s@.subrange(0, s@.len() as int) =~= s@);
    assert(out@ + de_entitified(s@) =~= de_entitified(s@));
    while i < s.len()
        invariant
            i <= s@.len(),
            amp@ == seq![38u8, 97u8, 109u8, 112u8, 59u8],
            lt@ == seq![38u8, 108u8, 116u8, 59u8],
            gt@ == seq![38u8, 103u8, 116u8, 59u8],
            out@ + de_entitified(s@.subrange(i as int, s@.len() as int)) == de_entitified(s@),
        decreases s.len() - i,
    {
        let ghost rest = s@.subrange(i as int, s@.len() as int);
        let ghost old_out = out@;
        let c = s[i];
        if c == 38u8 && holds_at(s, i, &amp) {
            assert(rest.subrange(5, rest.len() as int) =~= s@.subrange(i + 5, s@.len() as int));
            out.push(38u8);
            i += 5;
        } else if c == 38u8 && holds_at(s, i, &lt) {
            assert(rest.subrange(4, rest.len() as int) =~= s@.subrange(i + 4, s@.len() as int));
            out.push(60u8);
            i += 4;
        } else if c == 38u8 && holds_at(s, i, &gt) {
            assert(rest.subrange(4, rest.len() as int) =~= s@.subrange(i + 4, s@.len() as int));
            out.push(62u8);
            i += 4;
        } else {
            assert(rest.subrange(1, rest.len() as int) =~= s@.subrange(i + 1, s@.len() as int));
            out.push(c);
            i += 1;
        }
        proof {
            let d = de_entitified(s@.subrange(i as int, s@.len() as int));
            assert(out@ =~= old_out + seq![out@.last()]);
            assert(out@ + d =~= old_out + (seq![out@.last()] + d));
        }
    }
    assert(out@ =~= out@ + de_entitified(s@.subrange(i as int, s@.len() as int)));
    out
}

} // verus!
