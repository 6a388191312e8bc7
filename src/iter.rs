use vstd::prelude::*;
use vstd::slice::slice_subrange;
use vstd::string::StringSliceAdditionalSpecFns;

use crate::bytes::bytes_eq;
use crate::error::Error;
use crate::xhtml::{
    lemma_parse_tag_bounds, model_name, parse_tag, parse_tag_spec, tag_is, TType, Tag, TagModel,
};

verus! {

/// An open element on the cursor's stack: the offset just past its opening
/// tag, and its name.
pub type Frame = (int, Seq<u8>);

/// What one step of the cursor yields: the tag, the new stack, the new position.
pub type Stepped = (TagModel, Seq<Frame>, int);

/// The synthetic closing tag that ends the input when only the root is open.
pub open spec fn eof_tag(s: Seq<u8>) -> TagModel {
    TagModel {
        name_start: s.len() as int,
        name_end: s.len() as int,
        start: s.len() as int,
        end: s.len() as int,
        kind: TType::Closing,
    }
}

/// One step of the cursor over `s` from `pos`, with `stack` open: the next
/// tag, and the stack with an opening tag pushed or a closing tag's element
/// popped. A closing tag must close the innermost open element. At the end of
/// the input only the synthetic root (empty name) may remain open, as the
/// sole frame; it is closed by a synthetic closing tag.
pub open spec fn step(s: Seq<u8>, stack: Seq<Frame>, pos: int) -> Result<Stepped, Error> {
    match parse_tag_spec(s, pos) {
        Err(e) => Err(e),
        Ok(None) => if stack.len() == 1 && stack[0].1 == Seq::<u8>::empty() {
            Ok((eof_tag(s), stack.drop_last(), s.len() as int))
        } else {
            Err(Error::UnexpectedEof)
        },
        Ok(Some(m)) => match m.kind {
            TType::Opening => Ok((m, stack.push((m.end, model_name(s, m))), m.end)),
            TType::Closing => if stack.len() > 0 && stack.last().1 == model_name(s, m) {
                Ok((m, stack.drop_last(), m.end))
            } else {
                Err(Error::ClosingMismatch)
            },
            TType::SelfClosing => Ok((m, stack, m.end)),
        },
    }
}

/// `name` is one of `targets`, or `targets` is empty (any name).
pub open spec fn is_target(name: Seq<u8>, targets: Seq<&str>) -> bool {
    targets.len() == 0 || exists|i: int| 0 <= i < targets.len() && targets[i].spec_bytes() == name
}

/// The cursor advanced until it yields a tag whose name is among `targets`
/// (and, with `elements_only`, that is not a closing tag), within `fuel`
/// steps (`None`: not within them). The tag comes with the position its step
/// started from. `Ok((None, ..))`: the stack emptied first.
pub open spec fn advance(
    s: Seq<u8>,
    stack: Seq<Frame>,
    pos: int,
    targets: Seq<&str>,
    elements_only: bool,
    fuel: nat,
) -> Option<Result<(Option<(TagModel, int)>, Seq<Frame>, int), Error>>
    decreases fuel,
{
    if fuel == 0 {
        None
    } else if stack.len() == 0 {
        Some(Ok((None, stack, pos)))
    } else {
        match step(s, stack, pos) {
            Err(e) => Some(Err(e)),
            Ok((m, st, p)) => if is_target(model_name(s, m), targets) && !(elements_only
                && m.kind == TType::Closing) {
                Some(Ok((Some((m, pos)), st, p)))
            } else {
                advance(s, st, p, targets, elements_only, (fuel - 1) as nat)
            },
        }
    }
}

/// `m` is a tag that the tokenizer reads from `s` at some offset.
pub open spec fn is_tag_at(s: Seq<u8>, m: TagModel) -> bool {
    exists|off: int| 0 <= off <= s.len() && parse_tag_spec(s, off) == Ok::<Option<TagModel>, Error>(Some(m))
}

/// `t` is a tag of `s`, as the tokenizer reads it, or the synthetic tag
/// that ends `s`.
pub open spec fn found_in(t: Tag, s: Seq<u8>) -> bool {
    exists|m: TagModel, from: int|
        0 <= from <= s.len() && tag_is(t, s, from, m) && (is_tag_at(s, m) || m == eof_tag(s))
}

/// Every tag the cursor yields is read from its source by the tokenizer, or
/// is the synthetic end tag.
pub proof fn lemma_advance_parsed(
    s: Seq<u8>,
    stack: Seq<Frame>,
    pos: int,
    targets: Seq<&str>,
    elements_only: bool,
    fuel: nat,
)
    requires
        0 <= pos <= s.len(),
    ensures
        advance(s, stack, pos, targets, elements_only, fuel) matches Some(
            Ok((Some((m, from)), _, _)),
        ) ==> 0 <= from <= s.len() && (is_tag_at(s, m) || m == eof_tag(s)),
    decreases fuel,
{
    lemma_parse_tag_bounds(s, pos);
    if fuel > 0 && stack.len() > 0 {
        if let Ok((m, st, p)) = step(s, stack, pos) {
            if let Ok(Some(m2)) = parse_tag_spec(s, pos) {
                assert(is_tag_at(s, m2));
            }
            lemma_advance_parsed(s, st, p, targets, elements_only, (fuel - 1) as nat);
        }
    }
}

/// Every tag that brings the cursor's stack to a depth is read from its
/// source by the tokenizer, or is the synthetic end tag.
pub proof fn lemma_close_to_parsed(s: Seq<u8>, stack: Seq<Frame>, pos: int, depth: int, fuel: nat)
    requires
        0 <= pos <= s.len(),
    ensures
        close_to(s, stack, pos, depth, fuel) matches Some(Ok((m, from, _, _))) ==> 0 <= from
            <= s.len() && (is_tag_at(s, m) || m == eof_tag(s)),
    decreases fuel,
{
    lemma_parse_tag_bounds(s, pos);
    if fuel > 0 && stack.len() > 0 {
        if let Ok((m, st, p)) = step(s, stack, pos) {
            if let Ok(Some(m2)) = parse_tag_spec(s, pos) {
                assert(is_tag_at(s, m2));
            }
            lemma_close_to_parsed(s, st, p, depth, (fuel - 1) as nat);
        }
    }
}

/// `r`, with the stack `st2` and the position `pos2`, is what advancing the
/// cursor gives.
pub open spec fn yields<'src>(
    s: Seq<u8>,
    stack: Seq<Frame>,
    pos: int,
    targets: Seq<&str>,
    elements_only: bool,
    r: Result<Option<Tag<'src>>, Error>,
    st2: Seq<Frame>,
    pos2: int,
) -> bool {
    exists|fuel: nat|
        match #[trigger] advance(s, stack, pos, targets, elements_only, fuel) {
            Some(Ok((None, st, p))) => r == Ok::<Option<Tag<'src>>, Error>(None) && st2 == st && pos2
                == p,
            Some(Ok((Some((m, from)), st, p))) => r matches Ok(Some(t)) && tag_is(t, s, from, m)
                && t.wf() && st2 == st && pos2 == p,
            Some(Err(e)) => r == Err::<Option<Tag<'src>>, Error>(e),
            None => false,
        }
}

/// Tag balance: the cursor reports that no tag is left only once its stack is
/// empty, the root's element included. At the end of the input only the
/// synthetic root (empty name) may be open, and a closing tag must close the
/// innermost open element: anything else is an error, never a resync.
pub proof fn lemma_tag_balance(
    s: Seq<u8>,
    stack: Seq<Frame>,
    pos: int,
    targets: Seq<&str>,
    elements_only: bool,
    fuel: nat,
)
    ensures
        advance(s, stack, pos, targets, elements_only, fuel) matches Some(Ok((None, st, _)))
            ==> st.len() == 0,
        stack.len() > 0 && parse_tag_spec(s, pos) == Ok::<Option<TagModel>, Error>(None) ==> (
        step(s, stack, pos) is Ok <==> (stack.len() == 1 && stack[0].1 == Seq::<u8>::empty())),
        stack.len() > 0 ==> (parse_tag_spec(s, pos) matches Ok(Some(m)) ==> (m.kind
            == TType::Closing ==> (step(s, stack, pos) is Ok <==> stack.last().1 == model_name(
            s,
            m,
        )))),
    decreases fuel,
{
    if fuel > 0 && stack.len() > 0 {
        if let Ok((m, st, p)) = step(s, stack, pos) {
            lemma_tag_balance(s, st, p, targets, elements_only, (fuel - 1) as nat);
        }
    }
}

/// The cursor advanced, within `fuel` steps, until its stack is `depth` deep:
/// the tag that brought it there, with the position its step started from.
pub open spec fn close_to(s: Seq<u8>, stack: Seq<Frame>, pos: int, depth: int, fuel: nat) -> Option<
    Result<(TagModel, int, Seq<Frame>, int), Error>,
>
    decreases fuel,
{
    if fuel == 0 {
        None
    } else if stack.len() == 0 {
        Some(Err(Error::UnexpectedEof))
    } else {
        match step(s, stack, pos) {
            Err(e) => Some(Err(e)),
            Ok((m, st, p)) => if st.len() == depth {
                Some(Ok((m, pos, st, p)))
            } else {
                close_to(s, st, p, depth, (fuel - 1) as nat)
            },
        }
    }
}

/// `d` is the depth of the first (outermost) frame of `stack` that was opened by a tag ending at `end` and named `name`.
pub open spec fn is_first_open(stack: Seq<Frame>, end: int, name: Seq<u8>, d: int) -> bool {
    &&& 0 <= d < stack.len()
    &&& stack[d] == (end, name)
    &&& forall|i: int| 0 <= i < d ==> stack[i] != (end, name)
}

/// A cursor over the tags below `root`, with the stack of open elements.
#[derive(Debug)]
pub struct TagIter<'src> {
    pub stack: Vec<(usize, &'src [u8])>,
    pub pos: usize,
    pub root: Tag<'src>,
}

impl<'src> TagIter<'src> {
    pub open spec fn src(&self) -> Seq<u8> {
        self.root.source@
    }

    /// The stack as offsets and names.
    pub open spec fn frames(&self) -> Seq<Frame> {
        self.stack@.map_values(|f: (usize, &[u8])| (f.0 as int, f.1@))
    }

    /// The scan position and every open element's offset lie inside the
    /// source, the elements' offsets no later than the position.
    pub open spec fn wf(&self) -> bool {
        &&& self.pos <= self.src().len()
        &&& self.root.wf()
        &&& forall|i: int| 0 <= i < self.stack@.len() ==> #[trigger] self.stack@[i].0 <= self.pos
    }

    /// A cursor that starts just after `tag`, with `tag` as the only open element.
    pub fn new(tag: &Tag<'src>) -> (r: TagIter<'src>)
        requires
            tag.wf(),
        ensures
            r.wf(),
            r.root == *tag,
            r.pos == tag.end,
            r.frames() == seq![(tag.end as int, tag.name@)],
    {
        let r = TagIter { stack: vec![(tag.end, tag.name)], pos: tag.end, root: *tag };
        assert(r.frames() =~= seq![(tag.end as int, tag.name@)]);
        r
    }

    /// Takes one step; the stack must not be empty.
    fn step(&mut self) -> (r: Result<Tag<'src>, Error>)
        requires
            old(self).wf(),
            old(self).stack@.len() > 0,
        ensures
            final(self).wf(),
            final(self).root == old(self).root,
            match (r, step(old(self).src(), old(self).frames(), old(self).pos as int)) {
                (Ok(t), Ok((m, st, p))) => tag_is(t, old(self).src(), old(self).pos as int, m)
                    && final(self).frames() == st && final(self).pos == p && t.wf(),
                (Err(e), Err(f)) => e == f,
                _ => false,
            },
            r matches Ok(t) ==> old(self).pos <= t.start,
            r is Ok ==> old(self).pos < final(self).pos || (old(self).pos == final(self).pos
                && final(self).stack@.len() < old(self).stack@.len()),
    {
        let source = self.root.source;
        proof {
            lemma_parse_tag_bounds(source@, self.pos as int);
        }
        let parsed = parse_tag(source, self.pos);
        let tag = match parsed {
            Err(e) => return Err(e),
            Ok(Some(t)) => t,
            Ok(None) => {
                let top = self.stack.len() - 1;
                if top != 0 || self.stack[top].1.len() != 0 {
                    return Err(Error::UnexpectedEof);
                }
                let len = source.len();
                let t = Tag {
                    name: slice_subrange(source, len, len),
                    source,
                    start: len,
                    end: len,
                    before_text: slice_subrange(source, self.pos, len),
                    kind: TType::Closing,
                };
                let ghost old_frames = self.frames();
                self.stack.pop();
                self.pos = len;
                assert(self.stack@.len() < old(self).stack@.len());
                proof {
                    assert(self.frames() =~= old_frames.drop_last());
                    assert(old_frames.last().1 =~= Seq::<u8>::empty());
                    assert(t.name@ =~= model_name(source@, eof_tag(source@)));
                }
                return Ok(t);
            },
        };
        let ghost old_frames = self.frames();
        assert(tag.start < tag.end);
        match tag.kind {
            TType::Opening => {
                self.stack.push((tag.end, tag.name));
                self.pos = tag.end;
                assert(self.frames() =~= old_frames.push((tag.end as int, tag.name@)));
            },
            TType::Closing => {
                let top = self.stack.len() - 1;
                if !bytes_eq(self.stack[top].1, tag.name) {
                    return Err(Error::ClosingMismatch);
                }
                self.stack.pop();
                self.pos = tag.end;
                assert(self.frames() =~= old_frames.drop_last());
            },
            TType::SelfClosing => {
                self.pos = tag.end;
            },
        }
        Ok(tag)
    }

    /// The next tag below the root whose name is among `targets` (any tag,
    /// where `targets` is empty); `None` once the root's element is closed.
    /// Every tag passed over still opens or closes its element.
    pub fn next_by_tag(&mut self, targets: &[&str]) -> (r: Result<Option<Tag<'src>>, Error>)
        requires
            old(self).wf(),
        ensures
            final(self).wf(),
            final(self).root == old(self).root,
            old(self).root.kind != TType::Opening ==> r == Ok::<Option<Tag<'src>>, Error>(None)
                && final(self).frames() == old(self).frames() && final(self).pos == old(self).pos,
            old(self).root.kind == TType::Opening ==> yields(
                old(self).src(),
                old(self).frames(),
                old(self).pos as int,
                targets@,
                false,
                r,
                final(self).frames(),
                final(self).pos as int,
            ),
            r == Ok::<Option<Tag<'src>>, Error>(None) ==> final(self).frames().len() == 0
                || old(self).root.kind != TType::Opening,
            r matches Ok(Some(t)) ==> found_in(t, old(self).src()) && t.wf() && is_target(
                t.name@,
                targets@,
            ),
            r matches Ok(Some(_)) ==> (old(self).pos < final(self).pos || (old(self).pos == final(self).pos
                && final(self).stack@.len() < old(self).stack@.len())),
    {
        if self.root.kind != TType::Opening {
            return Ok(None);
        }
        let r = self.advance(targets, false);
        proof {
            let fuel = choose|fuel: nat|
                match #[trigger] advance(
                    old(self).src(),
                    old(self).frames(),
                    old(self).pos as int,
                    targets@,
                    false,
                    fuel,
                ) {
                    Some(Ok((None, st, p))) => r == Ok::<Option<Tag<'src>>, Error>(None)
                        && self.frames() == st && self.pos == p,
                    Some(Ok((Some((m, from)), st, p))) => r matches Ok(Some(t)) && tag_is(
                        t,
                        old(self).src(),
                        from,
                        m,
                    ) && t.wf() && self.frames() == st && self.pos == p,
                    Some(Err(e)) => r == Err::<Option<Tag<'src>>, Error>(e),
                    None => false,
                };
            lemma_tag_balance(
                old(self).src(),
                old(self).frames(),
                old(self).pos as int,
                targets@,
                false,
                fuel,
            );
        }
        r
    }

    /// As `next_by_tag`, but passes over closing tags: the next element.
    pub fn next_by_el(&mut self, targets: &[&str]) -> (r: Result<Option<Tag<'src>>, Error>)
        requires
            old(self).wf(),
        ensures
            final(self).wf(),
            final(self).root == old(self).root,
            old(self).root.kind != TType::Opening ==> r == Ok::<Option<Tag<'src>>, Error>(None)
                && final(self).frames() == old(self).frames() && final(self).pos == old(self).pos,
            old(self).root.kind == TType::Opening ==> yields(
                old(self).src(),
                old(self).frames(),
                old(self).pos as int,
                targets@,
                true,
                r,
                final(self).frames(),
                final(self).pos as int,
            ),
            r matches Ok(Some(t)) ==> t.kind != TType::Closing && found_in(t, old(self).src())
                && t.wf() && is_target(t.name@, targets@),
            r matches Ok(Some(_)) ==> (old(self).pos < final(self).pos || (old(self).pos == final(self).pos
                && final(self).stack@.len() < old(self).stack@.len())),
    {
        if self.root.kind != TType::Opening {
            return Ok(None);
        }
        self.advance(targets, true)
    }

    /// Consumes everything up to the tag that closes `tag`'s element at its
    /// own depth (a same-named element inside is passed over whole), and
    /// returns that closing tag with the text between the two tags. `None`
    /// for a self-closing tag that the cursor has just yielded.
    pub fn step_out(&mut self, tag: &Tag<'src>) -> (r: Result<
        Option<(Tag<'src>, &'src [u8])>,
        Error,
    >)
        requires
            old(self).wf(),
        ensures
            final(self).wf(),
            final(self).root == old(self).root,
            tag.kind == TType::SelfClosing ==> r == Ok::<
                Option<(Tag<'src>, &'src [u8])>,
                Error,
            >(None) && *final(self) == *old(self),
            tag.kind != TType::SelfClosing ==> {
                &&& (forall|d: int| !is_first_open(old(self).frames(), tag.end as int, tag.name@, d))
                    ==> r == Err::<Option<(Tag<'src>, &'src [u8])>, Error>(Error::NotOpen)
                &&& forall|d: int|
                    is_first_open(old(self).frames(), tag.end as int, tag.name@, d) ==> (if old(self).root.kind != TType::Opening {
                        r == Err::<Option<(Tag<'src>, &'src [u8])>, Error>(Error::UnexpectedEof)
                    } else {
                        exists|fuel: nat|
                            match #[trigger] close_to(
                                old(self).src(),
                                old(self).frames(),
                                old(self).pos as int,
                                d,
                                fuel,
                            ) {
                                Some(Ok((m, from, st, p))) => r matches Ok(Some((t, inner)))
                                    && tag_is(t, old(self).src(), from, m) && inner@ == old(self).src().subrange(tag.end as int, m.start) && final(self).frames()
                                    == st && final(self).pos == p,
                                Some(Err(e)) => r == Err::<
                                    Option<(Tag<'src>, &'src [u8])>,
                                    Error,
                                >(e),
                                None => false,
                            }
                    })
            },
            r is Ok ==> (old(self).pos < final(self).pos || (old(self).pos == final(self).pos
                && final(self).stack@.len() <= old(self).stack@.len())),
            r matches Ok(Some((t, inner))) ==> {
                &&& t.kind == TType::Closing
                &&& found_in(t, old(self).src())
                &&& t.wf()
                &&& t.source@ == old(self).src()
                &&& t.name@ == tag.name@
                &&& tag.end <= t.start
                &&& inner@ == old(self).src().subrange(tag.end as int, t.start as int)
                &&& exists|d: int|
                    is_first_open(old(self).frames(), tag.end as int, tag.name@, d) && final(self).frames() == old(self).frames().take(d)
            },
    {
        if tag.kind == TType::SelfClosing {
            return Ok(None);
        }
        let mut depth: usize = 0;
        while depth < self.stack.len() && !(self.stack[depth].0 == tag.end && bytes_eq(
            self.stack[depth].1,
            tag.name,
        ))
            invariant
                self == old(self),
                depth <= self.stack@.len(),
                forall|i: int| 0 <= i < depth ==> self.frames()[i] != (tag.end as int, tag.name@),
            decreases self.stack.len() - depth,
        {
            depth += 1;
        }
        if depth == self.stack.len() {
            return Err(Error::NotOpen);
        }
        assert(is_first_open(old(self).frames(), tag.end as int, tag.name@, depth as int));
        if self.root.kind != TType::Opening {
            return Err(Error::UnexpectedEof);
        }
        let ghost s = self.src();
        let ghost f0 = self.frames();
        let ghost pos0 = self.pos as int;
        let ghost d = depth as int;
        let ghost mut k: nat = 0;
        loop
            invariant
                tag.kind != TType::SelfClosing,
                old(self).root.kind == TType::Opening,
                self.wf(),
                self.root == old(self).root,
                s == self.src(),
                s == old(self).src(),
                f0 == old(self).frames(),
                pos0 == old(self).pos,
                d == depth,
                is_first_open(f0, tag.end as int, tag.name@, d),
                self.stack@.len() > depth,
                self.frames().take(d + 1) == f0.take(d + 1),
                old(self).pos < self.pos || (old(self).pos == self.pos
                    && self.stack@.len() <= old(self).stack@.len()),
                forall|f: nat|
                    #[trigger] close_to(s, f0, pos0, d, f + k) == close_to(
                        s,
                        self.frames(),
                        self.pos as int,
                        d,
                        f,
                    ),
            decreases self.src().len() - self.pos, self.stack@.len(),
        {
            let ghost fr = self.frames();
            let ghost ps = self.pos as int;
            assert(fr[d] == f0[d]) by {
                assert(fr.take(d + 1)[d] == f0.take(d + 1)[d]);
            }
            let t = match self.step() {
                Err(e) => {
                    assert(close_to(s, f0, pos0, d, 1 + k) == close_to(s, fr, ps, d, 1));
                    proof {
                        assert forall|d2: int|
                            is_first_open(old(self).frames(), tag.end as int, tag.name@, d2)
                            implies d2 == d by {
                            if d2 < d {
                                assert(f0[d2] != (tag.end as int, tag.name@));
                            } else if d2 > d {
                                assert(f0[d] != (tag.end as int, tag.name@));
                            }
                        }
                    }
                    return Err(e);
                },
                Ok(t) => t,
            };
            if self.stack.len() == depth {
                assert(close_to(s, f0, pos0, d, 1 + k) == close_to(s, fr, ps, d, 1));
                assert(self.frames() =~= f0.take(d)) by {
                    assert(self.frames() =~= fr.drop_last());
                    assert(fr.take(d + 1).take(d) =~= fr.take(d));
                    assert(f0.take(d + 1).take(d) =~= f0.take(d));
                }
                proof {
                    assert forall|d2: int|
                        is_first_open(old(self).frames(), tag.end as int, tag.name@, d2) implies d2
                        == d by {
                        if d2 < d {
                            assert(f0[d2] != (tag.end as int, tag.name@));
                        } else if d2 > d {
                            assert(f0[d] != (tag.end as int, tag.name@));
                        }
                    }
                }
                proof {
                    lemma_close_to_parsed(s, fr, ps, d, 1);
                }
                let inner = slice_subrange(self.root.source, tag.end, t.start);
                return Ok(Some((t, inner)));
            }
            proof {
                assert(self.frames().take(d + 1) =~= f0.take(d + 1)) by {
                    assert(fr.take(d + 1) =~= f0.take(d + 1));
                    if self.stack@.len() > fr.len() {
                        assert(self.frames() =~= fr.push(self.frames().last()));
                    } else if self.stack@.len() < fr.len() {
                        assert(self.frames() =~= fr.drop_last());
                    } else {
                        assert(self.frames() =~= fr);
                    }
                }
                assert forall|f: nat|
                    #[trigger] close_to(s, f0, pos0, d, f + (k + 1)) == close_to(
                        s,
                        self.frames(),
                        self.pos as int,
                        d,
                        f,
                    ) by {
                    assert(close_to(s, f0, pos0, d, (f + 1) + k) == close_to(s, fr, ps, d, f + 1));
                    assert(f + (k + 1) == (f + 1) + k);
                }
                k = k + 1;
            }
        }
    }

    /// Whether `name` is among `targets` (any name, where `targets` is empty).
    fn is_target(name: &[u8], targets: &[&str]) -> (r: bool)
        ensures
            r == is_target(name@, targets@),
    {
        if targets.len() == 0 {
            return true;
        }
        let mut i: usize = 0;
        while i < targets.len()
            invariant
                i <= targets@.len(),
                forall|k: int| 0 <= k < i ==> targets@[k].spec_bytes() != name@,
            decreases targets.len() - i,
        {
            if bytes_eq(targets[i].as_bytes(), name) {
                return true;
            }
            i += 1;
        }
        false
    }

    /// Steps until a tag named among `targets` comes (not a closing one, with
    /// `elements_only`), or the stack empties.
    fn advance(&mut self, targets: &[&str], elements_only: bool) -> (r: Result<
        Option<Tag<'src>>,
        Error,
    >)
        requires
            old(self).wf(),
        ensures
            final(self).wf(),
            final(self).root == old(self).root,
            exists|fuel: nat|
                match #[trigger] advance(
                    old(self).src(),
                    old(self).frames(),
                    old(self).pos as int,
                    targets@,
                    elements_only,
                    fuel,
                ) {
                    Some(Ok((None, st, p))) => r == Ok::<Option<Tag<'src>>, Error>(None)
                        && final(self).frames() == st && final(self).pos == p,
                    Some(Ok((Some((m, from)), st, p))) => r matches Ok(Some(t)) && tag_is(
                        t,
                        old(self).src(),
                        from,
                        m,
                    ) && t.wf() && final(self).frames() == st && final(self).pos == p,
                    Some(Err(e)) => r == Err::<Option<Tag<'src>>, Error>(e),
                    None => false,
                },
            r matches Ok(Some(t)) ==> !(elements_only && t.kind == TType::Closing) && found_in(
                t,
                old(self).src(),
            ) && t.wf() && is_target(t.name@, targets@),
            r matches Ok(Some(_)) ==> (old(self).pos < final(self).pos || (old(self).pos == final(self).pos
                && final(self).stack@.len() < old(self).stack@.len())),
    {
        let ghost s = self.src();
        let ghost f0 = self.frames();
        let ghost pos0 = self.pos as int;
        let ghost mut k: nat = 0;
        let ghost t = targets@;
        loop
            invariant
                self.wf(),
                self.root == old(self).root,
                s == self.src(),
                s == old(self).src(),
                f0 == old(self).frames(),
                pos0 == old(self).pos,
                t == targets@,
                k == 0 ==> self.pos == old(self).pos && self.stack@.len() == old(self).stack@.len(),
                k > 0 ==> (old(self).pos < self.pos || (old(self).pos == self.pos
                    && self.stack@.len() < old(self).stack@.len())),
                forall|f: nat|
                    #[trigger] advance(s, f0, pos0, t, elements_only, f + k) == advance(
                        s,
                        self.frames(),
                        self.pos as int,
                        t,
                        elements_only,
                        f,
                    ),
            decreases self.src().len() - self.pos, self.stack@.len(),
        {
            if self.stack.len() == 0 {
                assert(advance(s, f0, pos0, t, elements_only, 1 + k) == advance(
                    s,
                    self.frames(),
                    self.pos as int,
                    t,
                    elements_only,
                    1,
                ));
                return Ok(None);
            }
            let ghost fr = self.frames();
            let ghost ps = self.pos as int;
            let tag = match self.step() {
                Err(e) => {
                    assert(advance(s, f0, pos0, t, elements_only, 1 + k) == advance(
                        s,
                        fr,
                        ps,
                        t,
                        elements_only,
                        1,
                    ));
                    return Err(e);
                },
                Ok(tag) => tag,
            };
            if Self::is_target(tag.name, targets) && !(elements_only && tag.kind
                == TType::Closing) {
                proof {
                    lemma_advance_parsed(s, fr, ps, t, elements_only, 1);
                }
                assert(advance(s, f0, pos0, t, elements_only, 1 + k) == advance(
                    s,
                    fr,
                    ps,
                    t,
                    elements_only,
                    1,
                ));
                return Ok(Some(tag));
            }
            proof {
                assert forall|f: nat|
                    #[trigger] advance(s, f0, pos0, t, elements_only, f + (k + 1)) == advance(
                        s,
                        self.frames(),
                        self.pos as int,
                        t,
                        elements_only,
                        f,
                    ) by {
                    assert(advance(s, f0, pos0, t, elements_only, (f + 1) + k) == advance(
                        s,
                        fr,
                        ps,
                        t,
                        elements_only,
                        f + 1,
                    ));
                    assert(f + (k + 1) == (f + 1) + k);
                }
                k = k + 1;
            }
        }
    }
}

} // verus!

verus! {

/// Advancing gives one result, however many steps it is allowed.
pub proof fn lemma_advance_unique(
    s: Seq<u8>,
    stack: Seq<Frame>,
    pos: int,
    targets: Seq<&str>,
    elements_only: bool,
    f1: nat,
    f2: nat,
)
    requires
        advance(s, stack, pos, targets, elements_only, f1) is Some,
        advance(s, stack, pos, targets, elements_only, f2) is Some,
    ensures
        advance(s, stack, pos, targets, elements_only, f1) == advance(
            s,
            stack,
            pos,
            targets,
            elements_only,
            f2,
        ),
    decreases f1,
{
    if stack.len() > 0 {
        if let Ok((m, st, p)) = step(s, stack, pos) {
            if !(is_target(model_name(s, m), targets) && !(elements_only && m.kind
                == TType::Closing)) {
                lemma_advance_unique(s, st, p, targets, elements_only, (f1 - 1) as nat, (f2 - 1) as nat);
            }
        }
    }
}

/// Closing to a depth gives one result, however many steps it is allowed.
pub proof fn lemma_close_to_unique(s: Seq<u8>, stack: Seq<Frame>, pos: int, depth: int, f1: nat, f2: nat)
    requires
        close_to(s, stack, pos, depth, f1) is Some,
        close_to(s, stack, pos, depth, f2) is Some,
    ensures
        close_to(s, stack, pos, depth, f1) == close_to(s, stack, pos, depth, f2),
    decreases f1,
{
    if stack.len() > 0 {
        if let Ok((m, st, p)) = step(s, stack, pos) {
            if st.len() != depth {
                lemma_close_to_unique(s, st, p, depth, (f1 - 1) as nat, (f2 - 1) as nat);
            }
        }
    }
}

/// What advancing the cursor gives, with no bound on the steps.
pub open spec fn advanced(
    s: Seq<u8>,
    stack: Seq<Frame>,
    pos: int,
    targets: Seq<&str>,
    elements_only: bool,
) -> Result<(Option<(TagModel, int)>, Seq<Frame>, int), Error> {
    let f = choose|f: nat| #[trigger] advance(s, stack, pos, targets, elements_only, f) is Some;
    advance(s, stack, pos, targets, elements_only, f)->0
}

/// The tag that closes the element open at `depth`, with no bound on the
/// steps: the tag, the position its step started from, the stack and the
/// position after it.
pub open spec fn closed(s: Seq<u8>, stack: Seq<Frame>, pos: int, depth: int) -> Result<
    (TagModel, int, Seq<Frame>, int),
    Error,
> {
    let f = choose|f: nat| #[trigger] close_to(s, stack, pos, depth, f) is Some;
    close_to(s, stack, pos, depth, f)->0
}

/// Any bounded advance that ends gives what `advanced` gives.
pub proof fn lemma_advanced(
    s: Seq<u8>,
    stack: Seq<Frame>,
    pos: int,
    targets: Seq<&str>,
    elements_only: bool,
    f: nat,
)
    requires
        advance(s, stack, pos, targets, elements_only, f) is Some,
    ensures
        advance(s, stack, pos, targets, elements_only, f) == Some(
            advanced(s, stack, pos, targets, elements_only),
        ),
{
    let g = choose|g: nat| #[trigger] advance(s, stack, pos, targets, elements_only, g) is Some;
    lemma_advance_unique(s, stack, pos, targets, elements_only, f, g);
}

/// Any bounded closing that ends gives what `closed` gives.
pub proof fn lemma_closed(s: Seq<u8>, stack: Seq<Frame>, pos: int, depth: int, f: nat)
    requires
        close_to(s, stack, pos, depth, f) is Some,
    ensures
        close_to(s, stack, pos, depth, f) == Some(closed(s, stack, pos, depth)),
{
    let g = choose|g: nat| #[trigger] close_to(s, stack, pos, depth, g) is Some;
    lemma_close_to_unique(s, stack, pos, depth, f, g);
}

} // verus!

verus! {

/// What `yields` admits is what `advanced` gives.
pub proof fn lemma_yields_advanced<'src>(
    s: Seq<u8>,
    stack: Seq<Frame>,
    pos: int,
    targets: Seq<&str>,
    elements_only: bool,
    r: Result<Option<Tag<'src>>, Error>,
    st2: Seq<Frame>,
    p2: int,
)
    requires
        yields(s, stack, pos, targets, elements_only, r, st2, p2),
    ensures
        match advanced(s, stack, pos, targets, elements_only) {
            Ok((None, st, p)) => r == Ok::<Option<Tag<'src>>, Error>(None) && st2 == st && p2 == p,
            Ok((Some((m, from)), st, p)) => r matches Ok(Some(t)) && tag_is(t, s, from, m) && t.wf()
                && st2 == st && p2 == p,
            Err(e) => r == Err::<Option<Tag<'src>>, Error>(e),
        },
{
    let f = choose|fuel: nat|
        match #[trigger] advance(s, stack, pos, targets, elements_only, fuel) {
            Some(Ok((None, st, p))) => r == Ok::<Option<Tag<'src>>, Error>(None) && st2 == st && p2
                == p,
            Some(Ok((Some((m, from)), st, p))) => r matches Ok(Some(t)) && tag_is(t, s, from, m)
                && t.wf() && st2 == st && p2 == p,
            Some(Err(e)) => r == Err::<Option<Tag<'src>>, Error>(e),
            None => false,
        };
    lemma_advanced(s, stack, pos, targets, elements_only, f);
}

} // verus!
