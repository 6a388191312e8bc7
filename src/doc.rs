use vstd::prelude::*;
use vstd::string::StringSliceAdditionalSpecFns;

use crate::bytes::{bytes_eq, to_vec};
use crate::error::Error;
use crate::iter::{advance, advanced, close_to, closed, eof_tag, found_in, is_tag_at, yields};
use crate::xhtml::{find_from, is_lt, model_name, parse_attr_spec, TType, Tag, TagModel};

verus! {

/// The markup of the tag `m` of `s`, `<` to `>`.
pub open spec fn markup(s: Seq<u8>, m: TagModel) -> Seq<u8> {
    s.subrange(m.start, m.end)
}

/// The value of the attribute `a` of the tag `m` of `s`.
pub open spec fn attr_of(s: Seq<u8>, m: TagModel, a: &str) -> Result<Option<Seq<u8>>, Error> {
    parse_attr_spec(markup(s, m), a.spec_bytes())
}

/// `s` holds a tag named `name` whose attribute `a` is `v`.
pub open spec fn has_attr(s: Seq<u8>, name: &str, a: &str, v: Seq<u8>) -> bool {
    exists|m: TagModel|
        is_tag_at(s, m) && model_name(s, m) == name.spec_bytes() && attr_of(s, m, a) == Ok::<
            Option<Seq<u8>>,
            Error,
        >(Some(v))
}

/// `s` holds an `item` tag with the attributes `id` and `href`.
pub open spec fn is_manifest_item(s: Seq<u8>, id: Seq<u8>, href: Seq<u8>) -> bool {
    exists|m: TagModel|
        is_tag_at(s, m) && model_name(s, m) == "item".spec_bytes() && attr_of(s, m, "id") == Ok::<
            Option<Seq<u8>>,
            Error,
        >(Some(id)) && attr_of(s, m, "href") == Ok::<Option<Seq<u8>>, Error>(Some(href))
}

/// The value of the attribute `a` of the tag `m`; `Unschematic` where it
/// has none.
pub open spec fn required_attr_of(s: Seq<u8>, m: TagModel, a: &str) -> Result<Seq<u8>, Error> {
    match attr_of(s, m, a) {
        Ok(Some(v)) => Ok(v),
        _ => Err(Error::Unschematic),
    }
}

/// `x` in front of the list that `r` holds, if it holds one.
pub open spec fn prepend<T>(x: Seq<T>, r: Option<Result<Seq<T>, Error>>) -> Option<Result<Seq<T>, Error>> {
    match r {
        Some(Ok(v)) => Some(Ok(x + v)),
        other => other,
    }
}

/// The attributes `a` and `b` (empty where `b` is `None`) of each tag named
/// `item` that the cursor yields from `stack` at `pos`, in order, within
/// `fuel` tags; `Unschematic` at the first that lacks one.
pub open spec fn scan_attrs(
    s: Seq<u8>,
    stack: Seq<(int, Seq<u8>)>,
    pos: int,
    item: &str,
    a: &str,
    b: Option<&str>,
    fuel: nat,
) -> Option<Result<Seq<(Seq<u8>, Seq<u8>)>, Error>>
    decreases fuel,
{
    if fuel == 0 {
        None
    } else {
        match advanced(s, stack, pos, seq![item], false) {
            Err(e) => Some(Err(e)),
            Ok((None, _, _)) => Some(Ok(Seq::empty())),
            Ok((Some((m, _)), st, p)) => match required_attr_of(s, m, a) {
                Err(e) => Some(Err(e)),
                Ok(va) => match (match b {
                    None => Ok(Seq::empty()),
                    Some(bb) => required_attr_of(s, m, bb),
                }) {
                    Err(e) => Some(Err(e)),
                    Ok(vb) => prepend(seq![(va, vb)], scan_attrs(s, st, p, item, a, b, (fuel - 1) as nat)),
                },
            },
        }
    }
}

/// The attributes `a` and `b` of each `item` inside the first element named
/// `container` of `s`; `Unschematic` where there is no such element.
pub open spec fn container_attrs(
    s: Seq<u8>,
    container: &str,
    item: &str,
    a: &str,
    b: Option<&str>,
    fuel: nat,
) -> Option<Result<Seq<(Seq<u8>, Seq<u8>)>, Error>> {
    match advanced(s, seq![(0int, Seq::<u8>::empty())], 0, seq![container], true) {
        Err(e) => Some(Err(e)),
        Ok((None, _, _)) => Some(Err(Error::Unschematic)),
        Ok((Some((m, _)), _, _)) => if m.kind != TType::Opening {
            Some(Ok(Seq::empty()))
        } else {
            scan_attrs(s, seq![(m.end, model_name(s, m))], m.end, item, a, b, fuel)
        },
    }
}

/// Whether `name` is the text of `lit`.
pub fn name_is(name: &[u8], lit: &str) -> (r: bool)
    ensures
        r == (name@ == lit.spec_bytes()),
{
    bytes_eq(name, lit.as_bytes())
}

/// The attribute `a` of a tag found in `s`; `Unschematic` where it has none.
fn required_attr<'src>(t: &Tag<'src>, a: &str) -> (r: Result<&'src [u8], Error>)
    requires
        t.wf(),
        found_in(*t, t.source@),
    ensures
        r matches Ok(v) ==> t.start < t.end && parse_attr_spec(
            t.source@.subrange(t.start as int, t.end as int),
            a.spec_bytes(),
        ) == Ok::<Option<Seq<u8>>, Error>(Some(v@)),
        r is Err ==> r == Err::<&'src [u8], Error>(Error::Unschematic) && !(parse_attr_spec(
            t.source@.subrange(t.start as int, t.end as int),
            a.spec_bytes(),
        ) is Ok && parse_attr_spec(t.source@.subrange(t.start as int, t.end as int), a.spec_bytes())->Ok_0 is Some),
{
    let v = match t.get_attr(a) {
        Ok(Some(v)) => v,
        _ => return Err(Error::Unschematic),
    };
    proof {
        let s = t.source@;
        let (m, from) = choose|m: TagModel, from: int|
            0 <= from <= s.len() && crate::xhtml::tag_is(*t, s, from, m) && (is_tag_at(s, m) || m
                == eof_tag(s));
        if m == eof_tag(s) {
            assert(s.subrange(t.start as int, t.end as int).len() == 0);
        }
    }
    Ok(v)
}

/// The package manifest: the `id` and `href` of each `item` inside the first
/// `manifest` element.
pub fn get_manifest(source: &[u8]) -> (r: Result<Vec<(Vec<u8>, Vec<u8>)>, Error>)
    ensures
        r matches Ok(v) ==> forall|k: int|
            0 <= k < v@.len() ==> is_manifest_item(source@, #[trigger] v@[k].0@, v@[k].1@),
        exists|fuel: nat|
            #[trigger] container_attrs(source@, "manifest", "item", "id", Some("href"), fuel) matches Some(x)
                && attrs_result_is(r, x),
{
    collect_attrs(source, "manifest", "item", "id", Some("href"))
}

/// `s` holds a tag named `item` whose attribute `a` is `va` and, where `b`
/// names one, whose attribute `b` is `vb`.
pub open spec fn is_item_attrs(s: Seq<u8>, item: &str, a: &str, b: Option<&str>, va: Seq<u8>, vb: Seq<u8>) -> bool {
    exists|m: TagModel|
        is_tag_at(s, m) && model_name(s, m) == item.spec_bytes() && attr_of(s, m, a) == Ok::<
            Option<Seq<u8>>,
            Error,
        >(Some(va)) && (b matches Some(bb) ==> attr_of(s, m, bb) == Ok::<Option<Seq<u8>>, Error>(
            Some(vb),
        ))
}

/// The views of a list of byte-string pairs.
pub open spec fn pair_views(v: Seq<(Vec<u8>, Vec<u8>)>) -> Seq<(Seq<u8>, Seq<u8>)> {
    v.map_values(|p: (Vec<u8>, Vec<u8>)| (p.0@, p.1@))
}

pub open spec fn attrs_result_is(r: Result<Vec<(Vec<u8>, Vec<u8>)>, Error>, x: Result<Seq<(Seq<u8>, Seq<u8>)>, Error>) -> bool {
    match (r, x) {
        (Ok(v), Ok(w)) => pair_views(v@) == w,
        (Err(e), Err(f)) => e == f,
        _ => false,
    }
}

/// The attributes `a` and `b` of each `item` inside the first `container`.
fn collect_attrs(source: &[u8], container: &str, item: &str, a: &str, b: Option<&str>) -> (r: Result<Vec<(Vec<u8>, Vec<u8>)>, Error>)
    ensures
        r matches Ok(v) ==> forall|k: int|
            0 <= k < v@.len() ==> is_item_attrs(source@, item, a, b, #[trigger] v@[k].0@, v@[k].1@),
        exists|fuel: nat|
            #[trigger] container_attrs(source@, container, item, a, b, fuel) matches Some(x)
                && attrs_result_is(r, x),
{
    let r0 = Tag::get_first(source, container);
    proof {
        let (st, p) = choose|st: Seq<(int, Seq<u8>)>, p: int|
            yields(source@, seq![(0int, Seq::<u8>::empty())], 0, seq![container], true, r0, st, p);
        crate::iter::lemma_yields_advanced(source@, seq![(0int, Seq::<u8>::empty())], 0, seq![container], true, r0, st, p);
    }
    let c = match r0 {
        Ok(Some(t)) => t,
        Ok(None) => {
            assert(container_attrs(source@, container, item, a, b, 0) == Some(Err::<Seq<(Seq<u8>, Seq<u8>)>, Error>(Error::Unschematic)));
            return Err(Error::Unschematic);
        },
        Err(e) => {
            assert(container_attrs(source@, container, item, a, b, 0) == Some(Err::<Seq<(Seq<u8>, Seq<u8>)>, Error>(e)));
            return Err(e);
        },
    };
    if c.kind != TType::Opening {
        let v: Vec<(Vec<u8>, Vec<u8>)> = Vec::new();
        assert(pair_views(v@) =~= Seq::<(Seq<u8>, Seq<u8>)>::empty());
        assert(container_attrs(source@, container, item, a, b, 0) == Some(Ok::<Seq<(Seq<u8>, Seq<u8>)>, Error>(Seq::empty())));
        return Ok(v);
    }
    let mut it = c.iter();
    let targets = vec![item];
    assert(targets@ =~= seq![item]);
    let mut out: Vec<(Vec<u8>, Vec<u8>)> = Vec::new();
    let ghost s = source@;
    let ghost f0 = it.frames();
    let ghost p0 = it.pos as int;
    let ghost mut k: nat = 0;
    proof {
        assert forall|f: nat| #[trigger] scan_attrs(s, f0, p0, item, a, b, f + 0) == prepend(pair_views(out@), scan_attrs(s, f0, p0, item, a, b, f)) by {
            assert(pair_views(out@) =~= Seq::<(Seq<u8>, Seq<u8>)>::empty());
            match scan_attrs(s, f0, p0, item, a, b, f) {
                Some(Ok(w)) => { assert(Seq::<(Seq<u8>, Seq<u8>)>::empty() + w =~= w); },
                _ => {},
            }
        }
    }
    loop
        invariant
            it.wf(),
            it.src() == source@,
            s == source@,
            it.root.kind == TType::Opening,
            targets@ == seq![item],
            forall|q: int|
                0 <= q < out@.len() ==> is_item_attrs(source@, item, a, b, #[trigger] out@[q].0@, out@[q].1@),
            forall|f: nat|
                #[trigger] scan_attrs(s, f0, p0, item, a, b, f + k) == prepend(
                    pair_views(out@),
                    scan_attrs(s, it.frames(), it.pos as int, item, a, b, f),
                ),
            container_attrs(s, container, item, a, b, 0) == container_attrs(s, container, item, a, b, 0),
            forall|f: nat| #[trigger] container_attrs(s, container, item, a, b, f) == scan_attrs(s, f0, p0, item, a, b, f),
        decreases it.src().len() - it.pos, it.stack@.len(),
    {
        let ghost fr = it.frames();
        let ghost ps = it.pos as int;
        let r1 = it.next_by_tag(targets.as_slice());
        proof {
            crate::iter::lemma_yields_advanced(s, fr, ps, seq![item], false, r1, it.frames(), it.pos as int);
        }
        let t = match r1 {
            Ok(Some(t)) => t,
            Ok(None) => {
                proof {
                    assert(scan_attrs(s, f0, p0, item, a, b, 1 + k) == prepend(pair_views(out@), scan_attrs(s, fr, ps, item, a, b, 1)));
                    assert(pair_views(out@) + Seq::<(Seq<u8>, Seq<u8>)>::empty() =~= pair_views(out@));
                    assert(container_attrs(source@, container, item, a, b, 1 + k) == Some(Ok::<Seq<(Seq<u8>, Seq<u8>)>, Error>(pair_views(out@))));
                }
                let res: Result<Vec<(Vec<u8>, Vec<u8>)>, Error> = Ok(out);
                assert(attrs_result_is(res, Ok(pair_views(out@))));
                return res;
            },
            Err(e) => {
                assert(scan_attrs(s, f0, p0, item, a, b, 1 + k) == prepend(pair_views(out@), scan_attrs(s, fr, ps, item, a, b, 1)));
                return Err(e);
            },
        };
        assert(targets@[0] == item);
        assert(t.name@ == item.spec_bytes());
        let va = match required_attr(&t, a) {
            Ok(v) => v,
            Err(e) => {
                assert(scan_attrs(s, f0, p0, item, a, b, 1 + k) == prepend(pair_views(out@), scan_attrs(s, fr, ps, item, a, b, 1)));
                assert(container_attrs(source@, container, item, a, b, 1 + k) == Some(Err::<Seq<(Seq<u8>, Seq<u8>)>, Error>(e)));
                return Err(e);
            },
        };
        let vb: &[u8] = match b {
            None => vstd::slice::slice_subrange(va, 0, 0),
            Some(bb) => match required_attr(&t, bb) {
                Ok(v) => v,
                Err(e) => {
                    assert(scan_attrs(s, f0, p0, item, a, b, 1 + k) == prepend(pair_views(out@), scan_attrs(s, fr, ps, item, a, b, 1)));
                    assert(container_attrs(source@, container, item, a, b, 1 + k) == Some(Err::<Seq<(Seq<u8>, Seq<u8>)>, Error>(e)));
                    return Err(e);
                },
            },
        };
        let ghost old_out = out@;
        out.push((to_vec(va), to_vec(vb)));
        proof {
            let (m, from) = choose|m: TagModel, from: int|
                0 <= from <= s.len() && crate::xhtml::tag_is(t, s, from, m) && (is_tag_at(s, m)
                    || m == eof_tag(s));
            assert(is_tag_at(s, m));
            assert(has_attr(s, item, a, va@));
            assert(is_item_attrs(s, item, a, b, va@, vb@));
            let x = seq![(va@, vb@)];
            if b is None {
                assert(vb@ =~= Seq::<u8>::empty());
            }
            assert(pair_views(out@) =~= pair_views(old_out) + x);
            assert forall|f: nat|
                #[trigger] scan_attrs(s, f0, p0, item, a, b, f + (k + 1)) == prepend(
                    pair_views(out@),
                    scan_attrs(s, it.frames(), it.pos as int, item, a, b, f),
                ) by {
                assert(f + (k + 1) == (f + 1) + k);
                assert(scan_attrs(s, f0, p0, item, a, b, (f + 1) + k) == prepend(pair_views(old_out), scan_attrs(s, fr, ps, item, a, b, f + 1)));
                match scan_attrs(s, it.frames(), it.pos as int, item, a, b, f) {
                    Some(Ok(w)) => {
                        assert(pair_views(old_out) + (x + w) =~= (pair_views(old_out) + x) + w);
                    },
                    _ => {},
                }
            }
            assert forall|q: int| 0 <= q < out@.len() implies is_item_attrs(source@, item, a, b, #[trigger] out@[q].0@, out@[q].1@) by {
                if q < old_out.len() {
                    assert(out@[q] == old_out[q]);
                }
            }
            k = k + 1;
        }
    }
}

} // verus!

verus! {

/// `t` is the text that follows a tag named `name` in `s`.
pub open spec fn follows_tag(s: Seq<u8>, name: &str, t: Seq<u8>) -> bool {
    exists|m: TagModel|
        is_tag_at(s, m) && model_name(s, m) == name.spec_bytes() && m.end + t.len() <= s.len()
            && t == s.subrange(m.end, m.end + t.len())
}

/// `title` follows a `text` tag of `s`, and `href` is the `src` of a
/// `content` tag of `s` up to its `#`.
pub open spec fn is_toc_entry(s: Seq<u8>, title: Seq<u8>, href: Seq<u8>) -> bool {
    &&& follows_tag(s, "text", title)
    &&& exists|src: Seq<u8>| has_attr(s, "content", "src", src) && href == before_hash(src)
}

/// `s` up to its first `#`.
pub open spec fn before_hash(s: Seq<u8>) -> Seq<u8>
    decreases s.len(),
{
    if s.len() == 0 {
        s
    } else if s.last() == 35u8 && !s.drop_last().contains(35u8) {
        s.drop_last()
    } else if s.drop_last().contains(35u8) {
        before_hash(s.drop_last())
    } else {
        s
    }
}

/// A table-of-contents target without its `#fragment`.
pub fn strip_fragment(s: &[u8]) -> (r: &[u8])
    ensures
        r@ == before_hash(s@),
{
    let mut i: usize = 0;
    while i < s.len() && s[i] != 35u8
        invariant
            i <= s@.len(),
            forall|k: int| 0 <= k < i ==> s@[k] != 35u8,
        decreases s.len() - i,
    {
        i += 1;
    }
    let r = vstd::slice::slice_subrange(s, 0, i);
    proof {
        lemma_before_hash(s@, i as int);
    }
    r
}

proof fn lemma_before_hash(s: Seq<u8>, i: int)
    requires
        0 <= i <= s.len(),
        forall|k: int| 0 <= k < i ==> s[k] != 35u8,
        i < s.len() ==> s[i] == 35u8,
    ensures
        before_hash(s) == s.subrange(0, i),
    decreases s.len(),
{
    if s.len() == 0 {
        assert(s.subrange(0, i) =~= s);
    } else if i == s.len() {
        assert(!s.drop_last().contains(35u8));
        assert(s.subrange(0, i) =~= s);
    } else if i == s.len() - 1 {
        assert(!s.drop_last().contains(35u8));
        assert(s.subrange(0, i) =~= s.drop_last());
    } else {
        assert(s.drop_last()[i] == 35u8);
        lemma_before_hash(s.drop_last(), i);
        assert(s.drop_last().subrange(0, i) =~= s.subrange(0, i));
    }
}

/// The `idref` of each `itemref` inside the first `spine` element: the
/// reading order.
pub fn get_spine(source: &[u8]) -> (r: Result<Vec<Vec<u8>>, Error>)
    ensures
        r matches Ok(v) ==> forall|k: int|
            0 <= k < v@.len() ==> has_attr(source@, "itemref", "idref", #[trigger] v@[k]@),
        exists|fuel: nat|
            #[trigger] container_attrs(source@, "spine", "itemref", "idref", None, fuel) matches Some(x)
                && match (r, x) {
                (Ok(v), Ok(w)) => v@.len() == w.len() && forall|k: int|
                    0 <= k < w.len() ==> (#[trigger] v@[k])@ == w[k].0,
                (Err(e), Err(f)) => e == f,
                _ => false,
            },
{
    let pairs = match collect_attrs(source, "spine", "itemref", "idref", None) {
        Ok(p) => p,
        Err(e) => return Err(e),
    };
    let mut out: Vec<Vec<u8>> = Vec::new();
    let mut k: usize = 0;
    while k < pairs.len()
        invariant
            k <= pairs@.len(),
            out@.len() == k,
            forall|q: int| 0 <= q < k ==> (#[trigger] out@[q])@ == pairs@[q].0@,
            forall|q: int| 0 <= q < pairs@.len() ==> is_item_attrs(source@, "itemref", "idref", None, #[trigger] pairs@[q].0@, pairs@[q].1@),
            forall|q: int| 0 <= q < pairs@.len() ==> has_attr(source@, "itemref", "idref", #[trigger] pairs@[q].0@),
        decreases pairs.len() - k,
    {
        out.push(to_vec(pairs[k].0.as_slice()));
        k += 1;
    }
    proof {
        let fuel = choose|fuel: nat|
            #[trigger] container_attrs(source@, "spine", "itemref", "idref", None, fuel) matches Some(x)
                && attrs_result_is(Ok::<Vec<(Vec<u8>, Vec<u8>)>, Error>(pairs), x);
        let x = container_attrs(source@, "spine", "itemref", "idref", None, fuel)->0;
        assert forall|q: int| 0 <= q < x->Ok_0.len() implies (#[trigger] out@[q])@ == x->Ok_0[q].0 by {
            assert(pair_views(pairs@)[q] == (pairs@[q].0@, pairs@[q].1@));
        }
        assert forall|q: int| 0 <= q < out@.len() implies has_attr(source@, "itemref", "idref", #[trigger] out@[q]@) by {
            assert(has_attr(source@, "itemref", "idref", pairs@[q].0@));
        }
    }
    Ok(out)
}

/// The text that a tag's element holds: what `get_end` gives.
fn inner_text<'src>(t: &Tag<'src>) -> (r: Result<&'src [u8], Error>)
    requires
        t.wf(),
        found_in(*t, t.source@),
        t.start < t.end,
    ensures
        r matches Ok(x) ==> t.end + x@.len() <= t.source@.len() && x@ == t.source@.subrange(
            t.end as int,
            t.end + x@.len(),
        ),
        text_is(r, elem_text(t.source@, t.end as int, t.name@, t.kind)),
{
    let res = t.get_end();
    proof {
        let s = t.source@;
        if t.kind == TType::Opening {
            let f = choose|fuel: nat|
                match #[trigger] close_to(s, seq![(t.end as int, t.name@)], t.end as int, 0, fuel) {
                    Some(Ok((mm, from, st, p))) => res matches Ok((tt, inner)) && crate::xhtml::tag_is(
                        tt,
                        s,
                        from,
                        mm,
                    ) && inner@ == s.subrange(t.end as int, mm.start),
                    Some(Err(e)) => res == Err::<(Tag<'src>, &'src [u8]), Error>(e),
                    None => false,
                };
            crate::iter::lemma_closed(s, seq![(t.end as int, t.name@)], t.end as int, 0, f);
        }
        if let Ok((_, x)) = res {
            if t.kind == TType::SelfClosing {
                assert(x@ =~= Seq::<u8>::empty());
            }
        }
    }
    match res {
        Ok((_, x)) => Ok(x),
        Err(e) => Err(e),
    }
}

/// The first child element named `name` of `t`, which must exist.
fn required_child<'src>(t: &Tag<'src>, name: &str) -> (r: Result<Tag<'src>, Error>)
    requires
        t.wf(),
    ensures
        r matches Ok(c) ==> c.wf() && c.source@ == t.source@ && c.start < c.end && found_in(
            c,
            t.source@,
        ) && c.name@ == name.spec_bytes() && exists|m: TagModel|
            is_tag_at(t.source@, m) && model_name(t.source@, m) == name.spec_bytes() && m.end
                == c.end,
        match (r, child_of(t.source@, t.end as int, t.name@, t.kind, name)) {
            (Ok(c), Ok(m)) => c.start == m.start && c.end == m.end && c.kind == m.kind && c.name@ == model_name(t.source@, m),
            (Err(e), Err(f)) => e == f,
            _ => false,
        },
{
    let r0 = t.get_first_child(name);
    proof {
        if t.kind == TType::Opening {
            let (st, p) = choose|st: Seq<(int, Seq<u8>)>, p: int|
                yields(t.source@, seq![(t.end as int, t.name@)], t.end as int, seq![name], true, r0, st, p);
            crate::iter::lemma_yields_advanced(t.source@, seq![(t.end as int, t.name@)], t.end as int, seq![name], true, r0, st, p);
        }
    }
    let c = match r0 {
        Ok(Some(c)) => c,
        Ok(None) => return Err(Error::Unschematic),
        Err(e) => return Err(e),
    };
    if c.start == c.end {
        // the synthetic end of the input is no element
        return Err(Error::Unschematic);
    }
    proof {
        let s = t.source@;
        let (m, from) = choose|m: TagModel, from: int|
            0 <= from <= s.len() && crate::xhtml::tag_is(c, s, from, m) && (is_tag_at(s, m) || m
                == eof_tag(s));
        assert(is_tag_at(s, m));
        assert(seq![name][0] == name);
    }
    Ok(c)
}

/// The inner text of the element whose opening tag is `m`: up to the tag
/// that closes it at its depth; nothing, for a self-closing tag.
pub open spec fn element_text(s: Seq<u8>, m: TagModel) -> Result<Seq<u8>, Error> {
    elem_text(s, m.end, model_name(s, m), m.kind)
}

/// The inner text of the element whose opening tag ends at `end`, is named
/// `nm` and is of kind `kind`.
pub open spec fn elem_text(s: Seq<u8>, end: int, nm: Seq<u8>, kind: TType) -> Result<Seq<u8>, Error> {
    match kind {
        TType::SelfClosing => Ok(Seq::empty()),
        TType::Closing => Err(Error::UnexpectedEof),
        TType::Opening => match closed(s, seq![(end, nm)], end, 0) {
            Ok((e, _, _, _)) => Ok(s.subrange(end, e.start)),
            Err(x) => Err(x),
        },
    }
}

/// The first child element named `cname` of the element whose opening tag
/// ends at `end`, is named `nm` and is of kind `kind`; `Unschematic` where
/// there is none.
pub open spec fn child_of(s: Seq<u8>, end: int, nm: Seq<u8>, kind: TType, cname: &str) -> Result<TagModel, Error> {
    if kind != TType::Opening {
        Err(Error::Unschematic)
    } else {
        match advanced(s, seq![(end, nm)], end, seq![cname], true) {
            Err(e) => Err(e),
            Ok((None, _, _)) => Err(Error::Unschematic),
            Ok((Some((c, _)), _, _)) => if c.start == c.end {
                Err(Error::Unschematic)
            } else {
                Ok(c)
            },
        }
    }
}

/// The table-of-contents entry of the `navPoint` whose opening tag ends at
/// `end` (named `nm`, of kind `kind`): the text of its `navLabel`'s `text`,
/// and its `content`'s `src` up to the `#`.
pub open spec fn toc_entry(s: Seq<u8>, end: int, nm: Seq<u8>, kind: TType) -> Result<(Seq<u8>, Seq<u8>), Error> {
    match child_of(s, end, nm, kind, "navLabel") {
        Err(e) => Err(e),
        Ok(l) => match child_of(s, l.end, model_name(s, l), l.kind, "text") {
            Err(e) => Err(e),
            Ok(t) => match element_text(s, t) {
                Err(e) => Err(e),
                Ok(title) => match child_of(s, end, nm, kind, "content") {
                    Err(e) => Err(e),
                    Ok(c) => match required_attr_of(s, c, "src") {
                        Err(e) => Err(e),
                        Ok(src) => Ok((title, before_hash(src))),
                    },
                },
            },
        },
    }
}

/// The entries of the `navPoint`s that the cursor yields from `stack` at
/// `pos`, in order, within `fuel` of them.
pub open spec fn toc_scan(s: Seq<u8>, stack: Seq<(int, Seq<u8>)>, pos: int, fuel: nat) -> Option<
    Result<Seq<(Seq<u8>, Seq<u8>)>, Error>,
>
    decreases fuel,
{
    if fuel == 0 {
        None
    } else {
        match advanced(s, stack, pos, seq!["navPoint"], true) {
            Err(e) => Some(Err(e)),
            Ok((None, _, _)) => Some(Ok(Seq::empty())),
            Ok((Some((m, _)), st, p)) => match toc_entry(s, m.end, model_name(s, m), m.kind) {
                Err(e) => Some(Err(e)),
                Ok(x) => prepend(seq![x], toc_scan(s, st, p, (fuel - 1) as nat)),
            },
        }
    }
}

/// The table of contents of `s`: the entries of the `navPoint`s inside its
/// first `navMap`.
pub open spec fn toc_spec(s: Seq<u8>, fuel: nat) -> Option<Result<Seq<(Seq<u8>, Seq<u8>)>, Error>> {
    match first_element(s, "navMap") {
        Err(e) => Some(Err(e)),
        Ok(m) => if m.kind != TType::Opening {
            Some(Ok(Seq::empty()))
        } else {
            toc_scan(s, seq![(m.end, model_name(s, m))], m.end, fuel)
        },
    }
}

/// The first element named `name` in `s`: `Unschematic` where there is none.
pub open spec fn first_element(s: Seq<u8>, name: &str) -> Result<TagModel, Error> {
    match advanced(s, seq![(0int, Seq::<u8>::empty())], 0, seq![name], true) {
        Err(e) => Err(e),
        Ok((None, _, _)) => Err(Error::Unschematic),
        Ok((Some((m, _)), _, _)) => if m.start == m.end {
            Err(Error::Unschematic)
        } else {
            Ok(m)
        },
    }
}

/// The inner text of the first element named `name` in `s`.
pub open spec fn text_spec(s: Seq<u8>, name: &str) -> Result<Seq<u8>, Error> {
    match first_element(s, name) {
        Err(e) => Err(e),
        Ok(m) => element_text(s, m),
    }
}

pub open spec fn text_is(r: Result<&[u8], Error>, v: Result<Seq<u8>, Error>) -> bool {
    match (r, v) {
        (Ok(x), Ok(y)) => x@ == y,
        (Err(e), Err(f)) => e == f,
        _ => false,
    }
}

/// The first element named `name`, by the cursor's lookup.
fn first_of<'src>(source: &'src [u8], name: &str) -> (r: Result<Tag<'src>, Error>)
    ensures
        match (r, first_element(source@, name)) {
            (Ok(t), Ok(m)) => t.wf() && t.source@ == source@ && t.start == m.start && t.end == m.end
                && t.kind == m.kind && t.name@ == model_name(source@, m) && t.start < t.end
                && found_in(t, source@) && t.name@ == name.spec_bytes() && t.kind != TType::Closing,
            (Err(e), Err(f)) => e == f,
            _ => false,
        },
{
    let r = Tag::get_first(source, name);
    proof {
        let (st, p) = choose|st: Seq<(int, Seq<u8>)>, p: int|
            yields(source@, seq![(0int, Seq::<u8>::empty())], 0, seq![name], true, r, st, p);
        crate::iter::lemma_yields_advanced(source@, seq![(0int, Seq::<u8>::empty())], 0, seq![name], true, r, st, p);
    }
    let t = match r {
        Ok(Some(t)) => t,
        Ok(None) => return Err(Error::Unschematic),
        Err(e) => return Err(e),
    };
    if t.start == t.end {
        return Err(Error::Unschematic);
    }
    Ok(t)
}

/// The text of the first element named `name`.
fn text_of<'src>(source: &'src [u8], name: &str) -> (r: Result<&'src [u8], Error>)
    ensures
        r matches Ok(x) ==> follows_tag(source@, name, x@),
        text_is(r, text_spec(source@, name)),
{
    let t = first_of(source, name)?;
    let res = t.get_end();
    proof {
        let s = source@;
        let m = first_element(s, name)->Ok_0;
        assert(seq![(t.end as int, t.name@)] == seq![(m.end, model_name(s, m))]);
        if t.kind == TType::Opening {
            let f = choose|fuel: nat|
                match #[trigger] close_to(s, seq![(t.end as int, t.name@)], t.end as int, 0, fuel) {
                    Some(Ok((mm, from, st, p))) => res matches Ok((tt, inner)) && crate::xhtml::tag_is(
                        tt,
                        s,
                        from,
                        mm,
                    ) && inner@ == s.subrange(t.end as int, mm.start),
                    Some(Err(e)) => res == Err::<(Tag<'src>, &'src [u8]), Error>(e),
                    None => false,
                };
            crate::iter::lemma_closed(s, seq![(t.end as int, t.name@)], t.end as int, 0, f);
        }
        if let Ok((_, x)) = res {
            let (m2, from) = choose|m2: TagModel, from: int|
                0 <= from <= s.len() && crate::xhtml::tag_is(t, s, from, m2) && (is_tag_at(s, m2)
                    || m2 == eof_tag(s));
            assert(is_tag_at(s, m2));
            assert(x@ =~= s.subrange(m2.end, m2.end + x@.len()));
            assert(follows_tag(s, name, x@));
            if t.kind == TType::SelfClosing {
                assert(x@ =~= Seq::<u8>::empty());
            }
        }
    }
    match res {
        Ok((_, x)) => Ok(x),
        Err(e) => Err(e),
    }
}

/// The book's author: the text of the first `dc:creator`.
pub fn get_author(source: &[u8]) -> (r: Result<&[u8], Error>)
    ensures
        r matches Ok(x) ==> follows_tag(source@, "dc:creator", x@),
        text_is(r, text_spec(source@, "dc:creator")),
{
    text_of(source, "dc:creator")
}

/// The book's title: the text of the first `dc:title`.
pub fn get_title(source: &[u8]) -> (r: Result<&[u8], Error>)
    ensures
        r matches Ok(x) ==> follows_tag(source@, "dc:title", x@),
        text_is(r, text_spec(source@, "dc:title")),
{
    text_of(source, "dc:title")
}

/// The book's publication date: the text of the first `dc:date`.
pub fn get_date(source: &[u8]) -> (r: Result<&[u8], Error>)
    ensures
        r matches Ok(x) ==> follows_tag(source@, "dc:date", x@),
        text_is(r, text_spec(source@, "dc:date")),
{
    text_of(source, "dc:date")
}

/// The book's publisher: the text of the first `dc:publisher`.
pub fn get_publisher(source: &[u8]) -> (r: Result<&[u8], Error>)
    ensures
        r matches Ok(x) ==> follows_tag(source@, "dc:publisher", x@),
        text_is(r, text_spec(source@, "dc:publisher")),
{
    text_of(source, "dc:publisher")
}

/// The table of contents: for each `navPoint` inside the first `navMap`, the
/// text of its `navLabel`'s `text`, and its `content`'s `src` without the
/// `#fragment`.
pub fn get_toc(source: &[u8]) -> (r: Result<Vec<(Vec<u8>, Vec<u8>)>, Error>)
    ensures
        r matches Ok(v) ==> forall|k: int|
            0 <= k < v@.len() ==> is_toc_entry(source@, #[trigger] v@[k].0@, v@[k].1@),
        exists|fuel: nat| #[trigger] toc_spec(source@, fuel) matches Some(x) && attrs_result_is(r, x),
{
    let navmap = match first_of(source, "navMap") {
        Ok(t) => t,
        Err(e) => {
            assert(toc_spec(source@, 0) == Some(Err::<Seq<(Seq<u8>, Seq<u8>)>, Error>(e)));
            return Err(e);
        },
    };
    if navmap.kind != TType::Opening {
        let v: Vec<(Vec<u8>, Vec<u8>)> = Vec::new();
        assert(pair_views(v@) =~= Seq::<(Seq<u8>, Seq<u8>)>::empty());
        assert(toc_spec(source@, 0) == Some(Ok::<Seq<(Seq<u8>, Seq<u8>)>, Error>(Seq::empty())));
        return Ok(v);
    }
    let mut it = navmap.iter();
    let targets = vec!["navPoint"];
    assert(targets@ =~= seq!["navPoint"]);
    let mut out: Vec<(Vec<u8>, Vec<u8>)> = Vec::new();
    let ghost s = source@;
    let ghost f0 = it.frames();
    let ghost p0 = it.pos as int;
    let ghost mut k: nat = 0;
    proof {
        assert forall|f: nat| #[trigger] toc_scan(s, f0, p0, f + 0) == prepend(pair_views(out@), toc_scan(s, f0, p0, f)) by {
            assert(pair_views(out@) =~= Seq::<(Seq<u8>, Seq<u8>)>::empty());
            match toc_scan(s, f0, p0, f) {
                Some(Ok(w)) => { assert(Seq::<(Seq<u8>, Seq<u8>)>::empty() + w =~= w); },
                _ => {},
            }
        }
    }
    loop
        invariant
            it.wf(),
            it.src() == source@,
            s == source@,
            it.root.kind == TType::Opening,
            targets@ == seq!["navPoint"],
            forall|q: int|
                0 <= q < out@.len() ==> is_toc_entry(source@, #[trigger] out@[q].0@, out@[q].1@),
            forall|f: nat| #[trigger] toc_scan(s, f0, p0, f + k) == prepend(pair_views(out@), toc_scan(s, it.frames(), it.pos as int, f)),
            forall|f: nat| #[trigger] toc_spec(s, f) == toc_scan(s, f0, p0, f),
        decreases it.src().len() - it.pos, it.stack@.len(),
    {
        let ghost fr = it.frames();
        let ghost ps = it.pos as int;
        let nx = it.next_by_el(targets.as_slice());
        proof {
            crate::iter::lemma_yields_advanced(s, fr, ps, seq!["navPoint"], true, nx, it.frames(), it.pos as int);
            assert(toc_scan(s, f0, p0, 1 + k) == prepend(pair_views(out@), toc_scan(s, fr, ps, 1)));
        }
        let navpoint = match nx {
            Ok(Some(t)) => t,
            Ok(None) => {
                proof {
                    assert(pair_views(out@) + Seq::<(Seq<u8>, Seq<u8>)>::empty() =~= pair_views(out@));
                    assert(toc_spec(source@, 1 + k) == Some(Ok::<Seq<(Seq<u8>, Seq<u8>)>, Error>(pair_views(out@))));
                }
                let res: Result<Vec<(Vec<u8>, Vec<u8>)>, Error> = Ok(out);
                assert(attrs_result_is(res, Ok(pair_views(out@))));
                return res;
            },
            Err(e) => {
                assert(toc_spec(source@, 1 + k) == Some(Err::<Seq<(Seq<u8>, Seq<u8>)>, Error>(e)));
                return Err(e);
            },
        };
        let entry = toc_entry_of(&navpoint);
        let (title, file) = match entry {
            Ok(x) => x,
            Err(e) => {
                assert(toc_spec(source@, 1 + k) == Some(Err::<Seq<(Seq<u8>, Seq<u8>)>, Error>(e)));
                return Err(e);
            },
        };
        let ghost old_out = out@;
        out.push((title, file));
        proof {
            let x = seq![(out@.last().0@, out@.last().1@)];
            assert(pair_views(out@) =~= pair_views(old_out) + x);
            assert forall|f: nat|
                #[trigger] toc_scan(s, f0, p0, f + (k + 1)) == prepend(pair_views(out@), toc_scan(s, it.frames(), it.pos as int, f)) by {
                assert(f + (k + 1) == (f + 1) + k);
                assert(toc_scan(s, f0, p0, (f + 1) + k) == prepend(pair_views(old_out), toc_scan(s, fr, ps, f + 1)));
                match toc_scan(s, it.frames(), it.pos as int, f) {
                    Some(Ok(w)) => {
                        assert(pair_views(old_out) + (x + w) =~= (pair_views(old_out) + x) + w);
                    },
                    _ => {},
                }
            }
            assert forall|q: int| 0 <= q < out@.len() implies is_toc_entry(source@, #[trigger] out@[q].0@, out@[q].1@) by {
                if q < old_out.len() {
                    assert(out@[q] == old_out[q]);
                }
            }
            k = k + 1;
        }
    }
}

/// The entry of one `navPoint` element.
fn toc_entry_of(navpoint: &Tag) -> (r: Result<(Vec<u8>, Vec<u8>), Error>)
    requires
        navpoint.wf(),
    ensures
        match (r, toc_entry(navpoint.source@, navpoint.end as int, navpoint.name@, navpoint.kind)) {
            (Ok((a, b)), Ok((x, y))) => a@ == x && b@ == y && is_toc_entry(navpoint.source@, a@, b@),
            (Err(e), Err(f)) => e == f,
            _ => false,
        },
{
    let label = required_child(navpoint, "navLabel")?;
    let text = required_child(&label, "text")?;
    let title = inner_text(&text)?;
    let content = required_child(navpoint, "content")?;
    let src = required_attr(&content, "src")?;
    let file = strip_fragment(src);
    proof {
        let s = navpoint.source@;
        let (m, from) = choose|m: TagModel, from: int|
            0 <= from <= s.len() && crate::xhtml::tag_is(content, s, from, m) && (is_tag_at(
                s,
                m,
            ) || m == eof_tag(s));
        let mt = choose|m: TagModel|
            is_tag_at(s, m) && model_name(s, m) == "text".spec_bytes() && m.end == text.end;
        assert(m != eof_tag(s));
        assert(has_attr(s, "content", "src", src@));
        assert(is_tag_at(s, mt));
        assert(is_toc_entry(s, title@, file@));
    }
    Ok((to_vec(title), to_vec(file)))
}

} // verus!

verus! {

/// What a body-level element is to the text.
#[derive(Debug, Clone, Copy, PartialEq, Eq, Structural)]
pub enum PType {
    BodyText,
    Header,
    StandaloneImage,
    Empty,
    /// A container: no text of its own, no paragraph boundary.
    Transparent,
}

/// A body-level element's text (its inner markup) and what it is.
#[derive(Debug, Clone, Copy, PartialEq, Eq)]
pub struct Paragraph<'src> {
    pub text: &'src [u8],
    pub kind: PType,
}

/// The kind that the name of a body-level element alone decides: `None` for
/// `p`, `a` and `span`, whose content decides; `Some(None)` for a name that
/// the classifier has no rule for.
pub open spec fn kind_by_name(name: Seq<u8>) -> Option<Option<PType>> {
    if name == "div".spec_bytes() || name == "section".spec_bytes() {
        Some(Some(PType::Transparent))
    } else if name == "h1".spec_bytes() || name == "h2".spec_bytes() || name == "h3".spec_bytes()
        || name == "h4".spec_bytes() {
        Some(Some(PType::Header))
    } else if name == "svg".spec_bytes() || name == "img".spec_bytes() {
        Some(Some(PType::StandaloneImage))
    } else if name == "hr".spec_bytes() {
        Some(Some(PType::Empty))
    } else if name == "p".spec_bytes() || name == "a".spec_bytes() || name == "span".spec_bytes() {
        None
    } else {
        Some(None)
    }
}

/// `s` holds, between `lo` and `hi`, a tag named among `names` and nothing
/// else but white space.
pub open spec fn sole_child(s: Seq<u8>, lo: int, hi: int, names: Seq<&str>) -> bool {
    exists|m: TagModel|
        is_tag_at(s, m) && crate::iter::is_target(model_name(s, m), names) && lo <= m.start && m.end
            <= hi && crate::bytes::trimmed(s.subrange(lo, m.start)).len() == 0
            && crate::bytes::trimmed(s.subrange(m.end, hi)).len() == 0
}

/// Whether the first element below the opening tag ending at `end` (named
/// `name`) that is named among `names` stands alone in the element, which
/// closes at `es`: nothing but white space around it.
pub open spec fn first_is_sole(s: Seq<u8>, end: int, name: Seq<u8>, es: int, names: Seq<&str>) -> Result<bool, Error> {
    match advanced(s, seq![(end, name)], end, names, true) {
        Err(x) => Err(x),
        Ok((None, _, _)) => Ok(false),
        Ok((Some((m, _)), _, _)) => Ok(m.start < m.end && end <= m.start && m.end <= es
            && crate::bytes::trimmed(s.subrange(end, m.start)).len() == 0 && crate::bytes::trimmed(
            s.subrange(m.end, es),
        ).len() == 0),
    }
}

/// The kind and text of the body-level element whose tag spans
/// `start..end` of `s`, is named `name` and is of kind `kind`.
pub open spec fn paragraph_spec(s: Seq<u8>, start: int, end: int, name: Seq<u8>, kind: TType) -> Result<(PType, Seq<u8>), Error> {
    let closing: Result<int, Error> = match kind {
        TType::SelfClosing => Ok(start),
        TType::Closing => Err(Error::UnexpectedEof),
        TType::Opening => match closed(s, seq![(end, name)], end, 0) {
            Ok((e, _, _, _)) => Ok(e.start),
            Err(x) => Err(x),
        },
    };
    match closing {
        Err(x) => Err(x),
        Ok(es) => {
            let text = if kind == TType::SelfClosing {
                crate::bytes::trimmed(Seq::empty())
            } else {
                crate::bytes::trimmed(s.subrange(end, es))
            };
            match kind_by_name(name) {
                Some(Some(k)) => Ok((k, if k == PType::Transparent { Seq::empty() } else { text })),
                Some(None) => Err(Error::UnknownFormatting),
                None => if kind != TType::Opening {
                    Ok((PType::BodyText, text))
                } else {
                    match first_is_sole(s, end, name, es, seq!["img", "svg"]) {
                        Err(x) => Err(x),
                        Ok(true) => Ok((PType::StandaloneImage, text)),
                        Ok(false) => match first_is_sole(s, end, name, es, seq!["br"]) {
                            Err(x) => Err(x),
                            Ok(true) => Ok((PType::Empty, text)),
                            Ok(false) => Ok((PType::BodyText, text)),
                        },
                    }
                },
            }
        },
    }
}

pub open spec fn paragraph_is(r: Result<Paragraph, Error>, v: Result<(PType, Seq<u8>), Error>) -> bool {
    match (r, v) {
        (Ok(p), Ok((k, t))) => p.kind == k && p.text@ == t,
        (Err(e), Err(f)) => e == f,
        _ => false,
    }
}

/// Whether `inner` around a child element is all white space.
fn blank(b: &[u8]) -> (r: bool)
    ensures
        r == (crate::bytes::trimmed(b@).len() == 0),
{
    crate::bytes::trim(b).len() == 0
}

/// Classifies a body-level element, whose tag the caller has just read.
/// Containers are transparent, headings headers, images standalone images, a
/// rule empty; a paragraph, anchor or span is a standalone image or empty
/// when all it holds is one image or one line break, and body text
/// otherwise. Any other element is unknown formatting.
pub fn parse_paragraph<'src>(tag: &Tag<'src>) -> (r: Result<Paragraph<'src>, Error>)
    requires
        tag.wf(),
    ensures
        r matches Ok(p) ==> match kind_by_name(tag.name@) {
            Some(Some(k)) => p.kind == k,
            Some(None) => false,
            None => p.kind == PType::StandaloneImage || p.kind == PType::Empty || p.kind
                == PType::BodyText,
        },
        r matches Ok(p) ==> p.kind == PType::Transparent ==> p.text@.len() == 0,
        r matches Ok(p) ==> p.kind != PType::Transparent ==> exists|inner: Seq<u8>|
            tag.end + inner.len() <= tag.source@.len() && inner == tag.source@.subrange(
                tag.end as int,
                tag.end + inner.len(),
            ) && p.text@ == crate::bytes::trimmed(inner) && (kind_by_name(tag.name@) is None ==> {
                &&& p.kind == PType::StandaloneImage ==> sole_child(
                    tag.source@,
                    tag.end as int,
                    tag.end + inner.len(),
                    seq!["img", "svg"],
                )
                &&& p.kind == PType::Empty ==> sole_child(
                    tag.source@,
                    tag.end as int,
                    tag.end + inner.len(),
                    seq!["br"],
                )
            }),
        kind_by_name(tag.name@) == Some(None::<PType>) ==> r is Err,
        paragraph_is(r, paragraph_spec(tag.source@, tag.start as int, tag.end as int, tag.name@, tag.kind)),
{
    let ended = tag.get_end();
    proof {
        let s = tag.source@;
        if tag.kind == TType::Opening {
            let f = choose|fuel: nat|
                match #[trigger] close_to(s, seq![(tag.end as int, tag.name@)], tag.end as int, 0, fuel) {
                    Some(Ok((mm, from, st, p))) => ended matches Ok((tt, inner)) && crate::xhtml::tag_is(
                        tt,
                        s,
                        from,
                        mm,
                    ) && inner@ == s.subrange(tag.end as int, mm.start),
                    Some(Err(e)) => ended == Err::<(Tag<'src>, &'src [u8]), Error>(e),
                    None => false,
                };
            crate::iter::lemma_closed(s, seq![(tag.end as int, tag.name@)], tag.end as int, 0, f);
        }
        if let Ok((_, x)) = ended {
            if tag.kind == TType::SelfClosing {
                assert(x@ =~= Seq::<u8>::empty());
            }
        }
    }
    let (end_tag, inner0) = match ended {
        Ok(x) => x,
        Err(e) => return Err(e),
    };
    let inner = crate::bytes::trim(inner0);
    let name = tag.name;
    if name_is(name, "div") || name_is(name, "section") {
        let empty = vstd::slice::slice_subrange(inner, 0, 0);
        assert(empty@ =~= Seq::<u8>::empty());
        return Ok(Paragraph { text: empty, kind: PType::Transparent });
    }
    if name_is(name, "h1") || name_is(name, "h2") || name_is(name, "h3") || name_is(name, "h4") {
        return Ok(Paragraph { text: inner, kind: PType::Header });
    }
    if name_is(name, "svg") || name_is(name, "img") {
        return Ok(Paragraph { text: inner, kind: PType::StandaloneImage });
    }
    if name_is(name, "hr") {
        return Ok(Paragraph { text: inner, kind: PType::Empty });
    }
    if !(name_is(name, "p") || name_is(name, "a") || name_is(name, "span")) {
        return Err(Error::UnknownFormatting);
    }
    let ghost es = end_tag.start as int;
    let mut it = tag.iter();
    let imgs = vec!["img", "svg"];
    assert(imgs@ =~= seq!["img", "svg"]);
    let first_img = it.next_by_el(imgs.as_slice());
    proof {
        if tag.kind == TType::Opening {
            crate::iter::lemma_yields_advanced(tag.source@, seq![(tag.end as int, tag.name@)], tag.end as int, seq!["img", "svg"], true, first_img, it.frames(), it.pos as int);
        }
    }
    if let Some(img) = first_img? {
        // the synthetic end of the input is no image
        if img.start < img.end && tag.end <= img.start && img.end <= end_tag.start {
            if blank(tag.span_with(&img)) && blank(img.span_with(&end_tag)) {
                proof {
                    let s = tag.source@;
                    let (m, from) = choose|m: TagModel, from: int|
                        0 <= from <= s.len() && crate::xhtml::tag_is(img, s, from, m) && (is_tag_at(s, m)
                            || m == eof_tag(s));
                    assert(is_tag_at(s, m));
                    assert(sole_child(s, tag.end as int, tag.end + inner0@.len(), seq!["img", "svg"]));
                }
                return Ok(Paragraph { text: inner, kind: PType::StandaloneImage });
            }
        }
    }
    let first_br = tag.get_first_child("br");
    proof {
        if tag.kind == TType::Opening {
            let (st, p) = choose|st: Seq<(int, Seq<u8>)>, p: int|
                yields(tag.source@, seq![(tag.end as int, tag.name@)], tag.end as int, seq!["br"], true, first_br, st, p);
            crate::iter::lemma_yields_advanced(tag.source@, seq![(tag.end as int, tag.name@)], tag.end as int, seq!["br"], true, first_br, st, p);
        }
    }
    if let Some(br) = first_br? {
        if br.start < br.end && tag.end <= br.start && br.end <= end_tag.start {
            if blank(tag.span_with(&br)) && blank(br.span_with(&end_tag)) {
                proof {
                    let s = tag.source@;
                    let (m, from) = choose|m: TagModel, from: int|
                        0 <= from <= s.len() && crate::xhtml::tag_is(br, s, from, m) && (is_tag_at(s, m)
                            || m == eof_tag(s));
                    assert(is_tag_at(s, m));
                    assert(seq!["br"][0] == "br");
                    assert(sole_child(s, tag.end as int, tag.end + inner0@.len(), seq!["br"]));
                }
                return Ok(Paragraph { text: inner, kind: PType::Empty });
            }
        }
    }
    Ok(Paragraph { text: inner, kind: PType::BodyText })
}

/// The paragraphs of a `body`, one at a time.
pub struct PassageParser<'src> {
    pub body: crate::iter::TagIter<'src>,
}

/// The cursor of a passage read from `stack` at `pos` (its root tag of
/// kind `open`), within `fuel` elements: the next paragraph
/// that is not transparent, with the stack and position after its element;
/// `None` once the body is exhausted.
pub open spec fn passage_next(
    s: Seq<u8>,
    stack: Seq<(int, Seq<u8>)>,
    pos: int,
    open: TType,
    fuel: nat,
) -> Option<Result<Option<((PType, Seq<u8>), Seq<(int, Seq<u8>)>, int)>, Error>>
    decreases fuel,
{
    if fuel == 0 {
        None
    } else if open != TType::Opening {
        Some(Ok(None))
    } else {
        match advanced(s, stack, pos, Seq::empty(), true) {
            Err(e) => Some(Err(e)),
            Ok((None, _, _)) => Some(Ok(None)),
            Ok((Some((m, _)), st, p)) => match paragraph_spec(s, m.start, m.end, model_name(s, m), m.kind) {
                Err(e) => Some(Err(e)),
                Ok((k, t)) => if k == PType::Transparent {
                    passage_next(s, st, p, open, (fuel - 1) as nat)
                } else if m.kind == TType::Opening {
                    match step_out_spec(s, st, p, m.end, model_name(s, m)) {
                        Err(e) => Some(Err(e)),
                        Ok((_, _, st2, p2)) => Some(Ok(Some(((k, t), st2, p2)))),
                    }
                } else {
                    Some(Ok(Some(((k, t), st, p))))
                },
            },
        }
    }
}

pub open spec fn passage_result_is(r: Result<Option<Paragraph>, Error>, frames: Seq<(int, Seq<u8>)>, pos: int, x: Result<Option<((PType, Seq<u8>), Seq<(int, Seq<u8>)>, int)>, Error>) -> bool {
    match (r, x) {
        (Ok(None), Ok(None)) => true,
        (Ok(Some(p)), Ok(Some(((k, t), st, ps)))) => p.kind == k && p.text@ == t && frames == st && pos == ps,
        (Err(e), Err(f)) => e == f,
        _ => false,
    }
}

impl<'src> PassageParser<'src> {
    /// The next paragraph that is not transparent; its element is consumed
    /// whole.
    pub fn next(&mut self) -> (r: Result<Option<Paragraph<'src>>, Error>)
        requires
            old(self).body.wf(),
        ensures
            final(self).body.wf(),
            final(self).body.root == old(self).body.root,
            r matches Ok(Some(p)) ==> p.kind != PType::Transparent,
            r matches Ok(Some(_)) ==> (old(self).body.pos < final(self).body.pos || (old(self).body.pos
                == final(self).body.pos && final(self).body.stack@.len() < old(self).body.stack@.len())),
            exists|fuel: nat|
                #[trigger] passage_next(
                    old(self).body.src(),
                    old(self).body.frames(),
                    old(self).body.pos as int,
                    old(self).body.root.kind,
                    fuel,
                ) matches Some(x) && passage_result_is(r, final(self).body.frames(), final(self).body.pos as int, x),
    {
        let targets: Vec<&str> = Vec::new();
        assert(targets@ =~= Seq::<&str>::empty());
        let ghost s = self.body.src();
        let ghost f0 = self.body.frames();
        let ghost p0 = self.body.pos as int;
        let ghost open = self.body.root.kind;
        let ghost mut k: nat = 0;
        loop
            invariant
                self.body.wf(),
                self.body.root == old(self).body.root,
                s == self.body.src(),
                open == self.body.root.kind,
                f0 == old(self).body.frames(),
                p0 == old(self).body.pos,
                targets@ == Seq::<&str>::empty(),
                old(self).body.pos < self.body.pos || (old(self).body.pos == self.body.pos
                    && self.body.stack@.len() <= old(self).body.stack@.len()),
                forall|f: nat| #[trigger] passage_next(s, f0, p0, open, f + k) == passage_next(s, self.body.frames(), self.body.pos as int, open, f),
            decreases self.body.src().len() - self.body.pos, self.body.stack@.len(),
        {
            let ghost fr = self.body.frames();
            let ghost ps = self.body.pos as int;
            let nx = self.body.next_by_el(targets.as_slice());
            proof {
                if open == TType::Opening {
                    crate::iter::lemma_yields_advanced(s, fr, ps, Seq::<&str>::empty(), true, nx, self.body.frames(), self.body.pos as int);
                }
                assert(passage_next(s, f0, p0, open, 1 + k) == passage_next(s, fr, ps, open, 1));
            }
            let p = match nx {
                Err(e) => {
                    assert(passage_next(s, fr, ps, open, 1) == Some(Err::<Option<((PType, Seq<u8>), Seq<(int, Seq<u8>)>, int)>, Error>(e)));
                    assert(passage_next(old(self).body.src(), old(self).body.frames(), old(self).body.pos as int, old(self).body.root.kind, 1 + k) == Some(Err::<Option<((PType, Seq<u8>), Seq<(int, Seq<u8>)>, int)>, Error>(e)));
                    return Err(e);
                },
                Ok(None) => {
                    assert(passage_next(s, fr, ps, open, 1) == Some(Ok::<Option<((PType, Seq<u8>), Seq<(int, Seq<u8>)>, int)>, Error>(None)));
                    return Ok(None);
                },
                Ok(Some(p)) => p,
            };
            let parsed = match parse_paragraph(&p) {
                Err(e) => return Err(e),
                Ok(x) => x,
            };
            if parsed.kind == PType::Transparent {
                proof {
                    assert forall|f: nat| #[trigger] passage_next(s, f0, p0, open, f + (k + 1)) == passage_next(s, self.body.frames(), self.body.pos as int, open, f) by {
                        assert(f + (k + 1) == (f + 1) + k);
                        assert(passage_next(s, f0, p0, open, (f + 1) + k) == passage_next(s, fr, ps, open, f + 1));
                    }
                    k = k + 1;
                }
                continue ;
            }
            if p.kind == TType::Opening {
                let ghost fr2 = self.body.frames();
                let ghost ps2 = self.body.pos as int;
                let so = self.body.step_out(&p);
                proof {
                    if exists|d: int| crate::iter::is_first_open(fr2, p.end as int, p.name@, d) {
                        let d = choose|d: int| crate::iter::is_first_open(fr2, p.end as int, p.name@, d);
                        let f = choose|fuel: nat|
                            match #[trigger] close_to(s, fr2, ps2, d, fuel) {
                                Some(Ok((m, from, st, pp))) => so matches Ok(Some((t, inner))) && crate::xhtml::tag_is(t, s, from, m)
                                    && inner@ == s.subrange(p.end as int, m.start) && self.body.frames() == st && self.body.pos == pp,
                                Some(Err(e)) => so == Err::<Option<(Tag<'src>, &'src [u8])>, Error>(e),
                                None => false,
                            };
                        crate::iter::lemma_closed(s, fr2, ps2, d, f);
                    }
                }
                if let Err(e) = so {
                    return Err(e);
                }
            }
            return Ok(Some(parsed));
        }
    }
}

proof fn lemma_passage_next_unique(s: Seq<u8>, stack: Seq<(int, Seq<u8>)>, pos: int, open: TType, f1: nat, f2: nat)
    requires
        passage_next(s, stack, pos, open, f1) is Some,
        passage_next(s, stack, pos, open, f2) is Some,
    ensures
        passage_next(s, stack, pos, open, f1) == passage_next(s, stack, pos, open, f2),
    decreases f1,
{
    if open == TType::Opening {
        if let Ok((Some((m, _)), st, p)) = advanced(s, stack, pos, Seq::empty(), true) {
            if let Ok((k, t)) = paragraph_spec(s, m.start, m.end, model_name(s, m), m.kind) {
                if k == PType::Transparent {
                    lemma_passage_next_unique(s, st, p, open, (f1 - 1) as nat, (f2 - 1) as nat);
                }
            }
        }
    }
}

/// The next paragraph of a passage, with no bound on the elements passed over.
pub open spec fn passage_next_total(s: Seq<u8>, stack: Seq<(int, Seq<u8>)>, pos: int, open: TType) -> Result<
    Option<((PType, Seq<u8>), Seq<(int, Seq<u8>)>, int)>,
    Error,
> {
    let f = choose|f: nat| #[trigger] passage_next(s, stack, pos, open, f) is Some;
    passage_next(s, stack, pos, open, f)->0
}

/// All paragraphs of a passage from `stack` at `pos`, within `fuel` of them.
pub open spec fn passage_all(s: Seq<u8>, stack: Seq<(int, Seq<u8>)>, pos: int, open: TType, fuel: nat) -> Option<
    Result<Seq<(PType, Seq<u8>)>, Error>,
>
    decreases fuel,
{
    if fuel == 0 {
        None
    } else {
        match passage_next_total(s, stack, pos, open) {
            Err(e) => Some(Err(e)),
            Ok(None) => Some(Ok(Seq::empty())),
            Ok(Some((pk, st, p))) => prepend(seq![pk], passage_all(s, st, p, open, (fuel - 1) as nat)),
        }
    }
}

proof fn lemma_passage_all_unique(s: Seq<u8>, stack: Seq<(int, Seq<u8>)>, pos: int, open: TType, f1: nat, f2: nat)
    requires
        passage_all(s, stack, pos, open, f1) is Some,
        passage_all(s, stack, pos, open, f2) is Some,
    ensures
        passage_all(s, stack, pos, open, f1) == passage_all(s, stack, pos, open, f2),
    decreases f1,
{
    if let Ok(Some((pk, st, p))) = passage_next_total(s, stack, pos, open) {
        if passage_all(s, st, p, open, (f1 - 1) as nat) is Some && passage_all(s, st, p, open, (f2 - 1) as nat) is Some {
            lemma_passage_all_unique(s, st, p, open, (f1 - 1) as nat, (f2 - 1) as nat);
        }
    }
}

/// The paragraphs of the XHTML document `s`: those of its first `body`.
pub open spec fn document_paragraphs(s: Seq<u8>) -> Result<Seq<(PType, Seq<u8>)>, Error> {
    match advanced(s, seq![(0int, Seq::<u8>::empty())], 0, seq!["body"], true) {
        Err(e) => Err(e),
        Ok((None, _, _)) => Err(Error::Unschematic),
        Ok((Some((m, _)), _, _)) => {
            let st = seq![(m.end, model_name(s, m))];
            let f = choose|f: nat| #[trigger] passage_all(s, st, m.end, m.kind, f) is Some;
            passage_all(s, st, m.end, m.kind, f)->0
        },
    }
}

/// Paragraphs as kinds and texts.
pub open spec fn para_views(v: Seq<Paragraph>) -> Seq<(PType, Seq<u8>)> {
    v.map_values(|p: Paragraph| (p.kind, p.text@))
}

/// Appends the paragraphs of the XHTML document `source` to `out`.
pub fn push_paragraphs<'a>(source: &'a [u8], out: &mut Vec<Paragraph<'a>>) -> (r: Result<(), Error>)
    ensures
        match (r, document_paragraphs(source@)) {
            (Ok(_), Ok(ps)) => para_views(final(out)@) == para_views(old(out)@) + ps,
            (Err(e), Err(f)) => e == f,
            _ => false,
        },
{
    let mut parser = parse_passage(source)?;
    let ghost s = source@;
    let ghost m = advanced(s, seq![(0int, Seq::<u8>::empty())], 0, seq!["body"], true)->Ok_0.0->Some_0.0;
    let ghost f0 = parser.body.frames();
    let ghost p0 = parser.body.pos as int;
    let ghost kd = parser.body.root.kind;
    let ghost out0 = para_views(out@);
    let ghost mut acc: Seq<(PType, Seq<u8>)> = Seq::empty();
    let ghost mut k: nat = 0;
    assert(out0 + acc =~= out0);
    loop
        invariant
            parser.body.wf(),
            parser.body.src() == s,
            s == source@,
            parser.body.root.kind == kd,
            out0 == para_views(old(out)@),
            para_views(out@) == out0 + acc,
            f0 == seq![(m.end, model_name(s, m))],
            p0 == m.end,
            kd == m.kind,
            advanced(s, seq![(0int, Seq::<u8>::empty())], 0, seq!["body"], true) matches Ok((Some((mm, _)), _, _)) && mm == m,
            forall|f: nat| #[trigger] passage_all(s, f0, p0, kd, f + k) == prepend(acc, passage_all(s, parser.body.frames(), parser.body.pos as int, kd, f)),
        decreases parser.body.src().len() - parser.body.pos, parser.body.stack@.len(),
    {
        let ghost fr = parser.body.frames();
        let ghost ps = parser.body.pos as int;
        let nx = parser.next();
        proof {
            let f = choose|fuel: nat|
                #[trigger] passage_next(s, fr, ps, kd, fuel) matches Some(x) && passage_result_is(nx, parser.body.frames(), parser.body.pos as int, x);
            let g = choose|g: nat| #[trigger] passage_next(s, fr, ps, kd, g) is Some;
            lemma_passage_next_unique(s, fr, ps, kd, f, g);
            assert(passage_all(s, f0, p0, kd, 1 + k) == prepend(acc, passage_all(s, fr, ps, kd, 1)));
        }
        match nx {
            Err(e) => {
                proof {
                    let h = choose|h: nat| #[trigger] passage_all(s, f0, p0, kd, h) is Some;
                    lemma_passage_all_unique(s, f0, p0, kd, h, 1 + k);
                }
                return Err(e);
            },
            Ok(None) => {
                proof {
                    let h = choose|h: nat| #[trigger] passage_all(s, f0, p0, kd, h) is Some;
                    lemma_passage_all_unique(s, f0, p0, kd, h, 1 + k);
                    assert(acc + Seq::<(PType, Seq<u8>)>::empty() =~= acc);
                }
                return Ok(());
            },
            Ok(Some(p)) => {
                let ghost before = out@;
                out.push(p);
                proof {
                    let pk = (p.kind, p.text@);
                    assert(para_views(out@) =~= para_views(before).push(pk));
                    assert(para_views(out@) =~= out0 + acc.push(pk));
                    assert forall|f: nat| #[trigger] passage_all(s, f0, p0, kd, f + (k + 1)) == prepend(acc.push(pk), passage_all(s, parser.body.frames(), parser.body.pos as int, kd, f)) by {
                        assert(f + (k + 1) == (f + 1) + k);
                        assert(passage_all(s, f0, p0, kd, (f + 1) + k) == prepend(acc, passage_all(s, fr, ps, kd, f + 1)));
                        match passage_all(s, parser.body.frames(), parser.body.pos as int, kd, f) {
                            Some(Ok(w)) => { assert(acc + (seq![pk] + w) =~= acc.push(pk) + w); },
                            _ => {},
                        }
                    }
                    acc = acc.push(pk);
                    k = k + 1;
                }
            },
        }
    }
}

/// The paragraphs of an XHTML document: those of its first `body`.
pub fn parse_passage<'src>(source: &'src [u8]) -> (r: Result<PassageParser<'src>, Error>)
    ensures
        r matches Ok(p) ==> p.body.wf() && p.body.src() == source@ && p.body.root.name@
            == "body".spec_bytes(),
        match (r, advanced(source@, seq![(0int, Seq::<u8>::empty())], 0, seq!["body"], true)) {
            (Ok(p), Ok((Some((m, _)), _, _))) => p.body.frames() == seq![(m.end, model_name(source@, m))]
                && p.body.pos == m.end && p.body.root.kind == m.kind,
            (Err(e), Ok((None, _, _))) => e == Error::Unschematic,
            (Err(e), Err(f)) => e == f,
            _ => false,
        },
{
    let r0 = Tag::get_first(source, "body");
    proof {
        let (st, p) = choose|st: Seq<(int, Seq<u8>)>, p: int|
            yields(source@, seq![(0int, Seq::<u8>::empty())], 0, seq!["body"], true, r0, st, p);
        crate::iter::lemma_yields_advanced(source@, seq![(0int, Seq::<u8>::empty())], 0, seq!["body"], true, r0, st, p);
    }
    let body = match r0 {
        Ok(Some(t)) => t,
        Ok(None) => return Err(Error::Unschematic),
        Err(e) => return Err(e),
    };
    Ok(PassageParser { body: body.iter() })
}

} // verus!

verus! {

/// The glyph that stands for a private-use image not mapped yet: U+FFFD.
pub open spec fn placeholder_glyph() -> Seq<u8> {
    seq![0xefu8, 0xbfu8, 0xbdu8]
}

/// `a` begins with `b`.
pub open spec fn extends<T>(a: Seq<T>, b: Seq<T>) -> bool {
    b.len() <= a.len() && forall|i: int| 0 <= i < b.len() ==> #[trigger] a[i] == b[i]
}

/// `old_t` and `new_t` map the same references alike, `new_t` possibly more.
pub open spec fn grows(old_t: crate::gaiji::Gaiji, new_t: crate::gaiji::Gaiji) -> bool {
    forall|k: Seq<u8>| old_t.lookup(k) is Some ==> #[trigger] new_t.lookup(k) == old_t.lookup(k)
}

/// Every reading of `ys` from `from` on ties to a span of `out` at or after `lo`.
pub open spec fn spans_within(ys: Seq<crate::yomi::Yomi>, from: int, lo: int, out: Seq<u8>) -> bool {
    forall|i: int|
        from <= i < ys.len() ==> lo <= (#[trigger] ys[i]).start <= ys[i].end <= out.len()
}

proof fn lemma_spans_grow(
    y0: Seq<crate::yomi::Yomi>,
    y1: Seq<crate::yomi::Yomi>,
    from: int,
    lo: int,
    o0: Seq<u8>,
    o1: Seq<u8>,
)
    requires
        spans_within(y0, from, lo, o0),
        extends(y1, y0),
        o1.len() >= o0.len(),
        0 <= from,
        lo <= o0.len(),
        spans_within(y1, y0.len() as int, o0.len() as int, o1),
    ensures
        spans_within(y1, from, lo, o1),
{
    assert forall|i: int| from <= i < y1.len() implies lo <= (#[trigger] y1[i]).start <= y1[i].end
        <= o1.len() by {
        if i < y0.len() {
            assert(y0[i] == y1[i]);
        }
    }
}

/// `s` holds no `<`: it is plain text, without markup.
pub open spec fn is_plain(s: Seq<u8>) -> bool {
    forall|i: int| 0 <= i < s.len() ==> s[i] != 60u8
}

proof fn lemma_plain_has_no_tag(s: Seq<u8>, from: int)
    requires
        is_plain(s),
    ensures
        find_from(s, from, |b: u8| is_lt(b)) is None,
    decreases s.len() - from,
{
    if 0 <= from < s.len() {
        lemma_plain_has_no_tag(s, from + 1);
    }
}

/// On plain text a cursor from the root yields the synthetic end tag, with
/// the whole text before it, and then nothing.
proof fn lemma_plain_yields(
    s: Seq<u8>,
    targets: Seq<&str>,
    r: Result<Option<Tag>, Error>,
    st: Seq<(int, Seq<u8>)>,
    p: int,
)
    requires
        is_plain(s),
        targets.len() == 0,
        yields(s, seq![(0int, Seq::<u8>::empty())], 0, targets, false, r, st, p),
    ensures
        r matches Ok(Some(t)) && t.before_text@ == s && t.kind == TType::Closing,
        st.len() == 0,
{
    lemma_plain_has_no_tag(s, 0);
    let stack = seq![(0int, Seq::<u8>::empty())];
    assert(stack.drop_last() =~= Seq::<(int, Seq<u8>)>::empty());
    assert forall|f: nat| f > 0 implies #[trigger] advance(s, stack, 0, targets, false, f) == Some(
        Ok::<(Option<(TagModel, int)>, Seq<(int, Seq<u8>)>, int), Error>(
            (Some((eof_tag(s), 0)), Seq::<(int, Seq<u8>)>::empty(), s.len() as int),
        ),
    ) by {}
    assert(s.subrange(0, s.len() as int) =~= s);
}

/// A cursor with nothing open yields nothing.
proof fn lemma_empty_yields(
    s: Seq<u8>,
    pos: int,
    targets: Seq<&str>,
    r: Result<Option<Tag>, Error>,
    st: Seq<(int, Seq<u8>)>,
    p: int,
)
    requires
        yields(s, Seq::<(int, Seq<u8>)>::empty(), pos, targets, false, r, st, p),
    ensures
        r == Ok::<Option<Tag>, Error>(None),
        st.len() == 0,
{
    assert forall|f: nat| f > 0 implies #[trigger] advance(s, Seq::<(int, Seq<u8>)>::empty(), pos, targets, false, f) == Some(
        Ok::<(Option<(TagModel, int)>, Seq<(int, Seq<u8>)>, int), Error>(
            (None, Seq::<(int, Seq<u8>)>::empty(), pos),
        ),
    ) by {}
}

/// The readings as spans and texts.
pub open spec fn ymodel(ys: Seq<crate::yomi::Yomi>) -> Seq<(int, int, Seq<u8>)> {
    ys.map_values(|y: crate::yomi::Yomi| (y.start as int, y.end as int, y.rt@))
}

/// Stepping out of the element opened by a tag ending at `end` and named
/// `name`, from `stack` at `pos`: the closing tag, where its step started,
/// and the stack and position after it.
pub open spec fn step_out_spec(s: Seq<u8>, stack: Seq<(int, Seq<u8>)>, pos: int, end: int, name: Seq<u8>) -> Result<
    (TagModel, int, Seq<(int, Seq<u8>)>, int),
    Error,
> {
    if exists|d: int| crate::iter::is_first_open(stack, end, name, d) {
        closed(s, stack, pos, choose|d: int| crate::iter::is_first_open(stack, end, name, d))
    } else {
        Err(Error::NotOpen)
    }
}

/// The children of a `ruby` element, read from `stack` at `pos` within
/// `fuel` children: the text with the base text written, and the readings
/// with one added per `rt`, over the span of the last `rb` or else of the
/// text since the last `rt`.
pub open spec fn ruby_spec(
    s: Seq<u8>,
    stack: Seq<(int, Seq<u8>)>,
    pos: int,
    out: Seq<u8>,
    ys: Seq<(int, int, Seq<u8>)>,
    last_rb: Option<(int, int)>,
    last_rt: int,
    fuel: nat,
) -> Option<Result<(Seq<u8>, Seq<(int, int, Seq<u8>)>), Error>>
    decreases fuel,
{
    if fuel == 0 {
        None
    } else {
        match advanced(s, stack, pos, Seq::empty(), true) {
            Err(e) => Some(Err(e)),
            Ok((None, _, _)) => Some(Ok((out, ys))),
            Ok((Some((r, from)), st, p)) => {
                let out1 = out + s.subrange(from, r.start);
                if r.kind == TType::SelfClosing {
                    Some(Err(Error::UnknownFormatting))
                } else {
                    match step_out_spec(s, st, p, r.end, model_name(s, r)) {
                        Err(e) => Some(Err(e)),
                        Ok((e, _, st2, p2)) => {
                            let inner = s.subrange(r.end, e.start);
                            if model_name(s, r) == "rb".spec_bytes() {
                                ruby_spec(s, st2, p2, out1 + inner, ys, Some((out1.len() as int, (out1.len() + inner.len()) as int)), last_rt, (fuel - 1) as nat)
                            } else if model_name(s, r) == "rt".spec_bytes() {
                                let span = match last_rb {
                                    Some(sp) => sp,
                                    None => (last_rt, out1.len() as int),
                                };
                                ruby_spec(s, st2, p2, out1, ys.push((span.0, span.1, inner)), None, out1.len() as int, (fuel - 1) as nat)
                            } else {
                                Some(Err(Error::UnknownFormatting))
                            }
                        },
                    }
                }
            },
        }
    }
}

/// Reading a `ruby` gives one result, however many children it is allowed.
proof fn lemma_ruby_unique(
    s: Seq<u8>,
    stack: Seq<(int, Seq<u8>)>,
    pos: int,
    out: Seq<u8>,
    ys: Seq<(int, int, Seq<u8>)>,
    last_rb: Option<(int, int)>,
    last_rt: int,
    f1: nat,
    f2: nat,
)
    requires
        ruby_spec(s, stack, pos, out, ys, last_rb, last_rt, f1) is Some,
        ruby_spec(s, stack, pos, out, ys, last_rb, last_rt, f2) is Some,
    ensures
        ruby_spec(s, stack, pos, out, ys, last_rb, last_rt, f1) == ruby_spec(s, stack, pos, out, ys, last_rb, last_rt, f2),
    decreases f1,
{
    if let Ok((Some((r, from)), st, p)) = advanced(s, stack, pos, Seq::empty(), true) {
        let out1 = out + s.subrange(from, r.start);
        if r.kind != TType::SelfClosing {
            if let Ok((e, _, st2, p2)) = step_out_spec(s, st, p, r.end, model_name(s, r)) {
                let inner = s.subrange(r.end, e.start);
                if model_name(s, r) == "rb".spec_bytes() {
                    lemma_ruby_unique(s, st2, p2, out1 + inner, ys, Some((out1.len() as int, (out1.len() + inner.len()) as int)), last_rt, (f1 - 1) as nat, (f2 - 1) as nat);
                } else if model_name(s, r) == "rt".spec_bytes() {
                    let span = match last_rb {
                        Some(sp) => sp,
                        None => (last_rt, out1.len() as int),
                    };
                    lemma_ruby_unique(s, st2, p2, out1, ys.push((span.0, span.1, inner)), None, out1.len() as int, (f1 - 1) as nat, (f2 - 1) as nat);
                }
            }
        }
    }
}

/// What reading a `ruby` element opened by the tag `m` gives, with no bound
/// on its children.
pub open spec fn ruby_total(s: Seq<u8>, m: TagModel, out: Seq<u8>, ys: Seq<(int, int, Seq<u8>)>) -> Result<(Seq<u8>, Seq<(int, int, Seq<u8>)>), Error> {
    let f = choose|f: nat| #[trigger] ruby_spec(s, seq![(m.end, model_name(s, m))], m.end, out, ys, None, out.len() as int, f) is Some;
    ruby_spec(s, seq![(m.end, model_name(s, m))], m.end, out, ys, None, out.len() as int, f)->0
}

/// The markup `s` read from `stack` at `pos`, within `fuel` tags, with the
/// glyph table `g`, the text so far `out` and the readings so far `ys`:
/// the text with `s`'s text written, formatting stripped, and a newline;
/// the readings; the table.
pub open spec fn strip_spec(
    s: Seq<u8>,
    stack: Seq<(int, Seq<u8>)>,
    pos: int,
    g: Map<Seq<u8>, Seq<u8>>,
    out: Seq<u8>,
    ys: Seq<(int, int, Seq<u8>)>,
    fuel: nat,
) -> Option<Result<(Seq<u8>, Seq<(int, int, Seq<u8>)>, Map<Seq<u8>, Seq<u8>>), Error>>
    decreases fuel,
{
    if fuel == 0 {
        None
    } else {
        match advanced(s, stack, pos, Seq::empty(), false) {
            Err(e) => Some(Err(e)),
            Ok((None, _, _)) => Some(Ok((out.push(10u8), ys, g))),
            Ok((Some((m, from)), st, p)) => {
                let out1 = out + s.subrange(from, m.start);
                let name = model_name(s, m);
                match m.kind {
                    TType::Closing => strip_spec(s, st, p, g, out1, ys, (fuel - 1) as nat),
                    TType::SelfClosing => if name == "br".spec_bytes() {
                        strip_spec(s, st, p, g, out1.push(10u8), ys, (fuel - 1) as nat)
                    } else if name == "img".spec_bytes() {
                        match glyph_spec(s.subrange(m.start, m.end), g) {
                            Err(e) => Some(Err(e)),
                            Ok((gl, g2)) => strip_spec(s, st, p, g2, out1 + gl, ys, (fuel - 1) as nat),
                        }
                    } else {
                        Some(Err(Error::UnknownFormatting))
                    },
                    TType::Opening => match step_out_spec(s, st, p, m.end, name) {
                        Err(e) => Some(Err(e)),
                        Ok((e, efrom, st2, p2)) => {
                            let inner = s.subrange(m.end, e.start);
                            if name == "span".spec_bytes() || name == "a".spec_bytes() || name == "em".spec_bytes() {
                                strip_spec(s, st2, p2, g, out1 + inner, ys, (fuel - 1) as nat)
                            } else if name == "ruby".spec_bytes() {
                                match ruby_total(s, m, out1, ys) {
                                    Err(x) => Some(Err(x)),
                                    Ok((o2, y2)) => strip_spec(s, st2, p2, g, o2 + s.subrange(efrom, e.start), y2, (fuel - 1) as nat),
                                }
                            } else {
                                Some(Err(Error::UnknownFormatting))
                            }
                        },
                    },
                }
            },
        }
    }
}

/// The glyph for the image tag `mk` and the table after it: the one
/// registered for its `src`, else the placeholder, registered, where the
/// image is marked as a glyph (`class` `gaiji` or `gaiji-line`).
pub open spec fn glyph_spec(mk: Seq<u8>, g: Map<Seq<u8>, Seq<u8>>) -> Result<(Seq<u8>, Map<Seq<u8>, Seq<u8>>), Error> {
    match parse_attr_spec(mk, "src".spec_bytes()) {
        Err(e) => Err(e),
        Ok(None) => Err(Error::UnknownFormatting),
        Ok(Some(src)) => if g.contains_key(src) {
            Ok((g[src], g))
        } else {
            match parse_attr_spec(mk, "class".spec_bytes()) {
                Err(e) => Err(e),
                Ok(c) => if c matches Some(cc) && (cc == "gaiji".spec_bytes() || cc
                    == "gaiji-line".spec_bytes()) {
                    Ok((placeholder_glyph(), g.insert(src, placeholder_glyph())))
                } else {
                    Err(Error::UnknownFormatting)
                },
            }
        },
    }
}

/// The glyph for the image `tag`: the one registered for its `src`, else a
/// placeholder that is registered when the image is marked as a glyph
/// (`class` `gaiji` or `gaiji-line`).
fn gaiji_glyph(gaiji: &mut crate::gaiji::Gaiji, tag: &Tag) -> (r: Result<Vec<u8>, Error>)
    requires
        old(gaiji).wf(),
        tag.wf(),
    ensures
        final(gaiji).wf(),
        grows(*old(gaiji), *final(gaiji)),
        match (r, glyph_spec(tag.source@.subrange(tag.start as int, tag.end as int), old(gaiji).view_map())) {
            (Ok(v), Ok((gl, g2))) => v@ == gl && final(gaiji).view_map() == g2,
            (Err(e), Err(f)) => e == f && final(gaiji).view_map() == old(gaiji).view_map(),
            _ => false,
        },
{
    let src = match tag.get_attr("src")? {
        Some(s) => s,
        None => return Err(Error::UnknownFormatting),
    };
    if let Some(g) = gaiji.get(src) {
        return Ok(to_vec(g.as_slice()));
    }
    let class = tag.get_attr("class")?;
    let marked = match class {
        Some(c) => name_is(c, "gaiji") || name_is(c, "gaiji-line"),
        None => false,
    };
    if !marked {
        return Err(Error::UnknownFormatting);
    }
    let glyph: Vec<u8> = vec![0xefu8, 0xbfu8, 0xbdu8];
    assert(glyph@ =~= placeholder_glyph());
    let ghost g0 = gaiji.view_map();
    gaiji.insert(to_vec(src), to_vec(glyph.as_slice()));
    assert(gaiji.view_map() =~= g0.insert(src@, placeholder_glyph()));
    Ok(glyph)
}

/// Writes the text of the markup `p` to `out`, inline formatting stripped,
/// then a newline. Text between tags passes through, `<br/>` becomes a
/// newline, a private-use image its glyph, `span`, `a` and `em` their text.
/// A `ruby`'s base text (its `rb`s, or what precedes each `rt`) is written
/// and each `rt` records a reading for the span of that base text. Any other
/// markup is unknown formatting.
pub fn with_fmt_stripped<'src>(
    gaiji: &mut crate::gaiji::Gaiji,
    yomi: &mut Vec<crate::yomi::Yomi<'src>>,
    out: &mut Vec<u8>,
    p: &'src [u8],
) -> (r: Result<(), Error>)
    requires
        old(gaiji).wf(),
    ensures
        final(gaiji).wf(),
        grows(*old(gaiji), *final(gaiji)),
        extends(final(out)@, old(out)@),
        extends(final(yomi)@, old(yomi)@),
        spans_within(final(yomi)@, old(yomi)@.len() as int, old(out)@.len() as int, final(out)@),
        r is Ok ==> final(out)@.len() > old(out)@.len() && final(out)@.last() == 10u8,
        is_plain(p@) ==> r is Ok && final(out)@ == old(out)@ + p@ + seq![10u8],
        exists|fuel: nat|
            #[trigger] strip_spec(
                p@,
                seq![(0int, Seq::<u8>::empty())],
                0,
                old(gaiji).view_map(),
                old(out)@,
                ymodel(old(yomi)@),
                fuel,
            ) matches Some(x) && strip_result_is(r, final(out)@, ymodel(final(yomi)@), final(gaiji).view_map(), x),
{
    let ghost out0 = out@;
    let ghost yomi0 = yomi@;
    let ghost gaiji0 = *gaiji;
    let ghost s = p@;
    let ghost g0 = gaiji.view_map();
    let ghost y0 = ymodel(yomi@);
    let root = Tag::root(p);
    assert(root.name@ =~= Seq::<u8>::empty());
    let mut iter = root.iter();
    let any: Vec<&str> = Vec::new();
    assert(any@ =~= Seq::<&str>::empty());
    let ghost f0 = iter.frames();
    let ghost mut k: nat = 0;
    loop
        invariant
            iter.wf(),
            iter.src() == p@,
            s == p@,
            gaiji.wf(),
            grows(gaiji0, *gaiji),
            extends(out@, out0),
            extends(yomi@, yomi0),
            spans_within(yomi@, yomi0.len() as int, out0.len() as int, out@),
            gaiji0 == *old(gaiji),
            out0 == old(out)@,
            yomi0 == old(yomi)@,
            g0 == old(gaiji).view_map(),
            y0 == ymodel(old(yomi)@),
            f0 == seq![(0int, Seq::<u8>::empty())],
            any@ == Seq::<&str>::empty(),
            iter.root.kind == TType::Opening,
            is_plain(p@) ==> (iter.frames() == seq![(0int, Seq::<u8>::empty())] && iter.pos == 0
                && out@ == out0) || (iter.frames().len() == 0 && out@ == out0 + p@),
            forall|f: nat|
                #[trigger] strip_spec(s, f0, 0, g0, out0, y0, f + k) == strip_spec(
                    s,
                    iter.frames(),
                    iter.pos as int,
                    gaiji.view_map(),
                    out@,
                    ymodel(yomi@),
                    f,
                ),
        decreases iter.src().len() - iter.pos, iter.stack@.len(),
    {
        let ghost fr = iter.frames();
        let ghost ps = iter.pos as int;
        let ghost g_i = gaiji.view_map();
        let ghost o_i = out@;
        let ghost y_i = ymodel(yomi@);
        let next = iter.next_by_tag(any.as_slice());
        proof {
            if is_plain(p@) {
                if fr.len() == 0 {
                    assert(fr =~= Seq::<(int, Seq<u8>)>::empty());
                    lemma_empty_yields(p@, ps, any@, next, iter.frames(), iter.pos as int);
                } else {
                    lemma_plain_yields(p@, any@, next, iter.frames(), iter.pos as int);
                }
            }
            crate::iter::lemma_yields_advanced(s, fr, ps, Seq::<&str>::empty(), false, next, iter.frames(), iter.pos as int);
            assert(strip_spec(s, f0, 0, g0, out0, y0, 1 + k) == strip_spec(s, fr, ps, g_i, o_i, y_i, 1));
        }
        let tag = match next {
            Err(e) => return Err(e),
            Ok(None) => {
                out.push(10u8);
                proof {
                    if is_plain(p@) {
                        assert(out@ =~= out0 + p@ + seq![10u8]);
                    }
                }
                return Ok(());
            },
            Ok(Some(t)) => t,
        };
        let ghost out_i = out@;
        let ghost yomi_i = yomi@;
        crate::bytes::push_all(out, tag.before_text);
        let ghost fr2 = iter.frames();
        let ghost ps2 = iter.pos as int;
        match tag.kind {
            TType::Closing => {},
            TType::SelfClosing => {
                if name_is(tag.name, "br") {
                    out.push(10u8);
                } else if name_is(tag.name, "img") {
                    let glyph = match gaiji_glyph(gaiji, &tag) {
                        Ok(g) => g,
                        Err(e) => return Err(e),
                    };
                    crate::bytes::push_all(out, glyph.as_slice());
                } else {
                    return Err(Error::UnknownFormatting);
                }
            },
            TType::Opening => {
                let so = iter.step_out(&tag);
                proof {
                    if exists|d: int| crate::iter::is_first_open(fr2, tag.end as int, tag.name@, d) {
                        let d = choose|d: int| crate::iter::is_first_open(fr2, tag.end as int, tag.name@, d);
                        let f = choose|fuel: nat|
                            match #[trigger] close_to(s, fr2, ps2, d, fuel) {
                                Some(Ok((m, from, st, pp))) => so matches Ok(Some((t, inner))) && crate::xhtml::tag_is(t, s, from, m)
                                    && inner@ == s.subrange(tag.end as int, m.start) && iter.frames() == st && iter.pos == pp,
                                Some(Err(e)) => so == Err::<Option<(Tag<'src>, &'src [u8])>, Error>(e),
                                None => false,
                            };
                        crate::iter::lemma_closed(s, fr2, ps2, d, f);
                    }
                }
                let (end_tag, inner) = match so {
                    Err(e) => return Err(e),
                    Ok(Some(x)) => x,
                    Ok(None) => return Err(Error::UnknownFormatting),
                };
                if name_is(tag.name, "span") || name_is(tag.name, "a") || name_is(tag.name, "em") {
                    crate::bytes::push_all(out, inner);
                } else if name_is(tag.name, "ruby") {
                    let ghost out_r = out@;
                    let ghost y_r = ymodel(yomi@);
                    let res = strip_ruby(yomi, out, &tag);
                    proof {
                        lemma_spans_grow(yomi_i, yomi@, yomi0.len() as int, out0.len() as int, out_r, out@);
                        let m = choose|m: TagModel, from: int| crate::xhtml::tag_is(tag, s, from, m);
                        let fz = choose|fuel: nat|
                            #[trigger] ruby_spec(
                                tag.source@,
                                seq![(tag.end as int, tag.name@)],
                                tag.end as int,
                                out_r,
                                y_r,
                                None,
                                out_r.len() as int,
                                fuel,
                            ) matches Some(x) && ruby_result_is(res, out@, ymodel(yomi@), x);
                        let mm = advanced(s, fr, ps, Seq::<&str>::empty(), false)->Ok_0.0->Some_0.0;
                        assert(seq![(tag.end as int, tag.name@)] == seq![(mm.end, model_name(s, mm))]);
                        let fc = choose|f: nat| #[trigger] ruby_spec(s, seq![(mm.end, model_name(s, mm))], mm.end, out_r, y_r, None, out_r.len() as int, f) is Some;
                        lemma_ruby_unique(s, seq![(mm.end, model_name(s, mm))], mm.end, out_r, y_r, None, out_r.len() as int, fz, fc);
                    }
                    if res.is_err() {
                        return res;
                    }
                    crate::bytes::push_all(out, end_tag.before_text);
                } else {
                    return Err(Error::UnknownFormatting);
                }
            },
        }
        proof {
            assert forall|f: nat|
                #[trigger] strip_spec(s, f0, 0, g0, out0, y0, f + (k + 1)) == strip_spec(
                    s,
                    iter.frames(),
                    iter.pos as int,
                    gaiji.view_map(),
                    out@,
                    ymodel(yomi@),
                    f,
                ) by {
                assert(f + (k + 1) == (f + 1) + k);
                assert(strip_spec(s, f0, 0, g0, out0, y0, (f + 1) + k) == strip_spec(s, fr, ps, g_i, o_i, y_i, f + 1));
            }
            k = k + 1;
        }
    }
}

proof fn lemma_strip_unique(
    s: Seq<u8>,
    stack: Seq<(int, Seq<u8>)>,
    pos: int,
    g: Map<Seq<u8>, Seq<u8>>,
    out: Seq<u8>,
    ys: Seq<(int, int, Seq<u8>)>,
    f1: nat,
    f2: nat,
)
    requires
        strip_spec(s, stack, pos, g, out, ys, f1) is Some,
        strip_spec(s, stack, pos, g, out, ys, f2) is Some,
    ensures
        strip_spec(s, stack, pos, g, out, ys, f1) == strip_spec(s, stack, pos, g, out, ys, f2),
    decreases f1,
{
    if let Ok((Some((m, from)), st, p)) = advanced(s, stack, pos, Seq::empty(), false) {
        let out1 = out + s.subrange(from, m.start);
        let name = model_name(s, m);
        let (f1p, f2p) = ((f1 - 1) as nat, (f2 - 1) as nat);
        match m.kind {
            TType::Closing => lemma_strip_unique(s, st, p, g, out1, ys, f1p, f2p),
            TType::SelfClosing => if name == "br".spec_bytes() {
                lemma_strip_unique(s, st, p, g, out1.push(10u8), ys, f1p, f2p);
            } else if name == "img".spec_bytes() {
                if let Ok((gl, g2)) = glyph_spec(s.subrange(m.start, m.end), g) {
                    lemma_strip_unique(s, st, p, g2, out1 + gl, ys, f1p, f2p);
                }
            },
            TType::Opening => if let Ok((e, efrom, st2, p2)) = step_out_spec(s, st, p, m.end, name) {
                let inner = s.subrange(m.end, e.start);
                if name == "span".spec_bytes() || name == "a".spec_bytes() || name == "em".spec_bytes() {
                    lemma_strip_unique(s, st2, p2, g, out1 + inner, ys, f1p, f2p);
                } else if name == "ruby".spec_bytes() {
                    if let Ok((o2, y2)) = ruby_total(s, m, out1, ys) {
                        lemma_strip_unique(s, st2, p2, g, o2 + s.subrange(efrom, e.start), y2, f1p, f2p);
                    }
                }
            },
        }
    }
}

/// The markup `s` stripped onto `out` and `ys` with the table `g`, with no
/// bound on its tags.
pub open spec fn strip_total(s: Seq<u8>, g: Map<Seq<u8>, Seq<u8>>, out: Seq<u8>, ys: Seq<(int, int, Seq<u8>)>) -> Result<
    (Seq<u8>, Seq<(int, int, Seq<u8>)>, Map<Seq<u8>, Seq<u8>>),
    Error,
> {
    let f = choose|f: nat| #[trigger] strip_spec(s, seq![(0int, Seq::<u8>::empty())], 0, g, out, ys, f) is Some;
    strip_spec(s, seq![(0int, Seq::<u8>::empty())], 0, g, out, ys, f)->0
}

/// Whatever a bounded strip that ends gives is `strip_total`.
pub proof fn lemma_strip_total(s: Seq<u8>, g: Map<Seq<u8>, Seq<u8>>, out: Seq<u8>, ys: Seq<(int, int, Seq<u8>)>, f: nat)
    requires
        strip_spec(s, seq![(0int, Seq::<u8>::empty())], 0, g, out, ys, f) is Some,
    ensures
        strip_spec(s, seq![(0int, Seq::<u8>::empty())], 0, g, out, ys, f) == Some(strip_total(s, g, out, ys)),
{
    let h = choose|h: nat| #[trigger] strip_spec(s, seq![(0int, Seq::<u8>::empty())], 0, g, out, ys, h) is Some;
    lemma_strip_unique(s, seq![(0int, Seq::<u8>::empty())], 0, g, out, ys, f, h);
}

pub open spec fn strip_result_is(
    r: Result<(), Error>,
    out: Seq<u8>,
    ys: Seq<(int, int, Seq<u8>)>,
    g: Map<Seq<u8>, Seq<u8>>,
    x: Result<(Seq<u8>, Seq<(int, int, Seq<u8>)>, Map<Seq<u8>, Seq<u8>>), Error>,
) -> bool {
    match (r, x) {
        (Ok(_), Ok((o, y, gg))) => out == o && ys == y && g == gg,
        (Err(e), Err(f)) => e == f,
        _ => false,
    }
}

/// Writes the base text of the `ruby` element opened by `tag` to `out`, and
/// records a reading for each `rt`.
fn strip_ruby<'src>(yomi: &mut Vec<crate::yomi::Yomi<'src>>, out: &mut Vec<u8>, tag: &Tag<'src>) -> (r: Result<(), Error>)
    requires
        tag.wf(),
        tag.kind == TType::Opening,
    ensures
        extends(final(out)@, old(out)@),
        extends(final(yomi)@, old(yomi)@),
        spans_within(final(yomi)@, old(yomi)@.len() as int, old(out)@.len() as int, final(out)@),
        exists|fuel: nat|
            #[trigger] ruby_spec(
                tag.source@,
                seq![(tag.end as int, tag.name@)],
                tag.end as int,
                old(out)@,
                ymodel(old(yomi)@),
                None,
                old(out)@.len() as int,
                fuel,
            ) matches Some(x) && ruby_result_is(r, final(out)@, ymodel(final(yomi)@), x),
{
    let ghost out0 = out@;
    let ghost yomi0 = yomi@;
    let ghost s = tag.source@;
    let mut it = tag.iter();
    let any: Vec<&str> = Vec::new();
    assert(any@ =~= Seq::<&str>::empty());
    let mut last_rb: Option<(usize, usize)> = None;
    let mut last_rt: usize = out.len();
    let ghost f0 = it.frames();
    let ghost p0 = it.pos as int;
    let ghost mut k: nat = 0;
    loop
        invariant
            it.wf(),
            it.src() == s,
            it.root.kind == TType::Opening,
            any@ == Seq::<&str>::empty(),
            extends(out@, out0),
            extends(yomi@, yomi0),
            spans_within(yomi@, yomi0.len() as int, out0.len() as int, out@),
            out0.len() <= last_rt <= out@.len(),
            last_rb matches Some((a, b)) ==> out0.len() <= a <= b <= out@.len(),
            out0 == old(out)@,
            yomi0 == old(yomi)@,
            s == tag.source@,
            f0 == seq![(tag.end as int, tag.name@)],
            p0 == tag.end,
            forall|f: nat|
                #[trigger] ruby_spec(s, f0, p0, out0, ymodel(yomi0), None, out0.len() as int, f + k)
                    == ruby_spec(s, it.frames(), it.pos as int, out@, ymodel(yomi@), rb_model(last_rb), last_rt as int, f),
        decreases it.src().len() - it.pos, it.stack@.len(),
    {
        let ghost fr = it.frames();
        let ghost ps = it.pos as int;
        let ghost o_i = out@;
        let ghost y_i = ymodel(yomi@);
        let ghost rb_i = rb_model(last_rb);
        let ghost rt_i = last_rt as int;
        let nx = it.next_by_el(any.as_slice());
        proof {
            crate::iter::lemma_yields_advanced(s, fr, ps, Seq::<&str>::empty(), true, nx, it.frames(), it.pos as int);
            assert(ruby_spec(s, f0, p0, out0, ymodel(yomi0), None, out0.len() as int, 1 + k) == ruby_spec(s, fr, ps, o_i, y_i, rb_i, rt_i, 1));
        }
        let r = match nx {
            Err(e) => return Err(e),
            Ok(None) => return Ok(()),
            Ok(Some(r)) => r,
        };
        crate::bytes::push_all(out, r.before_text);
        let ghost fr2 = it.frames();
        let ghost ps2 = it.pos as int;
        let so = it.step_out(&r);
        proof {
            if r.kind != TType::SelfClosing && exists|d: int| crate::iter::is_first_open(fr2, r.end as int, r.name@, d) {
                let d = choose|d: int| crate::iter::is_first_open(fr2, r.end as int, r.name@, d);
                let f = choose|fuel: nat|
                    match #[trigger] close_to(s, fr2, ps2, d, fuel) {
                        Some(Ok((m, from, st, p))) => so matches Ok(Some((t, inner))) && crate::xhtml::tag_is(t, s, from, m)
                            && inner@ == s.subrange(r.end as int, m.start) && it.frames() == st && it.pos == p,
                        Some(Err(e)) => so == Err::<Option<(Tag<'src>, &'src [u8])>, Error>(e),
                        None => false,
                    };
                crate::iter::lemma_closed(s, fr2, ps2, d, f);
            }
        }
        let inner = match so {
            Err(e) => return Err(e),
            Ok(Some((_, inner))) => inner,
            Ok(None) => return Err(Error::UnknownFormatting),
        };
        if name_is(r.name, "rb") {
            let start = out.len();
            crate::bytes::push_all(out, inner);
            last_rb = Some((start, out.len()));
        } else if name_is(r.name, "rt") {
            let (start, end) = match last_rb {
                Some(span) => span,
                None => (last_rt, out.len()),
            };
            yomi.push(crate::yomi::Yomi { start, end, rt: inner });
            last_rt = out.len();
            last_rb = None;
            assert(ymodel(yomi@) =~= y_i.push((start as int, end as int, inner@)));
        } else {
            return Err(Error::UnknownFormatting);
        }
        proof {
            assert forall|f: nat|
                #[trigger] ruby_spec(s, f0, p0, out0, ymodel(yomi0), None, out0.len() as int, f + (k + 1))
                    == ruby_spec(s, it.frames(), it.pos as int, out@, ymodel(yomi@), rb_model(last_rb), last_rt as int, f) by {
                assert(f + (k + 1) == (f + 1) + k);
                assert(ruby_spec(s, f0, p0, out0, ymodel(yomi0), None, out0.len() as int, (f + 1) + k) == ruby_spec(s, fr, ps, o_i, y_i, rb_i, rt_i, f + 1));
            }
            k = k + 1;
        }
    }
}

/// A span as integers.
pub open spec fn rb_model(o: Option<(usize, usize)>) -> Option<(int, int)> {
    match o {
        Some((a, b)) => Some((a as int, b as int)),
        None => None,
    }
}

pub open spec fn ruby_result_is(r: Result<(), Error>, out: Seq<u8>, ys: Seq<(int, int, Seq<u8>)>, x: Result<(Seq<u8>, Seq<(int, int, Seq<u8>)>), Error>) -> bool {
    match (r, x) {
        (Ok(_), Ok((o, y))) => out == o && ys == y,
        (Err(e), Err(f)) => e == f,
        _ => false,
    }
}

} // verus!

verus! {

impl<'src> Paragraph<'src> {
    /// The paragraph's text, formatting stripped, written to `buf`: see
    /// `with_fmt_stripped`.
    pub fn with_fmt_stripped(
        &self,
        gaiji: &mut crate::gaiji::Gaiji,
        yomi: &mut Vec<crate::yomi::Yomi<'src>>,
        buf: &mut Vec<u8>,
    ) -> (r: Result<(), Error>)
        requires
            old(gaiji).wf(),
        ensures
            final(gaiji).wf(),
            grows(*old(gaiji), *final(gaiji)),
            extends(final(buf)@, old(buf)@),
            extends(final(yomi)@, old(yomi)@),
            spans_within(final(yomi)@, old(yomi)@.len() as int, old(buf)@.len() as int, final(buf)@),
            r is Ok ==> final(buf)@.len() > old(buf)@.len() && final(buf)@.last() == 10u8,
            is_plain(self.text@) ==> r is Ok && final(buf)@ == old(buf)@ + self.text@ + seq![10u8],
            exists|fuel: nat|
                #[trigger] strip_spec(
                    self.text@,
                    seq![(0int, Seq::<u8>::empty())],
                    0,
                    old(gaiji).view_map(),
                    old(buf)@,
                    ymodel(old(yomi)@),
                    fuel,
                ) matches Some(x) && strip_result_is(r, final(buf)@, ymodel(final(yomi)@), final(gaiji).view_map(), x),
    {
        with_fmt_stripped(gaiji, yomi, buf, self.text)
    }
}

} // verus!
