use vstd::prelude::*;

use crate::chapters::Chapter;
use crate::doc::{extends, grows, spans_within, strip_result_is, strip_spec, strip_total, with_fmt_stripped, ymodel, PType};
use crate::epub::chapter_paragraphs;
use crate::epub::Epub;
use crate::error::Error;
use crate::gaiji::Gaiji;
use crate::yomi::Yomi;

verus! {

/// The paragraphs `ps` of a chapter written onto `out`, `ys`, `g`: before
/// the first body text or header (unless `done`) a break of four newlines;
/// body text and headers stripped of their formatting; a newline for an empty
/// paragraph; nothing for an image.
pub open spec fn txt_paragraphs(
    ps: Seq<(PType, Seq<u8>)>,
    g: Map<Seq<u8>, Seq<u8>>,
    out: Seq<u8>,
    ys: Seq<(int, int, Seq<u8>)>,
    done: bool,
) -> Result<(Seq<u8>, Seq<(int, int, Seq<u8>)>, Map<Seq<u8>, Seq<u8>>), Error>
    decreases ps.len(),
{
    if ps.len() == 0 {
        Ok((out, ys, g))
    } else {
        let rest = ps.drop_first();
        match ps[0].0 {
            PType::BodyText | PType::Header => {
                let out1 = if done { out } else { out + seq![10u8, 10u8, 10u8, 10u8] };
                match strip_total(ps[0].1, g, out1, ys) {
                    Err(e) => Err(e),
                    Ok((o, y, g2)) => txt_paragraphs(rest, g2, o, y, true),
                }
            },
            PType::Empty => txt_paragraphs(rest, g, out.push(10u8), ys, done),
            _ => txt_paragraphs(rest, g, out, ys, done),
        }
    }
}

/// The chapters `cs` of `epub` written onto `out`, `ys`, `g`, skipped ones
/// left out.
pub open spec fn txt_chapters(
    epub: &Epub,
    cs: Seq<Chapter>,
    g: Map<Seq<u8>, Seq<u8>>,
    out: Seq<u8>,
    ys: Seq<(int, int, Seq<u8>)>,
) -> Result<(Seq<u8>, Seq<(int, int, Seq<u8>)>, Map<Seq<u8>, Seq<u8>>), Error>
    decreases cs.len(),
{
    if cs.len() == 0 {
        Ok((out, ys, g))
    } else if cs[0].skip {
        txt_chapters(epub, cs.drop_first(), g, out, ys)
    } else {
        match chapter_paragraphs(epub, cs[0].start as int, cs[0].end as int) {
            Err(e) => Err(e),
            Ok(ps) => match txt_paragraphs(ps, g, out, ys, false) {
                Err(e) => Err(e),
                Ok((o, y, g2)) => txt_chapters(epub, cs.drop_first(), g2, o, y),
            },
        }
    }
}

/// Writes the paragraphs of one chapter.
fn write_paragraphs<'src>(
    gaiji: &mut Gaiji,
    yomi: &mut Vec<Yomi<'src>>,
    output: &mut Vec<u8>,
    paragraphs: &Vec<crate::doc::Paragraph<'src>>,
) -> (r: Result<(), Error>)
    requires
        old(gaiji).wf(),
        spans_within(old(yomi)@, 0, 0, old(output)@),
    ensures
        final(gaiji).wf(),
        grows(*old(gaiji), *final(gaiji)),
        spans_within(final(yomi)@, 0, 0, final(output)@),
        match (r, txt_paragraphs(crate::doc::para_views(paragraphs@), old(gaiji).view_map(), old(output)@, ymodel(old(yomi)@), false)) {
            (Ok(_), Ok((o, y, g))) => final(output)@ == o && ymodel(final(yomi)@) == y && final(gaiji).view_map() == g,
            (Err(e), Err(f)) => e == f,
            _ => false,
        },
{
    let ghost g0 = *gaiji;
    let ghost ps = crate::doc::para_views(paragraphs@);
    let ghost gc = gaiji.view_map();
    let ghost oc = output@;
    let ghost yc = ymodel(yomi@);
    let mut chapter_break_done = false;
    let mut k: usize = 0;
    assert(ps.subrange(0, ps.len() as int) =~= ps);
    while k < paragraphs.len()
        invariant
            gaiji.wf(),
            grows(g0, *gaiji),
            g0 == *old(gaiji),
            gc == old(gaiji).view_map(),
            oc == old(output)@,
            yc == ymodel(old(yomi)@),
            spans_within(yomi@, 0, 0, output@),
            k <= paragraphs@.len(),
            ps == crate::doc::para_views(paragraphs@),
            txt_paragraphs(ps, gc, oc, yc, false) == txt_paragraphs(
                ps.subrange(k as int, ps.len() as int),
                gaiji.view_map(),
                output@,
                ymodel(yomi@),
                chapter_break_done,
            ),
        decreases paragraphs.len() - k,
    {
        let p = paragraphs[k];
        let ghost rest_p = ps.subrange(k as int, ps.len() as int);
        assert(rest_p.drop_first() =~= ps.subrange(k + 1, ps.len() as int));
        assert(rest_p[0] == (p.kind, p.text@));
        match p.kind {
            PType::BodyText | PType::Header => {
                let ghost o_pre = output@;
                if !chapter_break_done {
                    output.push(10u8);
                    output.push(10u8);
                    output.push(10u8);
                    output.push(10u8);
                    chapter_break_done = true;
                    assert(output@ =~= o_pre + seq![10u8, 10u8, 10u8, 10u8]);
                }
                let ghost y0 = yomi@;
                let ghost o0 = output@;
                let ghost gk = *gaiji;
                let ghost ym0 = ymodel(yomi@);
                let res = with_fmt_stripped(gaiji, yomi, output, p.text);
                proof {
                    assert forall|i: int| 0 <= i < yomi@.len() implies 0 <= (
                    #[trigger] yomi@[i]).start <= yomi@[i].end <= output@.len() by {
                        if i < y0.len() {
                            assert(yomi@[i] == y0[i]);
                        }
                    }
                    assert forall|key: Seq<u8>| g0.lookup(key) is Some implies #[trigger] gaiji.lookup(key) == g0.lookup(key) by {
                        assert(gk.lookup(key) == g0.lookup(key));
                    }
                    let f = choose|fuel: nat|
                        #[trigger] strip_spec(p.text@, seq![(0int, Seq::<u8>::empty())], 0, gk.view_map(), o0, ym0, fuel) matches Some(x)
                            && strip_result_is(res, output@, ymodel(yomi@), gaiji.view_map(), x);
                    crate::doc::lemma_strip_total(p.text@, gk.view_map(), o0, ym0, f);
                }
                if let Err(e) = res {
                    return Err(e);
                }
            },
            PType::Empty => output.push(10u8),
            PType::StandaloneImage | PType::Transparent => {},
        }
        k += 1;
    }
    assert(ps.subrange(k as int, ps.len() as int) =~= Seq::<(PType, Seq<u8>)>::empty());
    Ok(())
}

/// The text of the chapters that are not skipped, each opened by a break of
/// four newlines before its first text, with the readings of its ruby
/// annotations. Body text and headers are written without their inline
/// formatting, an empty paragraph as a newline; images are left out.
pub fn produce_txt_yomi<'src>(
    gaiji: &mut Gaiji,
    epub: &'src Epub,
    chapters: &[Chapter],
) -> (r: Result<(Vec<u8>, Vec<Yomi<'src>>), Error>)
    requires
        old(gaiji).wf(),
        forall|i: int|
            0 <= i < chapters@.len() ==> (#[trigger] chapters@[i]).start <= chapters@[i].end
                <= epub.body@.len(),
    ensures
        final(gaiji).wf(),
        grows(*old(gaiji), *final(gaiji)),
        r matches Ok((txt, yomi)) ==> spans_within(yomi@, 0, 0, txt@),
        (forall|i: int| 0 <= i < chapters@.len() ==> (#[trigger] chapters@[i]).skip) ==> (r matches Ok(
            (txt, yomi),
        ) && txt@.len() == 0 && yomi@.len() == 0),
        match (r, txt_chapters(epub, chapters@, old(gaiji).view_map(), Seq::empty(), Seq::empty())) {
            (Ok((txt, yomi)), Ok((o, y, g))) => txt@ == o && ymodel(yomi@) == y && final(gaiji).view_map() == g,
            (Err(e), Err(f)) => e == f,
            _ => false,
        },
{
    let ghost g0 = *gaiji;
    let ghost m0 = gaiji.view_map();
    let mut yomi: Vec<Yomi<'src>> = Vec::new();
    let mut output: Vec<u8> = Vec::new();
    let mut c: usize = 0;
    assert(chapters@.subrange(0, chapters@.len() as int) =~= chapters@);
    assert(ymodel(yomi@) =~= Seq::<(int, int, Seq<u8>)>::empty());
    while c < chapters.len()
        invariant
            gaiji.wf(),
            grows(g0, *gaiji),
            g0 == *old(gaiji),
            m0 == old(gaiji).view_map(),
            spans_within(yomi@, 0, 0, output@),
            forall|i: int|
                0 <= i < chapters@.len() ==> (#[trigger] chapters@[i]).start <= chapters@[i].end
                    <= epub.body@.len(),
            c <= chapters@.len(),
            (forall|i: int| 0 <= i < chapters@.len() ==> (#[trigger] chapters@[i]).skip) ==> (
            output@.len() == 0 && yomi@.len() == 0),
            txt_chapters(epub, chapters@, m0, Seq::empty(), Seq::empty()) == txt_chapters(
                epub,
                chapters@.subrange(c as int, chapters@.len() as int),
                gaiji.view_map(),
                output@,
                ymodel(yomi@),
            ),
        decreases chapters.len() - c,
    {
        let chapter = &chapters[c];
        let ghost rest_c = chapters@.subrange(c as int, chapters@.len() as int);
        assert(rest_c.drop_first() =~= chapters@.subrange(c + 1, chapters@.len() as int));
        assert(rest_c[0] == chapters@[c as int]);
        if !chapter.skip {
            let paragraphs = epub.paragraph_iter(chapter)?;
            let res = write_paragraphs(gaiji, &mut yomi, &mut output, &paragraphs);
            if let Err(e) = res {
                return Err(e);
            }
        }
        c += 1;
    }
    assert(chapters@.subrange(c as int, chapters@.len() as int) =~= Seq::<Chapter>::empty());
    Ok((output, yomi))
}

} // verus!
