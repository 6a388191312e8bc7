use vstd::prelude::*;
use vstd::string::StringSliceAdditionalSpecFns;
use vstd::utf8::encode_utf8;

use crate::bytes::{bytes_eq, to_vec};
use crate::doc::{document_paragraphs, follows_tag, get_manifest, get_spine, get_toc, has_attr, is_manifest_item};
use crate::error::Error;
use crate::text::utf8_string;
use crate::zip::{DeflatedFile, FileIter};

pub use crate::doc::{PType, Paragraph};

verus! {

/// A book read from its container: its metadata, the spine documents in
/// reading order (href and markup), and the table of contents (title and
/// href of each entry).
pub struct Epub {
    pub title: String,
    pub author: String,
    pub publisher: String,
    pub body: Vec<(String, String)>,
    pub toc: Vec<(String, String)>,
    /// The package document, `content.opf`.
    pub content: String,
    /// The navigation document, `toc.ncx`.
    pub toc_ncx: String,
}

/// `x` in front of the paragraphs that `r` holds, if it holds them.
pub open spec fn join(x: Seq<(PType, Seq<u8>)>, r: Result<Seq<(PType, Seq<u8>)>, Error>) -> Result<Seq<(PType, Seq<u8>)>, Error> {
    match r {
        Ok(v) => Ok(x + v),
        Err(e) => Err(e),
    }
}

/// The paragraphs of spine documents `i..end` of `e`, in order.
pub open spec fn chapter_paragraphs(e: &Epub, i: int, end: int) -> Result<Seq<(PType, Seq<u8>)>, Error>
    decreases end - i,
{
    if i >= end {
        Ok(Seq::empty())
    } else {
        match crate::doc::document_paragraphs(bytes_of(e.body@[i].1)) {
            Err(x) => Err(x),
            Ok(ps) => join(ps, chapter_paragraphs(e, i + 1, end)),
        }
    }
}

/// The spine documents of `e` are those its package document names, in
/// order.
pub open spec fn spine_read(e: Epub) -> bool {
    exists|fuel: nat|
        #[trigger] crate::doc::container_attrs(bytes_of(e.content), "spine", "itemref", "idref", None, fuel)
            matches Some(Ok(w)) && body_is_spine(bytes_of(e.content), w, e.body@)
}

/// The table of contents of `e` is what its navigation document gives.
pub open spec fn toc_read(e: Epub) -> bool {
    exists|fuel: nat|
        #[trigger] crate::doc::toc_spec(bytes_of(e.toc_ncx), fuel) matches Some(Ok(w)) && toc_matches(w, e.toc@)
}

/// The entries `toc`, as strings, are the entries `w`.
pub open spec fn toc_matches(w: Seq<(Seq<u8>, Seq<u8>)>, toc: Seq<(String, String)>) -> bool {
    toc.len() == w.len() && forall|q: int|
        0 <= q < w.len() ==> bytes_of(#[trigger] toc[q].0) == w[q].0 && bytes_of(toc[q].1) == w[q].1
}

/// `body` holds, in order, the manifest href of each spine entry `w` of the
/// package document `content`.
pub open spec fn body_is_spine(content: Seq<u8>, w: Seq<(Seq<u8>, Seq<u8>)>, body: Seq<(String, String)>) -> bool {
    body.len() == w.len() && forall|i: int|
        0 <= i < w.len() ==> is_manifest_item(content, w[i].0, #[trigger] bytes_of(body[i].0))
}

/// The bytes of a string.
pub open spec fn bytes_of(s: String) -> Seq<u8> {
    encode_utf8(s@)
}

/// `href` is the manifest href of an `itemref` of the spine of `content`.
pub open spec fn in_spine(content: Seq<u8>, href: Seq<u8>) -> bool {
    exists|id: Seq<u8>| has_attr(content, "itemref", "idref", id) && is_manifest_item(content, id, href)
}

/// Bytes as a string; `NotUtf8` where they are not UTF-8.
fn string_from(b: &[u8]) -> (r: Result<String, Error>)
    ensures
        r matches Ok(s) ==> encode_utf8(s@) == b@,
{
    match utf8_string(to_vec(b)) {
        Some(s) => Ok(s),
        None => Err(Error::NotUtf8),
    }
}

/// The last member named `name`.
fn find_member<'a>(files: &'a Vec<DeflatedFile>, name: &[u8]) -> (r: Option<&'a DeflatedFile>)
{
    let mut found: Option<&DeflatedFile> = None;
    let mut i: usize = 0;
    while i < files.len()
        invariant
            i <= files@.len(),
        decreases files.len() - i,
    {
        if bytes_eq(files[i].name.as_str().as_bytes(), name) {
            found = Some(&files[i]);
        }
        i += 1;
    }
    found
}

impl Epub {
    /// Reads a book from the bytes of its EPUB container: `content.opf` and
    /// `toc.ncx` at its root, and each spine document, by way of the manifest.
    pub fn new(data: &[u8]) -> (r: Result<Epub, Error>)
        ensures
            r matches Ok(e) ==> forall|i: int|
                0 <= i < e.body@.len() ==> in_spine(
                    bytes_of(e.content),
                    #[trigger] bytes_of(e.body@[i].0),
                ),
            r matches Ok(e) ==> spine_read(e),
            r matches Ok(e) ==> toc_read(e),
            r matches Ok(e) ==> follows_tag(bytes_of(e.content), "dc:title", bytes_of(e.title))
                && follows_tag(bytes_of(e.content), "dc:creator", bytes_of(e.author))
                && follows_tag(bytes_of(e.content), "dc:publisher", bytes_of(e.publisher)),
    {
        let mut zip = FileIter::new(data);
        let mut files: Vec<DeflatedFile> = Vec::new();
        let mut toc: Option<DeflatedFile> = None;
        let mut content: Option<DeflatedFile> = None;
        loop
            invariant
                zip.data == data,
            decreases u64::MAX - zip.pos,
        {
            let file = match zip.read_zip_header()? {
                None => break ,
                Some(f) => f,
            };
            if crate::doc::name_is(file.name.as_str().as_bytes(), "content.opf") {
                content = Some(file);
            } else if crate::doc::name_is(file.name.as_str().as_bytes(), "toc.ncx") {
                toc = Some(file);
            } else {
                files.push(file);
            }
        }
        let (toc, content) = match (toc, content) {
            (Some(t), Some(c)) => (t, c),
            _ => return Err(Error::MissingControlFile),
        };
        let toc = toc.extract_string(data)?;
        let content = content.extract_string(data)?;
        let c = content.as_str().as_bytes();
        let title = string_from(crate::doc::get_title(c)?)?;
        let author = string_from(crate::doc::get_author(c)?)?;
        let publisher = string_from(crate::doc::get_publisher(c)?)?;
        let manifest = get_manifest(c)?;
        let spine = get_spine(c)?;
        let tb = toc.as_str().as_bytes();
        let toc_entries = get_toc(tb)?;
        let mut toc_out: Vec<(String, String)> = Vec::new();
        let mut i: usize = 0;
        while i < toc_entries.len()
            invariant
                i <= toc_entries@.len(),
                toc_out@.len() == i,
                forall|q: int| 0 <= q < i ==> bytes_of((#[trigger] toc_out@[q]).0) == toc_entries@[q].0@
                    && bytes_of(toc_out@[q].1) == toc_entries@[q].1@,
            decreases toc_entries.len() - i,
        {
            let name = string_from(toc_entries[i].0.as_slice())?;
            let href = string_from(toc_entries[i].1.as_slice())?;
            toc_out.push((name, href));
            i += 1;
        }
        let mut body: Vec<(String, String)> = Vec::new();
        let mut k: usize = 0;
        while k < spine.len()
            invariant
                k <= spine@.len(),
                c@ == encode_utf8(content@),
                forall|j: int| 0 <= j < spine@.len() ==> has_attr(c@, "itemref", "idref", #[trigger] spine@[j]@),
                forall|j: int| 0 <= j < manifest@.len() ==> is_manifest_item(c@, #[trigger] manifest@[j].0@, manifest@[j].1@),
                forall|j: int| 0 <= j < body@.len() ==> in_spine(encode_utf8(content@), #[trigger] bytes_of(body@[j].0)),
                body@.len() == k,
                forall|j: int| 0 <= j < k ==> is_manifest_item(c@, (#[trigger] spine@[j])@, bytes_of(body@[j].0)),
            decreases spine.len() - k,
        {
            let idref = spine[k].as_slice();
            let mut href: Option<&[u8]> = None;
            let mut m: usize = 0;
            while m < manifest.len()
                invariant
                    m <= manifest@.len(),
                    forall|j: int| 0 <= j < manifest@.len() ==> is_manifest_item(c@, #[trigger] manifest@[j].0@, manifest@[j].1@),
                    href matches Some(h) ==> is_manifest_item(c@, idref@, h@),
                decreases manifest.len() - m,
            {
                if bytes_eq(manifest[m].0.as_slice(), idref) {
                    assert(is_manifest_item(c@, manifest@[m as int].0@, manifest@[m as int].1@));
                    href = Some(manifest[m].1.as_slice());
                }
                m += 1;
            }
            let href = match href {
                Some(h) => h,
                None => return Err(Error::MissingMember),
            };
            let text_file = match find_member(&files, href) {
                Some(f) => f,
                None => return Err(Error::MissingMember),
            };
            let text = text_file.extract_string(data)?;
            let href_string = string_from(href)?;
            assert(has_attr(c@, "itemref", "idref", spine@[k as int]@));
            assert(in_spine(encode_utf8(content@), bytes_of(href_string)));
            assert(is_manifest_item(c@, spine@[k as int]@, bytes_of(href_string)));
            body.push((href_string, text));
            k += 1;
        }
        proof {
            let fuel = choose|fuel: nat| #[trigger] crate::doc::toc_spec(tb@, fuel) matches Some(x)
                && crate::doc::attrs_result_is(Ok::<Vec<(Vec<u8>, Vec<u8>)>, Error>(toc_entries), x);
            let w = crate::doc::toc_spec(tb@, fuel)->Some_0->Ok_0;
            assert forall|q: int| 0 <= q < w.len() implies bytes_of(#[trigger] toc_out@[q].0) == w[q].0
                && bytes_of(toc_out@[q].1) == w[q].1 by {
                assert(crate::doc::pair_views(toc_entries@)[q] == (toc_entries@[q].0@, toc_entries@[q].1@));
            }
            assert(toc_matches(w, toc_out@));
            assert(tb@ == bytes_of(toc));
        }
        let e = Epub { title, author, publisher, body, toc: toc_out, content, toc_ncx: toc };
        assert(toc_read(e));
        proof {
            let fuel = choose|fuel: nat|
                #[trigger] crate::doc::container_attrs(c@, "spine", "itemref", "idref", None, fuel) matches Some(x)
                    && match (Ok::<Vec<Vec<u8>>, Error>(spine), x) {
                    (Ok(v), Ok(w)) => v@.len() == w.len() && forall|q: int|
                        0 <= q < w.len() ==> (#[trigger] v@[q])@ == w[q].0,
                    (Err(e), Err(f)) => e == f,
                    _ => false,
                };
            let w = crate::doc::container_attrs(c@, "spine", "itemref", "idref", None, fuel)->Some_0->Ok_0;
            assert forall|i: int| 0 <= i < w.len() implies is_manifest_item(c@, w[i].0, #[trigger] bytes_of(e.body@[i].0)) by {
                assert(spine@[i]@ == w[i].0);
            }
            assert(e.body@.len() == w.len());
            assert(c@ == bytes_of(e.content));
            assert(crate::doc::container_attrs(bytes_of(e.content), "spine", "itemref", "idref", None, fuel) matches Some(Ok(ww)) && ww == w);
            assert(body_is_spine(bytes_of(e.content), w, e.body@));
            assert(crate::doc::container_attrs(bytes_of(e.content), "spine", "itemref", "idref", None, fuel) matches Some(Ok(ww)) && body_is_spine(bytes_of(e.content), ww, e.body@));
        }
        assert(spine_read(e));
        Ok(e)
    }

    /// The paragraphs of the chapter's spine documents, in order, transparent
    /// containers left out.
    pub fn paragraph_iter<'a>(&'a self, chapter: &crate::chapters::Chapter) -> (r: Result<
        Vec<Paragraph<'a>>,
        Error,
    >)
        requires
            chapter.start <= chapter.end <= self.body@.len(),
        ensures
            match (r, chapter_paragraphs(self, chapter.start as int, chapter.end as int)) {
                (Ok(ps), Ok(w)) => crate::doc::para_views(ps@) == w,
                (Err(e), Err(f)) => e == f,
                _ => false,
            },
    {
        let mut out: Vec<Paragraph<'a>> = Vec::new();
        let mut i: usize = chapter.start;
        let ghost mut acc: Seq<(PType, Seq<u8>)> = Seq::empty();
        assert(crate::doc::para_views(out@) =~= acc);
        assert(join(acc, chapter_paragraphs(self, i as int, chapter.end as int)) =~= chapter_paragraphs(self, i as int, chapter.end as int)) by {
            match chapter_paragraphs(self, i as int, chapter.end as int) {
                Ok(w) => { assert(acc + w =~= w); },
                _ => {},
            }
        }
        while i < chapter.end
            invariant
                chapter.start <= i <= chapter.end <= self.body@.len(),
                crate::doc::para_views(out@) == acc,
                chapter_paragraphs(self, chapter.start as int, chapter.end as int) == join(acc, chapter_paragraphs(self, i as int, chapter.end as int)),
            decreases chapter.end - i,
        {
            let ghost before = acc;
            let res = crate::doc::push_paragraphs(self.body[i].1.as_str().as_bytes(), &mut out);
            if let Err(e) = res {
                return Err(e);
            }
            proof {
                let w = document_paragraphs(bytes_of(self.body@[i as int].1))->Ok_0;
                acc = crate::doc::para_views(out@);
                assert(acc == before + w);
                match chapter_paragraphs(self, i + 1, chapter.end as int) {
                    Ok(rest) => { assert(before + (w + rest) =~= (before + w) + rest); },
                    _ => {},
                }
            }
            i += 1;
        }
        Ok(out)
    }

    /// The last spine index of the document `href`.
    pub fn spine_idx(&self, href: &str) -> (r: Option<usize>)
        ensures
            r matches Some(i) ==> i < self.body@.len() && bytes_of(self.body@[i as int].0)
                == href.spec_bytes(),
            r matches Some(i) ==> forall|j: int|
                i < j < self.body@.len() ==> bytes_of(#[trigger] self.body@[j].0) != href.spec_bytes(),
            r is None ==> forall|i: int|
                0 <= i < self.body@.len() ==> bytes_of(#[trigger] self.body@[i].0) != href.spec_bytes(),
    {
        let mut found: Option<usize> = None;
        let mut i: usize = 0;
        while i < self.body.len()
            invariant
                i <= self.body@.len(),
                found matches Some(j) ==> j < i && bytes_of(self.body@[j as int].0) == href.spec_bytes()
                    && forall|k: int| j < k < i ==> bytes_of(#[trigger] self.body@[k].0) != href.spec_bytes(),
                found is None ==> forall|j: int|
                    0 <= j < i ==> bytes_of(#[trigger] self.body@[j].0) != href.spec_bytes(),
            decreases self.body.len() - i,
        {
            if bytes_eq(self.body[i].0.as_str().as_bytes(), href.as_bytes()) {
                found = Some(i);
            }
            i += 1;
        }
        found
    }
}

} // verus!
