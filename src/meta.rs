use vstd::prelude::*;
use vstd::string::StringSliceAdditionalSpecFns;

use crate::doc::{follows_tag, name_is};
use crate::epub::{bytes_of, Epub};
use crate::heuristics::{title_parts, trim_bounds};
use crate::error::Error;
use crate::heuristics::parse_book_title;
use crate::xhtml::{de_entitified, de_entitify, Tag};

verus! {

/// A book's metadata, as written to its side file.
#[derive(Debug)]
pub struct Meta {
    pub asin: Option<String>,
    pub title: String,
    pub author: String,
    pub label: Option<String>,
    pub publisher: String,
    pub pub_date: String,
}

/// The Amazon identifier of the package document: the text of the first
/// `dc:identifier` whose `opf:scheme` names an ASIN, entities replaced.
pub fn get_asin(source: &[u8]) -> (r: Result<Option<Vec<u8>>, Error>)
    ensures
        r matches Ok(Some(a)) ==> exists|t: Seq<u8>|
            follows_tag(source@, "dc:identifier", t) && a@ == de_entitified(t),
{
    let root = Tag::root(source);
    assert(root.name@ =~= Seq::<u8>::empty());
    let mut it = root.iter();
    let targets = vec!["dc:identifier"];
    loop
        invariant
            it.wf(),
            it.src() == source@,
            targets@ == seq!["dc:identifier"],
        decreases it.src().len() - it.pos, it.stack@.len(),
    {
        let id = match it.next_by_el(targets.as_slice())? {
            Some(t) => t,
            None => return Ok(None),
        };
        assert(targets@[0] == "dc:identifier");
        if id.start == id.end {
            continue ;
        }
        let scheme = id.get_attr("opf:scheme")?;
        let is_asin = match scheme {
            Some(s) => name_is(s, "ASIN") || name_is(s, "MOBI-ASIN") || name_is(s, "AMAZON"),
            None => false,
        };
        if is_asin {
            let (_, text) = id.get_end()?;
            proof {
                let s = source@;
                let (m, from) = choose|m: crate::xhtml::TagModel, from: int|
                    0 <= from <= s.len() && crate::xhtml::tag_is(id, s, from, m) && (
                    crate::iter::is_tag_at(s, m) || m == crate::iter::eof_tag(s));
                assert(crate::iter::is_tag_at(s, m));
                assert(id.name@ == "dc:identifier".spec_bytes());
                assert(text@ =~= s.subrange(m.end, m.end + text@.len()));
                assert(follows_tag(s, "dc:identifier", text@));
            }
            return Ok(Some(de_entitify(text)));
        }
    }
}

/// Bytes as a string; `NotUtf8` where they are not UTF-8.
fn owned_string(b: &[u8]) -> (r: Result<String, Error>)
    ensures
        r matches Ok(s) ==> vstd::utf8::encode_utf8(s@) == b@,
{
    match crate::text::utf8_string(crate::bytes::to_vec(b)) {
        Some(s) => Ok(s),
        None => Err(Error::NotUtf8),
    }
}

impl Meta {
    /// The metadata of `epub`: its title split into the book's name and the
    /// publisher's label, and the package document's author, publisher,
    /// date and ASIN.
    pub fn new(epub: &Epub) -> (r: Result<Meta, Error>)
        ensures
            r matches Ok(m) ==> m.author == epub.author && m.publisher == epub.publisher,
            r matches Ok(m) ==> (exists|lo: int, hi: int|
                trim_bounds(title_parts(epub.title@).0, lo, hi) && m.title@ == title_parts(
                    epub.title@,
                ).0.subrange(lo, hi)),
            r matches Ok(m) ==> (title_parts(epub.title@).1.len() == 0 ==> m.label is None),
            r matches Ok(m) ==> (title_parts(epub.title@).1.len() == 1 ==> (m.label matches Some(l)
                && l@ == title_parts(epub.title@).1[0])),
            title_parts(epub.title@).1.len() > 1 ==> r is Err,
            r matches Ok(m) ==> follows_tag(bytes_of(epub.content), "dc:date", bytes_of(m.pub_date)),
    {
        let c = epub.content.as_str().as_bytes();
        let asin = match get_asin(c)? {
            Some(a) => Some(owned_string(a.as_slice())?),
            None => None,
        };
        let pub_date = owned_string(crate::doc::get_date(c)?)?;
        let (title, label) = parse_book_title(epub.title.as_str())?;
        Ok(
            Meta {
                asin,
                title,
                author: epub.author.clone(),
                label,
                publisher: epub.publisher.clone(),
                pub_date,
            },
        )
    }
}

} // verus!
