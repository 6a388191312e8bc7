use epub2txt::books;
use epub2txt::chapters::get_spine_idx;
use epub2txt::doc::{get_author, get_manifest, get_spine, get_title, get_toc, strip_fragment};
use epub2txt::epub::Epub;
use epub2txt::error::Error;
use epub2txt::global_str::GlobalStr;
use epub2txt::meta::{get_asin, Meta};

const OPF: &str = r#"<package><metadata><dc:title>題【新装版】(hoge文庫)</dc:title><dc:creator>著者</dc:creator>
<dc:identifier opf:scheme="MOBI-ASIN">B00&amp;X</dc:identifier><dc:publisher>社</dc:publisher><dc:date>2021-01-01</dc:date></metadata>
<manifest><item id="c" href="c.xhtml"/><item href="d.xhtml" id="d"/></manifest>
<spine toc="ncx"><itemref idref="d"/><itemref idref="c"/></spine></package>"#;

#[test]
fn package_document() {
    let src = OPF.as_bytes();
    assert_eq!(get_title(src).unwrap(), "題【新装版】(hoge文庫)".as_bytes());
    assert_eq!(get_author(src).unwrap(), "著者".as_bytes());
    assert_eq!(
        get_manifest(src).unwrap(),
        vec![(b"c".to_vec(), b"c.xhtml".to_vec()), (b"d".to_vec(), b"d.xhtml".to_vec())]
    );
    assert_eq!(get_spine(src).unwrap(), vec![b"d".to_vec(), b"c".to_vec()]);
    assert_eq!(get_asin(src).unwrap(), Some(b"B00&X".to_vec()));
    assert_eq!(get_spine(b"<package></package>"), Err(Error::Unschematic));
    assert_eq!(get_manifest(b"<manifest><item id=\"x\"/></manifest>"), Err(Error::Unschematic));
}

#[test]
fn navigation_map() {
    let ncx = r#"<ncx><navMap><navPoint><navLabel><text>序章</text></navLabel><content src="t.xhtml#p3"/>
<navPoint><navLabel><text>一</text></navLabel><content src="u.xhtml"/></navPoint></navPoint></navMap></ncx>"#;
    assert_eq!(
        get_toc(ncx.as_bytes()).unwrap(),
        vec![
            ("序章".as_bytes().to_vec(), b"t.xhtml".to_vec()),
            ("一".as_bytes().to_vec(), b"u.xhtml".to_vec())
        ]
    );
    assert_eq!(strip_fragment(b"a.xhtml#x#y"), b"a.xhtml");
    assert_eq!(get_toc(b"<ncx><navMap><navPoint></navPoint></navMap></ncx>"), Err(Error::Unschematic));
}

fn epub() -> Epub {
    Epub {
        title: "題【新装版】(hoge文庫)".to_owned(),
        author: "著者".to_owned(),
        publisher: "社".to_owned(),
        body: vec![("d.xhtml".to_owned(), String::new()), ("c.xhtml".to_owned(), String::new())],
        toc: vec![],
        content: OPF.to_owned(),
        toc_ncx: String::new(),
    }
}

#[test]
fn spine_lookup_and_cover_fallback() {
    let e = epub();
    assert_eq!(get_spine_idx(&e, "c.xhtml", "一"), Ok(1));
    assert_eq!(get_spine_idx(&e, "cover.xhtml", "表紙"), Ok(0));
    assert_eq!(get_spine_idx(&e, "cover.xhtml", "一"), Err(Error::UnknownHref));
    assert_eq!(e.spine_idx("d.xhtml"), Some(0));
}

#[test]
fn metadata_and_books() {
    let e = epub();
    let meta = Meta::new(&e).unwrap();
    assert_eq!(meta.title, "題");
    assert_eq!(meta.label.as_deref(), Some("hoge文庫"));
    assert_eq!(meta.asin.as_deref(), Some("B00&X"));
    assert_eq!(meta.pub_date, "2021-01-01");
    let bs = books::generate(&e);
    assert_eq!(bs.len(), 1);
    assert_eq!(bs[0].name, "題");
    assert_eq!((bs[0].start, bs[0].end), (0, 2));
    assert_eq!(bs[0].files, vec!["d.xhtml".to_owned(), "c.xhtml".to_owned()]);
}

#[test]
fn context_text() {
    let mut g = GlobalStr::new();
    assert_eq!(g.get(), "");
    g.set("phase");
    assert_eq!(g.get(), "phase");
}
