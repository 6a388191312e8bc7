use epub2txt::chapters::{assumed_order, generate, Role};
use epub2txt::epub::Epub;
use epub2txt::gaiji::Gaiji;
use epub2txt::heuristics::extract_features;
use epub2txt::txt::produce_txt_yomi;
use epub2txt::zip::FileIter;

fn push_u16(out: &mut Vec<u8>, v: u16) {
    out.extend_from_slice(&v.to_le_bytes());
}

fn push_u32(out: &mut Vec<u8>, v: u32) {
    out.extend_from_slice(&v.to_le_bytes());
}

fn archive(members: &[(&str, &str)]) -> Vec<u8> {
    let mut out = Vec::new();
    for (name, text) in members {
        let data = miniz_oxide::deflate::compress_to_vec(text.as_bytes(), 6);
        push_u32(&mut out, 0x04034b50);
        push_u16(&mut out, 20);
        push_u16(&mut out, 0);
        push_u16(&mut out, 8);
        push_u16(&mut out, 0);
        push_u16(&mut out, 0);
        push_u32(&mut out, 0);
        push_u32(&mut out, data.len() as u32);
        push_u32(&mut out, text.len() as u32);
        push_u16(&mut out, name.len() as u16);
        push_u16(&mut out, 0);
        out.extend_from_slice(name.as_bytes());
        out.extend_from_slice(&data);
    }
    push_u32(&mut out, 0x02014b50);
    out.extend_from_slice(&[0; 42]);
    out
}

const OPF: &str = r#"<?xml version="1.0" encoding="UTF-8"?>
<package version="2.0"><metadata><dc:title>物語</dc:title><dc:creator>作者</dc:creator><dc:publisher>出版社</dc:publisher><dc:date>2020</dc:date></metadata>
<manifest><item id="a" href="a.xhtml"/><item id="b" href="b.xhtml"/></manifest>
<spine><itemref idref="a"/><itemref idref="b"/></spine></package>"#;

const NCX: &str = r#"<?xml version="1.0" encoding="UTF-8"?>
<ncx><navMap>
<navPoint id="p1"><navLabel><text>表紙</text></navLabel><content src="a.xhtml"/></navPoint>
<navPoint id="p2"><navLabel><text>第一章</text></navLabel><content src="b.xhtml#top"/></navPoint>
</navMap></ncx>"#;

const A: &str = r#"<html><body><div><img src="cover.jpg"/></div></body></html>"#;
const B: &str = r#"<html><body><p>　<ruby><rb>山</rb><rt>やま</rt></ruby>に登った。</p><p><br/></p><p>終わり</p></body></html>"#;

#[test]
fn end_to_end_two_chapters() {
    let data = archive(&[("content.opf", OPF), ("toc.ncx", NCX), ("a.xhtml", A), ("b.xhtml", B)]);
    let epub = Epub::new(&data).unwrap();
    assert_eq!(epub.title, "物語");
    assert_eq!(epub.author, "作者");
    assert_eq!(epub.publisher, "出版社");
    assert_eq!(epub.body.len(), 2);
    assert_eq!(epub.body[0].0, "a.xhtml");
    assert_eq!(epub.toc, vec![("表紙".to_owned(), "a.xhtml".to_owned()), ("第一章".to_owned(), "b.xhtml".to_owned())]);

    // the lexical cues that role inference weighs: a cover, then a main chapter
    assert!(extract_features(&epub.toc[0].0)[0]);
    assert!(extract_features(&epub.toc[1].0)[6]);
    let roles = [Role::Cover, Role::Main];
    let chapters = generate(&epub, "物語", &roles).unwrap();
    assert_eq!(chapters.len(), 2);
    assert_eq!((chapters[0].role, chapters[0].skip), (Role::Cover, true));
    assert_eq!((chapters[1].role, chapters[1].skip), (Role::Main, false));
    assert_eq!((chapters[0].start, chapters[0].end), (0, 1));
    assert_eq!((chapters[1].start, chapters[1].end), (1, 2));
    assert_eq!(chapters[1].files, vec!["b.xhtml".to_owned()]);

    let mut gaiji = Gaiji::new();
    let (txt, yomi) = produce_txt_yomi(&mut gaiji, &epub, &chapters).unwrap();
    assert_eq!(txt, "\n\n\n\n山に登った。\n\n終わり\n".as_bytes());
    assert_eq!(yomi.len(), 1);
    assert_eq!(&txt[yomi[0].start..yomi[0].end], "山".as_bytes());
}

#[test]
fn missing_control_file() {
    let data = archive(&[("a.xhtml", A)]);
    assert_eq!(Epub::new(&data).err(), Some(epub2txt::error::Error::MissingControlFile));
}

#[test]
fn zip_headers() {
    let data = archive(&[("x.txt", "hello")]);
    let mut files = FileIter::new(&data);
    let f = files.read_zip_header().unwrap().unwrap();
    assert_eq!(f.name, "x.txt");
    assert_eq!(f.size, 5);
    assert_eq!(f.start, 35);
    assert_eq!(f.extract_string(&data).unwrap(), "hello");
    assert!(files.read_zip_header().unwrap().is_none());
    let mut bad = data.clone();
    bad[0] = 0;
    assert_eq!(FileIter::new(&bad).read_zip_header().err(), Some(epub2txt::error::Error::CorruptArchive));
    assert_eq!(FileIter::new(&data[..10]).read_zip_header().err(), Some(epub2txt::error::Error::Truncated));
}

#[test]
fn inflate_is_capped_by_declared_size() {
    let mut data = archive(&[("x.txt", "hello hello hello")]);
    data[22] = 4;
    let f = FileIter::new(&data).read_zip_header().unwrap().unwrap();
    assert_eq!(f.extract_string(&data).err(), Some(epub2txt::error::Error::Inflate));
}

#[test]
fn role_order_guard() {
    assert_eq!(assumed_order(&[Role::Cover, Role::Contents, Role::Main, Role::Main, Role::Afterword]), None);
    assert_eq!(assumed_order(&[Role::Main, Role::Interlude, Role::Main, Role::PartTitle]), None);
    assert_eq!(assumed_order(&[Role::Main, Role::Cover]), Some(1));
    assert_eq!(assumed_order(&[Role::AfterExtra, Role::Afterword, Role::Prologue]), Some(2));
    let data = archive(&[("content.opf", OPF), ("toc.ncx", NCX), ("a.xhtml", A), ("b.xhtml", B)]);
    let epub = Epub::new(&data).unwrap();
    assert_eq!(generate(&epub, "物語", &[Role::Main, Role::Cover]).err(), Some(epub2txt::error::Error::RoleOrder));
}
