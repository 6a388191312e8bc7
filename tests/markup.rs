use epub2txt::error::Error;
use epub2txt::iter::TagIter;
use epub2txt::xhtml::{de_entitify, parse_attr, parse_quotes, parse_tag, TType, Tag};

#[test]
fn test_find_first() {
    let hoge = Tag::get_first("<hoge>after hoge".as_bytes(), "hoge").unwrap().unwrap();
    assert_eq!(hoge.name, b"hoge");
    assert_eq!(hoge.span(), 0..6);
    let hoge = Tag::get_first("before hoge<hoge>after hoge".as_bytes(), "hoge").unwrap().unwrap();
    assert_eq!(hoge.span(), 11..17);
    assert_eq!(hoge.before_text, b"before hoge");
    assert_eq!(
        Tag::get_first(
            r#"<?xml version="1.0" encoding="UTF-8"?>
            <package xmlns="http://www.idpf.org/2007/opf" version="2.0" unique-identifier="uuid_id">
            <metadata
            xmlns:opf="http://www.idpf.org/2007/opf"
            xmlns:dc="http://purl.org/dc/elements/1.1/"
            xmlns:dcterms="http://purl.org/dc/terms/"
            xmlns:xsi="http://www.w3.org/2001/XMLSchema-instance"
            xmlns:calibre="http://calibre.kovidgoyal.net/2009/metadata"
            >
            <dc:title>やっほう</dc:title></metadata></package></?xml>"#
                .as_bytes(),
            "manifest"
        )
        .unwrap(),
        None
    );
}

#[test]
fn test_get_end_1() {
    let source = "aa<span>bb</span>cc".as_bytes();

    let mut iter = Tag::root(source).iter();
    while let Some(tag) = iter.next_by_el(&[]).unwrap() {
        let (_, _) = tag.get_end().unwrap();
    }
}

#[test]
fn test_get_end_2() {
    let source = "aa<span>bb</span>cc<span>dd</span>ee".as_bytes();

    let span_1 = Tag::get_first(source, "span").unwrap().unwrap();
    assert_eq!(span_1.get_end().unwrap().1, b"bb");
}

#[test]
fn test_get_end_3() {
    let source = "aa<hr/>bb".as_bytes();

    let hr = Tag::get_first(source, "hr").unwrap().unwrap();
    assert_eq!(hr.get_end().unwrap().1, b"");
}

#[test]
fn test_find_incremental() {
    let source = "<body><div><p>a</p><p>b</p></div></body>".as_bytes();
    let mut div = Tag::get_first(source, "div").unwrap().unwrap().iter();
    assert_eq!(div.next_by_tag(&[]).unwrap().unwrap().name, b"p"); // first p with a
    assert_eq!(div.next_by_tag(&[]).unwrap().unwrap().name, b"p"); // closing
    assert_eq!(div.next_by_tag(&[]).unwrap().unwrap().name, b"p"); // second p with b
    assert_eq!(div.next_by_tag(&[]).unwrap().unwrap().name, b"p"); // closing
    assert_eq!(div.next_by_tag(&[]).unwrap().unwrap().name, b"div"); // closing div
    assert_eq!(div.next_by_tag(&[]).unwrap(), None);
}

#[test]
fn test_de_entiftify() {
    assert_eq!(de_entitify("test test".as_bytes()), b"test test");
    assert_eq!(de_entitify("test &amp; test".as_bytes()), b"test & test");
    assert_eq!(de_entitify("test &lt; test".as_bytes()), b"test < test");
    assert_eq!(de_entitify("test &gt; test".as_bytes()), b"test > test");
    assert_eq!(de_entitify("test & gt; test".as_bytes()), b"test & gt; test");
    assert_eq!(de_entitify("test &gt;&amp;&lt; test".as_bytes()), b"test >&< test");
}

#[test]
fn test_tag_iter_step_out() {
    let source = r#"染めた<span>20</span>歳くらいの男<span>!!</span>（だとか）"#.as_bytes();

    let mut iter = Tag::root(source).iter();
    let tag = iter.next_by_el(&[]).unwrap().unwrap();
    let (_, inner) = iter.step_out(&tag).unwrap().unwrap();
    assert_eq!(inner, b"20");
    let tag = iter.next_by_el(&[]).unwrap().unwrap();
    let (_, inner) = iter.step_out(&tag).unwrap().unwrap();
    assert_eq!(inner, b"!!");
    assert_eq!(iter.next_by_el(&[]).unwrap(), None);
}

#[test]
fn test_tag_iter_just_next() {
    let source = r#"染めた<span>20</span>歳くらいの男<span>!!</span>（だとか）"#.as_bytes();

    let mut iter = Tag::root(source).iter();
    assert_eq!(iter.next_by_el(&[]).unwrap().unwrap().name, b"span");
    assert_eq!(iter.next_by_el(&[]).unwrap().unwrap().name, b"span");
    assert_eq!(iter.next_by_el(&[]).unwrap(), None);
}

#[test]
fn test_parse_quotes() {
    assert_eq!(parse_quotes(r#""""#.as_bytes()).unwrap(), 0..2);
    assert_eq!(parse_quotes(r#"a"b"c"#.as_bytes()).unwrap(), 1..4);
    assert_eq!(parse_quotes(r#"''"#.as_bytes()).unwrap(), 0..2);
    assert_eq!(parse_quotes(r#"a'b'c"#.as_bytes()).unwrap(), 1..4);
    assert_eq!(parse_quotes(r#"a"b\""c"#.as_bytes()).unwrap(), 1..6);
    assert_eq!(parse_quotes(r#"a"あ"c"#.as_bytes()).unwrap(), 1..6);
    assert_eq!(parse_quotes(r#""fuga">noniin"#.as_bytes()).unwrap(), 0..6);
}

fn tag(s: &str) -> Tag<'_> {
    parse_tag(s.as_bytes(), 0).unwrap().unwrap()
}

#[test]
fn test_parse_tag() {
    assert_eq!(tag("<hoge>").span(), 0..6);
    assert_eq!(tag("<hoge/>").span(), 0..7);
    assert_eq!(tag("<hoge />").span(), 0..8);
    assert_eq!(tag("<hoge>").name, b"hoge");
    assert_eq!(tag("<hoge/>").name, b"hoge");
    assert_eq!(tag("<hoge />").name, b"hoge");
    assert_eq!(tag("<hoge>after hoge").span(), 0..6);
    assert_eq!(tag(r#"<hoge param="fuga">noniin"#).span(), 0..19);
    assert_eq!(tag(r#"<hoge param="fu>ga">noniin"#).span(), 0..20);
    assert_eq!(tag(r#"<hoge param="fu\"ga">juu"#).span(), 0..21);
    assert_eq!(tag(r#"<hoge param="あ">juu"#).span(), 0..18);

    let self_closing = tag(r#"<hoge param="fuga" />jooh"#);
    assert_eq!(self_closing.span(), 0..21);
    assert_eq!(self_closing.kind, TType::SelfClosing);

    let closing = tag("</hoge>juuh");
    assert_eq!(closing.span(), 0..7);
    assert_eq!(closing.kind, TType::Closing);

    let a = tag(r#"<あ>juu"#);
    assert_eq!(a.span(), 0..5);
}

#[test]
fn test_parse_attr() {
    let source = r#"<hoge bb="cc" dd="ee" ff gg='hh'>"#.as_bytes();
    assert_eq!(parse_attr(source, "hoge").unwrap(), None);
    assert_eq!(parse_attr(source, "bb").unwrap(), Some(&b"cc"[..]));
    assert_eq!(parse_attr(source, "cc").unwrap(), None);
    assert_eq!(parse_attr(source, "dd").unwrap(), Some(&b"ee"[..]));
    assert_eq!(parse_attr(source, "ee").unwrap(), None);
    assert_eq!(parse_attr(source, "ff").unwrap(), Some(&b"ff"[..]));
    assert_eq!(parse_attr(source, "gg").unwrap(), Some(&b"hh"[..]));
}

#[test]
fn nested_same_name_step_out() {
    let source = "<span>a<span>b</span>c</span>".as_bytes();
    let mut iter = Tag::root(source).iter();
    let outer = iter.next_by_el(&[]).unwrap().unwrap();
    let (end, inner) = iter.step_out(&outer).unwrap().unwrap();
    assert_eq!(inner, b"a<span>b</span>c");
    assert_eq!(end.kind, TType::Closing);
    assert_eq!(end.span(), 22..29);
    assert_eq!(iter.next_by_el(&[]).unwrap(), None);
}

#[test]
fn mismatched_closing_tag_is_fatal() {
    let source = "<p><span>a</p></span>".as_bytes();
    let mut iter: TagIter = Tag::root(source).iter();
    let mut result = Ok(None);
    for _ in 0..10 {
        result = iter.next_by_tag(&[]);
        if !matches!(result, Ok(Some(_))) {
            break;
        }
    }
    assert_eq!(result, Err(Error::ClosingMismatch));
}

#[test]
fn unclosed_element_is_fatal_at_end() {
    let source = "<p>text".as_bytes();
    let mut iter = Tag::root(source).iter();
    assert_eq!(iter.next_by_tag(&[]).unwrap().unwrap().name, b"p");
    assert_eq!(iter.next_by_tag(&[]), Err(Error::UnexpectedEof));
}

#[test]
fn balanced_input_ends_with_empty_stack() {
    let source = "x<a><b/></a>y".as_bytes();
    let mut iter = Tag::root(source).iter();
    let mut names = Vec::new();
    while let Some(t) = iter.next_by_tag(&[]).unwrap() {
        names.push(t.name.to_vec());
    }
    assert_eq!(names, vec![b"a".to_vec(), b"b".to_vec(), b"a".to_vec(), b"".to_vec()]);
    assert!(iter.stack.is_empty());
}

#[test]
fn tag_errors() {
    assert_eq!(parse_tag(b"<", 0), Err(Error::TagNameUnterminated));
    assert_eq!(parse_tag(b"<abc", 0), Err(Error::TagNameUnterminated));
    assert_eq!(parse_tag(b"<a href=\"x>", 0), Err(Error::TagUnterminated));
    assert_eq!(parse_tag(b"</a/>", 0), Err(Error::MixedClosingMarks));
    assert_eq!(parse_tag(b"no tags", 0), Ok(None));
    assert_eq!(parse_quotes(b"none"), Err(Error::TagUnterminated));
}

#[test]
fn empty_named_tag_does_not_end_input() {
    let source = "<>".as_bytes();
    let mut iter = Tag::root(source).iter();
    assert_eq!(iter.next_by_tag(&[]).unwrap().unwrap().kind, TType::Opening);
    assert_eq!(iter.next_by_tag(&[]), Err(Error::UnexpectedEof));
}

#[test]
fn step_out_of_self_closing_is_a_no_op() {
    let source = "<a><br/>x</a>".as_bytes();
    let mut iter = Tag::root(source).iter();
    let a = iter.next_by_el(&[]).unwrap().unwrap();
    let br = iter.next_by_el(&[]).unwrap().unwrap();
    assert_eq!(iter.step_out(&br).unwrap(), None);
    let (_, inner) = iter.step_out(&a).unwrap().unwrap();
    assert_eq!(inner, b"<br/>x");
    assert_eq!(iter.step_out(&br).unwrap(), None);
    assert_eq!(iter.pos, source.len());
}
