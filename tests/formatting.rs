use epub2txt::error::Error;
use epub2txt::doc::{parse_paragraph, with_fmt_stripped, PType};
use epub2txt::gaiji::Gaiji;
use epub2txt::xhtml::Tag;
use epub2txt::yomi::Yomi;

#[test]
fn test_strip_formating() {
    let mut buf = Vec::new();
    let mut gaiji = Gaiji::new();
    let mut yomi: Vec<Yomi> = Vec::new();

    with_fmt_stripped(
        &mut gaiji,
        &mut yomi,
        &mut buf,
        r#"金髪に染めた<span class="tcy">20</span>歳くらいの男<span class="tcy">!!</span>（だとか）"#.as_bytes(),
    )
    .unwrap();
    assert_eq!(buf, "金髪に染めた20歳くらいの男!!（だとか）\n".as_bytes());

    buf.clear();
    with_fmt_stripped(
        &mut gaiji,
        &mut yomi,
        &mut buf,
        r#"<ruby><rb>山</rb><rt>やま</rt><rb>野</rb><rt>の</rt><rb>光</rb><rt>みつ</rt><rb>波</rb><rt>は</rt></ruby>、<span class="tcy">18</span>歳。"#.as_bytes(),
    )
    .unwrap();
    assert_eq!(buf, "山野光波、18歳。\n".as_bytes());

    buf.clear();
    with_fmt_stripped(
        &mut gaiji,
        &mut yomi,
        &mut buf,
        r#"<ruby><rb>漢</rb><rb>字</rb><rt>kan</rt><rt>ji</rt></ruby>"#.as_bytes(),
    )
    .unwrap();
    assert_eq!(buf, "漢字\n".as_bytes());

    buf.clear();
    with_fmt_stripped(
        &mut gaiji,
        &mut yomi,
        &mut buf,
        r#"<ruby>漢<rt>Kan</rt>字<rt>ji</rt>!</ruby>"#.as_bytes(),
    )
    .unwrap();
    assert_eq!(buf, "漢字!\n".as_bytes());
}

#[test]
fn test_parse_paragraph_1() {
    let source = r##"<?xml version='1.0' encoding='utf-8'?>
    <html><body class="p-image">
      <div class="main">
        <svg>
          <image/>
        </svg>
      </div>
    </body></html>
"##
    .as_bytes();
    let mut body = Tag::get_first(source, "body").unwrap().unwrap().iter();
    let p = body.next_by_el(&[]).unwrap().unwrap();
    assert_eq!(parse_paragraph(&p).unwrap().kind, PType::Transparent);
    let p = body.next_by_el(&[]).unwrap().unwrap();
    assert_eq!(parse_paragraph(&p).unwrap().kind, PType::StandaloneImage);
}

#[test]
fn test_parse_paragraph_2() {
    let source = r#"<body><p class="calibre3">　次から次へと、とんでもない言葉が口から衝いて出るジャティスに、フェロードも、グレンも、<ruby><rb>最</rb><rt>も</rt><rb>早</rb><rt>はや</rt></ruby>、脳内処理が追いつかない。</p>
    <p class="calibre3"><img class="fit" src="../images/00009.jpeg" alt=""/></p>
    <p class="calibre3">「ご、五億年……？」</p></body>"#
        .as_bytes();
    let mut body = Tag::get_first(source, "body").unwrap().unwrap().iter();
    let p = body.next_by_el(&[]).unwrap().unwrap();
    assert_eq!(parse_paragraph(&p).unwrap().kind, PType::BodyText);
    body.step_out(&p).unwrap().unwrap();
    let p = body.next_by_el(&[]).unwrap().unwrap();
    assert_eq!(parse_paragraph(&p).unwrap().kind, PType::StandaloneImage);
    body.step_out(&p).unwrap().unwrap();
    let p = body.next_by_el(&[]).unwrap().unwrap();
    assert_eq!(parse_paragraph(&p).unwrap().kind, PType::BodyText);
    body.step_out(&p).unwrap().unwrap();
}

#[test]
fn ruby_reading_covers_base_text() {
    let mut buf = Vec::new();
    let mut gaiji = Gaiji::new();
    let mut yomi: Vec<Yomi> = Vec::new();
    with_fmt_stripped(&mut gaiji, &mut yomi, &mut buf, "<ruby><rb>山</rb><rt>やま</rt></ruby>".as_bytes())
        .unwrap();
    assert_eq!(buf, "山\n".as_bytes());
    assert_eq!(yomi.len(), 1);
    assert_eq!((yomi[0].start, yomi[0].end), (0, 3));
    assert_eq!(&buf[yomi[0].start..yomi[0].end], "山".as_bytes());
    assert_eq!(yomi[0].rt, "やま".as_bytes());
}

#[test]
fn ruby_spans_follow_existing_output() {
    let mut buf = b"ab".to_vec();
    let mut gaiji = Gaiji::new();
    let mut yomi: Vec<Yomi> = Vec::new();
    with_fmt_stripped(&mut gaiji, &mut yomi, &mut buf, "x<ruby>漢<rt>かん</rt></ruby>".as_bytes()).unwrap();
    assert_eq!(buf, "abx漢\n".as_bytes());
    assert_eq!((yomi[0].start, yomi[0].end), (3, 6));
}

#[test]
fn line_break_and_gaiji() {
    let mut buf = Vec::new();
    let mut gaiji = Gaiji::new();
    let mut yomi: Vec<Yomi> = Vec::new();
    with_fmt_stripped(
        &mut gaiji,
        &mut yomi,
        &mut buf,
        r#"a<br/>b<img class="gaiji" src="g1.png"/>c"#.as_bytes(),
    )
    .unwrap();
    assert_eq!(buf, "a\nb\u{FFFD}c\n".as_bytes());
    assert_eq!(gaiji.get(b"g1.png").unwrap(), &"\u{FFFD}".as_bytes().to_vec());
    gaiji.entries[0].1 = "丼".as_bytes().to_vec();
    buf.clear();
    with_fmt_stripped(&mut gaiji, &mut yomi, &mut buf, r#"<img src="g1.png"/>"#.as_bytes()).unwrap();
    assert_eq!(buf, "丼\n".as_bytes());
}

#[test]
fn unknown_markup_is_fatal() {
    let mut buf = Vec::new();
    let mut gaiji = Gaiji::new();
    let mut yomi: Vec<Yomi> = Vec::new();
    assert_eq!(
        with_fmt_stripped(&mut gaiji, &mut yomi, &mut buf, "<b>x</b>".as_bytes()),
        Err(Error::UnknownFormatting)
    );
    assert_eq!(
        with_fmt_stripped(&mut gaiji, &mut yomi, &mut buf, r#"<img src="photo.png"/>"#.as_bytes()),
        Err(Error::UnknownFormatting)
    );
    let t = Tag::get_first("<table>x</table>".as_bytes(), "table").unwrap().unwrap();
    assert_eq!(parse_paragraph(&t), Err(Error::UnknownFormatting));
}

#[test]
fn paragraph_kinds() {
    let src = "<body><h2> Title </h2><hr/><p><br/></p><p> text </p></body>".as_bytes();
    let mut body = Tag::get_first(src, "body").unwrap().unwrap().iter();
    let h = body.next_by_el(&[]).unwrap().unwrap();
    let p = parse_paragraph(&h).unwrap();
    assert_eq!((p.kind, p.text), (PType::Header, &b"Title"[..]));
    body.step_out(&h).unwrap();
    let hr = body.next_by_el(&[]).unwrap().unwrap();
    assert_eq!(parse_paragraph(&hr).unwrap().kind, PType::Empty);
    let br = body.next_by_el(&[]).unwrap().unwrap();
    assert_eq!(parse_paragraph(&br).unwrap().kind, PType::Empty);
    body.step_out(&br).unwrap();
    let t = body.next_by_el(&[]).unwrap().unwrap();
    let p = parse_paragraph(&t).unwrap();
    assert_eq!((p.kind, p.text), (PType::BodyText, &b"text"[..]));
}
