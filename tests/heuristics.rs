use epub2txt::chapters::{is_skip, Role};
use epub2txt::epub::Epub;
use epub2txt::heuristics::{
    contains_any_of, contains_numerals, convert_rare_numerals, convert_zenkaku, extract_features,
    guess_book_name, n_books, normalize_alphabet, parse_book_title,
};

fn epub_titled(title: &str) -> Epub {
    Epub {
        title: title.to_owned(),
        author: "hoge".to_owned(),
        publisher: String::new(),
        body: vec![],
        toc: vec![],
        content: String::new(),
        toc_ncx: String::new(),
    }
}

#[test]
fn guess_book_name_test_guess_book_name() {
    let mut epub = epub_titled("転生したらばかだった【SS付き電子限定版】(hogeブックス)");
    assert_eq!(guess_book_name(&epub), "転生したらばかだった");

    epub.title = "転生したらばかだった(2)【SS付き電子限定版】(hogeブックス)".to_owned();
    assert_eq!(guess_book_name(&epub), "転生したらばかだった(2)");

    epub.title = "転生したらばかだった(3)【SS付き】【イラスト付き】".to_owned();
    assert_eq!(guess_book_name(&epub), "転生したらばかだった(3)");
}

#[test]
fn parse_book_title_test_guess_book_name() {
    let unparsed_title = "転生したらばかだった【SS付き電子限定版】(hogeブックス)";
    let (title, label) = parse_book_title(unparsed_title).unwrap();
    assert_eq!(title, "転生したらばかだった");
    assert_eq!(label.unwrap(), "hogeブックス");

    let unparsed_title = "転生したらばかだった(2)【SS付き電子限定版】(hogeブックス)";
    let (title, label) = parse_book_title(unparsed_title).unwrap();
    assert_eq!(title, "転生したらばかだった(2)");
    assert_eq!(label.unwrap(), "hogeブックス");

    let unparsed_title = "転生したらばかだった(3)【SS付き】【イラスト付き】";
    let (title, label) = parse_book_title(unparsed_title).unwrap();
    assert_eq!(title, "転生したらばかだった(3)");
    assert_eq!(label, None);
}

#[test]
fn two_labels_are_an_error() {
    assert_eq!(
        parse_book_title("本(hoge文庫)(fuga文庫)"),
        Err(epub2txt::error::Error::MultipleLabels)
    );
    let (title, label) = parse_book_title("新装版 本 ").unwrap();
    assert_eq!((title.as_str(), label), ("本", None));
}

#[test]
fn test_extract_features() {
    const TRUE: bool = true; // For visual readability in feature vectors below
    assert_eq!(
        extract_features("表紙"),
        [TRUE, false, false, false, false, false, false, false, false, false, false, false, false]
    );
    assert_eq!(
        extract_features("人物紹介"),
        [false, TRUE, false, false, false, false, false, false, false, false, false, false, false]
    );
    assert_eq!(
        extract_features("CONTENTS"),
        [false, false, false, TRUE, false, false, false, false, false, false, false, false, false]
    );
    assert_eq!(
        extract_features("目次"),
        [false, false, false, TRUE, false, false, false, false, false, false, false, false, false]
    );
    assert_eq!(
        extract_features("【序幕】 独白"),
        [false, false, false, false, TRUE, false, false, false, false, false, false, false, false]
    );
    assert_eq!(
        extract_features("１ 始まりの事件"),
        [false, false, false, false, false, false, TRUE, false, false, false, false, false, false]
    );
    assert_eq!(
        extract_features("第一章 長距離偵察任務"),
        [false, false, false, false, false, false, TRUE, false, false, false, false, false, false]
    );
    assert_eq!(
        extract_features("終章〈お大事に〉"),
        [false, false, false, false, false, false, TRUE, false, TRUE, false, false, false, false]
    );
    assert_eq!(
        extract_features("外伝 借りてきた猫"),
        [false, false, false, false, false, false, false, false, false, TRUE, false, false, false]
    );
    assert_eq!(
        extract_features("あとがき"),
        [false, false, false, false, false, false, false, false, false, false, TRUE, false, false]
    );

    assert_eq!(
        extract_features("あとがき ─クリスといっしょ！─"),
        [false, false, false, false, false, false, false, false, false, false, TRUE, false, false]
    );
    assert_eq!(
        extract_features("付録 歴史概略図"),
        [false, false, false, false, false, false, false, false, false, false, false, TRUE, false]
    );
    assert_eq!(
        extract_features("奥付"),
        [false, false, false, false, false, false, false, false, false, false, false, false, TRUE]
    );
}

#[test]
fn test_normalize_alphabet() {
    assert_eq!(normalize_alphabet("Ｃｏｎｔｅｎｔ"), "content");
    assert_eq!(normalize_alphabet("目 次"), "目次");
    assert_eq!(normalize_alphabet("EPILOGUE"), "epilogue");
}

#[test]
fn test_convert_rare_numerals() {
    assert_eq!(convert_rare_numerals('Ⅰ'), '1');
    assert_eq!(convert_rare_numerals('Ⅸ'), '9');
    assert_eq!(convert_rare_numerals('１'), '1');
    assert_eq!(convert_rare_numerals('９'), '9');
    assert_eq!(convert_rare_numerals('❶'), '1');
    assert_eq!(convert_rare_numerals('❾'), '9');
    assert_eq!(convert_rare_numerals('①'), '1');
    assert_eq!(convert_rare_numerals('⑨'), '9');
    assert_eq!(convert_rare_numerals('一'), '1');
    assert_eq!(convert_rare_numerals('九'), '9');
}

#[test]
fn test_convert_zenkaku() {
    assert_eq!(
        "ＡＢＣ！１２３\u{FF5E}"
            .chars()
            .map(convert_zenkaku)
            .collect::<String>(),
        "ABC!123~"
    );
    assert_eq!(
        "ＡＢＣ！１２３\u{301C}"
            .chars()
            .map(convert_zenkaku)
            .collect::<String>(),
        "ABC!123~"
    );
}

#[test]
fn numerals_and_keywords() {
    assert!(contains_numerals("第Ⅻ話"));
    assert!(contains_numerals("ch. 3"));
    assert!(!contains_numerals("あとがき"));
    assert!(contains_any_of("あとがき", &["後書", "とが"]));
    assert!(!contains_any_of("あとがき", &[]));
}

#[test]
fn volume_counts() {
    assert_eq!(n_books("物語 合本版 全３巻"), Ok(3));
    assert_eq!(n_books("物語セット全12巻"), Ok(12));
    assert_eq!(n_books("物語"), Ok(1));
    assert_eq!(n_books("物語 合本版"), Err(epub2txt::error::Error::VolumeCount));
}

#[test]
fn skipped_roles() {
    assert!(is_skip(Role::Cover));
    assert!(is_skip(Role::Copyright));
    assert!(!is_skip(Role::Main));
    assert!(!is_skip(Role::Epilogue));
    assert_eq!(Role::from_str("bonus_chapter"), Ok(Role::BonusChapter));
    assert_eq!(Role::from_str("nope"), Err(epub2txt::error::Error::InvalidRole));
    assert_eq!(Role::from_num(6), Ok(Role::Main));
    assert_eq!(Role::from_num(13), Err(epub2txt::error::Error::InvalidRole));
    assert_eq!(Role::Afterword.name(), "afterword");
}
