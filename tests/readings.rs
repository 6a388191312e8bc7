use epub2txt::yomi::{fix_little_yomi, write_yomi, Yomi};

#[test]
fn test_fix_little_yomi() {
    for (rb, rt, expected) in [
        ("日和", "びより", "びより"),
        ("清", "きよ", "きよ"),
        ("喋", "しやべ", "しゃべ"),
        ("華", "きや", "きゃ"),
        ("奢", "しや", "しゃ"),
        ("椒", "しよう", "しょう"),
        ("弱", "じやく", "じゃく"),
        ("手", "しゆ", "しゅ"),
        ("榴", "りゆう", "りゅう"),
        ("百", "ぴやく", "ぴゃく"),
        ("焼", "しよう", "しょう"),
        ("榴", "りゆう", "りゅう"),
        ("車", "しや", "しゃ"),
        ("驚", "きよう", "きょう"),
        ("榴", "りゆう", "りゅう"),
        ("嬌", "きよう", "きょう"),
        ("怯", "きよう", "きょう"),
        ("厨", "ちゆう", "ちゅう"),
        ("頭", "じゆう", "じゅう"),
        ("薯", "じよ", "じょ"),
        ("玩具", "おもちや", "おもちゃ"),
        ("親父", "お や じ", "おやじ"),
    ] {
        assert_eq!(fix_little_yomi(rb.as_bytes(), rt.as_bytes()), expected.as_bytes());
    }
}

#[test]
fn small_kana_examples() {
    assert_eq!(fix_little_yomi("喋".as_bytes(), "しや".as_bytes()), "しゃ".as_bytes());
    assert_eq!(fix_little_yomi("清".as_bytes(), "きよ".as_bytes()), "きよ".as_bytes());
    assert_eq!(fix_little_yomi("矢".as_bytes(), "や".as_bytes()), "や".as_bytes());
    assert_eq!(fix_little_yomi("山".as_bytes(), "さや".as_bytes()), "さや".as_bytes());
}

#[test]
fn yomi_side_table() {
    let txt = "山野\n".as_bytes();
    let yomi = [
        Yomi { start: 0, end: 3, rt: "やま".as_bytes() },
        Yomi { start: 3, end: 6, rt: "しや".as_bytes() },
    ];
    let mut out = Vec::new();
    write_yomi(&yomi, &mut out, txt);
    assert_eq!(out, "0:3:山:やま\n3:6:野:しゃ\n".as_bytes());
}
