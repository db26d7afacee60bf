use imser::{
    search_main, search_whitespace, segments_to_tokens, split_tokens_at, whitespace_tokenize,
    Document, Segment, Token, TokenKind, TokenizeType,
};

fn doc(body: &str) -> Document {
    Document::new(body.to_string())
}

fn segment(text: &str, part_of_speech: &str) -> Segment {
    Segment { text: text.to_string(), part_of_speech: part_of_speech.to_string() }
}

fn nouns(texts: &[&str]) -> Vec<Token> {
    let segments: Vec<Segment> = texts.iter().map(|t| segment(t, "名詞")).collect();
    segments_to_tokens(&segments)
}

#[test]
fn whitespace_tokenize_test() {
    let sentence = "".to_string();
    assert_eq!(whitespace_tokenize(&sentence), vec![]);

    let sentence = "I am  Taisuke".to_string();

    assert_eq!(
        whitespace_tokenize(&sentence),
        vec![
            Token::new_term("I", 0, 0),
            Token::new_term("am", 2, 1),
            Token::new_term("Taisuke", 6, 2),
        ]
    );

    let sentence = "I am Taisuke.".to_string();
    assert_eq!(
        whitespace_tokenize(&sentence),
        vec![
            Token::new_term("I", 0, 0),
            Token::new_term("am", 2, 1),
            Token::new_term("Taisuke", 5, 2),
            Token::new_punct(".", 12, 3),
        ]
    );

    let sentence = "What is that?".to_string();
    assert_eq!(
        whitespace_tokenize(&sentence),
        vec![
            Token::new_term("What", 0, 0),
            Token::new_term("is", 5, 1),
            Token::new_term("that", 8, 2),
            Token::new_punct("?", 12, 3),
        ]
    );

    let sentence = "What's that?".to_string();
    assert_eq!(
        whitespace_tokenize(&sentence),
        vec![
            Token::new_term("What", 0, 0),
            Token::new_punct("'", 4, 1),
            Token::new_term("s", 5, 2),
            Token::new_term("that", 7, 3),
            Token::new_punct("?", 11, 4),
        ]
    );

    let sentence = "すもも も もも も もも の うち";
    assert_eq!(
        whitespace_tokenize(sentence),
        vec![
            Token::new_term("すもも", 0, 0),
            Token::new_term("も", 10, 1),
            Token::new_term("もも", 14, 2),
            Token::new_term("も", 21, 3),
            Token::new_term("もも", 25, 4),
            Token::new_term("の", 32, 5),
            Token::new_term("うち", 36, 6),
        ]
    );
}

#[test]
fn search_main_test() {
    let sentences = vec![
        doc("I am Taisuke"),
        doc("that that is is that that is not is not is that it it is"),
    ];
    let term = "Taisuke".to_string();
    assert_eq!(search_whitespace(&sentences, &term), vec![doc("I am Taisuke"),]);

    let term = "that".to_string();
    assert_eq!(
        search_whitespace(&sentences, &term),
        vec![doc("that that is is that that is not is not is that it it is"),]
    );

    let term = "foo".to_string();
    assert_eq!(search_whitespace(&sentences, &term), vec![]);

    // The same query over documents segmented as a morphological analyser
    // segments them.
    let sentences = vec![
        (
            doc("すもももももももものうち"),
            segments_to_tokens(&vec![
                segment("すもも", "名詞"),
                segment("も", "助詞"),
                segment("もも", "名詞"),
                segment("も", "助詞"),
                segment("もも", "名詞"),
                segment("の", "助詞"),
                segment("うち", "名詞"),
            ]),
        ),
        (doc("関西国際空港限定トートバッグ"), nouns(&["関西", "国際", "空港", "限定", "トートバッグ"])),
        (doc("東京国際空港"), nouns(&["東京", "国際", "空港"])),
    ];
    let term = nouns(&["すもも"]);
    assert_eq!(search_main(&sentences, &term), vec![doc("すもももももももものうち"),]);
}

#[test]
fn search_main_needs_every_term() {
    let batch: Vec<(Document, Vec<Token>)> = ["a b", "b c", "a b c"]
        .iter()
        .map(|b| (doc(b), whitespace_tokenize(b)))
        .collect();
    assert_eq!(search_main(&batch, &whitespace_tokenize("c b")), vec![doc("b c"), doc("a b c")]);
    assert_eq!(search_main(&batch, &whitespace_tokenize("c, b.")), vec![doc("b c"), doc("a b c")]);
    assert_eq!(search_main(&batch, &whitespace_tokenize("")), vec![]);
}

#[test]
fn whitespace_of_every_kind_splits() {
    assert_eq!(
        whitespace_tokenize("a\tb\u{3000}c\n"),
        vec![Token::new_term("a", 0, 0), Token::new_term("b", 2, 1), Token::new_term("c", 6, 2)]
    );
}

#[test]
fn punctuation_after_space_gives_an_empty_term() {
    assert_eq!(
        whitespace_tokenize("a ,b"),
        vec![
            Token::new_term("a", 0, 0),
            Token::new_term("", 2, 1),
            Token::new_punct(",", 2, 2),
            Token::new_term("b", 3, 3),
        ]
    );
}

#[test]
fn token_constructors_measure_bytes() {
    let t = Token::new_term("すもも", 3, 1);
    assert_eq!(t.kind, TokenKind::Term("すもも".to_string()));
    assert_eq!(t.length, 9);
    assert_eq!(t.offset, 3);
    assert_eq!(t.position, 1);
    let p = Token::new_punct("?", 0, 4);
    assert_eq!(p.kind, TokenKind::Punct("?".to_string()));
    assert_eq!(p.length, 1);
}

#[test]
fn segments_by_part_of_speech() {
    let tokens = segments_to_tokens(&vec![
        segment("大変", "名詞"),
        segment("でし", "助動詞"),
        segment("た", "助動詞"),
        segment("。", "記号"),
        segment("えー", "フィラー"),
        segment("そう", "副詞"),
    ]);
    assert_eq!(
        tokens,
        vec![
            Token::new_term("大変", 0, 0),
            Token::new_term("でし", 6, 1),
            Token::new_term("た", 12, 2),
            Token::new_punct("。", 15, 3),
            Token::new_term("そう", 24, 5),
        ]
    );
    assert_eq!(segments_to_tokens(&vec![]), vec![]);
}

#[test]
fn default_strategy_is_whitespace() {
    assert_eq!(TokenizeType::default(), TokenizeType::Whitespace);
}

#[test]
fn split_follows_the_given_whitespace_flags() {
    let spaces = vec![false, true, false, false];
    assert_eq!(
        split_tokens_at("I am", &spaces),
        vec![Token::new_term("I", 0, 0), Token::new_term("am", 2, 1)]
    );
    // Any character can be marked as whitespace.
    let spaces = vec![false, false, true, false];
    assert_eq!(
        split_tokens_at("abxc", &spaces),
        vec![Token::new_term("ab", 0, 0), Token::new_term("c", 3, 1)]
    );
    assert_eq!(split_tokens_at("", &vec![]), vec![]);
}
