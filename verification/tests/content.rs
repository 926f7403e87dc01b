use shortcut_autotyper::{Content, ContentItem};

#[test]
fn content_paring() {
    let content = Content::from("A <1> B");
    assert_eq!(content.0[0], ContentItem::Value(String::from("A ")));
    assert_eq!(content.0[1], ContentItem::Variable(1));
    assert_eq!(content.0[2], ContentItem::Value(String::from(" B")));

    let content = Content::from("A <1> B <3><2>");
    assert_eq!(content.0[0], ContentItem::Value(String::from("A ")));
    assert_eq!(content.0[1], ContentItem::Variable(1));
    assert_eq!(content.0[2], ContentItem::Value(String::from(" B ")));
    assert_eq!(content.0[3], ContentItem::Variable(3));
    assert_eq!(content.0[4], ContentItem::Value(String::from("")));
    assert_eq!(content.0[5], ContentItem::Variable(2));

    let content = Content::from("A <1> B <C><2>");
    assert_eq!(content.0[0], ContentItem::Value(String::from("A ")));
    assert_eq!(content.0[1], ContentItem::Variable(1));
    assert_eq!(content.0[2], ContentItem::Value(String::from(" B <C>")));
    assert_eq!(content.0[3], ContentItem::Variable(2));

    let content = Content::from("A > <> B <C><2>");
    assert_eq!(
        content.0[0],
        ContentItem::Value(String::from("A > <> B <C>"))
    );
}

#[test]
fn print_with_variables() {
    let vec = vec![
        String::from("filename"),
        String::from("X"),
        String::from("YY"),
        String::from("ZZZ"),
    ];

    let content = Content::from("A <1> B");
    assert_eq!(&content.generate_content(&vec), "A X B");

    let content = Content::from("A <8> B <2>");
    assert_eq!(&content.generate_content(&vec), "A <8> B YY");
}

#[test]
fn render_without_variables_is_identity() {
    let no_args: Vec<String> = Vec::new();
    let inputs = vec![
        "plain text, nothing special",
        "A > <> B <C>",
        "<>",
        "ends with a bracket >",
        "",
        "< x >< y >",
    ];
    for s in inputs {
        assert_eq!(Content::from(s).generate_content(&no_args), s);
    }
}

#[test]
fn missing_argument_renders_placeholder() {
    let no_args: Vec<String> = Vec::new();
    assert_eq!(Content::from("A <1> B").generate_content(&no_args), "A <1> B");
    let one = vec![String::from("only")];
    assert_eq!(Content::from("<0><1>").generate_content(&one), "only<1>");
}

#[test]
fn placeholder_edge_cases() {
    let no_args: Vec<String> = Vec::new();
    // an unclosed placeholder is dropped at the end of input
    assert_eq!(Content::from("A<12").generate_content(&no_args), "A");
    // leading zeros collapse to the numeric index
    assert_eq!(Content::from("<007>").generate_content(&no_args), "<7>");
    let args = vec![String::from("zero")];
    assert_eq!(Content::from("<007>").generate_content(&args), "<7>");
    assert_eq!(Content::from("<000>").generate_content(&args), "zero");
}

#[test]
fn content_to_text() {
    let content = Content::from("A <1> B <C><2>");
    assert_eq!(content.to_text(), "A <1> B <C><2>");
    let item = ContentItem::Variable(12);
    assert_eq!(item.to_text(), "<12>");
    assert_eq!(ContentItem::Value(String::from("xy")).to_text(), "xy");
}
