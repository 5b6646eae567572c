use prettyprint::doc::FormatElement;
use prettyprint::doc::group;
use prettyprint::layout::pretty;

#[test]
fn raw_test() {
    let doc = group(FormatElement::List(vec![
        FormatElement::Token("[1, 2, 3, 4, 5, 6, 7, 8, 9, 10, ".to_string()),
        FormatElement::LineOrSpace,
        FormatElement::Token("11, 12, 13, 14, 15, 16, 17, 18, 19, 20]".to_string()),
    ]));

    // The first token ends with a space of its own, and the flat form of a
    // soft break is one more space, so the single-line rendering holds two
    // spaces between "10," and "11".
    assert_eq!(
        "[1, 2, 3, 4, 5, 6, 7, 8, 9, 10,  11, 12, 13, 14, 15, 16, 17, 18, 19, 20]",
        pretty(200, &doc)
    );

    assert_eq!(
        "[1, 2, 3, 4, 5, 6, 7, 8, 9, 10, \n11, 12, 13, 14, 15, 16, 17, 18, 19, 20]",
        pretty(50, &doc)
    );
}
