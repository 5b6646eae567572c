use prettyprint::doc::FormatElement;
use prettyprint::doc::empty;
use prettyprint::doc::flatten;
use prettyprint::doc::group;
use prettyprint::doc::line_or_empty;
use prettyprint::doc::line_or_space;
use prettyprint::doc::literal;
use prettyprint::doc::nest;
use prettyprint::doc::text;
use prettyprint::layout::pretty;
use prettyprint::fitted::FittedDocument;
use prettyprint::fitted::print_fitted_document;
use prettyprint::layout::fit_document;
use prettyprint::layout::fit_documents;
use prettyprint::layout::pick_better_fit;

/// A document for a JSON-style string array, in the shape a typical
/// producer would build: bracketed, comma-separated, items indented by 2.
fn string_array(items: &[&str]) -> FormatElement {
    let mut entries: Vec<FormatElement> = Vec::new();
    for (idx, item) in items.iter().enumerate() {
        if idx == 0 {
            entries.push(line_or_empty());
        }
        entries.push(text(format!("\"{}\"", item)));
        if idx != items.len() - 1 {
            entries.push(literal(","));
            entries.push(line_or_space());
        }
    }
    group(prettyprint::doc::concat(vec![
        literal("["),
        nest(2, prettyprint::doc::concat(entries)),
        line_or_empty(),
        literal("]"),
    ]))
}

/// A document for a JSON-style single-field object.
fn single_field_object(name: &str, value: FormatElement) -> FormatElement {
    group(prettyprint::doc::concat(vec![
        literal("{"),
        nest(
            2,
            prettyprint::doc::concat(vec![
                line_or_space(),
                text(name.to_string()),
                literal(": "),
                value,
            ]),
        ),
        line_or_space(),
        literal("}"),
    ]))
}

/// An array of three single-key objects, each holding a three-string
/// array.
fn three_objects() -> FormatElement {
    let objects = vec![
        single_field_object("a", string_array(&["x", "y", "z"])),
        single_field_object("b", string_array(&["q", "r", "s"])),
        single_field_object("c", string_array(&["t", "u", "v"])),
    ];
    let mut entries: Vec<FormatElement> = Vec::new();
    for (idx, object) in objects.into_iter().enumerate() {
        if idx == 0 {
            entries.push(line_or_empty());
        }
        entries.push(object);
        if idx != 2 {
            entries.push(literal(","));
            entries.push(line_or_space());
        }
    }
    group(prettyprint::doc::concat(vec![
        literal("["),
        nest(2, prettyprint::doc::concat(entries)),
        line_or_empty(),
        literal("]"),
    ]))
}

#[test]
fn wide_json_is_one_line() {
    let doc = three_objects();
    assert_eq!(
        "[{ a: [\"x\", \"y\", \"z\"] }, { b: [\"q\", \"r\", \"s\"] }, { c: [\"t\", \"u\", \"v\"] }]",
        pretty(150, &doc)
    );
}

#[test]
fn narrow_json_breaks_everywhere() {
    let doc = three_objects();
    let expected = "[\n  {\n    a: [\n      \"x\",\n      \"y\",\n      \"z\"\n    ]\n  },\n  \
                    {\n    b: [\n      \"q\",\n      \"r\",\n      \"s\"\n    ]\n  },\n  \
                    {\n    c: [\n      \"t\",\n      \"u\",\n      \"v\"\n    ]\n  }\n]";
    assert_eq!(expected, pretty(12, &doc));
}

#[test]
fn indent_comes_only_from_traversed_nests() {
    // An inner group inside a `nest(2, ...)` inside an outer group: when
    // both break, every break is indented by exactly the one traversed
    // offset, and nothing from the unused flat alternatives.
    let inner = group(prettyprint::doc::concat(vec![
        literal("bbbb"),
        line_or_space(),
        literal("cccc"),
    ]));
    let doc = group(prettyprint::doc::concat(vec![
        literal("aaaa"),
        nest(2, prettyprint::doc::concat(vec![line_or_space(), inner])),
    ]));
    assert_eq!("aaaa bbbb cccc", pretty(20, &doc));
    assert_eq!("aaaa\n  bbbb\n  cccc", pretty(6, &doc));
}

#[test]
fn nested_nests_add_their_offsets() {
    let doc = group(prettyprint::doc::concat(vec![
        literal("aaaa"),
        nest(2, nest(3, prettyprint::doc::concat(vec![line_or_space(), literal("bb")]))),
    ]));
    assert_eq!("aaaa bb", pretty(10, &doc));
    assert_eq!("aaaa\n     bb", pretty(5, &doc));
}

#[test]
fn empty_text_contributes_nothing() {
    let doc = group(prettyprint::doc::concat(vec![
        text(String::new()),
        literal("ab"),
        text(String::new()),
        line_or_space(),
        literal("cd"),
    ]));
    assert_eq!("ab cd", pretty(6, &doc));
    assert_eq!("", pretty(10, &text(String::new())));
}

#[test]
fn flatten_is_idempotent_textually() {
    let doc = three_objects();
    let once = flatten(&doc);
    let twice = flatten(&once);
    assert_eq!(pretty(1000, &once), pretty(1000, &twice));
}

#[test]
fn flattened_document_never_breaks() {
    let doc = three_objects();
    let flat = flatten(&doc);
    assert!(!pretty(80, &flat).contains('\n'));
    assert!(!pretty(5, &flat).contains('\n'));
}

#[test]
fn more_width_never_means_more_breaks() {
    let doc = three_objects();
    let mut previous = usize::MAX;
    for width in [0, 5, 12, 25, 40, 60, 80, 150] {
        let breaks = pretty(width, &doc).matches('\n').count();
        assert!(breaks <= previous);
        previous = breaks;
    }
}

#[test]
fn group_is_flat_exactly_when_budget_exceeds_flat_width() {
    // The flat form is five columns wide; a budget of exactly five never
    // fits, one of six does.
    let doc = group(prettyprint::doc::concat(vec![
        literal("ab"),
        line_or_space(),
        literal("cd"),
    ]));
    assert_eq!("ab cd", pretty(6, &doc));
    assert_eq!("ab\ncd", pretty(5, &doc));
}

#[test]
fn width_zero_breaks_every_group_but_drops_nothing() {
    let grouped = group(prettyprint::doc::concat(vec![
        literal("ab"),
        line_or_space(),
        literal("cd"),
    ]));
    assert_eq!("ab\ncd", pretty(0, &grouped));
    // A lone token has no break point to use: it still prints in full.
    assert_eq!("hello", pretty(0, &text("hello".to_string())));
    assert_eq!("", pretty(0, &empty()));
}

#[test]
fn fitting_respects_start_column() {
    let doc = group(prettyprint::doc::concat(vec![
        literal("ab"),
        line_or_space(),
        literal("cd"),
    ]));
    // Column 8 of 10 leaves a budget of two: the group breaks.
    assert_eq!("ab\ncd", print_fitted_document(fit_document(10, 8, &doc)));
    assert_eq!("ab cd", print_fitted_document(fit_document(10, 2, &doc)));
}

#[test]
fn fits_needs_strictly_positive_leftover() {
    let chain = FittedDocument::Text("abc".to_string(), Box::new(FittedDocument::Empty));
    assert!(chain.fits(4));
    assert!(!chain.fits(3));
    assert!(!chain.fits(0));
    let with_break = FittedDocument::Text(
        "abc".to_string(),
        Box::new(FittedDocument::Line(2, Box::new(FittedDocument::Empty))),
    );
    assert!(with_break.fits(4));
}

#[test]
fn worklist_resolves_last_pushed_first() {
    let a = literal("aa");
    let b = literal("bb");
    let fitted = fit_documents(80, 0, vec![(0, &b), (0, &a)]);
    assert_eq!("aabb", print_fitted_document(fitted));
}

#[test]
fn pick_better_fit_prefers_the_first_that_fits() {
    let flat = FittedDocument::Text("xxxx".to_string(), Box::new(FittedDocument::Empty));
    let broken = FittedDocument::Line(0, Box::new(FittedDocument::Empty));
    assert_eq!("xxxx", print_fitted_document(pick_better_fit(10, 0, flat, broken)));
    let flat = FittedDocument::Text("xxxx".to_string(), Box::new(FittedDocument::Empty));
    let broken = FittedDocument::Line(0, Box::new(FittedDocument::Empty));
    assert_eq!("\n", print_fitted_document(pick_better_fit(4, 0, flat, broken)));
}

#[test]
fn flatten_resolves_soft_breaks() {
    assert_eq!(" ", pretty(5, &flatten(&line_or_space())));
    assert_eq!("", pretty(5, &flatten(&line_or_empty())));
}
