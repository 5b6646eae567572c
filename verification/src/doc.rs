//! The document algebra: the tree of layout intent and its constructors.

use vstd::prelude::*;

verus! {

/// Mathematical model of a document.
///
/// `List` is sequential composition, `Indent` adds to the indentation of
/// every break produced inside its child, `Token` is a literal run of text,
/// and the two `Line` variants are soft break points.  `Union(flat, full)`
/// is a resolved choice point; the grouping combinator only ever builds it
/// with `flat == flat_doc(full)`.
#[verifier::ext_equal]
pub ghost enum Doc {
    Empty,
    List(Seq<Doc>),
    Indent(nat, Box<Doc>),
    Token(Seq<char>),
    LineOrSpace,
    LineOrEmpty,
    Union(Box<Doc>, Box<Doc>),
}

/// The executable document tree; its view is the `Doc` it stands for.
#[derive(Debug)]
pub enum FormatElement {
    Empty,
    List(Vec<FormatElement>),
    Indent(usize, Box<FormatElement>),
    Token(String),
    LineOrSpace,
    LineOrEmpty,
    Union(Box<FormatElement>, Box<FormatElement>),
}

pub open spec fn doc_of(e: FormatElement) -> Doc
    decreases e,
{
    match e {
        FormatElement::Empty => Doc::Empty,
        FormatElement::List(ds) => Doc::List(docs_of(ds@)),
        FormatElement::Indent(off, inner) => Doc::Indent(off as nat, Box::new(doc_of(*inner))),
        FormatElement::Token(s) => Doc::Token(s@),
        FormatElement::LineOrSpace => Doc::LineOrSpace,
        FormatElement::LineOrEmpty => Doc::LineOrEmpty,
        FormatElement::Union(x, y) => Doc::Union(Box::new(doc_of(*x)), Box::new(doc_of(*y))),
    }
}

pub open spec fn docs_of(ds: Seq<FormatElement>) -> Seq<Doc>
    decreases ds,
{
    if ds.len() == 0 {
        Seq::empty()
    } else {
        seq![doc_of(ds[0])] + docs_of(ds.subrange(1, ds.len() as int))
    }
}

impl View for FormatElement {
    type V = Doc;

    open spec fn view(&self) -> Doc {
        doc_of(*self)
    }
}

/// `docs_of` maps a sequence of elements to their views, elementwise.
pub proof fn lemma_docs_of(ds: Seq<FormatElement>)
    ensures
        docs_of(ds).len() == ds.len(),
        forall|i: int| 0 <= i < ds.len() ==> #[trigger] docs_of(ds)[i] == ds[i]@,
    decreases ds,
{
    if ds.len() > 0 {
        lemma_docs_of(ds.subrange(1, ds.len() as int));
    }
}

/// The document that prints nothing.
pub fn empty() -> (r: FormatElement)
    ensures
        r@ == Doc::Empty,
{
    FormatElement::Empty
}

/// Sequential composition of documents, order preserved.
pub fn concat(docs: Vec<FormatElement>) -> (r: FormatElement)
    ensures
        r@ == Doc::List(docs_of(docs@)),
{
    FormatElement::List(docs)
}

/// Adds `indent` columns to the indentation of every break inside `x`.
pub fn nest(indent: usize, x: FormatElement) -> (r: FormatElement)
    ensures
        r@ == Doc::Indent(indent as nat, Box::new(x@)),
{
    FormatElement::Indent(indent, Box::new(x))
}

/// A literal run of text; its width is its length in characters.
pub fn text(s: String) -> (r: FormatElement)
    ensures
        r@ == Doc::Token(s@),
{
    FormatElement::Token(s)
}

/// A literal run of text given as a string constant.
pub fn literal(s: &'static str) -> (r: FormatElement)
    ensures
        r@ == Doc::Token(s@),
{
    FormatElement::Token(s.to_owned())
}

/// A soft break: a space when flat, a newline plus indentation when broken.
pub fn line_or_space() -> (r: FormatElement)
    ensures
        r@ == Doc::LineOrSpace,
{
    FormatElement::LineOrSpace
}

/// A soft break: nothing when flat, a newline plus indentation when broken.
pub fn line_or_empty() -> (r: FormatElement)
    ensures
        r@ == Doc::LineOrEmpty,
{
    FormatElement::LineOrEmpty
}

/// The single-line form of a document: soft breaks become their flat
/// renderings, and a choice point collapses to its flat alternative.
/// Indentation is preserved, because a later grouping may re-wrap the
/// flattened subtree and need the offset again.
pub open spec fn flat_doc(d: Doc) -> Doc
    decreases d,
{
    match d {
        Doc::Empty => Doc::Empty,
        Doc::List(ds) => Doc::List(flat_docs(ds)),
        Doc::Indent(off, inner) => Doc::Indent(off, Box::new(flat_doc(*inner))),
        Doc::Token(s) => Doc::Token(s),
        Doc::LineOrSpace => Doc::Token(seq![' ']),
        Doc::LineOrEmpty => Doc::Empty,
        Doc::Union(x, _) => flat_doc(*x),
    }
}

pub open spec fn flat_docs(ds: Seq<Doc>) -> Seq<Doc>
    decreases ds,
{
    if ds.len() == 0 {
        Seq::empty()
    } else {
        seq![flat_doc(ds[0])] + flat_docs(ds.subrange(1, ds.len() as int))
    }
}

/// `flat_docs` flattens a sequence of documents elementwise.
pub proof fn lemma_flat_docs(ds: Seq<Doc>)
    ensures
        flat_docs(ds).len() == ds.len(),
        forall|i: int| 0 <= i < ds.len() ==> #[trigger] flat_docs(ds)[i] == flat_doc(ds[i]),
    decreases ds,
{
    if ds.len() > 0 {
        lemma_flat_docs(ds.subrange(1, ds.len() as int));
    }
}

/// A choice point whose alternatives are `flat_doc(d)` and `d`.
pub open spec fn group_doc(d: Doc) -> Doc {
    Doc::Union(Box::new(flat_doc(d)), Box::new(d))
}

/// Collapses a document to its single-line form.
#[verifier::loop_isolation(false)]
pub fn flatten(x: &FormatElement) -> (r: FormatElement)
    ensures
        r@ == flat_doc(x@),
    decreases *x,
{
    match x {
        FormatElement::Empty => FormatElement::Empty,
        FormatElement::Token(s) => FormatElement::Token(s.clone()),
        FormatElement::List(ds) => {
            let mut out: Vec<FormatElement> = Vec::new();
            let mut k: usize = 0;
            while k < ds.len()
                invariant
                    k <= ds.len(),
                    out@.len() == k,
                    forall|j: int| 0 <= j < k ==> #[trigger] out@[j]@ == flat_doc(ds@[j]@),
                decreases ds@.len() - k,
            {
                let d = flatten(&ds[k]);
                out.push(d);
                k += 1;
            }
            proof {
                lemma_docs_of(ds@);
                lemma_docs_of(out@);
                lemma_flat_docs(docs_of(ds@));
                assert(docs_of(out@) =~= flat_docs(docs_of(ds@)));
            }
            FormatElement::List(out)
        }
        FormatElement::Indent(off, inner) => {
            FormatElement::Indent(*off, Box::new(flatten(inner)))
        }
        FormatElement::LineOrSpace => {
            proof {
                reveal_strlit(" ");
                assert(" "@ =~= seq![' ']);
            }
            FormatElement::Token(" ".to_owned())
        }
        FormatElement::LineOrEmpty => FormatElement::Empty,
        FormatElement::Union(flat, _) => flatten(flat),
    }
}

/// Pairs a document with its single-line form as a choice point; the layout
/// engine later commits to whichever alternative fits.
pub fn group(x: FormatElement) -> (r: FormatElement)
    ensures
        r@ == group_doc(x@),
{
    let f = flatten(&x);
    FormatElement::Union(Box::new(f), Box::new(x))
}

} // verus!
