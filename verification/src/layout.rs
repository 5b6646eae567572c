//! The layout engine: resolves every choice point in a document against a
//! column budget, producing a fitted document ready for rendering.
//!
//! The engine works on an explicit work list of (indent, document) pairs,
//! processed as a stack, so output order is left-to-right and the native
//! call stack is not consumed by deep nesting inside a single list.

use vstd::prelude::*;
use vstd::string::*;

use crate::doc::Doc;
use crate::doc::FormatElement;
use crate::doc::docs_of;
use crate::doc::lemma_docs_of;
use crate::fitted::Fitted;
use crate::fitted::FittedDocument;
use crate::fitted::fits_at;
use crate::fitted::print_fitted_document;
use crate::fitted::render;

verus! {

/// Node count of a document, the termination measure of the engine.
pub open spec fn doc_size(d: Doc) -> nat
    decreases d,
{
    match d {
        Doc::List(ds) => 1 + docs_size(ds),
        Doc::Indent(_, x) => 1 + doc_size(*x),
        Doc::Union(x, y) => 1 + doc_size(*x) + doc_size(*y),
        _ => 1,
    }
}

pub open spec fn docs_size(ds: Seq<Doc>) -> nat
    decreases ds,
{
    if ds.len() == 0 {
        0
    } else {
        doc_size(ds[0]) + docs_size(ds.subrange(1, ds.len() as int))
    }
}

/// Total node count of a work list.
pub open spec fn work_size(w: Seq<(nat, Doc)>) -> nat
    decreases w,
{
    if w.len() == 0 {
        0
    } else {
        work_size(w.drop_last()) + doc_size(w.last().1)
    }
}

/// The items of a list, reversed and each paired with the indent `i`: the
/// order in which they are pushed so that the first item is on top.
pub open spec fn rev_attach(i: nat, ds: Seq<Doc>) -> Seq<(nat, Doc)> {
    Seq::new(ds.len(), |j: int| (i, ds[ds.len() - 1 - j]))
}

pub proof fn lemma_work_size_push(w: Seq<(nat, Doc)>, i: nat, d: Doc)
    ensures
        work_size(w.push((i, d))) == work_size(w) + doc_size(d),
{
    assert(w.push((i, d)).drop_last() =~= w);
}

pub proof fn lemma_work_size_append(a: Seq<(nat, Doc)>, b: Seq<(nat, Doc)>)
    ensures
        work_size(a + b) == work_size(a) + work_size(b),
    decreases b,
{
    if b.len() == 0 {
        assert(a + b =~= a);
    } else {
        assert((a + b).drop_last() =~= a + b.drop_last());
        assert((a + b).last() == b.last());
        lemma_work_size_append(a, b.drop_last());
    }
}

pub proof fn lemma_work_size_rev_attach(i: nat, ds: Seq<Doc>)
    ensures
        work_size(rev_attach(i, ds)) == docs_size(ds),
    decreases ds,
{
    if ds.len() > 0 {
        let tail = ds.subrange(1, ds.len() as int);
        assert(rev_attach(i, ds).drop_last() =~= rev_attach(i, tail));
        assert(rev_attach(i, ds).last() == (i, ds[0]));
        lemma_work_size_rev_attach(i, tail);
    }
}

/// Resolution of a work list, given the column budget `width` and the count
/// `col` of columns already placed on the current line.  The last element
/// of the work list is processed first.
///
/// A choice point is the only decision: its flat alternative is resolved
/// together with the whole remaining work list, and is committed to exactly
/// when that resolution fits the remaining budget; otherwise the full
/// alternative is resolved instead.
pub open spec fn layout(width: int, col: int, work: Seq<(nat, Doc)>) -> Fitted
    decreases work_size(work),
{
    if work.len() == 0 {
        Fitted::Empty
    } else {
        let rest = work.drop_last();
        let i = work.last().0;
        match work.last().1 {
            Doc::Empty => layout(width, col, rest),
            Doc::List(ds) => {
                proof {
                    lemma_work_size_append(rest, rev_attach(i, ds));
                    lemma_work_size_rev_attach(i, ds);
                }
                layout(width, col, rest + rev_attach(i, ds))
            },
            Doc::Indent(off, x) => {
                proof {
                    lemma_work_size_push(rest, i + off, *x);
                }
                layout(width, col, rest.push(((i + off) as nat, *x)))
            },
            Doc::Token(s) => Fitted::Text(s, Box::new(layout(width, col + s.len(), rest))),
            Doc::LineOrSpace => Fitted::Line(i, Box::new(layout(width, i as int, rest))),
            Doc::LineOrEmpty => Fitted::Line(i, Box::new(layout(width, i as int, rest))),
            Doc::Union(x, y) => {
                proof {
                    lemma_work_size_push(rest, i, *x);
                    lemma_work_size_push(rest, i, *y);
                }
                let left = layout(width, col, rest.push((i, *x)));
                if fits_at(left, width - col) {
                    left
                } else {
                    layout(width, col, rest.push((i, *y)))
                }
            },
        }
    }
}

/// The rendering of a document laid out against `width` from column 0.
pub open spec fn pretty_spec(width: int, d: Doc) -> Seq<char> {
    render(layout(width, 0, seq![(0nat, d)]))
}

/// The ghost work list that an executable work list stands for.
pub open spec fn work_view(w: Seq<(usize, &FormatElement)>) -> Seq<(nat, Doc)> {
    Seq::new(w.len(), |k: int| (w[k].0 as nat, w[k].1@))
}

/// No indentation that can accumulate inside `d`, starting from `i`,
/// leaves the machine's range: every break's indent fits in a `usize`.
pub open spec fn ind_ok(i: nat, d: Doc) -> bool
    decreases d,
{
    match d {
        Doc::List(ds) => inds_ok(i, ds),
        Doc::Indent(off, x) => i + off <= usize::MAX && ind_ok(i + off, *x),
        Doc::Union(x, y) => ind_ok(i, *x) && ind_ok(i, *y),
        _ => true,
    }
}

pub open spec fn inds_ok(i: nat, ds: Seq<Doc>) -> bool
    decreases ds,
{
    if ds.len() == 0 {
        true
    } else {
        ind_ok(i, ds[0]) && inds_ok(i, ds.subrange(1, ds.len() as int))
    }
}

pub proof fn lemma_inds_ok(i: nat, ds: Seq<Doc>)
    ensures
        inds_ok(i, ds) <==> (forall|k: int| 0 <= k < ds.len() ==> #[trigger] ind_ok(i, ds[k])),
    decreases ds,
{
    if ds.len() > 0 {
        let tail = ds.subrange(1, ds.len() as int);
        lemma_inds_ok(i, tail);
        if inds_ok(i, ds) {
            assert forall|k: int| 0 <= k < ds.len() implies #[trigger] ind_ok(i, ds[k]) by {
                if k > 0 {
                    assert(ds[k] == tail[k - 1]);
                }
            }
        }
        if forall|k: int| 0 <= k < ds.len() ==> #[trigger] ind_ok(i, ds[k]) {
            assert forall|k: int| 0 <= k < tail.len() implies #[trigger] ind_ok(i, tail[k]) by {
                assert(tail[k] == ds[k + 1]);
            }
            assert(ind_ok(i, ds[0]));
        }
    }
}

/// Every entry of a work list keeps its indentation in range.
pub open spec fn work_ok(w: Seq<(nat, Doc)>) -> bool {
    forall|k: int| 0 <= k < w.len() ==> #[trigger] ind_ok(w[k].0, w[k].1)
}

/// The column matters only through the remaining budget: two layouts agree
/// when their columns agree, or when both columns already exhaust the
/// budget, since a spent budget admits nothing either way.
pub proof fn lemma_layout_col(width: int, c1: int, c2: int, work: Seq<(nat, Doc)>)
    requires
        c1 == c2 || (c1 >= width && c2 >= width),
    ensures
        layout(width, c1, work) == layout(width, c2, work),
    decreases work_size(work),
{
    if work.len() > 0 {
        let rest = work.drop_last();
        let i = work.last().0;
        match work.last().1 {
            Doc::Empty => {
                lemma_layout_col(width, c1, c2, rest);
            },
            Doc::List(ds) => {
                lemma_work_size_append(rest, rev_attach(i, ds));
                lemma_work_size_rev_attach(i, ds);
                lemma_layout_col(width, c1, c2, rest + rev_attach(i, ds));
            },
            Doc::Indent(off, x) => {
                lemma_work_size_push(rest, i + off, *x);
                lemma_layout_col(width, c1, c2, rest.push(((i + off) as nat, *x)));
            },
            Doc::Token(s) => {
                lemma_layout_col(width, c1 + s.len(), c2 + s.len(), rest);
            },
            Doc::LineOrSpace => {
                lemma_layout_col(width, i as int, i as int, rest);
            },
            Doc::LineOrEmpty => {
                lemma_layout_col(width, i as int, i as int, rest);
            },
            Doc::Union(x, y) => {
                lemma_work_size_push(rest, i, *x);
                lemma_work_size_push(rest, i, *y);
                lemma_layout_col(width, c1, c2, rest.push((i, *x)));
                lemma_layout_col(width, c1, c2, rest.push((i, *y)));
                if c1 != c2 {
                    let left = layout(width, c1, rest.push((i, *x)));
                    assert(!fits_at(left, width - c1));
                    assert(!fits_at(left, width - c2));
                }
            },
        }
    }
}

fn copy_work<'a>(v: &Vec<(usize, &'a FormatElement)>) -> (r: Vec<(usize, &'a FormatElement)>)
    ensures
        r@ == v@,
{
    let mut r: Vec<(usize, &'a FormatElement)> = Vec::new();
    let mut k: usize = 0;
    while k < v.len()
        invariant
            k <= v@.len(),
            r@ == v@.subrange(0, k as int),
        decreases v@.len() - k,
    {
        let p = v[k];
        r.push(p);
        proof {
            assert(r@ =~= v@.subrange(0, k + 1));
        }
        k += 1;
    }
    proof {
        assert(r@ =~= v@);
    }
    r
}

/// Commits to `x` exactly when `x` fits the budget left on the current
/// line, and otherwise falls back to `y`.
pub fn pick_better_fit(
    width: usize,
    chars_left: usize,
    x: FittedDocument,
    y: FittedDocument,
) -> (r: FittedDocument)
    ensures
        r@ == if fits_at(x@, width as int - chars_left as int) {
            x@
        } else {
            y@
        },
{
    if x.fits(width.saturating_sub(chars_left)) {
        x
    } else {
        y
    }
}

/// Resolves a work list of (indent, document) pairs, processed from the
/// last element, into a fitted document: the executable counterpart of
/// `layout`.
#[verifier::loop_isolation(false)]
pub fn fit_documents<'a>(
    width: usize,
    chars_placed: usize,
    documents: Vec<(usize, &'a FormatElement)>,
) -> (r: FittedDocument)
    requires
        work_ok(work_view(documents@)),
    ensures
        r@ == layout(width as int, chars_placed as int, work_view(documents@)),
    decreases work_size(work_view(documents@)),
{
    let ghost w0 = work_view(documents@);
    let mut docs = documents;
    if let Some((indent, doc)) = docs.pop() {
        let ghost rest = work_view(docs@);
        let ghost ia = indent as nat;
        proof {
            assert(rest =~= w0.drop_last());
            assert(w0.last() == (ia, doc@));
            assert forall|k: int| 0 <= k < rest.len() implies #[trigger] ind_ok(
                rest[k].0,
                rest[k].1,
            ) by {
                assert(rest[k] == w0[k]);
                assert(ind_ok(w0[k].0, w0[k].1));
            }
            assert(ind_ok(ia, doc@));
        }
        match doc {
            FormatElement::Empty => {
                proof {
                    assert(work_size(rest) < work_size(w0));
                }
                fit_documents(width, chars_placed, docs)
            },
            FormatElement::List(ds) => {
                let ghost dsv = docs_of(ds@);
                proof {
                    lemma_docs_of(ds@);
                    lemma_inds_ok(ia, dsv);
                }
                let ghost base = docs@;
                let mut k: usize = ds.len();
                while k > 0
                    invariant
                        k <= ds@.len(),
                        docs@.len() == base.len() + (ds@.len() - k),
                        forall|m: int| 0 <= m < base.len() ==> #[trigger] docs@[m] == base[m],
                        forall|m: int|
                            base.len() <= m < docs@.len() ==> (#[trigger] docs@[m]).0 == indent
                                && docs@[m].1@ == dsv[ds@.len() - 1 - (m - base.len())],
                    decreases k,
                {
                    k = k - 1;
                    docs.push((indent, &ds[k]));
                }
                proof {
                    assert(work_view(docs@) =~= rest + rev_attach(ia, dsv));
                    lemma_work_size_append(rest, rev_attach(ia, dsv));
                    lemma_work_size_rev_attach(ia, dsv);
                    assert(work_size(work_view(docs@)) < work_size(w0));
                    assert forall|k2: int|
                        0 <= k2 < work_view(docs@).len() implies #[trigger] ind_ok(
                        work_view(docs@)[k2].0,
                        work_view(docs@)[k2].1,
                    ) by {
                        if k2 < rest.len() {
                            assert(work_view(docs@)[k2] == rest[k2]);
                        } else {
                            let j = k2 - rest.len();
                            assert(work_view(docs@)[k2] == rev_attach(ia, dsv)[j]);
                            assert(ind_ok(ia, dsv[dsv.len() - 1 - j]));
                        }
                    }
                }
                fit_documents(width, chars_placed, docs)
            },
            FormatElement::Indent(off, inner) => {
                proof {
                    assert(ia + *off <= usize::MAX);
                }
                let new_indent = indent + *off;
                docs.push((new_indent, &**inner));
                proof {
                    assert(work_view(docs@) =~= rest.push((new_indent as nat, (**inner)@)));
                    lemma_work_size_push(rest, new_indent as nat, (**inner)@);
                    assert(work_size(work_view(docs@)) < work_size(w0));
                    assert forall|k2: int|
                        0 <= k2 < work_view(docs@).len() implies #[trigger] ind_ok(
                        work_view(docs@)[k2].0,
                        work_view(docs@)[k2].1,
                    ) by {
                        if k2 < rest.len() {
                            assert(work_view(docs@)[k2] == rest[k2]);
                        }
                    }
                }
                fit_documents(width, chars_placed, docs)
            },
            FormatElement::Token(s) => {
                let n = s.as_str().unicode_len();
                proof {
                    assert(work_size(rest) < work_size(w0));
                }
                let tail = fit_documents(width, chars_placed.saturating_add(n), docs);
                proof {
                    lemma_layout_col(
                        width as int,
                        chars_placed.saturating_add(n) as int,
                        chars_placed as int + n as int,
                        rest,
                    );
                }
                FittedDocument::Text(s.clone(), Box::new(tail))
            },
            FormatElement::LineOrSpace | FormatElement::LineOrEmpty => {
                proof {
                    assert(work_size(rest) < work_size(w0));
                }
                let tail = fit_documents(width, indent, docs);
                FittedDocument::Line(indent, Box::new(tail))
            },
            FormatElement::Union(x, y) => {
                let mut left_documents = copy_work(&docs);
                left_documents.push((indent, &**x));
                let mut right_documents = docs;
                right_documents.push((indent, &**y));
                proof {
                    assert(work_view(left_documents@) =~= rest.push((ia, (**x)@)));
                    assert(work_view(right_documents@) =~= rest.push((ia, (**y)@)));
                    lemma_work_size_push(rest, ia, (**x)@);
                    lemma_work_size_push(rest, ia, (**y)@);
                    assert(work_size(work_view(left_documents@)) < work_size(w0));
                    assert(work_size(work_view(right_documents@)) < work_size(w0));
                    assert forall|k2: int|
                        0 <= k2 < work_view(left_documents@).len() implies #[trigger] ind_ok(
                        work_view(left_documents@)[k2].0,
                        work_view(left_documents@)[k2].1,
                    ) by {
                        if k2 < rest.len() {
                            assert(work_view(left_documents@)[k2] == rest[k2]);
                        }
                    }
                    assert forall|k2: int|
                        0 <= k2 < work_view(right_documents@).len() implies #[trigger] ind_ok(
                        work_view(right_documents@)[k2].0,
                        work_view(right_documents@)[k2].1,
                    ) by {
                        if k2 < rest.len() {
                            assert(work_view(right_documents@)[k2] == rest[k2]);
                        }
                    }
                }
                let lf = fit_documents(width, chars_placed, left_documents);
                let rf = fit_documents(width, chars_placed, right_documents);
                pick_better_fit(width, chars_placed, lf, rf)
            },
        }
    } else {
        proof {
            assert(w0 =~= Seq::<(nat, Doc)>::empty());
        }
        FittedDocument::Empty
    }
}

/// Resolves a single document against `width`, starting at the column
/// `chars_placed` already placed on the current line.
pub fn fit_document<'a>(width: usize, chars_placed: usize, x: &'a FormatElement) -> (r:
    FittedDocument)
    requires
        ind_ok(0, x@),
    ensures
        r@ == layout(width as int, chars_placed as int, seq![(0nat, x@)]),
{
    let documents: Vec<(usize, &FormatElement)> = vec![(0usize, x)];
    proof {
        assert(work_view(documents@) =~= seq![(0nat, x@)]);
    }
    fit_documents(width, chars_placed, documents)
}

/// Lays out `x` against the column budget `width` and renders the result.
pub fn pretty(width: usize, x: &FormatElement) -> (r: String)
    requires
        ind_ok(0, x@),
    ensures
        r@ == pretty_spec(width as int, x@),
{
    print_fitted_document(fit_document(width, 0, x))
}

} // verus!
