//! Laws of the document algebra and the layout engine.

use vstd::prelude::*;

use crate::doc::Doc;
use crate::doc::flat_doc;
use crate::doc::flat_docs;
use crate::doc::group_doc;
use crate::doc::lemma_flat_docs;
use crate::fitted::Fitted;
use crate::fitted::fits_at;
use crate::fitted::render;
use crate::layout::layout;
use crate::layout::pretty_spec;
use crate::layout::rev_attach;
use crate::layout::work_size;
use crate::layout::lemma_work_size_push;
use crate::layout::lemma_work_size_append;
use crate::layout::lemma_work_size_rev_attach;

verus! {

/// Flattening is idempotent: the single-line form of a document is already
/// its own single-line form.
pub proof fn lemma_flatten_idempotent(d: Doc)
    ensures
        flat_doc(flat_doc(d)) == flat_doc(d),
    decreases d,
{
    match d {
        Doc::List(ds) => {
            lemma_flat_docs(ds);
            lemma_flat_docs(flat_docs(ds));
            assert forall|i: int| 0 <= i < ds.len() implies #[trigger] flat_doc(
                flat_docs(ds)[i],
            ) == flat_docs(ds)[i] by {
                lemma_flatten_idempotent(ds[i]);
            }
            assert(flat_docs(flat_docs(ds)) =~= flat_docs(ds));
        },
        Doc::Indent(_, x) => {
            lemma_flatten_idempotent(*x);
        },
        Doc::Union(x, _) => {
            lemma_flatten_idempotent(*x);
        },
        _ => {},
    }
}

/// Idempotence, textually: rendering the twice-flattened document gives
/// the same text as rendering the once-flattened one, at every width.
pub proof fn lemma_flatten_idempotent_textual(width: int, d: Doc)
    ensures
        pretty_spec(width, flat_doc(flat_doc(d))) == pretty_spec(width, flat_doc(d)),
{
    lemma_flatten_idempotent(d);
}

/// A document in single-line form: no soft break and no choice point.
pub open spec fn is_flat(d: Doc) -> bool
    decreases d,
{
    match d {
        Doc::Empty => true,
        Doc::Token(_) => true,
        Doc::List(ds) => all_flat(ds),
        Doc::Indent(_, x) => is_flat(*x),
        Doc::LineOrSpace => false,
        Doc::LineOrEmpty => false,
        Doc::Union(_, _) => false,
    }
}

pub open spec fn all_flat(ds: Seq<Doc>) -> bool
    decreases ds,
{
    if ds.len() == 0 {
        true
    } else {
        is_flat(ds[0]) && all_flat(ds.subrange(1, ds.len() as int))
    }
}

pub proof fn lemma_all_flat(ds: Seq<Doc>)
    ensures
        all_flat(ds) <==> (forall|k: int| 0 <= k < ds.len() ==> #[trigger] is_flat(ds[k])),
    decreases ds,
{
    if ds.len() > 0 {
        let tail = ds.subrange(1, ds.len() as int);
        lemma_all_flat(tail);
        if all_flat(ds) {
            assert forall|k: int| 0 <= k < ds.len() implies #[trigger] is_flat(ds[k]) by {
                if k > 0 {
                    assert(ds[k] == tail[k - 1]);
                }
            }
        }
        if forall|k: int| 0 <= k < ds.len() ==> #[trigger] is_flat(ds[k]) {
            assert forall|k: int| 0 <= k < tail.len() implies #[trigger] is_flat(tail[k]) by {
                assert(tail[k] == ds[k + 1]);
            }
            assert(is_flat(ds[0]));
        }
    }
}

/// Flattening produces a document in single-line form.
pub proof fn lemma_flat_doc_is_flat(d: Doc)
    ensures
        is_flat(flat_doc(d)),
    decreases d,
{
    match d {
        Doc::List(ds) => {
            lemma_flat_docs(ds);
            assert forall|i: int| 0 <= i < flat_docs(ds).len() implies #[trigger] is_flat(
                flat_docs(ds)[i],
            ) by {
                lemma_flat_doc_is_flat(ds[i]);
            }
            lemma_all_flat(flat_docs(ds));
        },
        Doc::Indent(_, x) => {
            lemma_flat_doc_is_flat(*x);
        },
        Doc::Union(x, _) => {
            lemma_flat_doc_is_flat(*x);
        },
        _ => {},
    }
}

/// A fitted document without breaks.
pub open spec fn line_free(f: Fitted) -> bool
    decreases f,
{
    match f {
        Fitted::Empty => true,
        Fitted::Text(_, rest) => line_free(*rest),
        Fitted::Line(_, _) => false,
    }
}

/// Every document on a work list is in single-line form.
pub open spec fn work_flat(w: Seq<(nat, Doc)>) -> bool {
    forall|k: int| 0 <= k < w.len() ==> #[trigger] is_flat(w[k].1)
}

/// Laying out documents in single-line form produces no break, whatever
/// the width and column.
pub proof fn lemma_layout_flat_line_free(width: int, col: int, work: Seq<(nat, Doc)>)
    requires
        work_flat(work),
    ensures
        line_free(layout(width, col, work)),
    decreases work_size(work),
{
    if work.len() > 0 {
        let rest = work.drop_last();
        let i = work.last().0;
        assert(work.last() == work[work.len() - 1]);
        assert(is_flat(work.last().1));
        assert(work_flat(rest)) by {
            assert(forall|k: int| 0 <= k < rest.len() ==> rest[k] == #[trigger] work[k]);
        }
        match work.last().1 {
            Doc::Empty => {
                lemma_layout_flat_line_free(width, col, rest);
            },
            Doc::List(ds) => {
                lemma_work_size_append(rest, rev_attach(i, ds));
                lemma_work_size_rev_attach(i, ds);
                lemma_all_flat(ds);
                let w2 = rest + rev_attach(i, ds);
                assert(work_flat(w2)) by {
                    assert forall|k: int| 0 <= k < w2.len() implies #[trigger] is_flat(
                        w2[k].1,
                    ) by {
                        if k < rest.len() {
                            assert(w2[k] == rest[k]);
                        } else {
                            assert(w2[k] == rev_attach(i, ds)[k - rest.len()]);
                        }
                    }
                }
                lemma_layout_flat_line_free(width, col, w2);
            },
            Doc::Indent(off, x) => {
                lemma_work_size_push(rest, i + off, *x);
                let w2 = rest.push(((i + off) as nat, *x));
                assert(work_flat(w2)) by {
                    assert(w2[w2.len() - 1].1 == *x);
                }
                lemma_layout_flat_line_free(width, col, w2);
            },
            Doc::Token(s) => {
                lemma_layout_flat_line_free(width, col + s.len(), rest);
            },
            Doc::LineOrSpace => {
                assert(false);
            },
            Doc::LineOrEmpty => {
                assert(false);
            },
            Doc::Union(_, _) => {
                assert(false);
            },
        }
    }
}

/// Whether `s` contains a newline character.
pub open spec fn has_newline(s: Seq<char>) -> bool {
    exists|i: int| 0 <= i < s.len() && s[i] == '\n'
}

/// No token of `d` contains a literal newline character.
pub open spec fn tokens_newline_free(d: Doc) -> bool
    decreases d,
{
    match d {
        Doc::Empty => true,
        Doc::Token(s) => !has_newline(s),
        Doc::List(ds) => all_tokens_newline_free(ds),
        Doc::Indent(_, x) => tokens_newline_free(*x),
        Doc::LineOrSpace => true,
        Doc::LineOrEmpty => true,
        Doc::Union(x, y) => tokens_newline_free(*x) && tokens_newline_free(*y),
    }
}

pub open spec fn all_tokens_newline_free(ds: Seq<Doc>) -> bool
    decreases ds,
{
    if ds.len() == 0 {
        true
    } else {
        tokens_newline_free(ds[0]) && all_tokens_newline_free(ds.subrange(1, ds.len() as int))
    }
}

pub proof fn lemma_all_tokens_newline_free(ds: Seq<Doc>)
    ensures
        all_tokens_newline_free(ds) <==> (forall|k: int|
            0 <= k < ds.len() ==> #[trigger] tokens_newline_free(ds[k])),
    decreases ds,
{
    if ds.len() > 0 {
        let tail = ds.subrange(1, ds.len() as int);
        lemma_all_tokens_newline_free(tail);
        if all_tokens_newline_free(ds) {
            assert forall|k: int| 0 <= k < ds.len() implies #[trigger] tokens_newline_free(
                ds[k],
            ) by {
                if k > 0 {
                    assert(ds[k] == tail[k - 1]);
                }
            }
        }
        if forall|k: int| 0 <= k < ds.len() ==> #[trigger] tokens_newline_free(ds[k]) {
            assert forall|k: int| 0 <= k < tail.len() implies #[trigger] tokens_newline_free(
                tail[k],
            ) by {
                assert(tail[k] == ds[k + 1]);
            }
            assert(tokens_newline_free(ds[0]));
        }
    }
}

/// Flattening keeps every token free of newlines: the only token it adds
/// is a single space.
pub proof fn lemma_flat_doc_newline_free(d: Doc)
    requires
        tokens_newline_free(d),
    ensures
        tokens_newline_free(flat_doc(d)),
    decreases d,
{
    match d {
        Doc::List(ds) => {
            lemma_flat_docs(ds);
            lemma_all_tokens_newline_free(ds);
            assert forall|i: int| 0 <= i < flat_docs(ds).len() implies
                #[trigger] tokens_newline_free(flat_docs(ds)[i]) by {
                lemma_flat_doc_newline_free(ds[i]);
            }
            lemma_all_tokens_newline_free(flat_docs(ds));
        },
        Doc::Indent(_, x) => {
            lemma_flat_doc_newline_free(*x);
        },
        Doc::Union(x, _) => {
            lemma_flat_doc_newline_free(*x);
        },
        Doc::LineOrSpace => {
            assert(!has_newline(seq![' ']));
        },
        _ => {},
    }
}

/// Every document on a work list has newline-free tokens.
pub open spec fn work_newline_free(w: Seq<(nat, Doc)>) -> bool {
    forall|k: int| 0 <= k < w.len() ==> #[trigger] tokens_newline_free(w[k].1)
}

/// The rendering of a work list of single-line documents with newline-free
/// tokens contains no newline.
pub proof fn lemma_layout_flat_no_newline(width: int, col: int, work: Seq<(nat, Doc)>)
    requires
        work_flat(work),
        work_newline_free(work),
    ensures
        !has_newline(render(layout(width, col, work))),
    decreases work_size(work),
{
    if work.len() > 0 {
        let rest = work.drop_last();
        let i = work.last().0;
        assert(work.last() == work[work.len() - 1]);
        assert(is_flat(work.last().1));
        assert(tokens_newline_free(work.last().1));
        assert(work_flat(rest) && work_newline_free(rest)) by {
            assert(forall|k: int| 0 <= k < rest.len() ==> rest[k] == #[trigger] work[k]);
        }
        match work.last().1 {
            Doc::Empty => {
                lemma_layout_flat_no_newline(width, col, rest);
            },
            Doc::List(ds) => {
                lemma_work_size_append(rest, rev_attach(i, ds));
                lemma_work_size_rev_attach(i, ds);
                lemma_all_flat(ds);
                lemma_all_tokens_newline_free(ds);
                let w2 = rest + rev_attach(i, ds);
                assert(work_flat(w2) && work_newline_free(w2)) by {
                    assert forall|k: int|
                        0 <= k < w2.len() implies #[trigger] is_flat(w2[k].1)
                        && #[trigger] tokens_newline_free(w2[k].1) by {
                        if k < rest.len() {
                            assert(w2[k] == rest[k]);
                        } else {
                            assert(w2[k] == rev_attach(i, ds)[k - rest.len()]);
                        }
                    }
                }
                lemma_layout_flat_no_newline(width, col, w2);
            },
            Doc::Indent(off, x) => {
                lemma_work_size_push(rest, i + off, *x);
                let w2 = rest.push(((i + off) as nat, *x));
                assert(work_flat(w2) && work_newline_free(w2)) by {
                    assert(w2[w2.len() - 1].1 == *x);
                }
                lemma_layout_flat_no_newline(width, col, w2);
            },
            Doc::Token(s) => {
                lemma_layout_flat_no_newline(width, col + s.len(), rest);
                let tail = render(layout(width, col + s.len(), rest));
                let whole = s + tail;
                assert(!has_newline(whole)) by {
                    assert forall|j: int| 0 <= j < whole.len() implies whole[j] != '\n' by {
                        if j < s.len() {
                            assert(whole[j] == s[j]);
                        } else {
                            assert(whole[j] == tail[j - s.len()]);
                        }
                    }
                }
            },
            Doc::LineOrSpace => {
                assert(false);
            },
            Doc::LineOrEmpty => {
                assert(false);
            },
            Doc::Union(_, _) => {
                assert(false);
            },
        }
    }
}

/// The width of the single-line form of a document: its token lengths,
/// with a soft space counting one column.
pub open spec fn flat_len(d: Doc) -> nat
    decreases d,
{
    match d {
        Doc::Empty => 0,
        Doc::Token(s) => s.len(),
        Doc::List(ds) => flats_len(ds),
        Doc::Indent(_, x) => flat_len(*x),
        Doc::LineOrSpace => 1,
        Doc::LineOrEmpty => 0,
        Doc::Union(x, _) => flat_len(*x),
    }
}

pub open spec fn flats_len(ds: Seq<Doc>) -> nat
    decreases ds,
{
    if ds.len() == 0 {
        0
    } else {
        flat_len(ds[0]) + flats_len(ds.subrange(1, ds.len() as int))
    }
}

/// Flattening preserves the single-line width.
pub proof fn lemma_flat_len_flat_doc(d: Doc)
    ensures
        flat_len(flat_doc(d)) == flat_len(d),
    decreases d, 1nat,
{
    match d {
        Doc::List(ds) => {
            lemma_flats_len_flat(ds);
        },
        Doc::Indent(_, x) => {
            lemma_flat_len_flat_doc(*x);
        },
        Doc::Union(x, _) => {
            lemma_flat_len_flat_doc(*x);
        },
        _ => {},
    }
}

pub proof fn lemma_flats_len_flat(ds: Seq<Doc>)
    ensures
        flats_len(flat_docs(ds)) == flats_len(ds),
    decreases ds, 0nat,
{
    if ds.len() > 0 {
        let tail = ds.subrange(1, ds.len() as int);
        lemma_flat_len_flat_doc(ds[0]);
        lemma_flats_len_flat(tail);
        assert(flat_docs(ds)[0] == flat_doc(ds[0]));
        assert(flat_docs(ds).subrange(1, flat_docs(ds).len() as int) =~= flat_docs(tail));
    }
}

/// Total single-line width of a work list.
pub open spec fn work_len(w: Seq<(nat, Doc)>) -> nat
    decreases w,
{
    if w.len() == 0 {
        0
    } else {
        work_len(w.drop_last()) + flat_len(w.last().1)
    }
}

pub proof fn lemma_work_len_push(w: Seq<(nat, Doc)>, i: nat, d: Doc)
    ensures
        work_len(w.push((i, d))) == work_len(w) + flat_len(d),
{
    assert(w.push((i, d)).drop_last() =~= w);
}

pub proof fn lemma_work_len_append(a: Seq<(nat, Doc)>, b: Seq<(nat, Doc)>)
    ensures
        work_len(a + b) == work_len(a) + work_len(b),
    decreases b,
{
    if b.len() == 0 {
        assert(a + b =~= a);
    } else {
        assert((a + b).drop_last() =~= a + b.drop_last());
        assert((a + b).last() == b.last());
        lemma_work_len_append(a, b.drop_last());
    }
}

pub proof fn lemma_work_len_rev_attach(i: nat, ds: Seq<Doc>)
    ensures
        work_len(rev_attach(i, ds)) == flats_len(ds),
    decreases ds,
{
    if ds.len() > 0 {
        let tail = ds.subrange(1, ds.len() as int);
        assert(rev_attach(i, ds).drop_last() =~= rev_attach(i, tail));
        assert(rev_attach(i, ds).last() == (i, ds[0]));
        lemma_work_len_rev_attach(i, tail);
    }
}

/// Text length up to the first break (or the end) of a fitted document.
pub open spec fn head_len(f: Fitted) -> nat
    decreases f,
{
    match f {
        Fitted::Empty => 0,
        Fitted::Text(s, rest) => s.len() + head_len(*rest),
        Fitted::Line(_, _) => 0,
    }
}

/// The feasibility test measures exactly the text before the first break:
/// a chain fits a budget exactly when the budget strictly exceeds that
/// text's length.
pub proof fn lemma_fits_head(f: Fitted, b: int)
    ensures
        fits_at(f, b) <==> b > head_len(f),
    decreases f,
{
    match f {
        Fitted::Text(s, rest) => {
            lemma_fits_head(*rest, b - s.len());
        },
        _ => {},
    }
}

/// A chain that fits a budget fits every larger budget.
pub proof fn lemma_fits_monotone(f: Fitted, b1: int, b2: int)
    requires
        b1 <= b2,
        fits_at(f, b1),
    ensures
        fits_at(f, b2),
{
    lemma_fits_head(f, b1);
    lemma_fits_head(f, b2);
}

/// Laying out documents in single-line form places exactly their
/// single-line width before the end of the chain.
pub proof fn lemma_layout_flat_head_len(width: int, col: int, work: Seq<(nat, Doc)>)
    requires
        work_flat(work),
    ensures
        head_len(layout(width, col, work)) == work_len(work),
    decreases work_size(work),
{
    if work.len() > 0 {
        let rest = work.drop_last();
        let i = work.last().0;
        assert(work.last() == work[work.len() - 1]);
        assert(is_flat(work.last().1));
        assert(work_flat(rest)) by {
            assert(forall|k: int| 0 <= k < rest.len() ==> rest[k] == #[trigger] work[k]);
        }
        match work.last().1 {
            Doc::Empty => {
                lemma_layout_flat_head_len(width, col, rest);
            },
            Doc::List(ds) => {
                lemma_work_size_append(rest, rev_attach(i, ds));
                lemma_work_size_rev_attach(i, ds);
                lemma_work_len_append(rest, rev_attach(i, ds));
                lemma_work_len_rev_attach(i, ds);
                lemma_all_flat(ds);
                let w2 = rest + rev_attach(i, ds);
                assert(work_flat(w2)) by {
                    assert forall|k: int| 0 <= k < w2.len() implies #[trigger] is_flat(
                        w2[k].1,
                    ) by {
                        if k < rest.len() {
                            assert(w2[k] == rest[k]);
                        } else {
                            assert(w2[k] == rev_attach(i, ds)[k - rest.len()]);
                        }
                    }
                }
                lemma_layout_flat_head_len(width, col, w2);
            },
            Doc::Indent(off, x) => {
                lemma_work_size_push(rest, i + off, *x);
                lemma_work_len_push(rest, (i + off) as nat, *x);
                let w2 = rest.push(((i + off) as nat, *x));
                assert(work_flat(w2)) by {
                    assert(w2[w2.len() - 1].1 == *x);
                }
                lemma_layout_flat_head_len(width, col, w2);
            },
            Doc::Token(s) => {
                lemma_layout_flat_head_len(width, col + s.len(), rest);
            },
            Doc::LineOrSpace => {
                assert(false);
            },
            Doc::LineOrEmpty => {
                assert(false);
            },
            Doc::Union(_, _) => {
                assert(false);
            },
        }
    }
}

/// Greedy single-line preference: when the single-line form of a grouped
/// document fits in the budget left on the line, the group resolves flat,
/// never broken.
pub proof fn lemma_group_prefers_flat(width: int, col: int, i: nat, d: Doc)
    requires
        width - col > flat_len(d),
    ensures
        layout(width, col, seq![(i, group_doc(d))]) == layout(width, col, seq![(i, flat_doc(d))]),
{
    let work = seq![(i, group_doc(d))];
    let flat_work = seq![(i, flat_doc(d))];
    assert(work.last() == (i, group_doc(d)));
    assert(work.drop_last().push((i, flat_doc(d))) =~= flat_work);
    assert(work.drop_last().push((i, d)) =~= seq![(i, d)]);
    let left = layout(width, col, flat_work);
    lemma_flat_doc_is_flat(d);
    assert(work_flat(flat_work)) by {
        assert(flat_work[0].1 == flat_doc(d));
    }
    lemma_layout_flat_head_len(width, col, flat_work);
    lemma_work_len_push(Seq::empty(), i, flat_doc(d));
    assert(Seq::<(nat, Doc)>::empty().push((i, flat_doc(d))) =~= flat_work);
    lemma_flat_len_flat_doc(d);
    assert(head_len(left) == flat_len(d));
    lemma_fits_head(left, width - col);
    assert(fits_at(left, width - col));
}

/// Greedy single-line preference at the top level: when a grouped
/// document's single-line form fits within the width, the group renders
/// exactly as its single-line form.
pub proof fn lemma_group_renders_flat(width: int, d: Doc)
    requires
        width > flat_len(d),
    ensures
        pretty_spec(width, group_doc(d)) == pretty_spec(width, flat_doc(d)),
{
    lemma_group_prefers_flat(width, 0, 0nat, d);
}

/// A document without choice points.
pub open spec fn union_free(d: Doc) -> bool
    decreases d,
{
    match d {
        Doc::Empty => true,
        Doc::Token(_) => true,
        Doc::List(ds) => all_union_free(ds),
        Doc::Indent(_, x) => union_free(*x),
        Doc::LineOrSpace => true,
        Doc::LineOrEmpty => true,
        Doc::Union(_, _) => false,
    }
}

pub open spec fn all_union_free(ds: Seq<Doc>) -> bool
    decreases ds,
{
    if ds.len() == 0 {
        true
    } else {
        union_free(ds[0]) && all_union_free(ds.subrange(1, ds.len() as int))
    }
}

pub proof fn lemma_all_union_free(ds: Seq<Doc>)
    ensures
        all_union_free(ds) <==> (forall|k: int| 0 <= k < ds.len() ==> #[trigger] union_free(
            ds[k],
        )),
    decreases ds,
{
    if ds.len() > 0 {
        let tail = ds.subrange(1, ds.len() as int);
        lemma_all_union_free(tail);
        if all_union_free(ds) {
            assert forall|k: int| 0 <= k < ds.len() implies #[trigger] union_free(ds[k]) by {
                if k > 0 {
                    assert(ds[k] == tail[k - 1]);
                }
            }
        }
        if forall|k: int| 0 <= k < ds.len() ==> #[trigger] union_free(ds[k]) {
            assert forall|k: int| 0 <= k < tail.len() implies #[trigger] union_free(tail[k]) by {
                assert(tail[k] == ds[k + 1]);
            }
            assert(union_free(ds[0]));
        }
    }
}

/// Every document on a work list is free of choice points.
pub open spec fn work_union_free(w: Seq<(nat, Doc)>) -> bool {
    forall|k: int| 0 <= k < w.len() ==> #[trigger] union_free(w[k].1)
}

/// Flattening removes every choice point.
pub proof fn lemma_flat_doc_union_free(d: Doc)
    ensures
        union_free(flat_doc(d)),
    decreases d,
{
    match d {
        Doc::List(ds) => {
            lemma_flat_docs(ds);
            assert forall|i: int| 0 <= i < flat_docs(ds).len() implies #[trigger] union_free(
                flat_docs(ds)[i],
            ) by {
                lemma_flat_doc_union_free(ds[i]);
            }
            lemma_all_union_free(flat_docs(ds));
        },
        Doc::Indent(_, x) => {
            lemma_flat_doc_union_free(*x);
        },
        Doc::Union(x, _) => {
            lemma_flat_doc_union_free(*x);
        },
        _ => {},
    }
}

/// Without choice points there is nothing for the budget to decide: the
/// layout of a work list free of choice points is the same at every width
/// and every column.
pub proof fn lemma_layout_no_choices(wd1: int, c1: int, wd2: int, c2: int, work: Seq<(nat, Doc)>)
    requires
        work_union_free(work),
    ensures
        layout(wd1, c1, work) == layout(wd2, c2, work),
    decreases work_size(work),
{
    if work.len() > 0 {
        let rest = work.drop_last();
        let i = work.last().0;
        assert(work.last() == work[work.len() - 1]);
        assert(union_free(work.last().1));
        assert(work_union_free(rest)) by {
            assert(forall|k: int| 0 <= k < rest.len() ==> rest[k] == #[trigger] work[k]);
        }
        match work.last().1 {
            Doc::Empty => {
                lemma_layout_no_choices(wd1, c1, wd2, c2, rest);
            },
            Doc::List(ds) => {
                lemma_work_size_append(rest, rev_attach(i, ds));
                lemma_work_size_rev_attach(i, ds);
                lemma_all_union_free(ds);
                let w2 = rest + rev_attach(i, ds);
                assert(work_union_free(w2)) by {
                    assert forall|k: int| 0 <= k < w2.len() implies #[trigger] union_free(
                        w2[k].1,
                    ) by {
                        if k < rest.len() {
                            assert(w2[k] == rest[k]);
                        } else {
                            assert(w2[k] == rev_attach(i, ds)[k - rest.len()]);
                        }
                    }
                }
                lemma_layout_no_choices(wd1, c1, wd2, c2, w2);
            },
            Doc::Indent(off, x) => {
                lemma_work_size_push(rest, i + off, *x);
                let w2 = rest.push(((i + off) as nat, *x));
                assert(work_union_free(w2)) by {
                    assert(w2[w2.len() - 1].1 == *x);
                }
                lemma_layout_no_choices(wd1, c1, wd2, c2, w2);
            },
            Doc::Token(s) => {
                lemma_layout_no_choices(wd1, c1 + s.len(), wd2, c2 + s.len(), rest);
            },
            Doc::LineOrSpace => {
                lemma_layout_no_choices(wd1, i as int, wd2, i as int, rest);
            },
            Doc::LineOrEmpty => {
                lemma_layout_no_choices(wd1, i as int, wd2, i as int, rest);
            },
            Doc::Union(_, _) => {
                assert(false);
            },
        }
    }
}

/// A document without choice points renders identically at every width:
/// only grouping makes the width matter at all.
pub proof fn lemma_no_groups_width_independent(w1: int, w2: int, d: Doc)
    requires
        union_free(d),
    ensures
        pretty_spec(w1, d) == pretty_spec(w2, d),
{
    let work = seq![(0nat, d)];
    assert(work_union_free(work)) by {
        assert(work[0].1 == d);
    }
    lemma_layout_no_choices(w1, 0, w2, 0, work);
}

/// Number of breaks in a fitted document.
pub open spec fn num_lines(f: Fitted) -> nat
    decreases f,
{
    match f {
        Fitted::Empty => 0,
        Fitted::Text(_, rest) => num_lines(*rest),
        Fitted::Line(_, rest) => 1 + num_lines(*rest),
    }
}

pub proof fn lemma_line_free_num_lines(f: Fitted)
    requires
        line_free(f),
    ensures
        num_lines(f) == 0,
    decreases f,
{
    match f {
        Fitted::Text(_, rest) => {
            lemma_line_free_num_lines(*rest);
        },
        _ => {},
    }
}

/// Width monotonicity at a single choice point: for a grouped document
/// whose body holds no further choice point, widening the budget never
/// increases the number of breaks in the layout.
pub proof fn lemma_width_monotone_single_group(w1: int, w2: int, col: int, i: nat, d: Doc)
    requires
        union_free(d),
        w1 <= w2,
    ensures
        num_lines(layout(w2, col, seq![(i, group_doc(d))])) <= num_lines(
            layout(w1, col, seq![(i, group_doc(d))]),
        ),
{
    let work = seq![(i, group_doc(d))];
    let flat_work = seq![(i, flat_doc(d))];
    let full_work = seq![(i, d)];
    assert(work.last() == (i, group_doc(d)));
    assert(work.drop_last().push((i, flat_doc(d))) =~= flat_work);
    assert(work.drop_last().push((i, d)) =~= full_work);
    let left1 = layout(w1, col, flat_work);
    let left2 = layout(w2, col, flat_work);
    lemma_flat_doc_union_free(d);
    assert(work_union_free(flat_work)) by {
        assert(flat_work[0].1 == flat_doc(d));
    }
    assert(work_union_free(full_work)) by {
        assert(full_work[0].1 == d);
    }
    lemma_layout_no_choices(w1, col, w2, col, flat_work);
    lemma_layout_no_choices(w1, col, w2, col, full_work);
    lemma_flat_doc_is_flat(d);
    assert(work_flat(flat_work)) by {
        assert(flat_work[0].1 == flat_doc(d));
    }
    lemma_layout_flat_line_free(w1, col, flat_work);
    lemma_line_free_num_lines(left1);
    if fits_at(left1, w1 - col) {
        lemma_fits_monotone(left1, w1 - col, w2 - col);
    }
}

/// Indent additivity: laying out `Nest(a, Nest(b, d))` at indent `i` is
/// laying out `d` at indent `i + a + b`, whatever stands around it.
pub proof fn lemma_nest_additive(
    width: int,
    col: int,
    work: Seq<(nat, Doc)>,
    i: nat,
    a: nat,
    b: nat,
    d: Doc,
)
    ensures
        layout(
            width,
            col,
            work.push((i, Doc::Indent(a, Box::new(Doc::Indent(b, Box::new(d)))))),
        ) == layout(width, col, work.push(((i + a + b) as nat, d))),
{
    let w1 = work.push((i, Doc::Indent(a, Box::new(Doc::Indent(b, Box::new(d))))));
    let w2 = work.push(((i + a) as nat, Doc::Indent(b, Box::new(d))));
    let w3 = work.push(((i + a + b) as nat, d));
    assert(w1.drop_last() =~= work);
    assert(w2.drop_last() =~= work);
    assert(w1.drop_last().push(((i + a) as nat, Doc::Indent(b, Box::new(d)))) =~= w2);
    assert(w2.drop_last().push(((i + a + b) as nat, d)) =~= w3);
    assert(layout(width, col, w1) == layout(width, col, w2));
    assert(layout(width, col, w2) == layout(width, col, w3));
}

/// A soft break under two nested offsets breaks at exactly their sum.
pub proof fn lemma_nest_break_indent(width: int, col: int, i: nat, a: nat, b: nat)
    ensures
        layout(
            width,
            col,
            seq![(i, Doc::Indent(a, Box::new(Doc::Indent(b, Box::new(Doc::LineOrSpace)))))],
        ) == Fitted::Line((i + a + b) as nat, Box::new(Fitted::Empty)),
{
    lemma_nest_additive(width, col, Seq::empty(), i, a, b, Doc::LineOrSpace);
    assert(Seq::<(nat, Doc)>::empty().push(
        (i, Doc::Indent(a, Box::new(Doc::Indent(b, Box::new(Doc::LineOrSpace))))),
    ) =~= seq![(i, Doc::Indent(a, Box::new(Doc::Indent(b, Box::new(Doc::LineOrSpace)))))]);
    let w3 = Seq::<(nat, Doc)>::empty().push(((i + a + b) as nat, Doc::LineOrSpace));
    assert(w3.drop_last() =~= Seq::<(nat, Doc)>::empty());
    assert(w3.last() == (((i + a + b) as nat, Doc::LineOrSpace)));
    assert(layout(width, (i + a + b) as int, Seq::<(nat, Doc)>::empty()) == Fitted::Empty);
    assert(layout(width, col, w3) == Fitted::Line((i + a + b) as nat, Box::new(Fitted::Empty)));
}

/// Rendering the single-line form of a document never breaks: at any width
/// the layout of `flat_doc(d)` contains no newline, provided no token of
/// `d` itself holds a literal newline character.
pub proof fn lemma_flatten_renders_one_line(width: int, d: Doc)
    requires
        tokens_newline_free(d),
    ensures
        !has_newline(pretty_spec(width, flat_doc(d))),
{
    lemma_flat_doc_is_flat(d);
    lemma_flat_doc_newline_free(d);
    let w = seq![(0nat, flat_doc(d))];
    assert(work_flat(w) && work_newline_free(w)) by {
        assert(w[0].1 == flat_doc(d));
    }
    lemma_layout_flat_no_newline(width, 0, w);
}

} // verus!
