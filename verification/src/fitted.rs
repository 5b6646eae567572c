//! The resolved, linear form of a document, its feasibility test, and the
//! renderer that turns it into text.

use vstd::prelude::*;
use vstd::string::*;

verus! {

/// Mathematical model of a fitted document: a chain of text runs and
/// breaks, each break carrying the indentation printed after its newline.
#[verifier::ext_equal]
pub ghost enum Fitted {
    Empty,
    Text(Seq<char>, Box<Fitted>),
    Line(nat, Box<Fitted>),
}

/// The resolved, choice-free intermediate form: produced once per layout
/// run and consumed immediately by the renderer.
pub enum FittedDocument {
    Empty,
    Text(String, Box<FittedDocument>),
    Line(usize, Box<FittedDocument>),
}

pub open spec fn fitted_of(f: FittedDocument) -> Fitted
    decreases f,
{
    match f {
        FittedDocument::Empty => Fitted::Empty,
        FittedDocument::Text(s, rest) => Fitted::Text(s@, Box::new(fitted_of(*rest))),
        FittedDocument::Line(off, rest) => Fitted::Line(off as nat, Box::new(fitted_of(*rest))),
    }
}

impl View for FittedDocument {
    type V = Fitted;

    open spec fn view(&self) -> Fitted {
        fitted_of(*self)
    }
}

/// `n` space characters.
pub open spec fn spaces(n: nat) -> Seq<char> {
    Seq::new(n, |i: int| ' ')
}

/// The text of a fitted document: each break prints a newline followed by
/// its indentation in spaces.
pub open spec fn render(f: Fitted) -> Seq<char>
    decreases f,
{
    match f {
        Fitted::Empty => Seq::empty(),
        Fitted::Text(s, rest) => s + render(*rest),
        Fitted::Line(ind, rest) => seq!['\n'] + spaces(ind) + render(*rest),
    }
}

/// The feasibility test: walking the chain from the front, the budget must
/// stay positive through every text run until a break or the end of the
/// chain is reached.  A budget that is not positive admits nothing.
pub open spec fn fits_at(f: Fitted, budget: int) -> bool
    decreases f,
{
    budget > 0 && match f {
        Fitted::Empty => true,
        Fitted::Text(s, rest) => fits_at(*rest, budget - s.len()),
        Fitted::Line(_, _) => true,
    }
}

impl FittedDocument {
    /// Whether this chain stays within `width` columns up to its first
    /// break (or its end).
    pub fn fits(&self, width: usize) -> (r: bool)
        ensures
            r == fits_at(self@, width as int),
        decreases *self,
    {
        if width == 0 {
            false
        } else {
            match self {
                FittedDocument::Empty => true,
                FittedDocument::Text(s, rest) => {
                    let n = s.as_str().unicode_len();
                    let r = rest.fits(width.saturating_sub(n));
                    proof {
                        if n >= width {
                            assert(!fits_at(fitted_of(**rest), width.saturating_sub(n) as int));
                            assert(!fits_at(fitted_of(**rest), width as int - n as int));
                        }
                    }
                    r
                },
                FittedDocument::Line(_, _) => true,
            }
        }
    }
}

/// Renders a fitted document as text.
#[verifier::loop_isolation(false)]
pub fn print_fitted_document(x: FittedDocument) -> (r: String)
    ensures
        r@ == render(x@),
    decreases x,
{
    match x {
        FittedDocument::Empty => String::new(),
        FittedDocument::Text(s, rest) => {
            let mut out = s;
            let tail = print_fitted_document(*rest);
            out.append(tail.as_str());
            out
        },
        FittedDocument::Line(off, rest) => {
            proof {
                reveal_strlit("\n");
                reveal_strlit(" ");
            }
            let mut out = String::from_str("\n");
            proof {
                assert(out@ =~= seq!['\n'] + spaces(0));
            }
            let mut k: usize = 0;
            while k < off
                invariant
                    k <= off,
                    out@ == seq!['\n'] + spaces(k as nat),
                decreases off - k,
            {
                out.append(" ");
                proof {
                    assert(out@ =~= seq!['\n'] + spaces((k + 1) as nat));
                }
                k += 1;
            }
            let tail = print_fitted_document(*rest);
            out.append(tail.as_str());
            proof {
                assert(out@ =~= seq!['\n'] + spaces(off as nat) + render(fitted_of(*rest)));
            }
            out
        },
    }
}

} // verus!
