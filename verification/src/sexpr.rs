use vstd::prelude::*;

verus! {

#[verifier::external_type_specification]
#[verifier::external_body]
pub struct ExOutsideSexp(sexp::Sexp);

/// An atom of an s-expression: a symbol or string, an integer, or a float.
/// A float atom is held by its decimal text, as `f64`'s `Display` writes it.
#[derive(Debug, PartialEq, Eq)]
pub enum SAtom {
    S(String),
    I(i64),
    F(String),
}

/// An s-expression: an atom or a list of s-expressions.
#[derive(Debug, PartialEq, Eq)]
pub enum SExpr {
    Atom(SAtom),
    List(Vec<SExpr>),
}

/// The mathematical value of an atom.
pub enum SAtomV {
    S(Seq<char>),
    I(i64),
    F(Seq<char>),
}

/// The mathematical value of an s-expression.
pub enum SExprV {
    Atom(SAtomV),
    List(Seq<SExprV>),
}

impl View for SAtom {
    type V = SAtomV;

    open spec fn view(&self) -> SAtomV {
        match self {
            SAtom::S(s) => SAtomV::S(s@),
            SAtom::I(n) => SAtomV::I(*n),
            SAtom::F(t) => SAtomV::F(t@),
        }
    }
}

/// The value of an s-expression.
pub open spec fn sexpr_view(s: SExpr) -> SExprV
    decreases s,
{
    match s {
        SExpr::Atom(a) => SExprV::Atom(a@),
        SExpr::List(v) => SExprV::List(sexprs_view(v@)),
    }
}

/// The values of a sequence of s-expressions.
pub open spec fn sexprs_view(items: Seq<SExpr>) -> Seq<SExprV>
    decreases items,
{
    if items.len() == 0 {
        Seq::empty()
    } else {
        sexprs_view(items.drop_last()).push(sexpr_view(items.last()))
    }
}

impl View for SExpr {
    type V = SExprV;

    open spec fn view(&self) -> SExprV {
        sexpr_view(*self)
    }
}


/// The views of a sequence are the views of its items, position by position.
pub proof fn lemma_sexprs_view(items: Seq<SExpr>)
    ensures
        sexprs_view(items).len() == items.len(),
        forall|i: int| 0 <= i < items.len() ==> #[trigger] sexprs_view(items)[i] == sexpr_view(items[i]),
    decreases items.len(),
{
    if items.len() > 0 {
        lemma_sexprs_view(items.drop_last());
    }
}

/// What `sexp::parse` makes of a text: the tree it reads, or the text of its
/// error (`line:column: message`).
pub uninterp spec fn sexp_reading(text: Seq<char>) -> Result<SExprV, Seq<char>>;

/// What `sexp::Sexp`'s `Debug` (which is its `Display`) writes for a list of
/// s-expressions, as `[a, b, c]`.
pub uninterp spec fn sexp_list_text(items: Seq<SExprV>) -> Seq<char>;

/// The tree of an outside s-expression, node for node. A float atom keeps the
/// text that `f64`'s `Display` writes for it.
#[verifier::external_body]
fn from_outside(s: &sexp::Sexp) -> SExpr {
    match s {
        sexp::Sexp::Atom(sexp::Atom::S(x)) => SExpr::Atom(SAtom::S(x.clone())),
        sexp::Sexp::Atom(sexp::Atom::I(n)) => SExpr::Atom(SAtom::I(*n)),
        sexp::Sexp::Atom(sexp::Atom::F(f)) => SExpr::Atom(SAtom::F(f.to_string())),
        sexp::Sexp::List(v) => SExpr::List(v.iter().map(from_outside).collect()),
    }
}

/// The outside s-expression of a tree, node for node. A float atom is read
/// back from its text; a text that is no float reads as zero.
#[verifier::external_body]
fn to_outside(s: &SExpr) -> sexp::Sexp {
    match s {
        SExpr::Atom(SAtom::S(x)) => sexp::Sexp::Atom(sexp::Atom::S(x.clone())),
        SExpr::Atom(SAtom::I(n)) => sexp::Sexp::Atom(sexp::Atom::I(*n)),
        SExpr::Atom(SAtom::F(t)) => sexp::Sexp::Atom(sexp::Atom::F(t.parse().unwrap_or_default())),
        SExpr::List(v) => sexp::Sexp::List(v.iter().map(to_outside).collect()),
    }
}

/// Reads one s-expression from `text` with `sexp::parse`. The contract claims
/// only that the outcome is a function of the text (`sexp_reading`): the tree
/// on success, the error's `Display` text on failure. The grammar that
/// `sexp::parse` accepts is not restated here.
#[verifier::external_body]
pub(crate) fn read_sexpr(text: &str) -> (r: Result<SExpr, String>)
    ensures
        match r {
            Ok(t) => sexp_reading(text@) == Ok::<SExprV, Seq<char>>(t@),
            Err(m) => sexp_reading(text@) == Err::<SExprV, Seq<char>>(m@),
        },
{
    match sexp::parse(text) {
        Ok(s) => Ok(from_outside(&s)),
        Err(e) => Err(e.to_string()),
    }
}

/// The `Debug` text of a list of s-expressions, as `format!("{:?}", items)`
/// writes it for a `Vec<sexp::Sexp>`. The contract names the text
/// (`sexp_list_text`) and does not restate `sexp`'s printer.
#[verifier::external_body]
pub(crate) fn sexpr_list_text(items: &Vec<SExpr>) -> (r: String)
    ensures
        r@ == sexp_list_text(sexprs_view(items@)),
{
    let outside: Vec<sexp::Sexp> = items.iter().map(to_outside).collect();
    format!("{:?}", outside)
}

} // verus!
