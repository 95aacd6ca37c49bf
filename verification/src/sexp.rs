//! The S-expression value produced by the traversal engine.

use vstd::prelude::*;

verus! {

broadcast use vstd::std_specs::vec::group_vec_axioms, vstd::seq::group_seq_axioms;

/// A structured S-expression: the canonical form of a syntax tree.
///
/// All text is carried as raw bytes of the source buffer, so leaf payloads
/// are byte-for-byte slices of the input with no re-encoding.
///
/// `Token` is a delimiter used only while a value is under construction on
/// the stack of [`crate::traverse::to_sexp`]; a finished value never
/// contains it (see [`crate::laws::lemma_to_sexp_token_free`]).
#[derive(Debug, PartialEq, Eq)]
pub enum SExp {
    /// The grammar rule name of a named node.
    Kind(Vec<u8>),
    /// A field label; it annotates the element that follows it.
    Field(Vec<u8>),
    /// Verbatim source text of a leaf (childless) node.
    Value(Vec<u8>),
    /// A named node with its children folded together.
    List(Vec<SExp>),
    /// Delimiter marking the start of a node's accumulation region.
    Token,
}

/// The mathematical model of an [`SExp`]: the same shape over `Seq`.
#[verifier::ext_equal]
pub enum SExpV {
    Kind(Seq<u8>),
    Field(Seq<u8>),
    Value(Seq<u8>),
    List(Seq<SExpV>),
    Token,
}

/// The model of an [`SExp`]: every `Vec` becomes a `Seq`, recursively.
pub open spec fn sexp_view(e: SExp) -> SExpV
    decreases e,
{
    match e {
        SExp::Kind(s) => SExpV::Kind(s@),
        SExp::Field(s) => SExpV::Field(s@),
        SExp::Value(b) => SExpV::Value(b@),
        SExp::List(es) => SExpV::List(
            Seq::new(es@.len(), |i: int| if 0 <= i < es@.len() {
                sexp_view(es@[i])
            } else {
                SExpV::Token
            }),
        ),
        SExp::Token => SExpV::Token,
    }
}

impl View for SExp {
    type V = SExpV;

    open spec fn view(&self) -> SExpV {
        sexp_view(*self)
    }
}

/// The view of a whole construction stack.
pub open spec fn stack_view(s: Seq<SExp>) -> Seq<SExpV> {
    Seq::new(s.len(), |i: int| s[i]@)
}

/// The view of a `List` is the `List` of the element views.
pub proof fn lemma_list_view(es: Vec<SExp>)
    ensures
        sexp_view(SExp::List(es)) == SExpV::List(stack_view(es@)),
{
    let v = sexp_view(SExp::List(es));
    match v {
        SExpV::List(s) => {
            assert(s =~= stack_view(es@));
        },
        _ => {
            assert(false);
        },
    }
}

/// Folds an accumulation region into one value: a single entry is kept as
/// it is, anything else is wrapped in a `List`.
pub open spec fn collapse(es: Seq<SExpV>) -> SExpV {
    if es.len() == 1 {
        es[0]
    } else {
        SExpV::List(es)
    }
}

/// No entry of the sequence is a `Token` (the sequence itself, not nested).
pub open spec fn no_token_top(s: Seq<SExpV>) -> bool {
    forall|i: int| 0 <= i < s.len() ==> !(#[trigger] s[i] is Token)
}

/// The value is not a `Token` and no `Token` occurs anywhere inside it.
pub open spec fn token_free(e: SExpV) -> bool
    decreases e,
{
    match e {
        SExpV::Token => false,
        SExpV::List(es) => forall|i: int| 0 <= i < es.len() ==> token_free(#[trigger] es[i]),
        _ => true,
    }
}

} // verus!
