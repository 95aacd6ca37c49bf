//! Laws of the transformation, stated over the mathematical model and
//! proved once and for all: counting, token freedom, leaf-text fidelity,
//! field placement, the singleton unwrap and determinism.

use crate::sexp::{collapse, token_free, SExpV};
use crate::tree::{
    body, cat_entries, entries, field_part, is_leaf, leaf_text, lemma_body_no_token, sexp_of,
    NodeV,
};
use vstd::prelude::*;

verus! {

broadcast use vstd::std_specs::vec::group_vec_axioms, vstd::seq::group_seq_axioms;

/// How many `Kind` entries a value holds, nested lists included.
pub open spec fn kind_count(e: SExpV) -> nat
    decreases e, 1int,
{
    match e {
        SExpV::Kind(_) => 1,
        SExpV::List(es) => kind_count_seq(es),
        _ => 0,
    }
}

/// The `Kind` entries of a run of values, together.
pub open spec fn kind_count_seq(es: Seq<SExpV>) -> nat
    decreases es, 2int,
{
    if es.len() == 0 {
        0
    } else {
        kind_count(es[0]) + kind_count_seq(es.drop_first())
    }
}

/// How many named nodes a tree holds.
pub open spec fn named_count(n: NodeV) -> nat
    decreases n, 1int,
{
    (if n.is_named {
        1nat
    } else {
        0nat
    }) + named_count_seq(n.children)
}

/// The named nodes of a forest, together.
pub open spec fn named_count_seq(cs: Seq<NodeV>) -> nat
    decreases cs, 2int,
{
    if cs.len() == 0 {
        0
    } else {
        named_count(cs[0]) + named_count_seq(cs.drop_first())
    }
}

/// The payloads of all `Value` entries of a value, in order.
pub open spec fn values_of(e: SExpV) -> Seq<Seq<u8>>
    decreases e, 1int,
{
    match e {
        SExpV::Value(b) => seq![b],
        SExpV::List(es) => values_of_seq(es),
        _ => Seq::empty(),
    }
}

/// The `Value` payloads of a run of values, in order.
pub open spec fn values_of_seq(es: Seq<SExpV>) -> Seq<Seq<u8>>
    decreases es, 2int,
{
    if es.len() == 0 {
        Seq::empty()
    } else {
        values_of(es[0]) + values_of_seq(es.drop_first())
    }
}

/// The source slices of a tree's leaves, in traversal order.
pub open spec fn leaf_texts(n: NodeV, src: Seq<u8>) -> Seq<Seq<u8>>
    decreases n, 1int,
{
    if is_leaf(n) {
        seq![leaf_text(n, src)]
    } else {
        leaf_texts_seq(n.children, src)
    }
}

/// The leaves of a forest, in order.
pub open spec fn leaf_texts_seq(cs: Seq<NodeV>, src: Seq<u8>) -> Seq<Seq<u8>>
    decreases cs, 2int,
{
    if cs.len() == 0 {
        Seq::empty()
    } else {
        leaf_texts(cs[0], src) + leaf_texts_seq(cs.drop_first(), src)
    }
}

/// Every `Field` of the run immediately precedes the `List` it labels:
/// it is never trailing and never labels another `Field` or a `Token`.
pub open spec fn run_ok(s: Seq<SExpV>) -> bool {
    forall|i: int| 0 <= i < s.len() && (#[trigger] s[i]) is Field ==> i + 1 < s.len() && s[i + 1] is List
}

/// Field placement holds inside every nested list of the value.
pub open spec fn fields_ok(e: SExpV) -> bool
    decreases e,
{
    match e {
        SExpV::List(es) => run_ok(es) && (forall|i: int|
            0 <= i < es.len() ==> fields_ok(#[trigger] es[i])),
        _ => true,
    }
}

/// `Kind` counting distributes over concatenation.
pub proof fn lemma_kind_count_seq_concat(a: Seq<SExpV>, b: Seq<SExpV>)
    ensures
        kind_count_seq(a + b) == kind_count_seq(a) + kind_count_seq(b),
    decreases a.len(),
{
    if a.len() == 0 {
        assert(a + b =~= b);
    } else {
        lemma_kind_count_seq_concat(a.drop_first(), b);
        assert((a + b)[0] == a[0]);
        assert((a + b).drop_first() =~= a.drop_first() + b);
    }
}

/// `Value` collection distributes over concatenation.
pub proof fn lemma_values_of_seq_concat(a: Seq<SExpV>, b: Seq<SExpV>)
    ensures
        values_of_seq(a + b) == values_of_seq(a) + values_of_seq(b),
    decreases a.len(),
{
    if a.len() == 0 {
        assert(a + b =~= b);
        assert(values_of_seq(a) + values_of_seq(b) =~= values_of_seq(b));
    } else {
        lemma_values_of_seq_concat(a.drop_first(), b);
        assert((a + b)[0] == a[0]);
        assert((a + b).drop_first() =~= a.drop_first() + b);
        assert(values_of(a[0]) + (values_of_seq(a.drop_first()) + values_of_seq(b)) =~= (values_of(
            a[0],
        ) + values_of_seq(a.drop_first())) + values_of_seq(b));
    }
}

/// Field placement survives concatenation of two well-placed runs.
pub proof fn lemma_run_ok_concat(a: Seq<SExpV>, b: Seq<SExpV>)
    requires
        run_ok(a),
        run_ok(b),
    ensures
        run_ok(a + b),
{
    let s = a + b;
    assert forall|i: int| 0 <= i < s.len() && (#[trigger] s[i]) is Field implies i + 1 < s.len()
        && s[i + 1] is List by {
        if i < a.len() {
            assert(s[i] == a[i]);
            assert(i + 1 < a.len());
            assert(s[i + 1] == a[i + 1]);
        } else {
            assert(s[i] == b[i - a.len()]);
            assert(s[i + 1] == b[i + 1 - a.len()]);
        }
    }
}

/// A singleton run counts and collects as its only entry does.
pub proof fn lemma_seq_singleton(e: SExpV)
    ensures
        kind_count_seq(seq![e]) == kind_count(e),
        values_of_seq(seq![e]) == values_of(e),
{
    assert(seq![e][0] == e);
    assert(seq![e].drop_first() =~= Seq::<SExpV>::empty());
    assert(kind_count_seq(Seq::<SExpV>::empty()) == 0);
    assert(values_of_seq(Seq::<SExpV>::empty()) == Seq::<Seq<u8>>::empty());
    assert(values_of(e) + values_of_seq(Seq::<SExpV>::empty()) =~= values_of(e));
}

/// The one induction behind the laws: what holds of the entries any node
/// contributes.
#[verifier::rlimit(100)]
pub proof fn lemma_entries_props(n: NodeV, src: Seq<u8>)
    ensures
        kind_count_seq(entries(n, src)) == named_count(n),
        values_of_seq(entries(n, src)) == leaf_texts(n, src),
        run_ok(entries(n, src)),
        forall|i: int|
            0 <= i < entries(n, src).len() ==> token_free(#[trigger] entries(n, src)[i])
                && fields_ok(entries(n, src)[i]),
        entries(n, src).len() >= 1,
    decreases n, 1int,
{
    lemma_body_props(n, src);
    lemma_body_no_token(n, src);
    if n.is_named {
        let region = seq![SExpV::Kind(n.kind)] + body(n, src);
        let folded = collapse(region);
        lemma_body_no_token(n, src);
        assert(region.len() >= 2);
        assert(folded == SExpV::List(region));
        lemma_kind_count_seq_concat(seq![SExpV::Kind(n.kind)], body(n, src));
        lemma_values_of_seq_concat(seq![SExpV::Kind(n.kind)], body(n, src));
        lemma_seq_singleton(SExpV::Kind(n.kind));
        assert(kind_count_seq(region) == 1 + named_count_seq(n.children));
        assert(values_of_seq(region) =~= leaf_texts(n, src));
        // The folded list itself is well-placed and token-free.
        lemma_run_ok_concat(seq![SExpV::Kind(n.kind)], body(n, src));
        assert forall|i: int| 0 <= i < region.len() implies token_free(#[trigger] region[i])
            && fields_ok(region[i]) by {
            if i >= 1 {
                assert(region[i] == body(n, src)[i - 1]);
            }
        }
        assert(token_free(folded));
        assert(fields_ok(folded));
        let es = entries(n, src);
        lemma_seq_singleton(folded);
        lemma_kind_count_seq_concat(field_part(n), seq![folded]);
        lemma_values_of_seq_concat(field_part(n), seq![folded]);
        match n.field_name {
            Some(f) => {
                assert(es =~= seq![SExpV::Field(f), folded]);
                lemma_seq_singleton(SExpV::Field(f));
                assert(field_part(n) == seq![SExpV::Field(f)]);
                assert(values_of_seq(field_part(n)) =~= Seq::<Seq<u8>>::empty());
                assert(kind_count_seq(field_part(n)) == kind_count(SExpV::Field(f))
                    + kind_count_seq(field_part(n).drop_first()));
                assert(field_part(n).drop_first() =~= Seq::<SExpV>::empty());
                assert(values_of_seq(es) =~= leaf_texts(n, src));
            },
            None => {
                assert(es =~= seq![folded]);
                assert(values_of_seq(es) =~= leaf_texts(n, src));
            },
        }
    }
}

/// Same, for a node's body.
pub proof fn lemma_body_props(n: NodeV, src: Seq<u8>)
    ensures
        kind_count_seq(body(n, src)) == named_count_seq(n.children),
        values_of_seq(body(n, src)) == leaf_texts(n, src),
        run_ok(body(n, src)),
        forall|i: int|
            0 <= i < body(n, src).len() ==> token_free(#[trigger] body(n, src)[i]) && fields_ok(
                body(n, src)[i],
            ),
    decreases n, 0int,
{
    if is_leaf(n) {
        lemma_seq_singleton(SExpV::Value(leaf_text(n, src)));
        assert(values_of_seq(body(n, src)) =~= leaf_texts(n, src));
    } else {
        lemma_cat_props(n.children, src);
    }
}

/// Same, for the concatenated entries of a forest.
pub proof fn lemma_cat_props(cs: Seq<NodeV>, src: Seq<u8>)
    ensures
        kind_count_seq(cat_entries(cs, src)) == named_count_seq(cs),
        values_of_seq(cat_entries(cs, src)) == leaf_texts_seq(cs, src),
        run_ok(cat_entries(cs, src)),
        forall|i: int|
            0 <= i < cat_entries(cs, src).len() ==> token_free(#[trigger] cat_entries(cs, src)[i])
                && fields_ok(cat_entries(cs, src)[i]),
    decreases cs, 2int,
{
    if cs.len() == 0 {
    } else {
        lemma_entries_props(cs[0], src);
        lemma_cat_props(cs.drop_first(), src);
        let e = entries(cs[0], src);
        let r = cat_entries(cs.drop_first(), src);
        lemma_kind_count_seq_concat(e, r);
        lemma_values_of_seq_concat(e, r);
        lemma_run_ok_concat(e, r);
        assert forall|i: int| 0 <= i < (e + r).len() implies token_free(#[trigger] (e + r)[i])
            && fields_ok((e + r)[i]) by {
            if i < e.len() {
                assert((e + r)[i] == e[i]);
            } else {
                assert((e + r)[i] == r[i - e.len()]);
            }
        }
    }
}

/// Law: the finished value holds exactly one `Kind` entry for each named
/// node of the tree.
pub proof fn lemma_to_sexp_kind_count(t: NodeV, src: Seq<u8>)
    ensures
        kind_count(sexp_of(t, src)) == named_count(t),
{
    lemma_entries_props(t, src);
    let es = entries(t, src);
    if es.len() == 1 {
        lemma_seq_singleton(es[0]);
        assert(es =~= seq![es[0]]);
    }
}

/// Law: a finished value never contains a `Token`, at any depth.
pub proof fn lemma_to_sexp_token_free(t: NodeV, src: Seq<u8>)
    ensures
        token_free(sexp_of(t, src)),
{
    lemma_entries_props(t, src);
}

/// Law: the `Value` payloads of the finished value are exactly the
/// source slices `src[start..end]` of the tree's leaves, byte for byte
/// and in traversal order.
pub proof fn lemma_to_sexp_values(t: NodeV, src: Seq<u8>)
    ensures
        values_of(sexp_of(t, src)) == leaf_texts(t, src),
{
    lemma_entries_props(t, src);
    let es = entries(t, src);
    if es.len() == 1 {
        lemma_seq_singleton(es[0]);
        assert(es =~= seq![es[0]]);
    }
}

/// Law: in the finished value every `Field` entry immediately precedes
/// the `List` it labels, in every nested list; and the value itself is
/// never a stray `Field`.
pub proof fn lemma_to_sexp_fields(t: NodeV, src: Seq<u8>)
    ensures
        fields_ok(sexp_of(t, src)),
        !(sexp_of(t, src) is Field),
{
    lemma_entries_props(t, src);
}

/// Law: a region of exactly one entry collapses to that entry itself;
/// no singleton `List` wrapper appears.
pub proof fn lemma_collapse_singleton(es: Seq<SExpV>)
    requires
        es.len() == 1,
    ensures
        collapse(es) == es[0],
{
}

/// Law: the singleton unwrap applies to the whole tree's final wrap too.
pub proof fn lemma_to_sexp_root_unwrap(t: NodeV, src: Seq<u8>)
    requires
        entries(t, src).len() == 1,
    ensures
        sexp_of(t, src) == entries(t, src)[0],
{
}

/// Law: the transformation is a pure function of the tree and the source
/// buffer; two runs over the same input yield the same value.
pub proof fn lemma_to_sexp_deterministic(t: NodeV, src: Seq<u8>, r1: SExpV, r2: SExpV)
    requires
        r1 == sexp_of(t, src),
        r2 == sexp_of(t, src),
    ensures
        r1 == r2,
{
}

} // verus!
