use crate::command::{CmdModel, ErrModel};
use crate::eval::{equal_model, eval_all, eval_spec, filter_select, range_select, split_filter};
use crate::literal::json_literal_of;
use crate::value::{keys_unique, map_get, map_put, map_remove, ValModel};
use vstd::prelude::*;

verus! {

broadcast use vstd::seq::group_seq_axioms;

/// Identity law: with no commands at all, evaluating any document yields
/// exactly that document, as the one result.
pub proof fn lemma_eval_identity(v: ValModel)
    ensures
        eval_spec(v, Seq::empty()) == Ok::<Seq<ValModel>, ErrModel>(seq![v]),
{
}

/// Negative-bound normalization law: a negative range start counts from
/// the end, so against a sequence it selects the same elements as the
/// equivalent non-negative start `len + n`, whatever commands follow.
pub proof fn lemma_range_negative_start(
    items: Seq<ValModel>,
    n: int,
    e: Option<int>,
    rest: Seq<CmdModel>,
)
    requires
        -items.len() <= n < 0,
    ensures
        eval_spec(ValModel::Sequence(items), seq![CmdModel::Range(Some(n), e)] + rest)
            == eval_spec(
            ValModel::Sequence(items),
            seq![CmdModel::Range(Some(items.len() + n), e)] + rest,
        ),
{
    let c1 = seq![CmdModel::Range(Some(n), e)] + rest;
    let c2 = seq![CmdModel::Range(Some(items.len() + n), e)] + rest;
    assert(c1[0] == CmdModel::Range(Some(n), e));
    assert(c2[0] == CmdModel::Range(Some(items.len() + n), e));
    assert(c1.drop_first() =~= rest);
    assert(c2.drop_first() =~= rest);
    assert(range_select(items, Some(n), e) == range_select(items, Some(items.len() + n), e));
}

/// The first occurrence of a present key.
proof fn first_index_of(em: Seq<(Seq<char>, ValModel)>, k: Seq<char>) -> (i: int)
    requires
        map_get(em, k) is Some,
    ensures
        0 <= i < em.len(),
        em[i].0 == k,
        forall|j: int| 0 <= j < i ==> em[j].0 != k,
        map_get(em, k) == Some(em[i].1),
    decreases em.len(),
{
    if em[0].0 == k {
        0
    } else {
        let j = first_index_of(em.drop_first(), k);
        assert(em[j + 1] == em.drop_first()[j]);
        assert(forall|t: int| 0 <= t < j + 1 ==> em[t].0 != k) by {
            assert(forall|t: int| 1 <= t < j + 1 ==> em[t].0 == em.drop_first()[t - 1].0);
        }
        j + 1
    }
}

/// Appending a fresh entry leaves every other key's entry alone.
proof fn lemma_map_get_push_other(
    em: Seq<(Seq<char>, ValModel)>,
    k: Seq<char>,
    v: ValModel,
    k2: Seq<char>,
)
    requires
        k2 != k,
    ensures
        map_get(em.push((k, v)), k2) == map_get(em, k2),
    decreases em.len(),
{
    if em.len() == 0 {
        assert(em.push((k, v)) =~= seq![(k, v)]);
        assert(seq![(k, v)].drop_first() =~= Seq::<(Seq<char>, ValModel)>::empty());
    } else {
        assert(em.push((k, v)).drop_first() =~= em.drop_first().push((k, v)));
        lemma_map_get_push_other(em.drop_first(), k, v, k2);
    }
}

/// Removing one key leaves every other key's entry alone.
proof fn lemma_map_get_remove_other(em: Seq<(Seq<char>, ValModel)>, k: Seq<char>, k2: Seq<char>)
    requires
        k2 != k,
    ensures
        map_get(map_remove(em, k), k2) == map_get(em, k2),
    decreases em.len(),
{
    if em.len() > 0 {
        if em[0].0 == k {
            lemma_map_get_remove_other(em.drop_first(), k, k2);
        } else {
            lemma_map_get_remove_other(em.drop_first(), k, k2);
            let rest = map_remove(em.drop_first(), k);
            assert((seq![em[0]] + rest)[0] == em[0]);
            assert((seq![em[0]] + rest).drop_first() =~= rest);
        }
    }
}

/// Filter and put round-trip law: a mapping that satisfies the filter
/// `k = lit` passes a sequence filter with its `k` entry removed; putting
/// `k = lit` back then reconstructs an equivalent mapping — the entry for
/// `k` holds the literal's value again, every other entry is exactly as
/// it was, keys stay unique, and, whenever the parsed literal itself
/// matches the literal text, the rebuilt mapping satisfies the very same
/// filter.
pub proof fn lemma_filter_put_round_trip(
    em: Seq<(Seq<char>, ValModel)>,
    k: Seq<char>,
    lit: Seq<char>,
    f: Seq<char>,
)
    requires
        keys_unique(em),
        map_get(em, k) matches Some(w) && equal_model(w, lit),
        split_filter(f) == Some((k, lit)),
    ensures
        ({
            let m2 = map_put(map_remove(em, k), k, json_literal_of(lit));
            &&& eval_spec(
                ValModel::Sequence(seq![ValModel::Mapping(em)]),
                seq![CmdModel::Filter(f), CmdModel::Put(k, lit)],
            ) == Ok::<Seq<ValModel>, ErrModel>(seq![ValModel::Mapping(m2)])
            &&& map_get(m2, k) == Some(json_literal_of(lit))
            &&& forall|k2: Seq<char>|
                k2 != k ==> #[trigger] map_get(m2, k2) == map_get(em, k2)
            &&& keys_unique(m2)
            &&& equal_model(json_literal_of(lit), lit) ==> eval_spec(
                ValModel::Mapping(m2),
                seq![CmdModel::Filter(f)],
            ) == Ok::<Seq<ValModel>, ErrModel>(seq![ValModel::Mapping(m2)])
        }),
{
    let i = first_index_of(em, k);
    let lv = json_literal_of(lit);
    crate::value::lemma_map_ops_at(em, k, ValModel::Null, i);
    let rem = map_remove(em, k);
    assert(rem =~= em.subrange(0, i) + em.subrange(i + 1, em.len() as int));
    assert forall|j: int| 0 <= j < rem.len() implies #[trigger] rem[j].0 != k by {
        if j < i {
            assert(rem[j] == em[j]);
            assert(em[j].0 != k);
        } else {
            assert(rem[j] == em[j + 1]);
            assert(em[i].0 != em[j + 1].0);
        }
    }
    crate::value::lemma_map_ops_absent(rem, k, lv);
    let m2 = map_put(rem, k, lv);
    assert(m2 == rem.push((k, lv)));
    // the entry for k holds the literal again
    assert(m2[rem.len() as int].0 == k);
    crate::value::lemma_map_ops_at(m2, k, ValModel::Null, rem.len() as int);
    // every other entry is exactly as it was
    assert(forall|k2: Seq<char>| k2 != k ==> #[trigger] map_get(m2, k2) == map_get(em, k2)) by {
        assert forall|k2: Seq<char>| k2 != k implies #[trigger] map_get(m2, k2) == map_get(
            em,
            k2,
        ) by {
            lemma_map_get_push_other(rem, k, lv, k2);
            lemma_map_get_remove_other(em, k, k2);
        }
    }
    // keys stay unique
    assert(keys_unique(m2)) by {
        assert(forall|j: int| 0 <= j < rem.len() ==> rem[j].0 != k);
        assert(forall|a: int, b: int|
            0 <= a < b < rem.len() ==> rem[a].0 != rem[b].0) by {
            assert(forall|j: int| 0 <= j < i ==> rem[j] == em[j]);
            assert(forall|j: int| i <= j < rem.len() ==> rem[j] == em[j + 1]);
        }
    }
    // the evaluation itself
    let m = ValModel::Mapping(em);
    let cmds = seq![CmdModel::Filter(f), CmdModel::Put(k, lit)];
    let rest1 = cmds.drop_first();
    assert(cmds[0] == CmdModel::Filter(f));
    assert(rest1 =~= seq![CmdModel::Put(k, lit)]);
    let sel = filter_select(seq![m], k, lit);
    assert(seq![m].drop_first() =~= Seq::<ValModel>::empty());
    assert(filter_select(Seq::<ValModel>::empty(), k, lit) =~= Seq::<ValModel>::empty());
    assert(sel =~= seq![ValModel::Mapping(rem)]);
    assert(sel.drop_first() =~= Seq::<ValModel>::empty());
    let rest2 = rest1.drop_first();
    assert(rest2 =~= Seq::<CmdModel>::empty());
    let p1 = seq![CmdModel::Put(k, lit)];
    assert(p1[0] == CmdModel::Put(k, lit));
    assert(p1.drop_first() =~= Seq::<CmdModel>::empty());
    assert(eval_spec(ValModel::Mapping(m2), Seq::<CmdModel>::empty())
        == Ok::<Seq<ValModel>, ErrModel>(seq![ValModel::Mapping(m2)]));
    assert(eval_spec(ValModel::Mapping(rem), p1) == Ok::<Seq<ValModel>, ErrModel>(
        seq![ValModel::Mapping(m2)],
    ));
    assert(eval_spec(ValModel::Mapping(rem), rest1) == Ok::<Seq<ValModel>, ErrModel>(
        seq![ValModel::Mapping(m2)],
    ));
    assert(sel[0] == ValModel::Mapping(rem));
    assert(eval_all(Seq::<ValModel>::empty(), rest1) == Ok::<Seq<ValModel>, ErrModel>(
        Seq::<ValModel>::empty(),
    ));
    assert(eval_all(sel, rest1) == Ok::<Seq<ValModel>, ErrModel>(
        seq![ValModel::Mapping(m2)] + Seq::<ValModel>::empty(),
    ));
    assert(seq![ValModel::Mapping(m2)] + Seq::<ValModel>::empty() =~= seq![
        ValModel::Mapping(m2),
    ]);
    // and the rebuilt mapping satisfies the same filter again
    if equal_model(lv, lit) {
        let cf = seq![CmdModel::Filter(f)];
        assert(cf[0] == CmdModel::Filter(f));
        assert(cf.drop_first() =~= Seq::<CmdModel>::empty());
    }
}

} // verus!
