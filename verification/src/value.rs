use crate::text::str_eq;
use vstd::prelude::*;

verus! {

broadcast use vstd::seq::group_seq_axioms, vstd::std_specs::vec::group_vec_axioms;

/// A structured document value: the data model every query step operates on.
///
/// Numbers are carried as their canonical decimal text, which is the form
/// the filter equality rule compares against. Mappings keep their entries in
/// insertion order and are expected to hold each key at most once.
#[derive(Debug, PartialEq)]
pub enum Val {
    Null,
    Bool(bool),
    Number(String),
    Text(String),
    Sequence(Vec<Val>),
    Mapping(Vec<(String, Val)>),
}

/// The mathematical model of a [`Val`]: the same tree with every string
/// read as a sequence of characters.
#[verifier::ext_equal]
pub enum ValModel {
    Null,
    Bool(bool),
    Number(Seq<char>),
    Text(Seq<char>),
    Sequence(Seq<ValModel>),
    Mapping(Seq<(Seq<char>, ValModel)>),
}

impl View for Val {
    type V = ValModel;

    open spec fn view(&self) -> ValModel
        decreases self,
    {
        match self {
            Val::Null => ValModel::Null,
            Val::Bool(b) => ValModel::Bool(*b),
            Val::Number(s) => ValModel::Number(s@),
            Val::Text(s) => ValModel::Text(s@),
            Val::Sequence(items) => ValModel::Sequence(
                Seq::new(
                    items@.len(),
                    |i: int|
                        if 0 <= i < items@.len() {
                            items@[i]@
                        } else {
                            ValModel::Null
                        },
                ),
            ),
            Val::Mapping(entries) => ValModel::Mapping(entries_model(entries@)),
        }
    }
}

/// The models of a sequence of values.
pub open spec fn vals_model(s: Seq<Val>) -> Seq<ValModel> {
    s.map_values(|v: Val| v@)
}

/// The models of a mapping's entry list.
pub open spec fn entries_model(s: Seq<(String, Val)>) -> Seq<(Seq<char>, ValModel)>
    decreases s,
{
    if s.len() == 0 {
        Seq::empty()
    } else {
        seq![(s[0].0@, s[0].1@)] + entries_model(s.drop_first())
    }
}

/// The model of an entry list, read off entry by entry.
pub proof fn lemma_entries_model(s: Seq<(String, Val)>)
    ensures
        entries_model(s).len() == s.len(),
        forall|t: int| 0 <= t < s.len() ==> entries_model(s)[t] == (s[t].0@, s[t].1@),
    decreases s.len(),
{
    if s.len() > 0 {
        lemma_entries_model(s.drop_first());
        assert(entries_model(s) == seq![(s[0].0@, s[0].1@)] + entries_model(s.drop_first()));
        assert(entries_model(s).len() == s.len());
        assert forall|t: int| 0 <= t < s.len() implies entries_model(s)[t] == (
            s[t].0@,
            s[t].1@,
        ) by {
            if t > 0 {
                assert(entries_model(s)[t] == entries_model(s.drop_first())[t - 1]);
                assert(s.drop_first()[t - 1] == s[t]);
            }
        }
    }
}

/// The kind of a value: what an operation's precondition on the current
/// value speaks about, and what an error report names.
#[derive(Debug, Clone, Copy, PartialEq, Eq, Structural)]
pub enum Kind {
    Null,
    Bool,
    Number,
    Text,
    Sequence,
    Mapping,
}

pub open spec fn kind_of(v: ValModel) -> Kind {
    match v {
        ValModel::Null => Kind::Null,
        ValModel::Bool(_) => Kind::Bool,
        ValModel::Number(_) => Kind::Number,
        ValModel::Text(_) => Kind::Text,
        ValModel::Sequence(_) => Kind::Sequence,
        ValModel::Mapping(_) => Kind::Mapping,
    }
}

impl Val {
    pub fn kind(&self) -> (k: Kind)
        ensures
            k == kind_of(self@),
    {
        match self {
            Val::Null => Kind::Null,
            Val::Bool(_) => Kind::Bool,
            Val::Number(_) => Kind::Number,
            Val::Text(_) => Kind::Text,
            Val::Sequence(_) => Kind::Sequence,
            Val::Mapping(_) => Kind::Mapping,
        }
    }
}

/// The entry for `k` in an entry list: the value at the first occurrence
/// of the key, if any.
pub open spec fn map_get(em: Seq<(Seq<char>, ValModel)>, k: Seq<char>) -> Option<ValModel>
    decreases em.len(),
{
    if em.len() == 0 {
        None
    } else if em[0].0 == k {
        Some(em[0].1)
    } else {
        map_get(em.drop_first(), k)
    }
}

/// The entry list with the first occurrence of `k` removed.
pub open spec fn map_remove(em: Seq<(Seq<char>, ValModel)>, k: Seq<char>) -> Seq<
    (Seq<char>, ValModel),
>
    decreases em.len(),
{
    if em.len() == 0 {
        em
    } else if em[0].0 == k {
        em.drop_first()
    } else {
        seq![em[0]] + map_remove(em.drop_first(), k)
    }
}

/// The entry list with `k` bound to `v`: the first occurrence of `k`
/// overwritten in place, or a new entry appended at the end.
pub open spec fn map_put(em: Seq<(Seq<char>, ValModel)>, k: Seq<char>, v: ValModel) -> Seq<
    (Seq<char>, ValModel),
>
    decreases em.len(),
{
    if em.len() == 0 {
        seq![(k, v)]
    } else if em[0].0 == k {
        seq![(k, v)] + em.drop_first()
    } else {
        seq![em[0]] + map_put(em.drop_first(), k, v)
    }
}

/// Each key occurs at most once.
pub open spec fn keys_unique(em: Seq<(Seq<char>, ValModel)>) -> bool {
    forall|i: int, j: int| 0 <= i < j < em.len() ==> em[i].0 != em[j].0
}

/// A well-formed value: every mapping anywhere in the tree has unique keys.
pub open spec fn wf(v: ValModel) -> bool
    decreases v,
{
    match v {
        ValModel::Sequence(items) => forall|i: int|
            0 <= i < items.len() ==> wf(#[trigger] items[i]),
        ValModel::Mapping(em) => keys_unique(em) && forall|i: int|
            0 <= i < em.len() ==> wf(#[trigger] em[i].1),
        _ => true,
    }
}

/// Index of the first entry whose key is `k`, if any.
pub fn entry_index(entries: &Vec<(String, Val)>, k: &str) -> (r: Option<usize>)
    ensures
        match r {
            Some(i) => i < entries@.len() && entries@[i as int].0@ == k@ && (forall|j: int|
                0 <= j < i ==> entries@[j].0@ != k@),
            None => forall|j: int| 0 <= j < entries@.len() ==> entries@[j].0@ != k@,
        },
{
    let mut i: usize = 0;
    while i < entries.len()
        invariant
            0 <= i <= entries@.len(),
            forall|j: int| 0 <= j < i ==> entries@[j].0@ != k@,
        decreases entries@.len() - i,
    {
        if str_eq(entries[i].0.as_str(), k) {
            return Some(i);
        }
        i += 1;
    }
    None
}

/// Where the first occurrence of `k` sits at index `i`, the association
/// list operations read off the entry list directly.
pub proof fn lemma_map_ops_at(em: Seq<(Seq<char>, ValModel)>, k: Seq<char>, v: ValModel, i: int)
    requires
        0 <= i < em.len(),
        em[i].0 == k,
        forall|j: int| 0 <= j < i ==> em[j].0 != k,
    ensures
        map_get(em, k) == Some(em[i].1),
        map_remove(em, k) == em.subrange(0, i) + em.subrange(i + 1, em.len() as int),
        map_put(em, k, v) == em.update(i, (k, v)),
    decreases em.len(),
{
    if i == 0 {
        assert(map_remove(em, k) =~= em.subrange(0, 0) + em.subrange(1, em.len() as int));
        assert(map_put(em, k, v) =~= em.update(0, (k, v)));
    } else {
        assert(em[0].0 != k);
        let em2 = em.drop_first();
        assert(forall|j: int| 0 <= j < i - 1 ==> em2[j].0 == em[j + 1].0 && em[j + 1].0 != k);
        lemma_map_ops_at(em2, k, v, i - 1);
        assert(map_remove(em, k) =~= em.subrange(0, i) + em.subrange(i + 1, em.len() as int));
        assert(map_put(em, k, v) =~= em.update(i, (k, v)));
    }
}

/// Where `k` never occurs, the association list operations leave the
/// entry list alone, or append.
pub proof fn lemma_map_ops_absent(em: Seq<(Seq<char>, ValModel)>, k: Seq<char>, v: ValModel)
    requires
        forall|j: int| 0 <= j < em.len() ==> em[j].0 != k,
    ensures
        map_get(em, k) == None::<ValModel>,
        map_remove(em, k) == em,
        map_put(em, k, v) == em.push((k, v)),
    decreases em.len(),
{
    if em.len() > 0 {
        let em2 = em.drop_first();
        lemma_map_ops_absent(em2, k, v);
        assert(map_remove(em, k) =~= em);
        assert(map_put(em, k, v) =~= em.push((k, v)));
    } else {
        assert(map_remove(em, k) =~= em);
        assert(map_put(em, k, v) =~= em.push((k, v)));
    }
}

/// A deep copy of an entry list.
pub fn dup_entries(entries: &Vec<(String, Val)>) -> (r: Vec<(String, Val)>)
    ensures
        r@.len() == entries@.len(),
        forall|j: int|
            0 <= j < entries@.len() ==> r@[j].0@ == entries@[j].0@ && r@[j].1@ == entries@[j].1@,
{
    let mut out: Vec<(String, Val)> = Vec::new();
    let mut i: usize = 0;
    while i < entries.len()
        invariant
            0 <= i <= entries@.len(),
            out@.len() == i,
            forall|j: int|
                0 <= j < i ==> out@[j].0@ == entries@[j].0@ && out@[j].1@ == entries@[j].1@,
        decreases entries@.len() - i,
    {
        let key = entries[i].0.clone();
        let e = dup(&entries[i].1);
        out.push((key, e));
        i += 1;
    }
    out
}

/// A deep copy of a value.
#[verifier::loop_isolation(false)]
pub fn dup(v: &Val) -> (r: Val)
    ensures
        r@ == v@,
    decreases v,
{
    match v {
        Val::Null => Val::Null,
        Val::Bool(b) => Val::Bool(*b),
        Val::Number(s) => Val::Number(s.clone()),
        Val::Text(s) => Val::Text(s.clone()),
        Val::Sequence(items) => {
            let mut out: Vec<Val> = Vec::new();
            let mut i: usize = 0;
            while i < items.len()
                invariant
                    0 <= i <= items@.len(),
                    out@.len() == i,
                    forall|j: int| 0 <= j < i ==> out@[j]@ == items@[j]@,
                decreases items@.len() - i,
            {
                let e = dup(&items[i]);
                out.push(e);
                i += 1;
            }
            let r = Val::Sequence(out);
            proof {
                assert(r@ matches ValModel::Sequence(m) && v@ matches ValModel::Sequence(m2)
                    && m =~= m2);
                assert(r@ == v@);
            }
            r
        },
        Val::Mapping(entries) => {
            let mut out: Vec<(String, Val)> = Vec::new();
            let mut i: usize = 0;
            while i < entries.len()
                invariant
                    0 <= i <= entries@.len(),
                    out@.len() == i,
                    forall|j: int|
                        0 <= j < i ==> out@[j].0@ == entries@[j].0@ && out@[j].1@
                            == entries@[j].1@,
                decreases entries@.len() - i,
            {
                let key = entries[i].0.clone();
                let e = dup(&entries[i].1);
                out.push((key, e));
                i += 1;
            }
            let r = Val::Mapping(out);
            proof {
                lemma_entries_model(out@);
                lemma_entries_model(entries@);
                assert(r@ matches ValModel::Mapping(m) && v@ matches ValModel::Mapping(m2) && m
                    =~= m2);
                assert(r@ == v@);
            }
            r
        },
    }
}

} // verus!
