use crate::command::{pairs_model, PrintCommand, PrintModel};
use crate::value::{
    dup, entries_model, entry_index, lemma_entries_model, lemma_map_ops_absent, lemma_map_ops_at,
    map_get, Val, ValModel,
};
use vstd::prelude::*;

verus! {

broadcast use vstd::seq::group_seq_axioms, vstd::std_specs::vec::group_vec_axioms;

/// A value the renderer cannot take: `keys` and `csv` want a mapping,
/// `len` wants something with a count.
#[derive(Debug, Clone, Copy, PartialEq, Eq, Structural)]
pub enum PrintError {
    NotAMapping,
    NotCountable,
}

/// What a print command looks like once its header row has been written.
pub open spec fn headers_off(p: PrintModel) -> PrintModel {
    match p {
        PrintModel::Csv(pairs, _) => PrintModel::Csv(pairs, false),
        _ => p,
    }
}

/// The record that header inference reads: the value reached by
/// descending into the first element of every sequence.
pub open spec fn first_chain(v: ValModel) -> Option<ValModel>
    decreases v,
{
    match v {
        ValModel::Sequence(items) => if items.len() == 0 {
            None
        } else {
            first_chain(items[0])
        },
        _ => Some(v),
    }
}

/// What a print command looks like after header inference against one
/// first result: empty `csv` columns fill with the record's own keys,
/// each key its own header; anything else stays put.
pub open spec fn headers_added(p: PrintModel, v: ValModel) -> PrintModel {
    match p {
        PrintModel::Csv(pairs, owed) => if pairs.len() == 0 {
            match first_chain(v) {
                Some(ValModel::Mapping(em)) => PrintModel::Csv(
                    em.map_values(|e: (Seq<char>, ValModel)| (e.0, e.0)),
                    owed,
                ),
                _ => p,
            }
        } else {
            p
        },
        _ => p,
    }
}

impl PrintCommand {
    /// Marks the header row as written: only a `csv` command carries
    /// that state, everything else is left alone.
    pub fn turn_off_headers(&mut self)
        ensures
            final (self)@ == headers_off(old(self)@),
    {
        match self {
            PrintCommand::Csv(_, print_headers) => {
                *print_headers = false;
            },
            _ => {},
        }
    }

    /// Infers `csv` columns from the first emitted result: when no
    /// column selectors were given, the keys of the first record (found
    /// by descending into first elements of sequences) become the
    /// columns, each key serving as its own header.
    pub fn add_headers(&mut self, value: &Val)
        requires
            first_chain(value@) is Some,
        ensures
            final (self)@ == headers_added(old(self)@, value@),
    {
        let is_empty_csv = match &*self {
            PrintCommand::Csv(pairs, _) => pairs.len() == 0,
            _ => false,
        };
        if !is_empty_csv {
            proof {
                assert(headers_added(old(self)@, value@) == old(self)@);
            }
            return ;
        }
        let mut cur: &Val = value;
        loop
            invariant
                first_chain(cur@) == first_chain(value@),
                first_chain(cur@) is Some,
            ensures
                first_chain(cur@) == first_chain(value@),
                !(cur@ is Sequence),
            decreases cur,
        {
            match cur {
                Val::Sequence(items) => {
                    proof {
                        assert(cur@ matches ValModel::Sequence(m) && m.len() == items@.len()
                            && (items@.len() > 0 ==> m[0] == items@[0]@));
                    }
                    cur = &items[0];
                },
                _ => {
                    proof {
                        assert(!(cur@ is Sequence));
                    }
                    break ;
                },
            }
        }
        match cur {
            Val::Mapping(entries) => {
                let ghost em = cur@->Mapping_0;
                proof {
                    lemma_entries_model(entries@);
                    assert(cur@ == ValModel::Mapping(entries_model(entries@)));
                    assert(forall|t: int|
                        0 <= t < entries@.len() ==> em[t] == (entries@[t].0@, entries@[t].1@));
                }
                match self {
                    PrintCommand::Csv(pairs, _) => {
                        let mut i: usize = 0;
                        while i < entries.len()
                            invariant
                                0 <= i <= entries@.len(),
                                pairs@.len() == i,
                                forall|t: int|
                                    0 <= t < i ==> pairs@[t].0@ == entries@[t].0@
                                        && pairs@[t].1@ == entries@[t].0@,
                            decreases entries@.len() - i,
                        {
                            let k1 = entries[i].0.clone();
                            let k2 = entries[i].0.clone();
                            pairs.push((k1, k2));
                            i += 1;
                        }
                        proof {
                            assert(pairs_model(pairs@) =~= em.map_values(
                                |e: (Seq<char>, ValModel)| (e.0, e.0),
                            ));
                        }
                    },
                    _ => {
                        proof {
                            assert(false);
                        }
                    },
                }
            },
            _ => {
                proof {
                    assert(headers_added(old(self)@, value@) == old(self)@);
                }
            },
        }
    }
}

/// The keys of a mapping, in insertion order: what the `keys` print mode
/// writes, one per line.
pub fn keys_of(v: &Val) -> (r: Result<Vec<String>, PrintError>)
    ensures
        match r {
            Ok(ks) => v@ matches ValModel::Mapping(em) && ks@.map_values(|k: String| k@)
                == em.map_values(|e: (Seq<char>, ValModel)| e.0),
            Err(e) => !(v@ is Mapping) && e == PrintError::NotAMapping,
        },
{
    match v {
        Val::Mapping(entries) => {
            proof {
                lemma_entries_model(entries@);
            }
            let mut ks: Vec<String> = Vec::new();
            let mut i: usize = 0;
            while i < entries.len()
                invariant
                    0 <= i <= entries@.len(),
                    ks@.len() == i,
                    forall|t: int| 0 <= t < i ==> ks@[t]@ == entries@[t].0@,
                decreases entries@.len() - i,
            {
                ks.push(entries[i].0.clone());
                i += 1;
            }
            proof {
                assert(ks@.map_values(|k: String| k@) =~= v@->Mapping_0.map_values(
                    |e: (Seq<char>, ValModel)| e.0,
                ));
            }
            Ok(ks)
        },
        _ => Err(PrintError::NotAMapping),
    }
}

/// The count that the `len` print mode writes: a sequence's element
/// count or a mapping's entry count.
pub fn len_of(v: &Val) -> (r: Result<usize, PrintError>)
    ensures
        match r {
            Ok(n) => match v@ {
                ValModel::Sequence(items) => n == items.len(),
                ValModel::Mapping(em) => n == em.len(),
                _ => false,
            },
            Err(e) => !(v@ is Sequence) && !(v@ is Mapping) && e == PrintError::NotCountable,
        },
{
    match v {
        Val::Sequence(items) => Ok(items.len()),
        Val::Mapping(entries) => {
            proof {
                lemma_entries_model(entries@);
            }
            Ok(entries.len())
        },
        _ => Err(PrintError::NotCountable),
    }
}

/// The cell a column selector reads from a record: the entry for the
/// source key, or null where the record lacks it.
pub open spec fn cell_model(em: Seq<(Seq<char>, ValModel)>, key: Seq<char>) -> ValModel {
    match map_get(em, key) {
        Some(w) => w,
        None => ValModel::Null,
    }
}

/// One data row realizes a record against a column selector list: one
/// cell per column, each the record's entry for the column's source key.
pub open spec fn row_models(
    row: Seq<Val>,
    em: Seq<(Seq<char>, ValModel)>,
    pairs: Seq<(String, String)>,
) -> bool {
    row.len() == pairs.len() && forall|t: int|
        0 <= t < pairs.len() ==> (#[trigger] row[t])@ == cell_model(em, pairs[t].0@)
}

/// One `csv` data row: for each selected column, the record's entry for
/// the column's source key, or null where the record lacks it.
#[verifier::loop_isolation(false)]
pub fn csv_row(v: &Val, pairs: &Vec<(String, String)>) -> (r: Result<Vec<Val>, PrintError>)
    ensures
        match r {
            Ok(row) => v@ matches ValModel::Mapping(em) && row_models(row@, em, pairs@),
            Err(e) => !(v@ is Mapping) && e == PrintError::NotAMapping,
        },
{
    match v {
        Val::Mapping(entries) => {
            let ghost em = v@->Mapping_0;
            proof {
                lemma_entries_model(entries@);
                assert(v@ == ValModel::Mapping(entries_model(entries@)));
                assert(forall|t: int|
                    0 <= t < entries@.len() ==> em[t] == (entries@[t].0@, entries@[t].1@));
            }
            let mut row: Vec<Val> = Vec::new();
            let mut i: usize = 0;
            while i < pairs.len()
                invariant
                    0 <= i <= pairs@.len(),
                    row@.len() == i,
                    forall|t: int|
                        0 <= t < i ==> row@[t]@ == (match map_get(em, pairs@[t].0@) {
                            Some(w) => w,
                            None => ValModel::Null,
                        }),
                decreases pairs@.len() - i,
            {
                let cell = match entry_index(entries, pairs[i].0.as_str()) {
                    Some(idx) => {
                        proof {
                            lemma_map_ops_at(em, pairs@[i as int].0@, ValModel::Null, idx as int);
                        }
                        dup(&entries[idx].1)
                    },
                    None => {
                        proof {
                            lemma_map_ops_absent(em, pairs@[i as int].0@, ValModel::Null);
                        }
                        Val::Null
                    },
                };
                row.push(cell);
                i += 1;
            }
            Ok(row)
        },
        _ => Err(PrintError::NotAMapping),
    }
}

/// All the `csv` data rows of one emitted value: one row for a record,
/// and one row per element for a sequence of records; the value itself,
/// or any element of the sequence, that is not a record is refused.
#[verifier::loop_isolation(false)]
pub fn csv_rows(v: &Val, pairs: &Vec<(String, String)>) -> (r: Result<Vec<Vec<Val>>, PrintError>)
    ensures
        match r {
            Ok(rows) => match v@ {
                ValModel::Sequence(items) => rows@.len() == items.len() && (forall|i: int|
                    0 <= i < items.len() ==> ((#[trigger] items[i]) matches ValModel::Mapping(em)
                        && row_models(rows@[i]@, em, pairs@))),
                ValModel::Mapping(em) => rows@.len() == 1 && row_models(rows@[0]@, em, pairs@),
                _ => false,
            },
            Err(e) => e == PrintError::NotAMapping && (match v@ {
                ValModel::Sequence(items) => exists|i: int|
                    0 <= i < items.len() && !((#[trigger] items[i]) is Mapping),
                ValModel::Mapping(_) => false,
                _ => true,
            }),
        },
{
    match v {
        Val::Sequence(items) => {
            let ghost sm = v@->Sequence_0;
            proof {
                assert(forall|t: int| 0 <= t < items@.len() ==> sm[t] == items@[t]@);
            }
            let mut rows: Vec<Vec<Val>> = Vec::new();
            let mut i: usize = 0;
            while i < items.len()
                invariant
                    0 <= i <= items@.len(),
                    rows@.len() == i,
                    forall|t: int|
                        0 <= t < i ==> ((#[trigger] sm[t]) matches ValModel::Mapping(em)
                            && row_models(rows@[t]@, em, pairs@)),
                decreases items@.len() - i,
            {
                match csv_row(&items[i], pairs) {
                    Ok(row) => {
                        rows.push(row);
                    },
                    Err(e) => {
                        proof {
                            assert(!(sm[i as int] is Mapping));
                        }
                        return Err(e);
                    },
                }
                i += 1;
            }
            Ok(rows)
        },
        Val::Mapping(_) => match csv_row(v, pairs) {
            Ok(row) => {
                let mut rows: Vec<Vec<Val>> = Vec::new();
                rows.push(row);
                Ok(rows)
            },
            Err(e) => {
                proof {
                    assert(false);
                }
                Err(e)
            },
        },
        _ => Err(PrintError::NotAMapping),
    }
}

/// The display headers of a column selector list: what the `csv` header
/// row holds.
pub fn csv_header(pairs: &Vec<(String, String)>) -> (r: Vec<String>)
    ensures
        r@.map_values(|k: String| k@) == pairs_model(pairs@).map_values(
            |p: (Seq<char>, Seq<char>)| p.1,
        ),
{
    let mut hs: Vec<String> = Vec::new();
    let mut i: usize = 0;
    while i < pairs.len()
        invariant
            0 <= i <= pairs@.len(),
            hs@.len() == i,
            forall|t: int| 0 <= t < i ==> hs@[t]@ == pairs@[t].1@,
        decreases pairs@.len() - i,
    {
        hs.push(pairs[i].1.clone());
        i += 1;
    }
    proof {
        assert(hs@.map_values(|k: String| k@) =~= pairs_model(pairs@).map_values(
            |p: (Seq<char>, Seq<char>)| p.1,
        ));
    }
    hs
}

/// The per-document collapsing rule of the compact JSON mode: a document
/// that fanned out into more than one result has them all collected into
/// one sequence value; zero results or a single one pass through as they
/// are.
pub fn collapse_for_json(results: Vec<Val>) -> (r: Vec<Val>)
    ensures
        results@.len() > 1 ==> r@.len() == 1 && r@[0]@ == ValModel::Sequence(
            results@.map_values(|v: Val| v@),
        ),
        results@.len() <= 1 ==> r@ == results@,
{
    if results.len() > 1 {
        let ghost rm = results@;
        let collapsed = Val::Sequence(results);
        proof {
            assert(collapsed@ matches ValModel::Sequence(m) && m =~= rm.map_values(
                |v: Val| v@,
            ));
        }
        let mut out: Vec<Val> = Vec::new();
        out.push(collapsed);
        out
    } else {
        results
    }
}

} // verus!
