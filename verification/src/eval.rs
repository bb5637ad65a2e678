use crate::command::{cmds_model, opt_int, CmdModel, ErrModel, EvalError, OpTag, StreamCommand};
use crate::literal::{json_literal_of, parse_json};
use crate::text::{find_char, find_char_exec, str_eq};
use crate::value::{
    dup, dup_entries, entries_model, entry_index, kind_of, lemma_entries_model,
    lemma_map_ops_absent, lemma_map_ops_at, map_get, map_put, map_remove, vals_model, Val,
    ValModel,
};
use vstd::prelude::*;
use vstd::slice::{slice_index_get, slice_subrange};

verus! {

broadcast use vstd::seq::group_seq_axioms, vstd::std_specs::vec::group_vec_axioms;

/// The equality rule a filter applies between a value and the literal
/// text of its expression: strings compare by exact text, numbers by
/// their canonical decimal text, booleans against `true` and `false`,
/// null only against `null`; sequences and mappings never match.
pub open spec fn equal_model(v: ValModel, lit: Seq<char>) -> bool {
    match v {
        ValModel::Text(s) => s == lit,
        ValModel::Number(n) => n == lit,
        ValModel::Bool(b) => if b {
            lit == "true"@
        } else {
            lit == "false"@
        },
        ValModel::Null => lit == "null"@,
        ValModel::Sequence(_) => false,
        ValModel::Mapping(_) => false,
    }
}

/// A filter expression split at its first `=` into key and literal.
pub open spec fn split_filter(f: Seq<char>) -> Option<(Seq<char>, Seq<char>)> {
    let i = find_char(f, '=', 0);
    if i == f.len() {
        None
    } else {
        Some((f.subrange(0, i), f.subrange(i + 1, f.len() as int)))
    }
}

/// A range bound against a sequence of length `len`: non-negative bounds
/// count from the front, negative ones from the end.
pub open spec fn norm_bound(n: int, len: int) -> int {
    if n >= 0 {
        n
    } else {
        len + n
    }
}

pub open spec fn clamp_bound(x: int, len: int) -> int {
    if x < 0 {
        0
    } else if x > len {
        len
    } else {
        x
    }
}

/// The contiguous sub-sequence a range selects: bounds normalized, a
/// missing start meaning the front and a missing end the back, then cut
/// to the sequence; a crossed range selects nothing.
pub open spec fn range_select(items: Seq<ValModel>, s: Option<int>, e: Option<int>) -> Seq<
    ValModel,
> {
    let len = items.len() as int;
    let lo = clamp_bound(
        match s {
            Some(n) => norm_bound(n, len),
            None => 0,
        },
        len,
    );
    let hi = clamp_bound(
        match e {
            Some(n) => norm_bound(n, len),
            None => len,
        },
        len,
    );
    if lo < hi {
        items.subrange(lo, hi)
    } else {
        Seq::empty()
    }
}

/// The elements a filter keeps, each with the matched key removed first:
/// an element passes when it is a mapping whose entry for the key equals
/// the literal; every other element is dropped silently.
pub open spec fn filter_select(items: Seq<ValModel>, k: Seq<char>, lit: Seq<char>) -> Seq<
    ValModel,
>
    decreases items.len(),
{
    if items.len() == 0 {
        Seq::empty()
    } else {
        let head = match items[0] {
            ValModel::Mapping(em) => match map_get(em, k) {
                Some(w) => if equal_model(w, lit) {
                    seq![ValModel::Mapping(map_remove(em, k))]
                } else {
                    Seq::empty()
                },
                None => Seq::empty(),
            },
            _ => Seq::empty(),
        };
        head + filter_select(items.drop_first(), k, lit)
    }
}

/// What evaluating a command list against one current value yields:
/// either the finite sequence of result values in order, or the first
/// fatal condition met.
///
/// A sequence-producing command (a range, or a filter applied to a
/// sequence) fans out: each selected element independently continues
/// through the remaining commands and the results are concatenated in
/// element order. An exhausted command list yields the current value
/// itself.
pub open spec fn eval_spec(v: ValModel, cmds: Seq<CmdModel>) -> Result<Seq<ValModel>, ErrModel>
    decreases cmds.len(), 0int, 0int,
{
    if cmds.len() == 0 {
        Ok(seq![v])
    } else {
        let rest = cmds.drop_first();
        match cmds[0] {
            CmdModel::Key(k) => match v {
                ValModel::Mapping(em) => {
                    let next = match map_get(em, k) {
                        Some(w) => w,
                        None => ValModel::Null,
                    };
                    eval_spec(next, rest)
                },
                _ => Err(ErrModel::MissingKeyStrict { key: k, found: kind_of(v) }),
            },
            CmdModel::Index(n) => match v {
                ValModel::Sequence(items) => if 0 <= n < items.len() {
                    eval_spec(items[n], rest)
                } else {
                    Err(ErrModel::IndexOutOfRange { index: n, len: items.len() as int })
                },
                _ => Err(ErrModel::TypeMismatch { op: OpTag::Index, found: kind_of(v) }),
            },
            CmdModel::Range(s, e) => match v {
                ValModel::Sequence(items) => eval_all(range_select(items, s, e), rest),
                _ => Err(ErrModel::TypeMismatch { op: OpTag::Range, found: kind_of(v) }),
            },
            CmdModel::Filter(f) => match split_filter(f) {
                None => Err(ErrModel::BadFilter { expr: f }),
                Some((k, lit)) => match v {
                    ValModel::Sequence(items) => eval_all(filter_select(items, k, lit), rest),
                    ValModel::Mapping(em) => match map_get(em, k) {
                        Some(w) => if equal_model(w, lit) {
                            eval_spec(v, rest)
                        } else {
                            Ok(Seq::empty())
                        },
                        None => if lit == "null"@ {
                            eval_spec(v, rest)
                        } else {
                            Ok(Seq::empty())
                        },
                    },
                    _ => Err(ErrModel::TypeMismatch { op: OpTag::Filter, found: kind_of(v) }),
                },
            },
            CmdModel::Put(k, lit) => match v {
                ValModel::Mapping(em) => eval_spec(
                    ValModel::Mapping(map_put(em, k, json_literal_of(lit))),
                    rest,
                ),
                _ => Err(ErrModel::TypeMismatch { op: OpTag::Put, found: kind_of(v) }),
            },
            CmdModel::Delete(k) => match v {
                ValModel::Mapping(em) => eval_spec(ValModel::Mapping(map_remove(em, k)), rest),
                _ => Err(ErrModel::TypeMismatch { op: OpTag::Delete, found: kind_of(v) }),
            },
        }
    }
}

/// Each element evaluated against the same command list in turn: all the
/// result sequences concatenated in element order, or the first error.
pub open spec fn eval_all(items: Seq<ValModel>, cmds: Seq<CmdModel>) -> Result<
    Seq<ValModel>,
    ErrModel,
>
    decreases cmds.len(), 1int, items.len(),
{
    if items.len() == 0 {
        Ok(Seq::empty())
    } else {
        match eval_spec(items[0], cmds) {
            Err(e) => Err(e),
            Ok(first) => match eval_all(items.drop_first(), cmds) {
                Err(e) => Err(e),
                Ok(rest) => Ok(first + rest),
            },
        }
    }
}

/// `r` prefixed by the results already produced, unless it is an error.
pub open spec fn prepend_vals(pre: Seq<ValModel>, r: Result<Seq<ValModel>, ErrModel>) -> Result<
    Seq<ValModel>,
    ErrModel,
> {
    match r {
        Ok(s) => Ok(pre + s),
        Err(e) => Err(e),
    }
}

/// Does this value match the literal text of a filter expression, under
/// the filter equality rule?
pub fn equal(value: &Val, other: &str) -> (r: bool)
    ensures
        r == equal_model(value@, other@),
{
    match value {
        Val::Text(s) => str_eq(s.as_str(), other),
        Val::Number(n) => str_eq(n.as_str(), other),
        Val::Bool(b) => if *b {
            str_eq(other, "true")
        } else {
            str_eq(other, "false")
        },
        Val::Null => str_eq(other, "null"),
        Val::Sequence(_) => false,
        Val::Mapping(_) => false,
    }
}

/// One range bound read as a position against a sequence of length
/// `len`: a non-negative bound counts from the front, a negative one
/// from the end — `normalize(n) = n` for `n >= 0`, else `len + n`.
pub fn normalize(n: i64, len: usize) -> (r: usize)
    requires
        -(len as int) <= n as int,
        norm_bound(n as int, len as int) <= usize::MAX,
    ensures
        r as int == norm_bound(n as int, len as int),
{
    if n >= 0 {
        n as usize
    } else {
        let v: i128 = len as i128 + n as i128;
        v as usize
    }
}

/// A range bound normalized and then cut into `[0, len]`: what the
/// evaluator uses to turn one optional bound into a slice index.
fn clamp_index(n: i64, len: usize) -> (r: usize)
    ensures
        r == clamp_bound(norm_bound(n as int, len as int), len as int),
{
    if n >= 0 {
        let u = n as u64;
        if u >= len as u64 {
            len
        } else {
            u as usize
        }
    } else {
        let v: i128 = len as i128 + n as i128;
        if v < 0 {
            0
        } else {
            v as usize
        }
    }
}

/// How an executable evaluation outcome realizes a modelled one.
pub open spec fn eval_matches(
    r: Result<Vec<Val>, EvalError>,
    m: Result<Seq<ValModel>, ErrModel>,
) -> bool {
    match r {
        Ok(vs) => m is Ok && vals_model(vs@) == m->Ok_0,
        Err(e) => m is Err && e@ == m->Err_0,
    }
}


/// Fans one contiguous slice of a sequence out: evaluates the remaining
/// commands against each element of `items[lo..hi]` in order and
/// concatenates the results, stopping at the first error.
#[verifier::loop_isolation(false)]
#[verifier::rlimit(80)]
fn fan_range(items: Vec<Val>, lo: usize, hi: usize, cmds: &[StreamCommand]) -> (r: Result<
    Vec<Val>,
    EvalError,
>)
    requires
        lo <= hi <= items@.len(),
    ensures
        eval_matches(
            r,
            eval_all(vals_model(items@).subrange(lo as int, hi as int), cmds_model(cmds@)),
        ),
    decreases cmds@.len(), 1int,
{
    let ghost sel = vals_model(items@).subrange(lo as int, hi as int);
    let ghost rm = cmds_model(cmds@);
    let mut out: Vec<Val> = Vec::new();
    let mut j = lo;
    proof {
        assert(sel.skip(0) =~= sel);
        assert(vals_model(out@) =~= Seq::<ValModel>::empty());
        match eval_all(sel, rm) {
            Ok(s) => {
                assert(Seq::<ValModel>::empty() + s =~= s);
            },
            Err(_) => {},
        }
    }
    while j < hi
        invariant
            lo <= j <= hi,
            eval_all(sel, rm) == prepend_vals(vals_model(out@), eval_all(sel.skip(j - lo), rm)),
        decreases hi - j,
    {
        proof {
            assert(vals_model(items@)[j as int] == items@[j as int]@);
            assert(sel.skip(j - lo)[0] == sel[j - lo]);
            assert(sel[j - lo] == items@[j as int]@);
            assert(sel.skip(j - lo).drop_first() =~= sel.skip(j + 1 - lo));
        }
        let e = dup(&items[j]);
        match apply_stream(e, cmds) {
            Err(er) => {
                return Err(er);
            },
            Ok(mut vs) => {
                let ghost pre = vals_model(out@);
                let ghost first = vals_model(vs@);
                out.append(&mut vs);
                proof {
                    assert(vals_model(out@) =~= pre + first);
                    match eval_all(sel.skip(j + 1 - lo), rm) {
                        Ok(r2) => {
                            assert((pre + first) + r2 =~= pre + (first + r2));
                        },
                        Err(_) => {},
                    }
                }
                j += 1;
            },
        }
    }
    proof {
        assert(sel.skip(hi - lo) =~= Seq::<ValModel>::empty());
        assert(vals_model(out@) + Seq::<ValModel>::empty() =~= vals_model(out@));
    }
    Ok(out)
}

/// Fans a filtered sequence out: each element that is a mapping whose
/// entry for the key equals the literal continues, with that key removed,
/// through the remaining commands; every other element is dropped.
#[verifier::loop_isolation(false)]
#[verifier::rlimit(80)]
fn fan_filter(items: Vec<Val>, key_s: &str, lit_s: &str, cmds: &[StreamCommand]) -> (r: Result<
    Vec<Val>,
    EvalError,
>)
    ensures
        eval_matches(
            r,
            eval_all(filter_select(vals_model(items@), key_s@, lit_s@), cmds_model(cmds@)),
        ),
    decreases cmds@.len(), 1int,
{
    let ghost fm = vals_model(items@);
    let ghost fk = key_s@;
    let ghost fl = lit_s@;
    let ghost rm = cmds_model(cmds@);
    let mut out: Vec<Val> = Vec::new();
    let mut j: usize = 0;
    proof {
        assert(fm.skip(0) =~= fm);
        assert(vals_model(out@) =~= Seq::<ValModel>::empty());
        match eval_all(filter_select(fm, fk, fl), rm) {
            Ok(s) => {
                assert(Seq::<ValModel>::empty() + s =~= s);
            },
            Err(_) => {},
        }
    }
    while j < items.len()
        invariant
            0 <= j <= items@.len(),
            eval_all(filter_select(fm, fk, fl), rm) == prepend_vals(
                vals_model(out@),
                eval_all(filter_select(fm.skip(j as int), fk, fl), rm),
            ),
        decreases items@.len() - j,
    {
        proof {
            assert(vals_model(items@)[j as int] == items@[j as int]@);
            assert(fm.skip(j as int)[0] == fm[j as int]);
            assert(fm.skip(j as int).drop_first() =~= fm.skip(j as int + 1));
        }
        let elem = &items[j];
        match elem {
            Val::Mapping(entries) => {
                let ghost emj = fm[j as int]->Mapping_0;
                proof {
                    lemma_entries_model(entries@);
                    assert(fm[j as int] == ValModel::Mapping(entries_model(entries@)));
                    assert(forall|t: int|
                        0 <= t < entries@.len() ==> emj[t] == (entries@[t].0@, entries@[t].1@));
                }
                match entry_index(entries, key_s) {
                    Some(idx) => {
                        proof {
                            lemma_map_ops_at(emj, fk, ValModel::Null, idx as int);
                        }
                        if equal(&entries[idx].1, lit_s) {
                            let mut red = dup_entries(entries);
                            red.remove(idx);
                            proof {
                                lemma_entries_model(red@);
                            }
                            let relem = Val::Mapping(red);
                            proof {
                                assert(relem@ matches ValModel::Mapping(m2) && m2 =~= map_remove(
                                    emj,
                                    fk,
                                ));
                                assert(filter_select(fm.skip(j as int), fk, fl) =~= seq![relem@]
                                    + filter_select(fm.skip(j as int + 1), fk, fl));
                                let bb = seq![relem@] + filter_select(fm.skip(j as int + 1), fk, fl);
                                assert(bb[0] == relem@);
                                assert(bb.drop_first() =~= filter_select(
                                    fm.skip(j as int + 1),
                                    fk,
                                    fl,
                                ));
                            }
                            match apply_stream(relem, cmds) {
                                Err(er) => {
                                    return Err(er);
                                },
                                Ok(mut vs) => {
                                    let ghost pre = vals_model(out@);
                                    let ghost first = vals_model(vs@);
                                    out.append(&mut vs);
                                    proof {
                                        assert(vals_model(out@) =~= pre + first);
                                        match eval_all(
                                            filter_select(fm.skip(j as int + 1), fk, fl),
                                            rm,
                                        ) {
                                            Ok(r2) => {
                                                assert((pre + first) + r2 =~= pre + (first
                                                    + r2));
                                            },
                                            Err(_) => {},
                                        }
                                    }
                                },
                            }
                        } else {
                            proof {
                                assert(filter_select(fm.skip(j as int), fk, fl)
                                    =~= filter_select(fm.skip(j as int + 1), fk, fl));
                            }
                        }
                    },
                    None => {
                        proof {
                            lemma_map_ops_absent(emj, fk, ValModel::Null);
                            assert(filter_select(fm.skip(j as int), fk, fl) =~= filter_select(
                                fm.skip(j as int + 1),
                                fk,
                                fl,
                            ));
                        }
                    },
                }
            },
            _ => {
                proof {
                    assert(filter_select(fm.skip(j as int), fk, fl) =~= filter_select(
                        fm.skip(j as int + 1),
                        fk,
                        fl,
                    ));
                }
            },
        }
        j += 1;
    }
    proof {
        assert(fm.skip(items@.len() as int) =~= Seq::<ValModel>::empty());
        assert(filter_select(fm.skip(items@.len() as int), fk, fl) =~= Seq::<ValModel>::empty());
        assert(vals_model(out@) + Seq::<ValModel>::empty() =~= vals_model(out@));
    }
    Ok(out)
}

/// Applies the compiled stream commands to one document, producing the
/// ordered sequence of result values, or the first fatal condition.
///
/// Commands are consumed left to right against a current value; a range
/// or a filter over a sequence fans out, handing each selected element
/// to the remaining commands and concatenating the results in order.
#[verifier::loop_isolation(false)]
#[verifier::rlimit(100)]
pub fn apply_stream(obj: Val, commands: &[StreamCommand]) -> (r: Result<Vec<Val>, EvalError>)
    ensures
        eval_matches(r, eval_spec(obj@, cmds_model(commands@))),
    decreases commands@.len(), 0int,
{
    let ghost cm = cmds_model(commands@);
    let ghost m0 = eval_spec(obj@, cm);
    let mut cur = obj;
    let mut i: usize = 0;
    let n = commands.len();
    proof {
        assert(cm.skip(0) =~= cm);
    }
    while i < n
        invariant
            0 <= i <= n,
            eval_spec(cur@, cm.skip(i as int)) == m0,
        decreases n - i,
    {
        let ghost rest = cm.skip(i as int + 1);
        proof {
            assert(cm.skip(i as int)[0] == cm[i as int]);
            assert(cm[i as int] == commands@[i as int]@);
            assert(cm.skip(i as int).drop_first() =~= rest);
        }
        let cmd = slice_index_get(commands, i);
        let knd = cur.kind();
        let taken = cur;
        let ghost vm = taken@;
        match cmd {
            StreamCommand::Key(k) => {
                match taken {
                    Val::Mapping(mut entries) => {
                        let ghost em = vm->Mapping_0;
                        proof {
                            lemma_entries_model(entries@);
                            assert(vm == ValModel::Mapping(entries_model(entries@)));
                        }
                        let next = match entry_index(&entries, k.as_str()) {
                            Some(idx) => {
                                proof {
                                    lemma_map_ops_at(em, k@, ValModel::Null, idx as int);
                                }
                                entries.remove(idx).1
                            },
                            None => {
                                proof {
                                    lemma_map_ops_absent(em, k@, ValModel::Null);
                                }
                                Val::Null
                            },
                        };
                        cur = next;
                        i += 1;
                    },
                    _ => {
                        return Err(EvalError::MissingKeyStrict { key: k.clone(), found: knd });
                    },
                }
            },
            StreamCommand::Index(ix) => {
                match taken {
                    Val::Sequence(mut items) => {
                        let ghost sm = vm->Sequence_0;
                        proof {
                            assert(forall|t: int| 0 <= t < items@.len() ==> sm[t] == items@[t]@);
                        }
                        if *ix < items.len() {
                            let next = items.remove(*ix);
                            cur = next;
                            i += 1;
                        } else {
                            return Err(EvalError::IndexOutOfRange { index: *ix, len: items.len() });
                        }
                    },
                    _ => {
                        return Err(EvalError::TypeMismatch { op: OpTag::Index, found: knd });
                    },
                }
            },
            StreamCommand::Put(k, vtext) => {
                match taken {
                    Val::Mapping(mut entries) => {
                        let ghost em = vm->Mapping_0;
                        proof {
                            lemma_entries_model(entries@);
                            assert(vm == ValModel::Mapping(entries_model(entries@)));
                        }
                        let lit = parse_json(vtext.as_str());
                        let ghost litm = json_literal_of(vtext@);
                        match entry_index(&entries, k.as_str()) {
                            Some(idx) => {
                                proof {
                                    lemma_map_ops_at(em, k@, litm, idx as int);
                                }
                                let kk = k.clone();
                                entries.remove(idx);
                                entries.insert(idx, (kk, lit));
                            },
                            None => {
                                proof {
                                    lemma_map_ops_absent(em, k@, litm);
                                }
                                let kk = k.clone();
                                entries.push((kk, lit));
                            },
                        }
                        proof {
                            lemma_entries_model(entries@);
                        }
                        let newcur = Val::Mapping(entries);
                        proof {
                            assert(newcur@ matches ValModel::Mapping(m2) && m2 =~= map_put(
                                em,
                                k@,
                                litm,
                            ));
                        }
                        cur = newcur;
                        i += 1;
                    },
                    _ => {
                        return Err(EvalError::TypeMismatch { op: OpTag::Put, found: knd });
                    },
                }
            },
            StreamCommand::Delete(k) => {
                match taken {
                    Val::Mapping(mut entries) => {
                        let ghost em = vm->Mapping_0;
                        proof {
                            lemma_entries_model(entries@);
                            assert(vm == ValModel::Mapping(entries_model(entries@)));
                        }
                        match entry_index(&entries, k.as_str()) {
                            Some(idx) => {
                                proof {
                                    lemma_map_ops_at(em, k@, ValModel::Null, idx as int);
                                }
                                entries.remove(idx);
                            },
                            None => {
                                proof {
                                    lemma_map_ops_absent(em, k@, ValModel::Null);
                                }
                            },
                        }
                        proof {
                            lemma_entries_model(entries@);
                        }
                        let newcur = Val::Mapping(entries);
                        proof {
                            assert(newcur@ matches ValModel::Mapping(m2) && m2 =~= map_remove(
                                em,
                                k@,
                            ));
                        }
                        cur = newcur;
                        i += 1;
                    },
                    _ => {
                        return Err(EvalError::TypeMismatch { op: OpTag::Delete, found: knd });
                    },
                }
            },
            StreamCommand::Range(a, b) => {
                match taken {
                    Val::Sequence(items) => {
                        let ghost sm = vm->Sequence_0;
                        proof {
                            assert(forall|t: int| 0 <= t < items@.len() ==> sm[t] == items@[t]@);
                            assert(vals_model(items@) =~= sm);
                        }
                        let len = items.len();
                        let lo = match a {
                            Some(x) => clamp_index(*x, len),
                            None => 0,
                        };
                        let hi = match b {
                            Some(x) => clamp_index(*x, len),
                            None => len,
                        };
                        let ghost sel = range_select(sm, opt_int(*a), opt_int(*b));
                        proof {
                            assert(sel == if lo < hi {
                                sm.subrange(lo as int, hi as int)
                            } else {
                                Seq::<ValModel>::empty()
                            });
                        }
                        if lo >= hi {
                            proof {
                                assert(vals_model(Seq::<Val>::empty()) =~= Seq::<ValModel>::empty());
                            }
                            return Ok(Vec::new());
                        }
                        let sub = slice_subrange(commands, i + 1, n);
                        proof {
                            assert(cmds_model(sub@) =~= rest);
                            assert(vals_model(items@).subrange(lo as int, hi as int) == sel);
                        }
                        let r2 = fan_range(items, lo, hi, sub);
                        proof {
                            assert(eval_all(sel, rest) == m0);
                        }
                        return r2;
                    },
                    _ => {
                        return Err(EvalError::TypeMismatch { op: OpTag::Range, found: knd });
                    },
                }
            },
            StreamCommand::Filter(f) => {
                let flen = f.as_str().unicode_len();
                let eqp = find_char_exec(f.as_str(), '=', 0);
                if eqp == flen {
                    return Err(EvalError::BadFilter { expr: f.clone() });
                }
                let key_s = f.as_str().substring_char(0, eqp);
                let lit_s = f.as_str().substring_char(eqp + 1, flen);
                let ghost fk = f@.subrange(0, eqp as int);
                let ghost flit = f@.subrange(eqp as int + 1, f@.len() as int);
                proof {
                    assert(split_filter(f@) == Some((fk, flit)));
                }
                match taken {
                    Val::Sequence(items) => {
                        let ghost sm = vm->Sequence_0;
                        proof {
                            assert(forall|t: int| 0 <= t < items@.len() ==> sm[t] == items@[t]@);
                            assert(vals_model(items@) =~= sm);
                        }
                        let sub = slice_subrange(commands, i + 1, n);
                        proof {
                            assert(cmds_model(sub@) =~= rest);
                        }
                        let r2 = fan_filter(items, key_s, lit_s, sub);
                        proof {
                            assert(key_s@ == fk && lit_s@ == flit);
                            assert(eval_all(filter_select(sm, fk, flit), rest) == m0);
                        }
                        return r2;
                    },
                    Val::Mapping(entries) => {
                        let ghost em = vm->Mapping_0;
                        proof {
                            lemma_entries_model(entries@);
                            assert(vm == ValModel::Mapping(entries_model(entries@)));
                        }
                        match entry_index(&entries, key_s) {
                            Some(idx) => {
                                proof {
                                    lemma_map_ops_at(em, fk, ValModel::Null, idx as int);
                                }
                                if equal(&entries[idx].1, lit_s) {
                                    cur = Val::Mapping(entries);
                                    proof {
                                        assert(cur@ == vm);
                                    }
                                    i += 1;
                                } else {
                                    proof {
                                        assert(vals_model(Seq::<Val>::empty()) =~= Seq::<
                                            ValModel,
                                        >::empty());
                                    }
                                    return Ok(Vec::new());
                                }
                            },
                            None => {
                                proof {
                                    lemma_map_ops_absent(em, fk, ValModel::Null);
                                }
                                if str_eq(lit_s, "null") {
                                    cur = Val::Mapping(entries);
                                    proof {
                                        assert(cur@ == vm);
                                    }
                                    i += 1;
                                } else {
                                    proof {
                                        assert(vals_model(Seq::<Val>::empty()) =~= Seq::<
                                            ValModel,
                                        >::empty());
                                    }
                                    return Ok(Vec::new());
                                }
                            },
                        }
                    },
                    _ => {
                        return Err(EvalError::TypeMismatch { op: OpTag::Filter, found: knd });
                    },
                }
            },
        }
    }
    proof {
        assert(cm.skip(n as int) =~= Seq::<CmdModel>::empty());
    }
    let mut out: Vec<Val> = Vec::new();
    out.push(cur);
    proof {
        assert(vals_model(out@) =~= seq![out@[0]@]);
    }
    Ok(out)
}

} // verus!
