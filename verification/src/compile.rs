use crate::command::{cmds_model, pairs_model, CmdModel, CompileError, PrintCommand, PrintModel,
    StreamCommand};
use crate::text::{find_char, find_char_exec, find_either, find_either_exec, find_sub,
    find_sub_exec, is_digit_or_minus, is_skip_char, lemma_find_char_range,
    lemma_find_either_range, lemma_token_end_range, parse_i64_exec, parse_i64_spec,
    parse_usize_exec, parse_usize_spec, rfind_either, rfind_either_exec, starts_with_at,
    starts_with_lit, token_end, token_end_exec, trim_spec, trimmed_copy};
use vstd::prelude::*;

verus! {

broadcast use vstd::seq::group_seq_axioms, vstd::std_specs::vec::group_vec_axioms;

/// One column selector, split and trimmed: `key=header`, `key as header`,
/// or a bare key whose header is its last path segment.
pub open spec fn header_pair(piece: Seq<char>) -> (Seq<char>, Seq<char>) {
    let eq = find_char(piece, '=', 0);
    if eq < piece.len() {
        (trim_spec(piece.subrange(0, eq)), trim_spec(piece.subrange(eq + 1, piece.len() as int)))
    } else {
        let asx = find_sub(piece, " as "@, 0);
        if asx >= 0 {
            (
                trim_spec(piece.subrange(0, asx)),
                trim_spec(piece.subrange(asx + 4, piece.len() as int)),
            )
        } else {
            let rx = rfind_either(piece, ']', '.', piece.len() as int);
            if rx >= 0 {
                (trim_spec(piece), trim_spec(piece.subrange(rx + 1, piece.len() as int)))
            } else {
                (trim_spec(piece), trim_spec(piece))
            }
        }
    }
}

/// The column selector list of a `csv` tail: pieces cut at every comma or
/// list separator, each made a pair.
pub open spec fn split_headers_from(s: Seq<char>, from: int) -> Seq<(Seq<char>, Seq<char>)>
    decreases s.len() - from,
    via split_headers_from_dec
{
    if from < 0 || from > s.len() {
        Seq::empty()
    } else {
        let cut = find_either(s, ',', ')', from);
        let head = seq![header_pair(s.subrange(from, cut))];
        if cut >= s.len() {
            head
        } else {
            head + split_headers_from(s, cut + 1)
        }
    }
}

/// The put assignments of one separator-delimited list: each piece must
/// split at `=` into a key and a literal.
pub open spec fn put_cmds_from(chunk: Seq<char>, from: int) -> Option<Seq<CmdModel>>
    decreases chunk.len() - from,
    via put_cmds_from_dec
{
    if from < 0 || from > chunk.len() {
        None
    } else {
        let c = find_char(chunk, ')', from);
        let eqp = find_char(chunk, '=', from);
        if eqp >= c {
            None
        } else {
            let cmd = CmdModel::Put(chunk.subrange(from, eqp), chunk.subrange(eqp + 1, c));
            if c >= chunk.len() {
                Some(seq![cmd])
            } else {
                match put_cmds_from(chunk, c + 1) {
                    None => None,
                    Some(rest) => Some(seq![cmd] + rest),
                }
            }
        }
    }
}

/// The deletions of one separator-delimited key list.
pub open spec fn delete_cmds_from(chunk: Seq<char>, from: int) -> Seq<CmdModel>
    decreases chunk.len() - from,
    via delete_cmds_from_dec
{
    if from < 0 || from > chunk.len() {
        Seq::empty()
    } else {
        let c = find_char(chunk, ')', from);
        let cmd = CmdModel::Delete(chunk.subrange(from, c));
        if c >= chunk.len() {
            seq![cmd]
        } else {
            seq![cmd] + delete_cmds_from(chunk, c + 1)
        }
    }
}

/// The filters of one bracket group: one per comma- or separator-
/// delimited clause.
pub open spec fn filter_cmds_from(chunk: Seq<char>, from: int) -> Seq<CmdModel>
    decreases chunk.len() - from,
    via filter_cmds_from_dec
{
    if from < 0 || from > chunk.len() {
        Seq::empty()
    } else {
        let c = find_either(chunk, ',', ')', from);
        let cmd = CmdModel::Filter(chunk.subrange(from, c));
        if c >= chunk.len() {
            seq![cmd]
        } else {
            seq![cmd] + filter_cmds_from(chunk, c + 1)
        }
    }
}

#[via_fn]
proof fn split_headers_from_dec(s: Seq<char>, from: int) {
    if 0 <= from <= s.len() {
        lemma_find_either_range(s, ',', ')', from);
    }
}

#[via_fn]
proof fn put_cmds_from_dec(chunk: Seq<char>, from: int) {
    if 0 <= from <= chunk.len() {
        lemma_find_char_range(chunk, ')', from);
    }
}

#[via_fn]
proof fn delete_cmds_from_dec(chunk: Seq<char>, from: int) {
    if 0 <= from <= chunk.len() {
        lemma_find_char_range(chunk, ')', from);
    }
}

#[via_fn]
proof fn filter_cmds_from_dec(chunk: Seq<char>, from: int) {
    if 0 <= from <= chunk.len() {
        lemma_find_either_range(chunk, ',', ')', from);
    }
}

/// First position in `[from, upto - 1)` where two dots stand together,
/// or `-1`.
pub open spec fn find_dotdot(q: Seq<char>, from: int, upto: int) -> int
    decreases upto - from,
{
    if from < 0 || from + 1 >= upto || upto > q.len() {
        -1
    } else if q[from] == '.' && q[from + 1] == '.' {
        from
    } else {
        find_dotdot(q, from + 1, upto)
    }
}

pub open spec fn prepend(c: CmdModel, r: Result<(Seq<CmdModel>, PrintModel), CompileError>) -> Result<
    (Seq<CmdModel>, PrintModel),
    CompileError,
> {
    match r {
        Ok((cs, m)) => Ok((seq![c] + cs, m)),
        Err(e) => Err(e),
    }
}

pub open spec fn prepend_all(
    cs: Seq<CmdModel>,
    r: Result<(Seq<CmdModel>, PrintModel), CompileError>,
) -> Result<(Seq<CmdModel>, PrintModel), CompileError> {
    match r {
        Ok((cs2, m)) => Ok((cs + cs2, m)),
        Err(e) => Err(e),
    }
}

/// What compiling the query text from position `at` on yields: the query
/// is scanned left to right, one priority-ordered rule firing at each
/// position.
///
/// In order: a separator or space is skipped; a leading `..` reads the
/// whole rest as the end of a range; a leading dot begins a key token
/// (an empty one is dropped); the keywords `keys`, `len` and `csv` end
/// compilation with their print mode, `csv` first reading its column
/// list; `put` reads a comma-terminated assignment list; a digit or
/// minus begins a bare index or range; a bracket group holds an index,
/// a range or filters, and must be closed; `delete` reads a
/// comma-terminated key list; any other text is a bare key token. A
/// query that runs out without a keyword prints pretty by default.
pub open spec fn compile_from(q: Seq<char>, at: int) -> Result<
    (Seq<CmdModel>, PrintModel),
    CompileError,
>
    decreases q.len() - at,
    via compile_from_dec
{
    if at < 0 || at >= q.len() {
        Ok((Seq::empty(), PrintModel::Pretty))
    } else if is_skip_char(q[at]) {
        compile_from(q, at + 1)
    } else if at + 2 <= q.len() && q[at] == '.' && q[at + 1] == '.' {
        match parse_i64_spec(q.subrange(at + 2, q.len() as int)) {
            Some(n) => Ok((seq![CmdModel::Range(None, Some(n))], PrintModel::Pretty)),
            None => Err(CompileError::BadNumber),
        }
    } else if q[at] == '.' {
        let t = token_end(q, at + 1);
        if t == at + 1 {
            compile_from(q, at + 1)
        } else {
            prepend(CmdModel::Key(q.subrange(at + 1, t)), compile_from(q, t))
        }
    } else if starts_with_at(q, "keys"@, at) {
        Ok((Seq::empty(), PrintModel::Keys))
    } else if starts_with_at(q, "len"@, at) {
        Ok((Seq::empty(), PrintModel::Len))
    } else if starts_with_at(q, "csv"@, at) {
        if q.len() - at <= 4 {
            Ok((Seq::empty(), PrintModel::Csv(Seq::empty(), true)))
        } else {
            Ok(
                (
                    Seq::empty(),
                    PrintModel::Csv(
                        split_headers_from(q.subrange(at + 4, q.len() as int), 0),
                        true,
                    ),
                ),
            )
        }
    } else if starts_with_at(q, "put"@, at) {
        if q.len() - at < 4 {
            Err(CompileError::BadPut)
        } else {
            let upto = find_char(q, ',', at + 4);
            match put_cmds_from(q.subrange(at + 4, upto), 0) {
                None => Err(CompileError::BadPut),
                Some(cs) => prepend_all(cs, compile_from(q, upto)),
            }
        }
    } else if is_digit_or_minus(q[at]) {
        let t = token_end(q, at);
        if t + 2 <= q.len() && q[t] == '.' && q[t + 1] == '.' {
            match parse_i64_spec(q.subrange(at, t)) {
                None => Err(CompileError::BadNumber),
                Some(st) => {
                    let t2 = token_end(q, t + 2);
                    let e = parse_i64_spec(q.subrange(t + 2, t2));
                    prepend(CmdModel::Range(Some(st), e), compile_from(q, t2))
                },
            }
        } else {
            match parse_usize_spec(q.subrange(at, t)) {
                None => Err(CompileError::BadNumber),
                Some(ix) => prepend(CmdModel::Index(ix), compile_from(q, t)),
            }
        }
    } else if q[at] == '[' {
        let close = find_char(q, ']', at + 1);
        if close >= q.len() {
            Err(CompileError::UnterminatedBracket)
        } else if close == at + 1 {
            prepend(CmdModel::Range(None, None), compile_from(q, close))
        } else if is_digit_or_minus(q[at + 1]) {
            let dd = find_dotdot(q, at + 1, close);
            if dd >= 0 {
                match parse_i64_spec(q.subrange(at + 1, dd)) {
                    None => Err(CompileError::BadNumber),
                    Some(st) => prepend(
                        CmdModel::Range(Some(st), parse_i64_spec(q.subrange(dd + 2, close))),
                        compile_from(q, close),
                    ),
                }
            } else {
                match parse_usize_spec(q.subrange(at + 1, close)) {
                    None => Err(CompileError::BadNumber),
                    Some(ix) => prepend(CmdModel::Index(ix), compile_from(q, close)),
                }
            }
        } else if close >= at + 3 && q[at + 1] == '.' && q[at + 2] == '.' {
            match parse_i64_spec(q.subrange(at + 3, close)) {
                Some(n) => prepend(CmdModel::Range(None, Some(n)), compile_from(q, close)),
                None => Err(CompileError::BadNumber),
            }
        } else {
            prepend_all(filter_cmds_from(q.subrange(at + 1, close), 0), compile_from(q, close))
        }
    } else if starts_with_at(q, "delete"@, at) {
        if q.len() - at < 7 {
            Err(CompileError::BadDelete)
        } else {
            let upto = find_char(q, ',', at + 7);
            prepend_all(delete_cmds_from(q.subrange(at + 7, upto), 0), compile_from(q, upto))
        }
    } else {
        let t = token_end(q, at);
        prepend(CmdModel::Key(q.subrange(at, t)), compile_from(q, t))
    }
}

#[via_fn]
proof fn compile_from_dec(q: Seq<char>, at: int) {
    if 0 <= at < q.len() {
        lemma_token_end_range(q, at);
        if at + 1 <= q.len() {
            lemma_token_end_range(q, at + 1);
            lemma_find_char_range(q, ']', at + 1);
        }
        if at + 4 <= q.len() {
            lemma_find_char_range(q, ',', at + 4);
        }
        if at + 7 <= q.len() {
            lemma_find_char_range(q, ',', at + 7);
        }
        let t = token_end(q, at);
        if t + 2 <= q.len() {
            lemma_token_end_range(q, t + 2);
        }
    }
}

/// How an executable compilation outcome realizes a modelled one.
pub open spec fn compile_matches(
    r: Result<(Vec<StreamCommand>, PrintCommand), CompileError>,
    m: Result<(Seq<CmdModel>, PrintModel), CompileError>,
) -> bool {
    match r {
        Ok(p) => m is Ok && cmds_model(p.0@) == m->Ok_0.0 && p.1@ == m->Ok_0.1,
        Err(e) => m is Err && e == m->Err_0,
    }
}

/// One column selector made a (key, header) pair, as the model says.
fn header_pair_exec(piece: &str) -> (r: (String, String))
    ensures
        (r.0@, r.1@) == header_pair(piece@),
{
    let plen = piece.unicode_len();
    let eq = find_char_exec(piece, '=', 0);
    proof {
        reveal_strlit(" as ");
        assert(piece@.subrange(0, plen as int) =~= piece@);
    }
    if eq < plen {
        (trimmed_copy(piece, 0, eq), trimmed_copy(piece, eq + 1, plen))
    } else {
        match find_sub_exec(piece, " as ", 0) {
            Some(ax) => (trimmed_copy(piece, 0, ax), trimmed_copy(piece, ax + 4, plen)),
            None => match rfind_either_exec(piece, ']', '.', plen) {
                Some(rx) => (trimmed_copy(piece, 0, plen), trimmed_copy(piece, rx + 1, plen)),
                None => (trimmed_copy(piece, 0, plen), trimmed_copy(piece, 0, plen)),
            },
        }
    }
}

/// Collects the column selectors of `s[from..]` onto `out`.
fn split_headers_rec(s: &str, from: usize, out: &mut Vec<(String, String)>)
    requires
        from <= s@.len(),
    ensures
        pairs_model(final(out)@) == pairs_model(old(out)@) + split_headers_from(
            s@,
            from as int,
        ),
    decreases s@.len() - from,
{
    let slen = s.unicode_len();
    let cut = find_either_exec(s, ',', ')', from);
    let piece = s.substring_char(from, cut);
    let pr = header_pair_exec(piece);
    let ghost mid = out@;
    out.push(pr);
    proof {
        assert(pairs_model(out@) =~= pairs_model(mid) + seq![header_pair(piece@)]);
    }
    if cut < slen {
        split_headers_rec(s, cut + 1, out);
        proof {
            assert(pairs_model(mid) + seq![header_pair(piece@)] + split_headers_from(
                s@,
                cut + 1,
            ) =~= pairs_model(mid) + (seq![header_pair(piece@)] + split_headers_from(
                s@,
                cut + 1,
            )));
        }
    } else {
        proof {
            assert(pairs_model(mid) + seq![header_pair(piece@)] =~= pairs_model(mid) + seq![
                header_pair(piece@),
            ]);
        }
    }
}

/// Splits a `csv` column list into (key, header) pairs: pieces cut at
/// every comma or list separator; each piece splits at `=`, at ` as `,
/// or takes its last path segment as the header; both sides trimmed.
pub fn split_headers(s: &str) -> (r: Vec<(String, String)>)
    ensures
        pairs_model(r@) == split_headers_from(s@, 0),
{
    let mut out: Vec<(String, String)> = Vec::new();
    proof {
        assert(pairs_model(out@) =~= Seq::<(Seq<char>, Seq<char>)>::empty());
    }
    split_headers_rec(s, 0, &mut out);
    proof {
        assert(Seq::<(Seq<char>, Seq<char>)>::empty() + split_headers_from(s@, 0)
            =~= split_headers_from(s@, 0));
    }
    out
}

/// Reads the assignments of a put list, or refuses it.
fn put_cmds_exec(chunk: &str, from: usize) -> (r: Option<Vec<StreamCommand>>)
    requires
        from <= chunk@.len(),
    ensures
        match r {
            Some(v) => put_cmds_from(chunk@, from as int) == Some(cmds_model(v@)),
            None => put_cmds_from(chunk@, from as int) is None,
        },
    decreases chunk@.len() - from,
{
    let clen = chunk.unicode_len();
    let c = find_char_exec(chunk, ')', from);
    let eqp = find_char_exec(chunk, '=', from);
    if eqp >= c {
        return None;
    }
    let key = chunk.substring_char(from, eqp).to_owned();
    let lit = chunk.substring_char(eqp + 1, c).to_owned();
    let cmd = StreamCommand::Put(key, lit);
    if c >= clen {
        let mut v: Vec<StreamCommand> = Vec::new();
        v.push(cmd);
        proof {
            assert(cmds_model(v@) =~= seq![v@[0]@]);
        }
        Some(v)
    } else {
        match put_cmds_exec(chunk, c + 1) {
            None => None,
            Some(mut rest) => {
                let ghost restm = cmds_model(rest@);
                let ghost cmdm = cmd@;
                rest.insert(0, cmd);
                proof {
                    assert(cmds_model(rest@) =~= seq![cmdm] + restm);
                }
                Some(rest)
            },
        }
    }
}

/// Reads the keys of a delete list.
fn delete_cmds_exec(chunk: &str, from: usize) -> (r: Vec<StreamCommand>)
    requires
        from <= chunk@.len(),
    ensures
        cmds_model(r@) == delete_cmds_from(chunk@, from as int),
    decreases chunk@.len() - from,
{
    let clen = chunk.unicode_len();
    let c = find_char_exec(chunk, ')', from);
    let key = chunk.substring_char(from, c).to_owned();
    let cmd = StreamCommand::Delete(key);
    if c >= clen {
        let mut v: Vec<StreamCommand> = Vec::new();
        v.push(cmd);
        proof {
            assert(cmds_model(v@) =~= seq![v@[0]@]);
        }
        v
    } else {
        let mut rest = delete_cmds_exec(chunk, c + 1);
        let ghost restm = cmds_model(rest@);
        let ghost cmdm = cmd@;
        rest.insert(0, cmd);
        proof {
            assert(cmds_model(rest@) =~= seq![cmdm] + restm);
        }
        rest
    }
}

/// Reads the clauses of a bracket filter group.
fn filter_cmds_exec(chunk: &str, from: usize) -> (r: Vec<StreamCommand>)
    requires
        from <= chunk@.len(),
    ensures
        cmds_model(r@) == filter_cmds_from(chunk@, from as int),
    decreases chunk@.len() - from,
{
    let clen = chunk.unicode_len();
    let c = find_either_exec(chunk, ',', ')', from);
    let expr = chunk.substring_char(from, c).to_owned();
    let cmd = StreamCommand::Filter(expr);
    if c >= clen {
        let mut v: Vec<StreamCommand> = Vec::new();
        v.push(cmd);
        proof {
            assert(cmds_model(v@) =~= seq![v@[0]@]);
        }
        v
    } else {
        let mut rest = filter_cmds_exec(chunk, c + 1);
        let ghost restm = cmds_model(rest@);
        let ghost cmdm = cmd@;
        rest.insert(0, cmd);
        proof {
            assert(cmds_model(rest@) =~= seq![cmdm] + restm);
        }
        rest
    }
}

fn find_dotdot_exec(q: &str, from: usize, upto: usize) -> (r: Option<usize>)
    requires
        upto <= q@.len(),
    ensures
        match r {
            Some(i) => i == find_dotdot(q@, from as int, upto as int) && from <= i && i + 2
                <= upto,
            None => find_dotdot(q@, from as int, upto as int) == -1,
        },
    decreases upto - from,
{
    if upto < 2 || from >= upto - 1 {
        None
    } else if q.get_char(from) == '.' && q.get_char(from + 1) == '.' {
        Some(from)
    } else {
        find_dotdot_exec(q, from + 1, upto)
    }
}

/// Compiles the rest of the query and puts one command in front.
fn compile_tail(s: &str, cmd: StreamCommand, nxt: usize) -> (r: Result<
    (Vec<StreamCommand>, PrintCommand),
    CompileError,
>)
    requires
        nxt <= s@.len(),
    ensures
        compile_matches(r, prepend(cmd@, compile_from(s@, nxt as int))),
    decreases s@.len() - nxt, 1int,
{
    let ghost cmdm = cmd@;
    match compile_at(s, nxt) {
        Err(e) => Err(e),
        Ok((mut cs, p)) => {
            let ghost restm = cmds_model(cs@);
            cs.insert(0, cmd);
            proof {
                assert(cmds_model(cs@) =~= seq![cmdm] + restm);
            }
            Ok((cs, p))
        },
    }
}

/// Compiles the rest of the query and puts a command list in front.
fn compile_tail_all(s: &str, mut lv: Vec<StreamCommand>, nxt: usize) -> (r: Result<
    (Vec<StreamCommand>, PrintCommand),
    CompileError,
>)
    requires
        nxt <= s@.len(),
    ensures
        compile_matches(r, prepend_all(cmds_model(lv@), compile_from(s@, nxt as int))),
    decreases s@.len() - nxt, 1int,
{
    let ghost lvm = cmds_model(lv@);
    match compile_at(s, nxt) {
        Err(e) => Err(e),
        Ok((mut cs, p)) => {
            let ghost restm = cmds_model(cs@);
            lv.append(&mut cs);
            proof {
                assert(cmds_model(lv@) =~= lvm + restm);
            }
            Ok((lv, p))
        },
    }
}

/// Compiles the query text from position `at` on.
#[verifier::loop_isolation(false)]
#[verifier::rlimit(100)]
fn compile_at(s: &str, at: usize) -> (r: Result<(Vec<StreamCommand>, PrintCommand), CompileError>)
    requires
        at <= s@.len(),
    ensures
        compile_matches(r, compile_from(s@, at as int)),
    decreases s@.len() - at, 0int,
{
    let slen = s.unicode_len();
    if at >= slen {
        let v: Vec<StreamCommand> = Vec::new();
        proof {
            assert(cmds_model(v@) =~= Seq::<CmdModel>::empty());
        }
        return Ok((v, PrintCommand::Pretty));
    }
    let c0 = s.get_char(at);
    if c0 == ']' || c0 == ',' || c0 == ')' || c0 == ' ' {
        return compile_at(s, at + 1);
    }
    if slen - at >= 2 && c0 == '.' && s.get_char(at + 1) == '.' {
        return match parse_i64_exec(s, at + 2, slen) {
            Some(n) => {
                let mut v: Vec<StreamCommand> = Vec::new();
                v.push(StreamCommand::Range(None, Some(n)));
                proof {
                    assert(cmds_model(v@) =~= seq![v@[0]@]);
                }
                Ok((v, PrintCommand::Pretty))
            },
            None => Err(CompileError::BadNumber),
        };
    }
    if c0 == '.' {
        let t = token_end_exec(s, at + 1);
        if t == at + 1 {
            return compile_at(s, at + 1);
        }
        let tok = s.substring_char(at + 1, t).to_owned();
        return compile_tail(s, StreamCommand::Key(tok), t);
    }
    if starts_with_lit(s, "keys", at) {
        let v: Vec<StreamCommand> = Vec::new();
        proof {
            assert(cmds_model(v@) =~= Seq::<CmdModel>::empty());
        }
        return Ok((v, PrintCommand::Keys));
    }
    if starts_with_lit(s, "len", at) {
        let v: Vec<StreamCommand> = Vec::new();
        proof {
            assert(cmds_model(v@) =~= Seq::<CmdModel>::empty());
        }
        return Ok((v, PrintCommand::Len));
    }
    if starts_with_lit(s, "csv", at) {
        let v: Vec<StreamCommand> = Vec::new();
        proof {
            assert(cmds_model(v@) =~= Seq::<CmdModel>::empty());
        }
        if slen - at <= 4 {
            let hv: Vec<(String, String)> = Vec::new();
            proof {
                assert(pairs_model(hv@) =~= Seq::<(Seq<char>, Seq<char>)>::empty());
            }
            return Ok((v, PrintCommand::Csv(hv, true)));
        }
        let rest = s.substring_char(at + 4, slen);
        let hs = split_headers(rest);
        return Ok((v, PrintCommand::Csv(hs, true)));
    }
    if starts_with_lit(s, "put", at) {
        if slen - at < 4 {
            return Err(CompileError::BadPut);
        }
        let upto = find_char_exec(s, ',', at + 4);
        let chunk = s.substring_char(at + 4, upto);
        return match put_cmds_exec(chunk, 0) {
            None => Err(CompileError::BadPut),
            Some(mut lv) => compile_tail_all(s, lv, upto),
        };
    }
    if (c0 >= '0' && c0 <= '9') || c0 == '-' {
        let t = token_end_exec(s, at);
        proof {
            lemma_token_end_range(s@, at as int + 1);
        }
        if slen - t >= 2 && s.get_char(t) == '.' && s.get_char(t + 1) == '.' {
            return match parse_i64_exec(s, at, t) {
                None => Err(CompileError::BadNumber),
                Some(st) => {
                    let t2 = token_end_exec(s, t + 2);
                    let e = parse_i64_exec(s, t + 2, t2);
                    compile_tail(s, StreamCommand::Range(Some(st), e), t2)
                },
            };
        }
        return match parse_usize_exec(s, at, t) {
            None => Err(CompileError::BadNumber),
            Some(ix) => compile_tail(s, StreamCommand::Index(ix), t),
        };
    }
    if c0 == '[' {
        let close = find_char_exec(s, ']', at + 1);
        if close >= slen {
            return Err(CompileError::UnterminatedBracket);
        }
        if close == at + 1 {
            return compile_tail(s, StreamCommand::Range(None, None), close);
        }
        let c1 = s.get_char(at + 1);
        if (c1 >= '0' && c1 <= '9') || c1 == '-' {
            return match find_dotdot_exec(s, at + 1, close) {
                Some(dd) => match parse_i64_exec(s, at + 1, dd) {
                    None => Err(CompileError::BadNumber),
                    Some(st) => {
                        let e = parse_i64_exec(s, dd + 2, close);
                        compile_tail(s, StreamCommand::Range(Some(st), e), close)
                    },
                },
                None => match parse_usize_exec(s, at + 1, close) {
                    None => Err(CompileError::BadNumber),
                    Some(ix) => compile_tail(s, StreamCommand::Index(ix), close),
                },
            };
        }
        if close >= at + 3 && c1 == '.' && s.get_char(at + 2) == '.' {
            return match parse_i64_exec(s, at + 3, close) {
                Some(n) => compile_tail(s, StreamCommand::Range(None, Some(n)), close),
                None => Err(CompileError::BadNumber),
            };
        }
        let chunk = s.substring_char(at + 1, close);
        let mut lv = filter_cmds_exec(chunk, 0);
        return compile_tail_all(s, lv, close);
    }
    if starts_with_lit(s, "delete", at) {
        if slen - at < 7 {
            return Err(CompileError::BadDelete);
        }
        let upto = find_char_exec(s, ',', at + 7);
        let chunk = s.substring_char(at + 7, upto);
        let mut lv = delete_cmds_exec(chunk, 0);
        return compile_tail_all(s, lv, upto);
    }
    let t = token_end_exec(s, at);
    proof {
        lemma_token_end_range(s@, at as int + 1);
    }
    let tok = s.substring_char(at, t).to_owned();
    compile_tail(s, StreamCommand::Key(tok), t)
}

/// Compiles a query text into its ordered stream commands and the one
/// terminal print mode; malformed numeric tokens, unterminated brackets
/// and cut-short `put` or `delete` lists are refused.
pub fn evaluate_command(s: &str) -> (r: Result<
    (Vec<StreamCommand>, PrintCommand),
    CompileError,
>)
    ensures
        compile_matches(r, compile_from(s@, 0)),
{
    compile_at(s, 0)
}

} // verus!
