use crate::value::Kind;
use vstd::prelude::*;

verus! {

/// One compiled step of the query pipeline.
#[derive(Debug, PartialEq)]
pub enum StreamCommand {
    Key(String),
    Index(usize),
    Range(Option<i64>, Option<i64>),
    Filter(String),
    Put(String, String),
    Delete(String),
}

/// The model of a stream command, over character sequences and
/// unbounded integers.
pub enum CmdModel {
    Key(Seq<char>),
    Index(int),
    Range(Option<int>, Option<int>),
    Filter(Seq<char>),
    Put(Seq<char>, Seq<char>),
    Delete(Seq<char>),
}

pub open spec fn opt_int(o: Option<i64>) -> Option<int> {
    match o {
        Some(n) => Some(n as int),
        None => None,
    }
}

impl View for StreamCommand {
    type V = CmdModel;

    open spec fn view(&self) -> CmdModel {
        match self {
            StreamCommand::Key(s) => CmdModel::Key(s@),
            StreamCommand::Index(i) => CmdModel::Index(*i as int),
            StreamCommand::Range(a, b) => CmdModel::Range(opt_int(*a), opt_int(*b)),
            StreamCommand::Filter(f) => CmdModel::Filter(f@),
            StreamCommand::Put(k, v) => CmdModel::Put(k@, v@),
            StreamCommand::Delete(k) => CmdModel::Delete(k@),
        }
    }
}

/// The models of a command list.
pub open spec fn cmds_model(s: Seq<StreamCommand>) -> Seq<CmdModel> {
    s.map_values(|c: StreamCommand| c@)
}

/// The terminal rendering choice compiled from a query: exactly one per
/// compiled query. The `Csv` payload is the ordered list of
/// (source key, display header) column selectors — an empty list means
/// "infer the columns from the first record" — and the flag that says a
/// header row is still owed.
#[derive(Debug, PartialEq)]
pub enum PrintCommand {
    Yaml,
    Pretty,
    Json,
    Keys,
    Len,
    Csv(Vec<(String, String)>, bool),
}

/// The model of a print command.
pub enum PrintModel {
    Yaml,
    Pretty,
    Json,
    Keys,
    Len,
    Csv(Seq<(Seq<char>, Seq<char>)>, bool),
}

/// The models of a column selector list.
pub open spec fn pairs_model(s: Seq<(String, String)>) -> Seq<(Seq<char>, Seq<char>)> {
    s.map_values(|p: (String, String)| (p.0@, p.1@))
}

impl View for PrintCommand {
    type V = PrintModel;

    open spec fn view(&self) -> PrintModel {
        match self {
            PrintCommand::Yaml => PrintModel::Yaml,
            PrintCommand::Pretty => PrintModel::Pretty,
            PrintCommand::Json => PrintModel::Json,
            PrintCommand::Keys => PrintModel::Keys,
            PrintCommand::Len => PrintModel::Len,
            PrintCommand::Csv(pairs, owed) => PrintModel::Csv(pairs_model(pairs@), *owed),
        }
    }
}

/// A query text the compiler rejects: a numeric token that does not read
/// as an integer, a bracket group whose `]` never comes, or a `put` or
/// `delete` list that is cut short or misses its `=`.
#[derive(Debug, Clone, Copy, PartialEq, Eq, Structural)]
pub enum CompileError {
    BadNumber,
    UnterminatedBracket,
    BadPut,
    BadDelete,
}

/// Which operation an evaluation error report names.
#[derive(Debug, Clone, Copy, PartialEq, Eq, Structural)]
pub enum OpTag {
    Key,
    Index,
    Range,
    Filter,
    Put,
    Delete,
}

/// A fatal evaluation condition: it aborts the whole run.
///
/// Selecting a key on anything but a mapping is reported apart; a missing
/// entry is not an error (it degrades to null). A filter whose expression
/// has no `=` cannot be applied at all.
#[derive(Debug, PartialEq)]
pub enum EvalError {
    MissingKeyStrict { key: String, found: Kind },
    TypeMismatch { op: OpTag, found: Kind },
    IndexOutOfRange { index: usize, len: usize },
    BadFilter { expr: String },
}

/// The model of an evaluation error.
pub enum ErrModel {
    MissingKeyStrict { key: Seq<char>, found: Kind },
    TypeMismatch { op: OpTag, found: Kind },
    IndexOutOfRange { index: int, len: int },
    BadFilter { expr: Seq<char> },
}

impl View for EvalError {
    type V = ErrModel;

    open spec fn view(&self) -> ErrModel {
        match self {
            EvalError::MissingKeyStrict { key, found } => ErrModel::MissingKeyStrict {
                key: key@,
                found: *found,
            },
            EvalError::TypeMismatch { op, found } => ErrModel::TypeMismatch {
                op: *op,
                found: *found,
            },
            EvalError::IndexOutOfRange { index, len } => ErrModel::IndexOutOfRange {
                index: *index as int,
                len: *len as int,
            },
            EvalError::BadFilter { expr } => ErrModel::BadFilter { expr: expr@ },
        }
    }
}

} // verus!
