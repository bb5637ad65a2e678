use vstd::prelude::*;

verus! {

broadcast use vstd::seq::group_seq_axioms;

/// Characters that end a bare token: the query language's structural marks
/// plus the reserved list separator.
pub open spec fn is_token_char(c: char) -> bool {
    c == ',' || c == '.' || c == '[' || c == ']' || c == ')'
}

/// Characters skipped when a new token is expected.
pub open spec fn is_skip_char(c: char) -> bool {
    c == ']' || c == ',' || c == ')' || c == ' '
}

/// Whitespace stripped from both ends of a column selector.
pub open spec fn is_wspace(c: char) -> bool {
    c == ' ' || c == '\t' || c == '\n' || c == '\r'
}

pub open spec fn is_digit(c: char) -> bool {
    '0' <= c && c <= '9'
}

pub open spec fn digit_val(c: char) -> int {
    c as int - '0' as int
}

pub open spec fn is_digit_or_minus(c: char) -> bool {
    is_digit(c) || c == '-'
}

/// Index of the first token character at or after `from`, or `q.len()`.
pub open spec fn token_end(q: Seq<char>, from: int) -> int
    decreases q.len() - from,
{
    if from < 0 || from >= q.len() {
        q.len() as int
    } else if is_token_char(q[from]) {
        from
    } else {
        token_end(q, from + 1)
    }
}

/// Index of the first occurrence of `c` at or after `from`, or `q.len()`.
pub open spec fn find_char(q: Seq<char>, c: char, from: int) -> int
    decreases q.len() - from,
{
    if from < 0 || from >= q.len() {
        q.len() as int
    } else if q[from] == c {
        from
    } else {
        find_char(q, c, from + 1)
    }
}

/// Index of the first occurrence of either `a` or `b` at or after `from`,
/// or `q.len()`.
pub open spec fn find_either(q: Seq<char>, a: char, b: char, from: int) -> int
    decreases q.len() - from,
{
    if from < 0 || from >= q.len() {
        q.len() as int
    } else if q[from] == a || q[from] == b {
        from
    } else {
        find_either(q, a, b, from + 1)
    }
}

/// Index of the last occurrence of either `a` or `b` strictly before `upto`,
/// or `-1`.
pub open spec fn rfind_either(q: Seq<char>, a: char, b: char, upto: int) -> int
    decreases upto,
{
    if upto <= 0 || upto > q.len() {
        -1
    } else if q[upto - 1] == a || q[upto - 1] == b {
        upto - 1
    } else {
        rfind_either(q, a, b, upto - 1)
    }
}

/// First index at or after `from` where `pat` occurs as a contiguous
/// subsequence of `q`, or `-1`.
pub open spec fn find_sub(q: Seq<char>, pat: Seq<char>, from: int) -> int
    decreases q.len() - from,
{
    if from < 0 || from >= q.len() || from + pat.len() > q.len() {
        -1
    } else if q.subrange(from, from + pat.len()) == pat {
        from
    } else {
        find_sub(q, pat, from + 1)
    }
}

/// Does `pat` occur at position `at` of `q`?
pub open spec fn starts_with_at(q: Seq<char>, pat: Seq<char>, at: int) -> bool {
    0 <= at && at + pat.len() <= q.len() && q.subrange(at, at + pat.len()) == pat
}

/// Numeric value of a digit string, most significant digit first.
pub open spec fn digits_val(t: Seq<char>) -> int
    decreases t.len(),
{
    if t.len() == 0 {
        0
    } else {
        digits_val(t.drop_last()) * 10 + digit_val(t.last())
    }
}

pub open spec fn all_digits(t: Seq<char>) -> bool {
    forall|i: int| 0 <= i < t.len() ==> is_digit(#[trigger] t[i])
}

/// The value of `t` read as a signed decimal integer the way the standard
/// integer parser reads it: an optional `+` or `-` sign, then one or more
/// digits, and the result must fit the signed 64-bit range.
pub open spec fn parse_i64_spec(t: Seq<char>) -> Option<int> {
    if t.len() == 0 {
        None
    } else {
        let (neg, ds) = if t[0] == '-' {
            (true, t.skip(1))
        } else if t[0] == '+' {
            (false, t.skip(1))
        } else {
            (false, t)
        };
        if ds.len() == 0 || !all_digits(ds) {
            None
        } else {
            let m = digits_val(ds);
            if neg {
                if m <= 0x8000_0000_0000_0000 {
                    Some(-m)
                } else {
                    None
                }
            } else {
                if m <= 0x7fff_ffff_ffff_ffff {
                    Some(m)
                } else {
                    None
                }
            }
        }
    }
}

/// The value of `t` read as an unsigned decimal index the way the standard
/// parser reads a `usize`: an optional `+` sign, then one or more digits,
/// fitting the platform's unsigned word.
pub open spec fn parse_usize_spec(t: Seq<char>) -> Option<int> {
    if t.len() == 0 {
        None
    } else {
        let ds = if t[0] == '+' {
            t.skip(1)
        } else {
            t
        };
        if ds.len() == 0 || !all_digits(ds) {
            None
        } else {
            let m = digits_val(ds);
            if m <= usize::MAX {
                Some(m)
            } else {
                None
            }
        }
    }
}

/// `t` with leading and trailing whitespace removed.
pub open spec fn trim_spec(t: Seq<char>) -> Seq<char> {
    let lo = trim_start(t, 0);
    let hi = trim_end(t, t.len() as int);
    if lo < hi {
        t.subrange(lo, hi)
    } else {
        Seq::empty()
    }
}

/// Index of the first non-whitespace character at or after `from`, or `t.len()`.
pub open spec fn trim_start(t: Seq<char>, from: int) -> int
    decreases t.len() - from,
{
    if from < 0 || from >= t.len() {
        t.len() as int
    } else if is_wspace(t[from]) {
        trim_start(t, from + 1)
    } else {
        from
    }
}

/// One past the last non-whitespace character strictly before `upto`, or `0`.
pub open spec fn trim_end(t: Seq<char>, upto: int) -> int
    decreases upto,
{
    if upto <= 0 || upto > t.len() {
        0
    } else if is_wspace(t[upto - 1]) {
        trim_end(t, upto - 1)
    } else {
        upto
    }
}

/// `token_end` never looks backwards and stays inside the string.
pub proof fn lemma_token_end_range(q: Seq<char>, from: int)
    requires
        0 <= from <= q.len(),
    ensures
        from <= token_end(q, from) <= q.len(),
    decreases q.len() - from,
{
    if from < q.len() && !is_token_char(q[from]) {
        lemma_token_end_range(q, from + 1);
    }
}

/// `find_char` never looks backwards and stays inside the string.
pub proof fn lemma_find_char_range(q: Seq<char>, c: char, from: int)
    requires
        0 <= from <= q.len(),
    ensures
        from <= find_char(q, c, from) <= q.len(),
    decreases q.len() - from,
{
    if from < q.len() && q[from] != c {
        lemma_find_char_range(q, c, from + 1);
    }
}

/// `find_either` never looks backwards and stays inside the string.
pub proof fn lemma_find_either_range(q: Seq<char>, a: char, b: char, from: int)
    requires
        0 <= from <= q.len(),
    ensures
        from <= find_either(q, a, b, from) <= q.len(),
    decreases q.len() - from,
{
    if from < q.len() && q[from] != a && q[from] != b {
        lemma_find_either_range(q, a, b, from + 1);
    }
}

/// Every prefix of a digit string reads as at most the whole string.
pub proof fn lemma_digits_val_bounds(t: Seq<char>, j: int)
    requires
        all_digits(t),
        0 <= j <= t.len(),
    ensures
        0 <= digits_val(t.take(j)) <= digits_val(t),
    decreases t.len(),
{
    if t.len() == 0 {
        assert(t.take(j) =~= t);
    } else {
        assert(all_digits(t.drop_last()));
        lemma_digits_val_bounds(t.drop_last(), if j <= t.len() - 1 { j } else { t.len() - 1 });
        if j == t.len() {
            assert(t.take(j) =~= t);
        } else {
            assert(t.take(j) =~= t.drop_last().take(j));
        }
        assert(0 <= digit_val(t.last()) <= 9);
    }
}

pub fn token_end_exec(s: &str, from: usize) -> (r: usize)
    requires
        from <= s@.len(),
    ensures
        r == token_end(s@, from as int),
        from <= r <= s@.len(),
    decreases s@.len() - from,
{
    if from >= s.unicode_len() {
        s.unicode_len()
    } else {
        let c = s.get_char(from);
        if c == ',' || c == '.' || c == '[' || c == ']' || c == ')' {
            from
        } else {
            token_end_exec(s, from + 1)
        }
    }
}

pub fn find_char_exec(s: &str, c: char, from: usize) -> (r: usize)
    requires
        from <= s@.len(),
    ensures
        r == find_char(s@, c, from as int),
        from <= r <= s@.len(),
    decreases s@.len() - from,
{
    if from >= s.unicode_len() {
        s.unicode_len()
    } else if s.get_char(from) == c {
        from
    } else {
        find_char_exec(s, c, from + 1)
    }
}

pub fn find_either_exec(s: &str, a: char, b: char, from: usize) -> (r: usize)
    requires
        from <= s@.len(),
    ensures
        r == find_either(s@, a, b, from as int),
        from <= r <= s@.len(),
    decreases s@.len() - from,
{
    if from >= s.unicode_len() {
        s.unicode_len()
    } else {
        let c = s.get_char(from);
        if c == a || c == b {
            from
        } else {
            find_either_exec(s, a, b, from + 1)
        }
    }
}

pub fn rfind_either_exec(s: &str, a: char, b: char, upto: usize) -> (r: Option<usize>)
    requires
        upto <= s@.len(),
    ensures
        match r {
            Some(i) => i == rfind_either(s@, a, b, upto as int) && i < upto,
            None => rfind_either(s@, a, b, upto as int) == -1,
        },
    decreases upto,
{
    if upto == 0 {
        None
    } else {
        let c = s.get_char(upto - 1);
        if c == a || c == b {
            Some(upto - 1)
        } else {
            rfind_either_exec(s, a, b, upto - 1)
        }
    }
}

pub fn starts_with_lit(s: &str, pat: &str, at: usize) -> (r: bool)
    requires
        at <= s@.len(),
    ensures
        r == starts_with_at(s@, pat@, at as int),
{
    let n = pat.unicode_len();
    if n > s.unicode_len() - at {
        return false;
    }
    let mut j: usize = 0;
    while j < n
        invariant
            at + n <= s@.len(),
            s@.len() <= usize::MAX,
            n == pat@.len(),
            0 <= j <= n,
            forall|k: int| 0 <= k < j ==> s@[at + k] == pat@[k],
        decreases n - j,
    {
        if s.get_char(at + j) != pat.get_char(j) {
            proof {
                assert(s@.subrange(at as int, at + pat@.len())[j as int] != pat@[j as int]);
            }
            return false;
        }
        j += 1;
    }
    proof {
        assert(s@.subrange(at as int, at + pat@.len()) =~= pat@);
    }
    true
}

pub fn find_sub_exec(s: &str, pat: &str, from: usize) -> (r: Option<usize>)
    requires
        from <= s@.len(),
        pat@.len() >= 1,
    ensures
        match r {
            Some(i) => i == find_sub(s@, pat@, from as int) && from <= i
                && i + pat@.len() <= s@.len(),
            None => find_sub(s@, pat@, from as int) == -1,
        },
    decreases s@.len() - from,
{
    if pat.unicode_len() > s.unicode_len() - from {
        None
    } else if starts_with_lit(s, pat, from) {
        Some(from)
    } else {
        find_sub_exec(s, pat, from + 1)
    }
}

pub fn str_eq(a: &str, b: &str) -> (r: bool)
    ensures
        r == (a@ == b@),
{
    let n = a.unicode_len();
    if n != b.unicode_len() {
        return false;
    }
    let mut i: usize = 0;
    while i < n
        invariant
            n == a@.len() == b@.len(),
            0 <= i <= n,
            forall|k: int| 0 <= k < i ==> a@[k] == b@[k],
        decreases n - i,
    {
        if a.get_char(i) != b.get_char(i) {
            return false;
        }
        i += 1;
    }
    proof {
        assert(a@ =~= b@);
    }
    true
}

pub fn trim_start_exec(s: &str, from: usize) -> (r: usize)
    requires
        from <= s@.len(),
    ensures
        r == trim_start(s@, from as int),
        from <= r <= s@.len(),
    decreases s@.len() - from,
{
    if from >= s.unicode_len() {
        s.unicode_len()
    } else {
        let c = s.get_char(from);
        if c == ' ' || c == '\t' || c == '\n' || c == '\r' {
            trim_start_exec(s, from + 1)
        } else {
            from
        }
    }
}

pub fn trim_end_exec(s: &str, upto: usize) -> (r: usize)
    requires
        upto <= s@.len(),
    ensures
        r == trim_end(s@, upto as int),
        r <= upto,
    decreases upto,
{
    if upto == 0 {
        0
    } else {
        let c = s.get_char(upto - 1);
        if c == ' ' || c == '\t' || c == '\n' || c == '\r' {
            trim_end_exec(s, upto - 1)
        } else {
            upto
        }
    }
}

/// The piece of `s` between `from` and `to` with surrounding whitespace
/// dropped, as an owned string.
pub fn trimmed_copy(s: &str, from: usize, to: usize) -> (r: String)
    requires
        from <= to <= s@.len(),
    ensures
        r@ == trim_spec(s@.subrange(from as int, to as int)),
{
    let lo = trim_start_exec(s, from);
    let lo = if lo > to {
        to
    } else {
        lo
    };
    let hi = trim_end_exec(s, to);
    let hi = if hi < from {
        from
    } else {
        hi
    };
    let ghost piece = s@.subrange(from as int, to as int);
    proof {
        lemma_trim_shift(s@, from as int, to as int);
    }
    if lo < hi {
        let r = s.substring_char(lo, hi).to_owned();
        proof {
            assert(r@ =~= trim_spec(piece));
        }
        r
    } else {
        let r = String::new();
        proof {
            assert(r@ =~= trim_spec(piece));
        }
        r
    }
}

/// Trimming a subrange of `s` is trimming within its bounds.
proof fn lemma_trim_shift(s: Seq<char>, from: int, to: int)
    requires
        0 <= from <= to <= s.len(),
    ensures
        ({
            let piece = s.subrange(from, to);
            let lo0 = trim_start(piece, 0);
            let hi0 = trim_end(piece, piece.len() as int);
            &&& trim_start(s, from) >= to ==> lo0 == piece.len()
            &&& trim_start(s, from) < to ==> lo0 == trim_start(s, from) - from
            &&& trim_end(s, to) <= from ==> hi0 == 0
            &&& trim_end(s, to) > from ==> hi0 == trim_end(s, to) - from
            &&& lo0 < hi0 ==> piece.subrange(lo0, hi0) == s.subrange(
                from + lo0,
                from + hi0,
            )
        }),
{
    let piece = s.subrange(from, to);
    lemma_trim_start_shift(s, from, to, from);
    lemma_trim_end_shift(s, from, to, to);
    lemma_trim_start_range(piece, 0);
    lemma_trim_end_range(piece, piece.len() as int);
    let lo0 = trim_start(piece, 0);
    let hi0 = trim_end(piece, piece.len() as int);
    if lo0 < hi0 {
        assert(piece.subrange(lo0, hi0) =~= s.subrange(from + lo0, from + hi0));
    }
}

/// `trim_start` never moves backwards and stays inside the string.
pub proof fn lemma_trim_start_range(s: Seq<char>, at: int)
    requires
        0 <= at <= s.len(),
    ensures
        at <= trim_start(s, at) <= s.len(),
    decreases s.len() - at,
{
    if at < s.len() && is_wspace(s[at]) {
        lemma_trim_start_range(s, at + 1);
    }
}

/// `trim_end` never moves forwards and stays inside the string.
pub proof fn lemma_trim_end_range(s: Seq<char>, at: int)
    requires
        0 <= at <= s.len(),
    ensures
        0 <= trim_end(s, at) <= at,
    decreases at,
{
    if at > 0 && is_wspace(s[at - 1]) {
        lemma_trim_end_range(s, at - 1);
    }
}

proof fn lemma_trim_start_shift(s: Seq<char>, from: int, to: int, at: int)
    requires
        0 <= from <= at <= to <= s.len(),
    ensures
        trim_start(s, at) >= to ==> trim_start(s.subrange(from, to), at - from) == to - from,
        trim_start(s, at) < to ==> trim_start(s.subrange(from, to), at - from) == trim_start(
            s,
            at,
        ) - from,
    decreases to - at,
{
    lemma_trim_start_range(s, at);
    lemma_trim_start_range(s.subrange(from, to), at - from);
    if at < to {
        if is_wspace(s[at]) {
            lemma_trim_start_shift(s, from, to, at + 1);
        }
    }
}

proof fn lemma_trim_end_shift(s: Seq<char>, from: int, to: int, at: int)
    requires
        0 <= from <= at <= to <= s.len(),
    ensures
        trim_end(s, at) <= from ==> trim_end(s.subrange(from, to), at - from) == 0,
        trim_end(s, at) > from ==> trim_end(s.subrange(from, to), at - from) == trim_end(s, at)
            - from,
    decreases at - from,
{
    lemma_trim_end_range(s, at);
    lemma_trim_end_range(s.subrange(from, to), at - from);
    if at > from {
        if is_wspace(s[at - 1]) {
            lemma_trim_end_shift(s, from, to, at - 1);
        }
    }
}

pub fn parse_u64_digits(s: &str, from: usize, to: usize, limit: u64) -> (r: Option<u64>)
    requires
        from <= to <= s@.len(),
        limit >= 9,
    ensures
        ({
            let ds = s@.subrange(from as int, to as int);
            match r {
                Some(m) => ds.len() > 0 && all_digits(ds) && m == digits_val(ds) && m <= limit,
                None => ds.len() == 0 || !all_digits(ds) || digits_val(ds) > limit,
            }
        }),
{
    let ghost ds = s@.subrange(from as int, to as int);
    if from == to {
        return None;
    }
    let mut acc: u64 = 0;
    let mut i: usize = from;
    while i < to
        invariant
            from <= i <= to <= s@.len(),
            limit >= 9,
            ds == s@.subrange(from as int, to as int),
            all_digits(ds.take(i - from)),
            acc == digits_val(ds.take(i - from)),
            acc <= limit,
        decreases to - i,
    {
        let c = s.get_char(i);
        if !(c >= '0' && c <= '9') {
            proof {
                assert(ds[i - from] == c);
            }
            return None;
        }
        let d: u64 = (c as u32 - '0' as u32) as u64;
        proof {
            assert(d <= 9);
            assert(ds.take(i + 1 - from).drop_last() =~= ds.take(i - from));
            assert(ds.take(i + 1 - from).last() == c);
        }
        if acc > (limit - d) / 10 {
            proof {
                assert(acc * 10 + d > limit) by (nonlinear_arith)
                    requires
                        acc > (limit - d) / 10,
                        d <= limit,
                        limit - d == (limit - d) / 10 * 10 + (limit - d) % 10,
                        0 <= (limit - d) % 10 < 10,
                ;
                if all_digits(ds) {
                    lemma_digits_val_bounds(ds, i + 1 - from);
                }
            }
            return None;
        }
        acc = acc * 10 + d;
        i += 1;
    }
    proof {
        assert(ds.take(to - from) =~= ds);
    }
    Some(acc)
}

pub fn parse_i64_exec(s: &str, from: usize, to: usize) -> (r: Option<i64>)
    requires
        from <= to <= s@.len(),
    ensures
        ({
            let t = s@.subrange(from as int, to as int);
            match r {
                Some(v) => parse_i64_spec(t) == Some(v as int),
                None => parse_i64_spec(t) is None,
            }
        }),
{
    let ghost t = s@.subrange(from as int, to as int);
    if from == to {
        return None;
    }
    let first = s.get_char(from);
    let neg = first == '-';
    let dstart = if first == '-' || first == '+' {
        from + 1
    } else {
        from
    };
    proof {
        assert(t.skip(1) =~= s@.subrange(from + 1, to as int));
    }
    let limit: u64 = if neg {
        9223372036854775808
    } else {
        9223372036854775807
    };
    match parse_u64_digits(s, dstart, to, limit) {
        None => None,
        Some(m) => {
            if neg {
                if m == 9223372036854775808 {
                    Some(i64::MIN)
                } else {
                    Some(-(m as i64))
                }
            } else {
                Some(m as i64)
            }
        },
    }
}

pub fn parse_usize_exec(s: &str, from: usize, to: usize) -> (r: Option<usize>)
    requires
        from <= to <= s@.len(),
    ensures
        ({
            let t = s@.subrange(from as int, to as int);
            match r {
                Some(v) => parse_usize_spec(t) == Some(v as int),
                None => parse_usize_spec(t) is None,
            }
        }),
{
    let ghost t = s@.subrange(from as int, to as int);
    if from == to {
        return None;
    }
    let first = s.get_char(from);
    let dstart = if first == '+' {
        from + 1
    } else {
        from
    };
    proof {
        assert(t.skip(1) =~= s@.subrange(from + 1, to as int));
    }
    match parse_u64_digits(s, dstart, to, usize::MAX as u64) {
        None => None,
        Some(m) => Some(m as usize),
    }
}

} // verus!
