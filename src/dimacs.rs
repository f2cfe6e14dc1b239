//! Reading DIMACS CNF text into clauses.
//!
//! The input is split into lines at `\n` (a final `\n` ends the last line and
//! opens no new one), each line into words at ASCII whitespace. Lines are then
//! read in order: a blank line ends the input, `c` lines are comments, the one
//! `p cnf <vars> <clauses>` line is the header, and every other line holds
//! signed integers, each `0` closing the clause being built.
use vstd::prelude::*;

use crate::types::{Clause, Literal};

verus! {

/// What went wrong on a line of the input.
#[derive(Debug, Clone, PartialEq, Eq)]
pub enum ParseIssue {
    /// The header's format word (given) is not `cnf`.
    NotCnf(Vec<u8>),
    /// The header's variable count (given) is not a `usize`.
    BadVarCount(Vec<u8>),
    /// The header's clause count (given) is not a `usize`.
    BadClauseCount(Vec<u8>),
    /// A clause token (given) is not an `i64`.
    BadLiteral(Vec<u8>),
    /// A second header; the line of the first one.
    HeaderRedefined(usize),
    /// A clause token before any header.
    ClauseBeforeHeader,
    /// A comment line while a clause is still open.
    UnterminatedClause,
    /// A literal (the token's value) whose variable exceeds the declared
    /// count (the second field).
    VarOutOfRange(i64, usize),
    /// A `0` that closes a clause with no literal.
    EmptyClause,
}

/// Why a DIMACS text was rejected.
#[derive(Debug, Clone, PartialEq, Eq)]
pub enum DimacsError {
    /// The input ended inside a line's header, inside a clause, before any
    /// header, or before any clause.
    UnexpectedEOF,
    /// A grammar error on the given 0-based line.
    Error(usize, ParseIssue),
}

/// A `ParseIssue` with its tokens as byte sequences.
pub enum IssueModel {
    NotCnf(Seq<u8>),
    BadVarCount(Seq<u8>),
    BadClauseCount(Seq<u8>),
    BadLiteral(Seq<u8>),
    HeaderRedefined(usize),
    ClauseBeforeHeader,
    UnterminatedClause,
    VarOutOfRange(i64, usize),
    EmptyClause,
}

/// A `DimacsError` with its tokens as byte sequences.
pub enum ErrorModel {
    UnexpectedEOF,
    Error(usize, IssueModel),
}

impl View for ParseIssue {
    type V = IssueModel;

    open spec fn view(&self) -> IssueModel {
        match self {
            ParseIssue::NotCnf(t) => IssueModel::NotCnf(t@),
            ParseIssue::BadVarCount(t) => IssueModel::BadVarCount(t@),
            ParseIssue::BadClauseCount(t) => IssueModel::BadClauseCount(t@),
            ParseIssue::BadLiteral(t) => IssueModel::BadLiteral(t@),
            ParseIssue::HeaderRedefined(l) => IssueModel::HeaderRedefined(*l),
            ParseIssue::ClauseBeforeHeader => IssueModel::ClauseBeforeHeader,
            ParseIssue::UnterminatedClause => IssueModel::UnterminatedClause,
            ParseIssue::VarOutOfRange(v, b) => IssueModel::VarOutOfRange(*v, *b),
            ParseIssue::EmptyClause => IssueModel::EmptyClause,
        }
    }
}

impl View for DimacsError {
    type V = ErrorModel;

    open spec fn view(&self) -> ErrorModel {
        match self {
            DimacsError::UnexpectedEOF => ErrorModel::UnexpectedEOF,
            DimacsError::Error(n, i) => ErrorModel::Error(*n, i@),
        }
    }
}

/// ASCII whitespace: space, tab, line feed, form feed, carriage return.
pub open spec fn is_space(b: u8) -> bool {
    b == 32 || b == 9 || b == 10 || b == 12 || b == 13
}

/// The lines of `s` after the scan has reached `i` inside a line that began at
/// `start`.
pub open spec fn lines_from(s: Seq<u8>, start: int, i: int) -> Seq<Seq<u8>>
    decreases s.len() - i,
{
    if i >= s.len() {
        if start < s.len() {
            seq![s.subrange(start, s.len() as int)]
        } else {
            seq![]
        }
    } else if s[i] == 10 {
        seq![s.subrange(start, i)] + lines_from(s, i + 1, i + 1)
    } else {
        lines_from(s, start, i + 1)
    }
}

/// The lines of `s`, without their `\n`.
pub open spec fn lines(s: Seq<u8>) -> Seq<Seq<u8>> {
    lines_from(s, 0, 0)
}

/// The words of `s` after the scan has reached `i` inside a word that began at
/// `start` (or at a separator, where `start == i`).
pub open spec fn words_from(s: Seq<u8>, start: int, i: int) -> Seq<Seq<u8>>
    decreases s.len() - i,
{
    if i >= s.len() {
        if start < s.len() {
            seq![s.subrange(start, s.len() as int)]
        } else {
            seq![]
        }
    } else if is_space(s[i]) {
        (if start < i {
            seq![s.subrange(start, i)]
        } else {
            seq![]
        }) + words_from(s, i + 1, i + 1)
    } else {
        words_from(s, start, i + 1)
    }
}

/// The maximal runs of non-whitespace bytes of `s`, in order.
pub open spec fn words(s: Seq<u8>) -> Seq<Seq<u8>> {
    words_from(s, 0, 0)
}

pub open spec fn is_digit(b: u8) -> bool {
    48 <= b <= 57
}

/// The number that a string of decimal digits denotes.
pub open spec fn digits_value(s: Seq<u8>) -> int
    decreases s.len(),
{
    if s.len() == 0 {
        0
    } else {
        digits_value(s.drop_last()) * 10 + (s.last() - 48)
    }
}

/// `s` is one or more decimal digits.
pub open spec fn all_digits(s: Seq<u8>) -> bool {
    s.len() > 0 && forall|k: int| 0 <= k < s.len() ==> is_digit(#[trigger] s[k])
}

/// The value of an optional `+` followed by decimal digits.
pub open spec fn unsigned_value(t: Seq<u8>) -> Option<int> {
    let body = if t.len() > 0 && t[0] == 43 {
        t.drop_first()
    } else {
        t
    };
    if all_digits(body) {
        Some(digits_value(body))
    } else {
        None
    }
}

/// The value of an optional sign (`+` or `-`) followed by decimal digits.
pub open spec fn signed_value(t: Seq<u8>) -> Option<int> {
    if t.len() > 0 && t[0] == 45 {
        if all_digits(t.drop_first()) {
            Some(-digits_value(t.drop_first()))
        } else {
            None
        }
    } else {
        unsigned_value(t)
    }
}

/// The `usize` that a token denotes, if it is one.
pub open spec fn usize_token(t: Seq<u8>) -> Option<usize> {
    match unsigned_value(t) {
        Some(v) => if v <= usize::MAX {
            Some(v as usize)
        } else {
            None
        },
        None => None,
    }
}

/// The `i64` that a token denotes, if it is one.
pub open spec fn i64_token(t: Seq<u8>) -> Option<i64> {
    match signed_value(t) {
        Some(v) => if i64::MIN <= v <= i64::MAX {
            Some(v as i64)
        } else {
            None
        },
        None => None,
    }
}

proof fn lemma_digits_prefix(s: Seq<u8>, k: int)
    requires
        forall|j: int| 0 <= j < s.len() ==> is_digit(#[trigger] s[j]),
        0 <= k <= s.len(),
    ensures
        0 <= digits_value(s.subrange(0, k)) <= digits_value(s),
    decreases s.len(),
{
    if k == s.len() {
        assert(s.subrange(0, k) =~= s);
        if s.len() > 0 {
            lemma_digits_prefix(s.drop_last(), k - 1);
            assert(s.drop_last().subrange(0, k - 1) =~= s.drop_last());
        }
    } else {
        let d = s.drop_last();
        lemma_digits_prefix(d, k);
        assert(d.subrange(0, k) =~= s.subrange(0, k));
        lemma_digits_prefix(d, d.len() as int);
        assert(d.subrange(0, d.len() as int) =~= d);
        assert(is_digit(s[s.len() - 1]));
    }
}

/// Reads the digits `t[from..]` as a number no greater than `limit`.
fn digits_at_most(t: &Vec<u8>, from: usize, limit: u64) -> (r: Option<u64>)
    requires
        from <= t@.len(),
    ensures
        r matches Some(v) ==> all_digits(t@.subrange(from as int, t@.len() as int)) && v
            == digits_value(t@.subrange(from as int, t@.len() as int)) && v <= limit,
        r is None ==> !all_digits(t@.subrange(from as int, t@.len() as int)) || digits_value(
            t@.subrange(from as int, t@.len() as int),
        ) > limit,
{
    let ghost body = t@.subrange(from as int, t@.len() as int);
    if from == t.len() {
        return None;
    }
    let mut acc: u64 = 0;
    let mut j: usize = from;
    while j < t.len()
        invariant
            from <= j <= t@.len(),
            body == t@.subrange(from as int, t@.len() as int),
            forall|k: int| from <= k < j ==> is_digit(#[trigger] t@[k]),
            acc == digits_value(t@.subrange(from as int, j as int)),
            acc <= limit,
        decreases t@.len() - j,
    {
        let b = t[j];
        if b < 48 || b > 57 {
            assert(!is_digit(body[j - from]));
            return None;
        }
        let next: u128 = (acc as u128) * 10 + ((b - 48) as u128);
        assert(t@.subrange(from as int, j + 1).drop_last() =~= t@.subrange(from as int, j as int));
        if next > limit as u128 {
            proof {
                if all_digits(body) {
                    lemma_digits_prefix(body, j + 1 - from);
                    assert(body.subrange(0, j + 1 - from) =~= t@.subrange(from as int, j + 1));
                }
            }
            return None;
        }
        acc = next as u64;
        j += 1;
    }
    assert(t@.subrange(from as int, j as int) =~= body);
    Some(acc)
}

/// Parses a token as a `usize` (an optional `+`, then decimal digits).
fn parse_usize(t: &Vec<u8>) -> (r: Option<usize>)
    ensures
        r == usize_token(t@),
{
    let from: usize = if t.len() > 0 && t[0] == 43 {
        1
    } else {
        0
    };
    let ghost body = if t@.len() > 0 && t@[0] == 43 {
        t@.drop_first()
    } else {
        t@
    };
    assert(body =~= t@.subrange(from as int, t@.len() as int));
    match digits_at_most(t, from, usize::MAX as u64) {
        Some(v) => Some(v as usize),
        None => None,
    }
}

/// Parses a token as an `i64` (an optional sign, then decimal digits).
fn parse_i64(t: &Vec<u8>) -> (r: Option<i64>)
    ensures
        r == i64_token(t@),
{
    if t.len() > 0 && t[0] == 45 {
        assert(t@.drop_first() =~= t@.subrange(1, t@.len() as int));
        match digits_at_most(t, 1, 0x8000_0000_0000_0000u64) {
            Some(m) => Some((-(m as i128)) as i64),
            None => None,
        }
    } else {
        let from: usize = if t.len() > 0 && t[0] == 43 {
            1
        } else {
            0
        };
        let ghost body = if t@.len() > 0 && t@[0] == 43 {
            t@.drop_first()
        } else {
            t@
        };
        assert(body =~= t@.subrange(from as int, t@.len() as int));
        match digits_at_most(t, from, 0x7fff_ffff_ffff_ffffu64) {
            Some(v) => Some(v as i64),
            None => None,
        }
    }
}

/// What has been read so far: the header's line and variable count once it
/// has been seen, the closed clauses, and the literals of the open clause.
pub struct ReadState {
    pub header: Option<(usize, usize)>,
    pub clauses: Seq<Seq<Literal>>,
    pub pending: Seq<Literal>,
}

/// The state before the first line.
pub open spec fn initial_state() -> ReadState {
    ReadState { header: None, clauses: seq![], pending: seq![] }
}

/// The outcome of reading one line.
pub enum LineStep {
    /// Go on with the next line from this state.
    Next(ReadState),
    /// A blank line: the input ends here, in this state.
    Stop(ReadState),
    /// The input is rejected.
    Fail(ErrorModel),
}

/// The absolute value of a clause token.
pub open spec fn magnitude(v: i64) -> int {
    if v < 0 {
        -v
    } else {
        v as int
    }
}

/// Reads one clause token on line `n`, where the header declared `bound`
/// variables.
pub open spec fn read_token(st: ReadState, n: usize, bound: usize, t: Seq<u8>) -> Result<
    ReadState,
    ErrorModel,
> {
    match i64_token(t) {
        None => Err(ErrorModel::Error(n, IssueModel::BadLiteral(t))),
        Some(v) => if v == 0 {
            if st.pending.len() == 0 {
                Err(ErrorModel::Error(n, IssueModel::EmptyClause))
            } else {
                Ok(ReadState { clauses: st.clauses.push(st.pending), pending: seq![], ..st })
            }
        } else if magnitude(v) > bound {
            Err(ErrorModel::Error(n, IssueModel::VarOutOfRange(v, bound)))
        } else {
            Ok(ReadState { pending: st.pending.push(Literal::of_token(v as int)), ..st })
        },
    }
}

/// Reads the clause tokens `ts` of line `n` in order, stopping at the first
/// error.
pub open spec fn read_tokens(st: ReadState, n: usize, bound: usize, ts: Seq<Seq<u8>>) -> Result<
    ReadState,
    ErrorModel,
>
    decreases ts.len(),
{
    if ts.len() == 0 {
        Ok(st)
    } else {
        match read_token(st, n, bound, ts[0]) {
            Ok(next) => read_tokens(next, n, bound, ts.drop_first()),
            Err(e) => Err(e),
        }
    }
}

/// The word `c`.
pub open spec fn word_c() -> Seq<u8> {
    seq![99u8]
}

/// The word `p`.
pub open spec fn word_p() -> Seq<u8> {
    seq![112u8]
}

/// The word `cnf`.
pub open spec fn word_cnf() -> Seq<u8> {
    seq![99u8, 110u8, 102u8]
}

/// Reads line `n`, given as its words.
pub open spec fn read_line(st: ReadState, n: usize, ws: Seq<Seq<u8>>) -> LineStep {
    if ws.len() == 0 {
        if st.pending.len() > 0 {
            LineStep::Fail(ErrorModel::UnexpectedEOF)
        } else {
            LineStep::Stop(st)
        }
    } else if ws[0] == word_c() {
        if st.pending.len() > 0 {
            LineStep::Fail(ErrorModel::Error(n, IssueModel::UnterminatedClause))
        } else {
            LineStep::Next(st)
        }
    } else if ws[0] == word_p() {
        if ws.len() < 2 {
            LineStep::Fail(ErrorModel::UnexpectedEOF)
        } else if ws[1] != word_cnf() {
            LineStep::Fail(ErrorModel::Error(n, IssueModel::NotCnf(ws[1])))
        } else {
            match st.header {
                Some(h) => LineStep::Fail(ErrorModel::Error(n, IssueModel::HeaderRedefined(h.0))),
                None => if ws.len() < 3 {
                    LineStep::Fail(ErrorModel::UnexpectedEOF)
                } else {
                    match usize_token(ws[2]) {
                        None => LineStep::Fail(ErrorModel::Error(n, IssueModel::BadVarCount(ws[2]))),
                        Some(vars) => if ws.len() < 4 {
                            LineStep::Fail(ErrorModel::UnexpectedEOF)
                        } else {
                            match usize_token(ws[3]) {
                                None => LineStep::Fail(
                                    ErrorModel::Error(n, IssueModel::BadClauseCount(ws[3])),
                                ),
                                Some(_) => LineStep::Next(
                                    ReadState { header: Some((n, vars)), ..st },
                                ),
                            }
                        },
                    }
                },
            }
        }
    } else {
        match st.header {
            None => LineStep::Fail(ErrorModel::Error(n, IssueModel::ClauseBeforeHeader)),
            Some(h) => match read_tokens(st, n, h.1, ws) {
                Ok(next) => LineStep::Next(next),
                Err(e) => LineStep::Fail(e),
            },
        }
    }
}

/// The end of the input: a header and at least one clause must have been
/// read, and no clause may be left open.
pub open spec fn finish(st: ReadState) -> Result<Seq<Seq<Literal>>, ErrorModel> {
    if st.header is None || st.pending.len() > 0 || st.clauses.len() == 0 {
        Err(ErrorModel::UnexpectedEOF)
    } else {
        Ok(st.clauses)
    }
}

/// Reads the lines `ls`, the first of them being line `n`.
pub open spec fn read_lines(st: ReadState, ls: Seq<Seq<u8>>, n: int) -> Result<
    Seq<Seq<Literal>>,
    ErrorModel,
>
    decreases ls.len(),
{
    if ls.len() == 0 {
        finish(st)
    } else {
        match read_line(st, n as usize, words(ls[0])) {
            LineStep::Next(next) => read_lines(next, ls.drop_first(), n + 1),
            LineStep::Stop(last) => finish(last),
            LineStep::Fail(e) => Err(e),
        }
    }
}

/// The clauses of a DIMACS text, or the error that rejects it.
pub open spec fn dimacs(s: Seq<u8>) -> Result<Seq<Seq<Literal>>, ErrorModel> {
    read_lines(initial_state(), lines(s), 0)
}

/// The clauses as sequences of literals.
pub open spec fn clause_views(cs: Seq<Clause>) -> Seq<Seq<Literal>> {
    cs.map_values(|c: Clause| c@)
}

/// The words as byte sequences.
pub open spec fn word_views(ws: Seq<Vec<u8>>) -> Seq<Seq<u8>> {
    ws.map_values(|w: Vec<u8>| w@)
}

/// A copy of a token.
fn copy_bytes(t: &Vec<u8>) -> (r: Vec<u8>)
    ensures
        r@ == t@,
{
    let mut r: Vec<u8> = Vec::new();
    let mut i: usize = 0;
    while i < t.len()
        invariant
            i <= t@.len(),
            r@ == t@.subrange(0, i as int),
        decreases t@.len() - i,
    {
        r.push(t[i]);
        i += 1;
        assert(r@ =~= t@.subrange(0, i as int));
    }
    assert(r@ =~= t@);
    r
}

/// Splits a line into its words.
fn split_words(line: &Vec<u8>) -> (r: Vec<Vec<u8>>)
    ensures
        word_views(r@) == words(line@),
{
    let ghost s = line@;
    let mut out: Vec<Vec<u8>> = Vec::new();
    let mut cur: Vec<u8> = Vec::new();
    let mut start: usize = 0;
    let mut i: usize = 0;
    while i < line.len()
        invariant
            s == line@,
            start <= i <= s.len(),
            cur@ == s.subrange(start as int, i as int),
            words(s) == word_views(out@) + words_from(s, start as int, i as int),
        decreases s.len() - i,
    {
        let b = line[i];
        if b == 32 || b == 9 || b == 10 || b == 12 || b == 13 {
            let ghost old_out = word_views(out@);
            if start < i {
                out.push(cur);
                assert(word_views(out@) =~= old_out.push(s.subrange(start as int, i as int)));
            }
            assert(words_from(s, start as int, i as int) == (if start < i {
                seq![s.subrange(start as int, i as int)]
            } else {
                seq![]
            }) + words_from(s, i + 1, i + 1));
            assert(word_views(out@) + words_from(s, i + 1, i + 1) =~= old_out + words_from(
                s,
                start as int,
                i as int,
            ));
            cur = Vec::new();
            start = i + 1;
        } else {
            cur.push(b);
            assert(cur@ =~= s.subrange(start as int, i + 1));
        }
        i += 1;
    }
    if start < line.len() {
        let ghost old_out = word_views(out@);
        out.push(cur);
        assert(word_views(out@) =~= old_out.push(s.subrange(start as int, s.len() as int)));
        assert(word_views(out@) =~= old_out + words_from(s, start as int, i as int));
    } else {
        assert(word_views(out@) =~= word_views(out@) + words_from(s, start as int, i as int));
    }
    out
}

/// Whether a line holds no word: such a line ends the input.
pub fn is_blank(line: &Vec<u8>) -> (r: bool)
    ensures
        r == (words(line@).len() == 0),
{
    let ws = split_words(line);
    ws.len() == 0
}

/// Bookkeeping of one parse once its header has been read.
struct ParserState {
    header_line: usize,
    vars_seen: Vec<bool>,
    expected_clauses: usize,
    expected_vars: usize,
}

impl ParserState {
    /// `vars_seen` grows to the greatest variable seen so far.
    spec fn wf(&self) -> bool {
        self.vars_seen@.len() <= self.expected_vars
    }

    /// The seen marker of each variable `0..=expected_vars` (slot 0 is never
    /// set); `vars_seen` stores the marks of `1..=vars_seen.len()`.
    spec fn marks(&self) -> Seq<bool> {
        Seq::new(
            (self.expected_vars + 1) as nat,
            |v: int| 1 <= v <= self.vars_seen@.len() && self.vars_seen@[v - 1],
        )
    }

    fn new(header_line: usize, expected_vars: usize, expected_clauses: usize) -> (r: ParserState)
        ensures
            r.header_line == header_line,
            r.expected_vars == expected_vars,
            r.expected_clauses == expected_clauses,
            r.marks() == Seq::new((expected_vars + 1) as nat, |v: int| false),
            r.wf(),
    {
        let r = ParserState {
            header_line: header_line,
            vars_seen: Vec::new(),
            expected_vars: expected_vars,
            expected_clauses: expected_clauses,
        };
        assert(r.marks() =~= Seq::new((expected_vars + 1) as nat, |v: int| false));
        r
    }

    /// Records that variable `var` occurs.
    fn mark_seen(&mut self, var: usize)
        requires
            old(self).wf(),
            1 <= var <= old(self).expected_vars,
        ensures
            final(self).wf(),
            final(self).header_line == old(self).header_line,
            final(self).expected_vars == old(self).expected_vars,
            final(self).expected_clauses == old(self).expected_clauses,
            final(self).marks() == old(self).marks().update(var as int, true),
    {
        while self.vars_seen.len() < var
            invariant
                self.vars_seen@.len() <= self.expected_vars,
                self.marks() == old(self).marks(),
                var <= self.expected_vars,
                self.header_line == old(self).header_line,
                self.expected_vars == old(self).expected_vars,
                self.expected_clauses == old(self).expected_clauses,
            decreases var - self.vars_seen@.len(),
        {
            let ghost before = self.marks();
            self.vars_seen.push(false);
            assert(self.marks() =~= before);
        }
        let ghost before = self.marks();
        self.vars_seen.set(var - 1, true);
        assert(self.marks() =~= before.update(var as int, true));
    }
}

/// The exec side of a `ReadState`.
struct Reader {
    state: Option<ParserState>,
    clauses: Vec<Clause>,
    pending: Vec<Literal>,
}

/// What reading a line did.
enum Step {
    Next,
    Stop,
    Fail(DimacsError),
}

impl Reader {
    spec fn view(&self) -> ReadState {
        ReadState {
            header: match self.state {
                Some(p) => Some((p.header_line, p.expected_vars)),
                None => None,
            },
            clauses: clause_views(self.clauses@),
            pending: self.pending@,
        }
    }

    spec fn wf(&self) -> bool {
        self.state matches Some(p) ==> p.wf()
    }

    /// Reads one clause token.
    fn read_token(&mut self, n: usize, t: &Vec<u8>) -> (r: Option<DimacsError>)
        requires
            old(self).wf(),
            old(self).state is Some,
        ensures
            final(self).wf(),
            final(self).state is Some,
            match read_token(old(self).view(), n, old(self).view().header.unwrap().1, t@) {
                Ok(next) => r is None && final(self).view() == next,
                Err(e) => r matches Some(x) && x@ == e,
            },
    {
        let ghost st = self.view();
        let bound = match &self.state {
            Some(p) => p.expected_vars,
            None => 0,
        };
        match parse_i64(t) {
            None => Some(DimacsError::Error(n, ParseIssue::BadLiteral(copy_bytes(t)))),
            Some(v) => {
                if v == 0 {
                    if self.pending.len() == 0 {
                        Some(DimacsError::Error(n, ParseIssue::EmptyClause))
                    } else {
                        let mut lits: Vec<Literal> = Vec::new();
                        std::mem::swap(&mut lits, &mut self.pending);
                        self.clauses.push(Clause::from_variables(lits));
                        assert(clause_views(self.clauses@) =~= st.clauses.push(st.pending));
                        assert(self.pending@ =~= Seq::<Literal>::empty());
                        None
                    }
                } else {
                    let mag: u128 = if v < 0 {
                        (-(v as i128)) as u128
                    } else {
                        v as u128
                    };
                    if mag > bound as u128 {
                        Some(DimacsError::Error(n, ParseIssue::VarOutOfRange(v, bound)))
                    } else {
                        let lit = Literal::from_dimacs_token(v);
                        let var = lit.var();
                        match &mut self.state {
                            Some(p) => p.mark_seen(var),
                            None => {},
                        }
                        self.pending.push(lit);
                        None
                    }
                }
            },
        }
    }

    /// Reads one line, given as its words.
    fn read_line(&mut self, n: usize, ws: &Vec<Vec<u8>>) -> (r: Step)
        requires
            old(self).wf(),
        ensures
            final(self).wf(),
            match read_line(old(self).view(), n, word_views(ws@)) {
                LineStep::Next(next) => r is Next && final(self).view() == next,
                LineStep::Stop(last) => r is Stop && final(self).view() == last,
                LineStep::Fail(e) => r matches Step::Fail(x) && x@ == e,
            },
    {
        let ghost wv = word_views(ws@);
        if ws.len() == 0 {
            if self.pending.len() > 0 {
                return Step::Fail(DimacsError::UnexpectedEOF);
            }
            return Step::Stop;
        }
        assert(ws[0]@ == wv[0]);
        if is_word_c(&ws[0]) {
            if self.pending.len() > 0 {
                return Step::Fail(DimacsError::Error(n, ParseIssue::UnterminatedClause));
            }
            return Step::Next;
        }
        if is_word_p(&ws[0]) {
            if ws.len() < 2 {
                return Step::Fail(DimacsError::UnexpectedEOF);
            }
            assert(ws[1]@ == wv[1]);
            if !is_word_cnf(&ws[1]) {
                return Step::Fail(DimacsError::Error(n, ParseIssue::NotCnf(copy_bytes(&ws[1]))));
            }
            match &self.state {
                Some(p) => {
                    return Step::Fail(
                        DimacsError::Error(n, ParseIssue::HeaderRedefined(p.header_line)),
                    );
                },
                None => {},
            }
            if ws.len() < 3 {
                return Step::Fail(DimacsError::UnexpectedEOF);
            }
            assert(ws[2]@ == wv[2]);
            let vars = match parse_usize(&ws[2]) {
                Some(v) => v,
                None => {
                    return Step::Fail(
                        DimacsError::Error(n, ParseIssue::BadVarCount(copy_bytes(&ws[2]))),
                    );
                },
            };
            if ws.len() < 4 {
                return Step::Fail(DimacsError::UnexpectedEOF);
            }
            assert(ws[3]@ == wv[3]);
            let count = match parse_usize(&ws[3]) {
                Some(c) => c,
                None => {
                    return Step::Fail(
                        DimacsError::Error(n, ParseIssue::BadClauseCount(copy_bytes(&ws[3]))),
                    );
                },
            };
            self.state = Some(ParserState::new(n, vars, count));
            return Step::Next;
        }
        if self.state.is_none() {
            return Step::Fail(DimacsError::Error(n, ParseIssue::ClauseBeforeHeader));
        }
        let ghost st0 = self.view();
        let ghost bound = st0.header.unwrap().1;
        assert(wv.subrange(0, wv.len() as int) =~= wv);
        let mut k: usize = 0;
        while k < ws.len()
            invariant
                k <= wv.len(),
                wv == word_views(ws@),
                wv.len() > 0,
                wv[0] != word_c(),
                wv[0] != word_p(),
                st0 == old(self).view(),
                self.wf(),
                self.state is Some,
                self.view().header == st0.header,
                bound == st0.header.unwrap().1,
                read_tokens(st0, n, bound, wv) == read_tokens(
                    self.view(),
                    n,
                    bound,
                    wv.subrange(k as int, wv.len() as int),
                ),
            decreases wv.len() - k,
        {
            assert(wv.subrange(k as int, wv.len() as int).drop_first() =~= wv.subrange(
                k + 1,
                wv.len() as int,
            ));
            assert(ws[k as int]@ == wv[k as int]);
            assert(wv.subrange(k as int, wv.len() as int)[0] == wv[k as int]);
            let ghost before = self.view();
            match self.read_token(n, &ws[k]) {
                Some(e) => {
                    assert(read_token(before, n, bound, wv[k as int]) == Err::<ReadState, ErrorModel>(e@));
                    assert(read_tokens(before, n, bound, wv.subrange(k as int, wv.len() as int))
                        == Err::<ReadState, ErrorModel>(e@));


                    return Step::Fail(e);
                },
                None => {},
            }
            k += 1;
        }
        assert(wv.subrange(k as int, wv.len() as int) =~= Seq::<Seq<u8>>::empty());
        Step::Next
    }

    /// Ends the input.
    fn finish(self) -> (r: Result<Vec<Clause>, DimacsError>)
        ensures
            match finish(self.view()) {
                Ok(cs) => r matches Ok(v) && clause_views(v@) == cs,
                Err(e) => r matches Err(x) && x@ == e,
            },
    {
        if self.state.is_none() || self.pending.len() > 0 || self.clauses.len() == 0 {
            Err(DimacsError::UnexpectedEOF)
        } else {
            Ok(self.clauses)
        }
    }
}

fn is_word_c(w: &Vec<u8>) -> (r: bool)
    ensures
        r == (w@ == word_c()),
{
    let r = w.len() == 1 && w[0] == 99;
    if r {
        assert(w@ =~= word_c());
    }
    r
}

fn is_word_p(w: &Vec<u8>) -> (r: bool)
    ensures
        r == (w@ == word_p()),
{
    let r = w.len() == 1 && w[0] == 112;
    if r {
        assert(w@ =~= word_p());
    }
    r
}

fn is_word_cnf(w: &Vec<u8>) -> (r: bool)
    ensures
        r == (w@ == word_cnf()),
{
    let r = w.len() == 3 && w[0] == 99 && w[1] == 110 && w[2] == 102;
    if r {
        assert(w@ =~= word_cnf());
    }
    r
}

/// Reads a DIMACS CNF text into its clauses, in the order of the input and
/// with the literals of each clause in order. The clause boundaries are the
/// `0` tokens, wherever the line breaks fall.
pub fn parse_from(src: &[u8]) -> (r: Result<Vec<Clause>, DimacsError>)
    ensures
        match dimacs(src@) {
            Ok(cs) => r matches Ok(v) && clause_views(v@) == cs,
            Err(e) => r matches Err(x) && x@ == e,
        },
{
    let ghost s = src@;
    let mut reader = Reader { state: None, clauses: Vec::new(), pending: Vec::new() };
    assert(reader.view().clauses =~= initial_state().clauses);
    assert(reader.view().pending =~= initial_state().pending);
    let mut line: Vec<u8> = Vec::new();
    let mut n: usize = 0;
    let mut start: usize = 0;
    let mut i: usize = 0;
    while i < src.len()
        invariant
            s == src@,
            n <= start <= i <= s.len(),
            line@ == s.subrange(start as int, i as int),
            reader.wf(),
            dimacs(s) == read_lines(reader.view(), lines_from(s, start as int, i as int), n as int),
        decreases s.len() - i,
    {
        if src[i] == 10 {
            let ghost rest = lines_from(s, i + 1, i + 1);
            let ghost ls = seq![line@] + rest;
            assert(ls[0] == line@);
            assert(ls.drop_first() =~= rest);
            let ws = split_words(&line);
            match reader.read_line(n, &ws) {
                Step::Next => {},
                Step::Stop => {
                    return reader.finish();
                },
                Step::Fail(e) => {
                    return Err(e);
                },
            }
            line = Vec::new();
            n += 1;
            start = i + 1;
        } else {
            line.push(src[i]);
            assert(line@ =~= s.subrange(start as int, i + 1));
        }
        i += 1;
    }
    if start < src.len() {
        let ghost ls = seq![line@];
        assert(lines_from(s, start as int, i as int) == ls);
        assert(ls.drop_first() =~= Seq::<Seq<u8>>::empty());
        let ws = split_words(&line);
        match reader.read_line(n, &ws) {
            Step::Next => {
                assert(read_lines(reader.view(), Seq::<Seq<u8>>::empty(), n + 1) == finish(
                    reader.view(),
                ));
            },
            Step::Stop => {},
            Step::Fail(e) => {
                return Err(e);
            },
        }
    } else {
        assert(lines_from(s, start as int, i as int) == Seq::<Seq<u8>>::empty());
    }
    reader.finish()
}

} // verus!
