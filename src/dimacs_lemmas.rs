//! Facts about the DIMACS reading rules of `dimacs`.
use vstd::prelude::*;

use crate::dimacs::{
    dimacs, finish, i64_token, initial_state, lines, magnitude, read_line, read_lines, read_token,
    read_tokens, signed_value, usize_token, word_c, word_cnf, word_p, words, is_digit, ErrorModel,
    LineStep, IssueModel, ReadState,
};
use crate::types::{vars_between, Literal};

verus! {

proof fn lemma_read_lines_some_clause(st: ReadState, ls: Seq<Seq<u8>>, n: int)
    ensures
        read_lines(st, ls, n) matches Ok(cs) ==> cs.len() > 0,
    decreases ls.len(),
{
    if ls.len() > 0 {
        match read_line(st, n as usize, words(ls[0])) {
            LineStep::Next(next) => lemma_read_lines_some_clause(next, ls.drop_first(), n + 1),
            _ => {},
        }
    }
}

/// A text is accepted only with at least one clause: one with a valid header
/// and no clause is rejected.
pub proof fn lemma_no_clauses_rejected(s: Seq<u8>)
    ensures
        dimacs(s) matches Ok(cs) ==> cs.len() > 0,
{
    lemma_read_lines_some_clause(initial_state(), lines(s), 0);
}

/// The DIMACS integer of a literal.
pub open spec fn literal_code(l: Literal) -> int {
    if l.positive() {
        l.index() as int
    } else {
        -(l.index() as int)
    }
}

/// The integers that write a clause: its literals, then `0`.
pub open spec fn clause_codes(c: Seq<Literal>) -> Seq<int> {
    c.map_values(|l: Literal| literal_code(l)).push(0)
}

/// The integers that write the clauses, one after another.
pub open spec fn formula_codes(cs: Seq<Seq<Literal>>) -> Seq<int> {
    cs.map_values(|c: Seq<Literal>| clause_codes(c)).flatten()
}

/// Each token of `ts` denotes the integer of `codes` at its place.
pub open spec fn spells(ts: Seq<Seq<u8>>, codes: Seq<int>) -> bool {
    &&& ts.len() == codes.len()
    &&& forall|k: int| 0 <= k < ts.len() ==> signed_value(#[trigger] ts[k]) == Some(codes[k])
}

proof fn lemma_read_tokens_append(
    st: ReadState,
    n: usize,
    b: usize,
    t1: Seq<Seq<u8>>,
    t2: Seq<Seq<u8>>,
)
    ensures
        read_tokens(st, n, b, t1 + t2) == match read_tokens(st, n, b, t1) {
            Ok(m) => read_tokens(m, n, b, t2),
            Err(e) => Err(e),
        },
    decreases t1.len(),
{
    if t1.len() == 0 {
        assert(t1 + t2 =~= t2);
    } else {
        assert((t1 + t2).drop_first() =~= t1.drop_first() + t2);
        assert((t1 + t2)[0] == t1[0]);
        match read_token(st, n, b, t1[0]) {
            Ok(m) => lemma_read_tokens_append(m, n, b, t1.drop_first(), t2),
            Err(_) => {},
        }
    }
}

proof fn lemma_read_tokens_any_line(st: ReadState, n1: usize, n2: usize, b: usize, t: Seq<Seq<u8>>)
    requires
        read_tokens(st, n1, b, t) is Ok,
    ensures
        read_tokens(st, n2, b, t) == read_tokens(st, n1, b, t),
        (read_tokens(st, n1, b, t)->Ok_0).header == st.header,
    decreases t.len(),
{
    if t.len() > 0 {
        let m = (read_token(st, n1, b, t[0])->Ok_0);
        lemma_read_tokens_any_line(m, n1, n2, b, t.drop_first());
    }
}

proof fn lemma_numeric_word(t: Seq<u8>)
    requires
        signed_value(t) is Some,
    ensures
        t != word_c(),
        t != word_p(),
{
    if t == word_c() {
        assert(!is_digit(t[0]));
    }
    if t == word_p() {
        assert(!is_digit(t[0]));
    }
}

proof fn lemma_read_literals(st: ReadState, n: usize, b: usize, c: Seq<Literal>, ts: Seq<Seq<u8>>)
    requires
        spells(ts, c.map_values(|l: Literal| literal_code(l))),
        forall|j: int| 0 <= j < c.len() ==> 1 <= (#[trigger] c[j]).index() <= b,
        forall|j: int| 0 <= j < c.len() ==> (#[trigger] c[j]).index() <= i64::MAX,
    ensures
        read_tokens(st, n, b, ts) == Ok::<ReadState, ErrorModel>(
            ReadState { pending: st.pending + c, ..st },
        ),
    decreases c.len(),
{
    if c.len() == 0 {
        assert(st.pending + c =~= st.pending);
    } else {
        let l = c[0];
        assert(signed_value(ts[0]) == Some(literal_code(l)));
        let v = literal_code(l) as i64;
        assert(i64_token(ts[0]) == Some(v));
        assert(Literal::of_token(v as int) == l);
        let m = ReadState { pending: st.pending.push(l), ..st };
        assert(read_token(st, n, b, ts[0]) == Ok::<ReadState, ErrorModel>(m));
        let rest = c.drop_first();
        assert(c.map_values(|l: Literal| literal_code(l)).drop_first() =~= rest.map_values(
            |l: Literal| literal_code(l),
        ));
        assert forall|j: int| 0 <= j < rest.len() implies 1 <= (#[trigger] rest[j]).index() <= b
            && rest[j].index() <= i64::MAX by {
            assert(rest[j] == c[j + 1]);
        }
        lemma_read_literals(m, n, b, rest, ts.drop_first());
        assert(m.pending + rest =~= st.pending + c);
    }
}

proof fn lemma_read_clause(st: ReadState, n: usize, b: usize, c: Seq<Literal>, ts: Seq<Seq<u8>>)
    requires
        st.pending.len() == 0,
        c.len() > 0,
        spells(ts, clause_codes(c)),
        forall|j: int| 0 <= j < c.len() ==> 1 <= (#[trigger] c[j]).index() <= b,
        forall|j: int| 0 <= j < c.len() ==> (#[trigger] c[j]).index() <= i64::MAX,
    ensures
        read_tokens(st, n, b, ts) == Ok::<ReadState, ErrorModel>(
            ReadState { clauses: st.clauses.push(c), pending: seq![], ..st },
        ),
{
    let k = c.len() as int;
    let lits = ts.subrange(0, k);
    let zero = ts.subrange(k, k + 1);
    assert(ts =~= lits + zero);
    let codes = c.map_values(|l: Literal| literal_code(l));
    assert forall|j: int| 0 <= j < lits.len() implies signed_value(#[trigger] lits[j]) == Some(
        codes[j],
    ) by {
        assert(lits[j] == ts[j]);
    }
    lemma_read_literals(st, n, b, c, lits);
    lemma_read_tokens_append(st, n, b, lits, zero);
    let m = ReadState { pending: st.pending + c, ..st };
    assert(st.pending + c =~= c);
    assert(signed_value(zero[0]) == Some(0int));
    assert(zero.drop_first() =~= Seq::<Seq<u8>>::empty());
    let done = ReadState { clauses: st.clauses.push(c), pending: seq![], ..st };
    assert(read_token(m, n, b, zero[0]) == Ok::<ReadState, ErrorModel>(done));
    assert(read_tokens(done, n, b, zero.drop_first()) == Ok::<ReadState, ErrorModel>(done));
    assert(read_tokens(m, n, b, zero) == Ok::<ReadState, ErrorModel>(done));
    assert(read_tokens(st, n, b, lits) == Ok::<ReadState, ErrorModel>(m));
}

proof fn lemma_read_formula(
    st: ReadState,
    n: usize,
    b: usize,
    cs: Seq<Seq<Literal>>,
    ts: Seq<Seq<u8>>,
)
    requires
        st.pending.len() == 0,
        forall|i: int| 0 <= i < cs.len() ==> (#[trigger] cs[i]).len() > 0,
        spells(ts, formula_codes(cs)),
        vars_between(cs, 1, b as int),
        vars_between(cs, 1, i64::MAX as int),
    ensures
        read_tokens(st, n, b, ts) == Ok::<ReadState, ErrorModel>(
            ReadState { clauses: st.clauses + cs, pending: seq![], ..st },
        ),
    decreases cs.len(),
{
    let f = |c: Seq<Literal>| clause_codes(c);
    if cs.len() == 0 {
        assert(formula_codes(cs) =~= Seq::<int>::empty());
        assert(st.clauses + cs =~= st.clauses);
        assert(st.pending =~= seq![]);
    } else {
        let c = cs[0];
        let rest = cs.drop_first();
        assert(cs.map_values(f).drop_first() =~= rest.map_values(f));
        assert(formula_codes(cs) == clause_codes(c) + formula_codes(rest));
        let k = clause_codes(c).len() as int;
        let t1 = ts.subrange(0, k);
        let t2 = ts.subrange(k, ts.len() as int);
        assert(ts =~= t1 + t2);
        assert forall|j: int| 0 <= j < t1.len() implies signed_value(#[trigger] t1[j]) == Some(
            clause_codes(c)[j],
        ) by {
            assert(t1[j] == ts[j]);
        }
        assert forall|j: int| 0 <= j < t2.len() implies signed_value(#[trigger] t2[j]) == Some(
            formula_codes(rest)[j],
        ) by {
            assert(t2[j] == ts[j + k]);
        }
        assert forall|j: int| 0 <= j < c.len() implies 1 <= (#[trigger] c[j]).index() <= b
            && c[j].index() <= i64::MAX by {
            assert(cs[0][j] == c[j]);
        }
        lemma_read_clause(st, n, b, c, t1);
        let m = ReadState { clauses: st.clauses.push(c), pending: seq![], ..st };
        assert forall|i: int| 0 <= i < rest.len() implies (#[trigger] rest[i]).len() > 0 by {
            assert(rest[i] == cs[i + 1]);
        }
        assert forall|i: int, j: int| 0 <= i < rest.len() && 0 <= j < rest[i].len() implies 1
            <= (#[trigger] rest[i][j]).index() <= b && rest[i][j].index() <= i64::MAX by {
            assert(rest[i] == cs[i + 1]);
            assert(cs[i + 1][j] == rest[i][j]);
        }
        lemma_read_formula(m, n, b, rest, t2);
        lemma_read_tokens_append(st, n, b, t1, t2);
        assert(m.clauses + rest =~= st.clauses + cs);
    }
}

proof fn lemma_read_body(
    st: ReadState,
    ls: Seq<Seq<u8>>,
    body: Seq<Seq<Seq<u8>>>,
    n: int,
    fin: ReadState,
)
    requires
        st.header is Some,
        0 <= n,
        ls.len() >= body.len(),
        ls.len() > body.len() ==> words(ls[body.len() as int]).len() == 0,
        forall|k: int| 0 <= k < body.len() ==> words(#[trigger] ls[k]) == body[k],
        forall|k: int| 0 <= k < body.len() ==> (#[trigger] body[k]).len() > 0,
        read_tokens(st, 0, st.header.unwrap().1, body.flatten()) == Ok::<ReadState, ErrorModel>(
            fin,
        ),
        fin.pending.len() == 0,
    ensures
        read_lines(st, ls, n) == finish(fin),
    decreases ls.len(),
{
    let b = st.header.unwrap().1;
    if body.len() == 0 {
        assert(body.flatten() =~= Seq::<Seq<u8>>::empty());
    } else {
        let w = body[0];
        assert(words(ls[0]) == w);
        lemma_read_tokens_append(st, 0, b, w, body.drop_first().flatten());
        let m = (read_tokens(st, 0, b, w)->Ok_0);
        lemma_read_tokens_any_line(st, 0, n as usize, b, w);
        assert(read_token(st, 0, b, w[0]) is Ok);
        lemma_numeric_word(w[0]);
        assert(read_line(st, n as usize, w) == LineStep::Next(m));
        assert forall|k: int| 0 <= k < body.len() - 1 implies words(
            #[trigger] ls.drop_first()[k],
        ) == body.drop_first()[k] by {
            assert(ls.drop_first()[k] == ls[k + 1]);
        }
        assert forall|k: int| 0 <= k < body.len() - 1 implies (
        #[trigger] body.drop_first()[k]).len() > 0 by {
            assert(body.drop_first()[k] == body[k + 1]);
        }
        if ls.len() > body.len() {
            assert(ls.drop_first()[body.len() - 1] == ls[body.len() as int]);
        }
        lemma_read_body(m, ls.drop_first(), body.drop_first(), n + 1, fin);
    }
}

proof fn lemma_comment_lines(ls: Seq<Seq<u8>>, k: int)
    requires
        0 <= k <= ls.len(),
        forall|j: int| 0 <= j < k ==> words(#[trigger] ls[j]).len() > 0 && words(ls[j])[0] == word_c(),
    ensures
        read_prefix(initial_state(), ls, 0, k) == LineStep::Next(initial_state()),
    decreases k,
{
    if k > 0 {
        lemma_comment_lines(ls, k - 1);
        assert(words(ls[k - 1]).len() > 0);
    }
}

/// A text made of comment lines, then a `p cnf <vars> <count>` line, then
/// lines of clause tokens, and then either its end or a blank line (after
/// which anything may follow), reads back as exactly the clauses that its
/// `0`-terminated token groups write: in order, with each clause's literals
/// in order, however the groups are spread over the lines.
pub proof fn lemma_parse_round_trip(
    s: Seq<u8>,
    comments: int,
    vars: usize,
    body: Seq<Seq<Seq<u8>>>,
    cs: Seq<Seq<Literal>>,
)
    requires
        0 <= comments,
        lines(s).len() >= comments + 1 + body.len(),
        forall|k: int|
            0 <= k < comments ==> words(#[trigger] lines(s)[k]).len() > 0 && words(lines(s)[k])[0]
                == word_c(),
        words(lines(s)[comments]).len() >= 4,
        words(lines(s)[comments])[0] == word_p(),
        words(lines(s)[comments])[1] == word_cnf(),
        usize_token(words(lines(s)[comments])[2]) == Some(vars),
        usize_token(words(lines(s)[comments])[3]) is Some,
        forall|k: int|
            0 <= k < body.len() ==> words(lines(s)[comments + 1 + k]) == #[trigger] body[k],
        lines(s).len() > comments + 1 + body.len() ==> words(
            lines(s)[comments + 1 + body.len()],
        ).len() == 0,
        forall|k: int| 0 <= k < body.len() ==> (#[trigger] body[k]).len() > 0,
        spells(body.flatten(), formula_codes(cs)),
        cs.len() > 0,
        forall|i: int| 0 <= i < cs.len() ==> (#[trigger] cs[i]).len() > 0,
        vars_between(cs, 1, vars as int),
        vars_between(cs, 1, i64::MAX as int),
    ensures
        dimacs(s) == Ok::<Seq<Seq<Literal>>, ErrorModel>(cs),
{
    let ls = lines(s);
    lemma_comment_lines(ls, comments);
    lemma_read_lines_split(initial_state(), ls, 0, comments);
    let tail = ls.subrange(comments, ls.len() as int);
    assert(tail[0] == ls[comments]);
    let h = ReadState { header: Some((comments as usize, vars)), ..initial_state() };
    assert(word_p() != word_c());
    assert(read_line(initial_state(), comments as usize, words(tail[0])) == LineStep::Next(h));
    lemma_read_formula(h, 0, vars, cs, body.flatten());
    let fin = ReadState { clauses: h.clauses + cs, pending: seq![], ..h };
    assert(h.clauses + cs =~= cs);
    let rest = tail.drop_first();
    assert forall|k: int| 0 <= k < body.len() implies words(#[trigger] rest[k]) == body[k] by {
        assert(rest[k] == ls[comments + 1 + k]);
    }
    if rest.len() > body.len() {
        assert(rest[body.len() as int] == ls[comments + 1 + body.len()]);
    }
    lemma_read_body(h, rest, body, comments + 1, fin);
}

/// The outcome of reading the first `k` lines of `ls`, the first being line `n`.
pub open spec fn read_prefix(st: ReadState, ls: Seq<Seq<u8>>, n: int, k: int) -> LineStep
    decreases k,
{
    if k <= 0 {
        LineStep::Next(st)
    } else {
        match read_prefix(st, ls, n, k - 1) {
            LineStep::Next(t) => read_line(t, (n + k - 1) as usize, words(ls[k - 1])),
            other => other,
        }
    }
}

proof fn lemma_read_lines_split(st: ReadState, ls: Seq<Seq<u8>>, n: int, k: int)
    requires
        0 <= k <= ls.len(),
    ensures
        read_lines(st, ls, n) == match read_prefix(st, ls, n, k) {
            LineStep::Next(t) => read_lines(t, ls.subrange(k, ls.len() as int), n + k),
            LineStep::Stop(t) => finish(t),
            LineStep::Fail(e) => Err(e),
        },
    decreases k,
{
    if k == 0 {
        assert(ls.subrange(0, ls.len() as int) =~= ls);
    } else {
        lemma_read_lines_split(st, ls, n, k - 1);
        match read_prefix(st, ls, n, k - 1) {
            LineStep::Next(t) => {
                let rest = ls.subrange(k - 1, ls.len() as int);
                assert(rest[0] == ls[k - 1]);
                assert(rest.drop_first() =~= ls.subrange(k, ls.len() as int));
            },
            _ => {},
        }
    }
}

/// A text whose first `k` lines read without error, with a header among
/// them, and whose line `k` starts with `p cnf`, is rejected on line `k`,
/// naming the line of the first header.
pub proof fn lemma_text_second_header_rejected(s: Seq<u8>, k: usize)
    requires
        k < lines(s).len(),
        read_prefix(initial_state(), lines(s), 0, k as int) matches LineStep::Next(t)
            && t.header is Some,
        words(lines(s)[k as int]).len() >= 2,
        words(lines(s)[k as int])[0] == word_p(),
        words(lines(s)[k as int])[1] == word_cnf(),
    ensures
        dimacs(s) == Err::<Seq<Seq<Literal>>, ErrorModel>(
            ErrorModel::Error(
                k,
                IssueModel::HeaderRedefined(
                    (read_prefix(initial_state(), lines(s), 0, k as int)->Next_0).header.unwrap().0,
                ),
            ),
        ),
{
    let ls = lines(s);
    lemma_read_lines_split(initial_state(), ls, 0, k as int);
    let rest = ls.subrange(k as int, ls.len() as int);
    assert(rest[0] == ls[k as int]);
    assert(word_p() != word_c());
}

/// A text whose first `k` lines read without error and leave a clause open,
/// and whose line `k` is a comment, is rejected on line `k`.
pub proof fn lemma_text_comment_in_open_clause_rejected(s: Seq<u8>, k: usize)
    requires
        k < lines(s).len(),
        read_prefix(initial_state(), lines(s), 0, k as int) matches LineStep::Next(t)
            && t.pending.len() > 0,
        words(lines(s)[k as int]).len() > 0,
        words(lines(s)[k as int])[0] == word_c(),
    ensures
        dimacs(s) == Err::<Seq<Seq<Literal>>, ErrorModel>(
            ErrorModel::Error(k, IssueModel::UnterminatedClause),
        ),
{
    let ls = lines(s);
    lemma_read_lines_split(initial_state(), ls, 0, k as int);
    let rest = ls.subrange(k as int, ls.len() as int);
    assert(rest[0] == ls[k as int]);
}

/// A text whose first `k` lines read without error after a header declaring
/// `bound` variables, and whose clause line `k` reads its first `j` tokens
/// without error and then meets a literal above `bound`, is rejected on line
/// `k` with that literal.
pub proof fn lemma_text_variable_above_count_rejected(s: Seq<u8>, k: usize, j: int, bound: usize)
    requires
        k < lines(s).len(),
        read_prefix(initial_state(), lines(s), 0, k as int) matches LineStep::Next(t)
            && t.header matches Some(h) && h.1 == bound,
        0 <= j < words(lines(s)[k as int]).len(),
        words(lines(s)[k as int])[0] != word_c(),
        words(lines(s)[k as int])[0] != word_p(),
        read_tokens(
            read_prefix(initial_state(), lines(s), 0, k as int)->Next_0,
            k,
            bound,
            words(lines(s)[k as int]).subrange(0, j),
        ) is Ok,
        i64_token(words(lines(s)[k as int])[j]) matches Some(v) && v != 0 && magnitude(v) > bound,
    ensures
        dimacs(s) == Err::<Seq<Seq<Literal>>, ErrorModel>(
            ErrorModel::Error(
                k,
                IssueModel::VarOutOfRange(i64_token(words(lines(s)[k as int])[j]).unwrap(), bound),
            ),
        ),
{
    let ls = lines(s);
    let t = read_prefix(initial_state(), ls, 0, k as int)->Next_0;
    let ws = words(ls[k as int]);
    lemma_read_lines_split(initial_state(), ls, 0, k as int);
    let rest = ls.subrange(k as int, ls.len() as int);
    assert(rest[0] == ls[k as int]);
    let a = ws.subrange(0, j);
    let b = ws.subrange(j, ws.len() as int);
    assert(ws =~= a + b);
    lemma_read_tokens_append(t, k, bound, a, b);
    assert(b[0] == ws[j]);
}

proof fn lemma_read_body_accepted(st: ReadState, ls: Seq<Seq<u8>>, body: Seq<Seq<Seq<u8>>>, n: int)
    requires
        st.header is Some,
        ls.len() == body.len(),
        forall|k: int| 0 <= k < ls.len() ==> words(#[trigger] ls[k]) == body[k],
        forall|k: int|
            0 <= k < body.len() ==> (#[trigger] body[k]).len() > 0 && body[k][0] != word_c()
                && body[k][0] != word_p(),
    ensures
        read_lines(st, ls, n) is Ok ==> read_tokens(st, 0, st.header.unwrap().1, body.flatten()) is Ok
            && read_lines(st, ls, n) == finish(
            (read_tokens(st, 0, st.header.unwrap().1, body.flatten())->Ok_0),
        ),
    decreases ls.len(),
{
    let b = st.header.unwrap().1;
    if ls.len() == 0 {
        assert(body.flatten() =~= Seq::<Seq<u8>>::empty());
    } else {
        let w = body[0];
        assert(words(ls[0]) == w);
        if read_tokens(st, n as usize, b, w) is Ok {
            lemma_read_tokens_any_line(st, n as usize, 0, b, w);
            let m = (read_tokens(st, 0, b, w)->Ok_0);
            assert forall|k: int| 0 <= k < ls.len() - 1 implies words(
                #[trigger] ls.drop_first()[k],
            ) == body.drop_first()[k] by {
                assert(ls.drop_first()[k] == ls[k + 1]);
            }
            assert forall|k: int| 0 <= k < body.len() - 1 implies (
            #[trigger] body.drop_first()[k]).len() > 0 && body.drop_first()[k][0] != word_c()
                && body.drop_first()[k][0] != word_p() by {
                assert(body.drop_first()[k] == body[k + 1]);
            }
            lemma_read_body_accepted(m, ls.drop_first(), body.drop_first(), n + 1);
            lemma_read_tokens_append(st, 0, b, w, body.drop_first().flatten());
        }
    }
}

/// Two texts with the same header line, followed by clause lines whose
/// words run the same once the lines are put end to end, are accepted
/// together, and then read as the same clauses: where the line breaks fall
/// among the clause lines does not matter.
pub proof fn lemma_line_breaks_do_not_matter(
    s1: Seq<u8>,
    s2: Seq<u8>,
    body1: Seq<Seq<Seq<u8>>>,
    body2: Seq<Seq<Seq<u8>>>,
)
    requires
        lines(s1).len() == body1.len() + 1,
        lines(s2).len() == body2.len() + 1,
        words(lines(s1)[0]) == words(lines(s2)[0]),
        words(lines(s1)[0]).len() > 0,
        words(lines(s1)[0])[0] == word_p(),
        forall|k: int| 0 <= k < body1.len() ==> words(lines(s1)[k + 1]) == #[trigger] body1[k],
        forall|k: int| 0 <= k < body2.len() ==> words(lines(s2)[k + 1]) == #[trigger] body2[k],
        forall|k: int|
            0 <= k < body1.len() ==> (#[trigger] body1[k]).len() > 0 && body1[k][0] != word_c()
                && body1[k][0] != word_p(),
        forall|k: int|
            0 <= k < body2.len() ==> (#[trigger] body2[k]).len() > 0 && body2[k][0] != word_c()
                && body2[k][0] != word_p(),
        body1.flatten() == body2.flatten(),
    ensures
        dimacs(s1) is Ok <==> dimacs(s2) is Ok,
        dimacs(s1) is Ok ==> dimacs(s2) == dimacs(s1),
{
    let ls1 = lines(s1);
    let ls2 = lines(s2);
    let hw = words(ls1[0]);
    assert(word_p() != word_c());
    match read_line(initial_state(), 0, hw) {
        LineStep::Next(h) => {
            assert(h.header is Some);
            let r1 = ls1.drop_first();
            let r2 = ls2.drop_first();
            assert forall|k: int| 0 <= k < r1.len() implies words(#[trigger] r1[k]) == body1[k] by {
                assert(r1[k] == ls1[k + 1]);
            }
            assert forall|k: int| 0 <= k < r2.len() implies words(#[trigger] r2[k]) == body2[k] by {
                assert(r2[k] == ls2[k + 1]);
            }
            let b = h.header.unwrap().1;
            lemma_read_body_accepted(h, r1, body1, 1);
            lemma_read_body_accepted(h, r2, body2, 1);
            if dimacs(s1) is Ok {
                let fin = (read_tokens(h, 0, b, body1.flatten())->Ok_0);
                lemma_read_body(h, r2, body2, 1, fin);
            }
            if dimacs(s2) is Ok {
                let fin = (read_tokens(h, 0, b, body2.flatten())->Ok_0);
                lemma_read_body(h, r1, body1, 1, fin);
            }
        },
        _ => {},
    }
}

} // verus!
