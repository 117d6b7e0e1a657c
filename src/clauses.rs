use vstd::prelude::*;

verus! {

/// A token of a statement, as far as finding its clauses needs to know.
pub enum TokenKind {
    /// An unquoted word.
    Word(String),
    OpenParen,
    CloseParen,
    /// Anything else: a quoted word, a number, an operator, whitespace.
    Other,
}

/// The clause keywords of a `FOREACH` statement.
pub enum Clause {
    Return,
    When,
    From,
    Where,
}

/// `c` is `lower`, or its upper-case ASCII letter.
pub open spec fn matches_lower(c: char, lower: char) -> bool {
    c == lower || ('A' <= c <= 'Z' && c as u32 + 32 == lower as u32)
}

/// Whether a word is the lower-case word `lower`, ignoring ASCII case.
pub open spec fn same_word(a: Seq<char>, lower: Seq<char>) -> bool {
    a.len() == lower.len() && forall|i: int| 0 <= i < a.len() ==> matches_lower(#[trigger] a[i], lower[i])
}

/// The clause a word opens, if any.
pub open spec fn clause_of(w: Seq<char>) -> Option<Clause> {
    if same_word(w, seq!['r', 'e', 't', 'u', 'r', 'n']) {
        Some(Clause::Return)
    } else if same_word(w, seq!['w', 'h', 'e', 'n']) {
        Some(Clause::When)
    } else if same_word(w, seq!['f', 'r', 'o', 'm']) {
        Some(Clause::From)
    } else if same_word(w, seq!['w', 'h', 'e', 'r', 'e']) {
        Some(Clause::Where)
    } else {
        None
    }
}

/// How many parentheses are open before token `i`.
pub open spec fn depth(tokens: Seq<TokenKind>, i: int) -> int
    decreases i,
{
    if i <= 0 {
        0
    } else {
        depth(tokens, i - 1) + match tokens[i - 1] {
            TokenKind::OpenParen => 1int,
            TokenKind::CloseParen => -1int,
            _ => 0int,
        }
    }
}

/// The clause that token `i` opens: a clause keyword outside every parenthesis.
pub open spec fn clause_at(tokens: Seq<TokenKind>, i: int) -> Option<Clause> {
    match tokens[i] {
        TokenKind::Word(w) => if depth(tokens, i) == 0 { clause_of(w@) } else { None },
        _ => None,
    }
}

fn char_matches(c: char, lower: char) -> (r: bool)
    ensures
        r == matches_lower(c, lower),
{
    c == lower || ('A' <= c && c <= 'Z' && c as u32 + 32 == lower as u32)
}

fn word_is(w: &str, lower: &str) -> (r: bool)
    ensures
        r == same_word(w@, lower@),
{
    let n = w.unicode_len();
    if n != lower.unicode_len() {
        return false;
    }
    let mut i: usize = 0;
    while i < n
        invariant
            i <= n,
            n == w@.len(),
            n == lower@.len(),
            forall|k: int| 0 <= k < i ==> matches_lower(#[trigger] w@[k], lower@[k]),
        decreases n - i,
    {
        if !char_matches(w.get_char(i), lower.get_char(i)) {
            return false;
        }
        i = i + 1;
    }
    true
}

fn clause_of_word(w: &String) -> (r: Option<Clause>)
    ensures
        r == clause_of(w@),
{
    let s = w.as_str();
    let ret = "return";
    let when = "when";
    let from = "from";
    let wh = "where";
    proof {
        reveal_strlit("return");
        reveal_strlit("when");
        reveal_strlit("from");
        reveal_strlit("where");
        assert(ret@ =~= seq!['r', 'e', 't', 'u', 'r', 'n']);
        assert(when@ =~= seq!['w', 'h', 'e', 'n']);
        assert(from@ =~= seq!['f', 'r', 'o', 'm']);
        assert(wh@ =~= seq!['w', 'h', 'e', 'r', 'e']);
    }
    if word_is(s, ret) {
        Some(Clause::Return)
    } else if word_is(s, when) {
        Some(Clause::When)
    } else if word_is(s, from) {
        Some(Clause::From)
    } else if word_is(s, wh) {
        Some(Clause::Where)
    } else {
        None
    }
}

/// The clauses of the tokens that follow `FOREACH`: each clause keyword
/// outside every parenthesis, with its position, in order.
pub fn foreach_clauses(tokens: &Vec<TokenKind>) -> (r: Vec<(Clause, usize)>)
    requires
        tokens.len() < i64::MAX,
    ensures
        forall|k: int| 0 <= k < r.len() ==> (#[trigger] r@[k]).1 < tokens.len()
            && clause_at(tokens@, r@[k].1 as int) == Some(r@[k].0),
        forall|k1: int, k2: int| 0 <= k1 < k2 < r.len() ==> (#[trigger] r@[k1]).1 < (#[trigger] r@[k2]).1,
        forall|i: int| 0 <= i < tokens.len() && (#[trigger] clause_at(tokens@, i)) is Some
            ==> exists|k: int| 0 <= k < r.len() && r@[k].1 == i,
{
    let mut r: Vec<(Clause, usize)> = Vec::new();
    let mut d: i64 = 0;
    let mut i: usize = 0;
    while i < tokens.len()
        invariant
            i <= tokens.len(),
            tokens.len() < i64::MAX,
            d == depth(tokens@, i as int),
            -(i as int) <= d <= i,
            forall|k: int| 0 <= k < r.len() ==> (#[trigger] r@[k]).1 < i
                && clause_at(tokens@, r@[k].1 as int) == Some(r@[k].0),
            forall|k1: int, k2: int| 0 <= k1 < k2 < r.len() ==> (#[trigger] r@[k1]).1 < (#[trigger] r@[k2]).1,
            forall|j: int| 0 <= j < i && (#[trigger] clause_at(tokens@, j)) is Some
                ==> exists|k: int| 0 <= k < r.len() && r@[k].1 == j,
        decreases tokens.len() - i,
    {
        let ghost before = r@;
        match &tokens[i] {
            TokenKind::Word(w) => {
                if d == 0 {
                    if let Some(c) = clause_of_word(w) {
                        r.push((c, i));
                        proof {
                            assert forall|j: int| 0 <= j < i + 1 && (#[trigger] clause_at(tokens@, j)) is Some
                                implies exists|k: int| 0 <= k < r.len() && r@[k].1 == j by {
                                if j < i {
                                    let k = choose|k: int| 0 <= k < before.len() && before[k].1 == j;
                                    assert(r@[k] == before[k]);
                                } else {
                                    assert(r@[r.len() - 1].1 == j);
                                }
                            }
                        }
                    }
                }
            },
            TokenKind::OpenParen => {
                d = d + 1;
            },
            TokenKind::CloseParen => {
                d = d - 1;
            },
            TokenKind::Other => {},
        }
        i = i + 1;
    }
    r
}

/// The token ranges of a `FOREACH`: the loop expression, then each clause
/// from the token after its keyword up to the next clause keyword.
pub struct ForeachParts {
    pub head_end: usize,
    pub return_range: Option<(usize, usize)>,
    pub when_range: Option<(usize, usize)>,
    pub from_range: Option<(usize, usize)>,
    pub where_range: Option<(usize, usize)>,
}

/// The first entry of `cuts`, from `k` on, for clause `c`.
pub open spec fn first_from(cuts: Seq<(Clause, usize)>, c: Clause, k: int) -> Option<int>
    decreases cuts.len() - k,
{
    if k < 0 || k >= cuts.len() {
        None
    } else if cuts[k].0 == c {
        Some(k)
    } else {
        first_from(cuts, c, k + 1)
    }
}

/// The tokens of the first clause `c`: after its keyword, up to the next
/// clause keyword or the end.
pub open spec fn clause_range(cuts: Seq<(Clause, usize)>, c: Clause, len: int) -> Option<(usize, usize)> {
    match first_from(cuts, c, 0) {
        Some(k) => Some(((cuts[k].1 + 1) as usize, if k + 1 < cuts.len() { cuts[k + 1].1 } else { len as usize })),
        None => None,
    }
}

fn same_clause(a: &Clause, b: &Clause) -> (r: bool)
    ensures
        r == (*a == *b),
{
    match (a, b) {
        (Clause::Return, Clause::Return) | (Clause::When, Clause::When) | (Clause::From, Clause::From)
        | (Clause::Where, Clause::Where) => true,
        _ => false,
    }
}

fn range_of(cuts: &Vec<(Clause, usize)>, c: Clause, len: usize) -> (r: Option<(usize, usize)>)
    requires
        forall|k: int| 0 <= k < cuts.len() ==> (#[trigger] cuts@[k]).1 < len,
    ensures
        r == clause_range(cuts@, c, len as int),
{
    let mut k: usize = 0;
    while k < cuts.len()
        invariant
            k <= cuts.len(),
            forall|j: int| 0 <= j < cuts.len() ==> (#[trigger] cuts@[j]).1 < len,
            first_from(cuts@, c, 0) == first_from(cuts@, c, k as int),
        decreases cuts.len() - k,
    {
        if same_clause(&cuts[k].0, &c) {
            let end = if k + 1 < cuts.len() { cuts[k + 1].1 } else { len };
            return Some((cuts[k].1 + 1, end));
        }
        k = k + 1;
    }
    None
}

/// Splits the tokens that follow `FOREACH` into the loop expression and the
/// ranges of its clauses.
pub fn foreach_parts(tokens: &Vec<TokenKind>) -> (r: ForeachParts)
    requires
        tokens.len() < i64::MAX,
    ensures
        r.head_end <= tokens.len(),
        r.return_range is Some ==> clause_at(tokens@, r.return_range->Some_0.0 - 1) == Some(Clause::Return),
        r.when_range is Some ==> clause_at(tokens@, r.when_range->Some_0.0 - 1) == Some(Clause::When),
        r.from_range is Some ==> clause_at(tokens@, r.from_range->Some_0.0 - 1) == Some(Clause::From),
        r.where_range is Some ==> clause_at(tokens@, r.where_range->Some_0.0 - 1) == Some(Clause::Where),
        r.return_range matches Some(p) ==> p.0 <= p.1 <= tokens.len(),
        r.when_range matches Some(p) ==> p.0 <= p.1 <= tokens.len(),
        r.from_range matches Some(p) ==> p.0 <= p.1 <= tokens.len(),
        r.where_range matches Some(p) ==> p.0 <= p.1 <= tokens.len(),
        forall|i: int| 0 <= i < tokens.len() && #[trigger] clause_at(tokens@, i) == Some(Clause::From) ==> r.from_range is Some,
        forall|i: int| 0 <= i < tokens.len() && #[trigger] clause_at(tokens@, i) == Some(Clause::Return) ==> r.return_range is Some,
        r.head_end < tokens.len() ==> clause_at(tokens@, r.head_end as int) is Some,
        forall|i: int| 0 <= i < r.head_end ==> clause_at(tokens@, i) is None,
{
    let cuts = foreach_clauses(tokens);
    let n = tokens.len();
    let head_end = if cuts.len() > 0 { cuts[0].1 } else { n };
    proof {
        assert forall|i: int| 0 <= i < head_end implies clause_at(tokens@, i) is None by {
            if clause_at(tokens@, i) is Some {
                let k = choose|k: int| 0 <= k < cuts.len() && cuts@[k].1 == i;
                if k > 0 {
                    assert(cuts@[0].1 < cuts@[k].1);
                }
            }
        }
    }
    let return_range = range_of(&cuts, Clause::Return, n);
    let when_range = range_of(&cuts, Clause::When, n);
    let from_range = range_of(&cuts, Clause::From, n);
    let where_range = range_of(&cuts, Clause::Where, n);
    proof {
        lemma_first_from_found(cuts@, Clause::Return, 0);
        lemma_first_from_found(cuts@, Clause::When, 0);
        lemma_first_from_found(cuts@, Clause::From, 0);
        lemma_first_from_found(cuts@, Clause::Where, 0);
        assert forall|i: int| 0 <= i < tokens.len() && #[trigger] clause_at(tokens@, i) == Some(Clause::From)
            implies from_range is Some by {
            let k = choose|k: int| 0 <= k < cuts.len() && cuts@[k].1 == i;
            lemma_first_from_exists(cuts@, Clause::From, k, 0);
        }
        assert forall|i: int| 0 <= i < tokens.len() && #[trigger] clause_at(tokens@, i) == Some(Clause::Return)
            implies return_range is Some by {
            let k = choose|k: int| 0 <= k < cuts.len() && cuts@[k].1 == i;
            lemma_first_from_exists(cuts@, Clause::Return, k, 0);
        }
    }
    ForeachParts { head_end, return_range, when_range, from_range, where_range }
}

proof fn lemma_first_from_exists(cuts: Seq<(Clause, usize)>, c: Clause, k0: int, k: int)
    requires
        0 <= k <= k0 < cuts.len(),
        cuts[k0].0 == c,
    ensures
        first_from(cuts, c, k) is Some,
    decreases k0 - k,
{
    if cuts[k].0 != c {
        lemma_first_from_exists(cuts, c, k0, k + 1);
    }
}

proof fn lemma_first_from_found(cuts: Seq<(Clause, usize)>, c: Clause, k: int)
    requires
        0 <= k,
    ensures
        first_from(cuts, c, k) matches Some(j) ==> k <= j < cuts.len() && cuts[j].0 == c,
    decreases cuts.len() - k,
{
    if k < cuts.len() && cuts[k].0 != c {
        lemma_first_from_found(cuts, c, k + 1);
    }
}

} // verus!
