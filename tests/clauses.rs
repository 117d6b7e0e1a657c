use json_sql::clauses::{foreach_clauses, foreach_parts, Clause, TokenKind};

fn word(w: &str) -> TokenKind {
    TokenKind::Word(w.to_string())
}

#[test]
fn clause_keywords_outside_parentheses() {
    let tokens = vec![
        word("payload"),
        word("AS"),
        TokenKind::Other,
        word("RETURN"),
        TokenKind::OpenParen,
        word("from"),
        TokenKind::CloseParen,
        word("From"),
        word("x"),
        word("when"),
        word("WHERE"),
    ];
    let cuts = foreach_clauses(&tokens);
    assert_eq!(cuts.len(), 4);
    assert!(matches!(cuts[0], (Clause::Return, 3)));
    assert!(matches!(cuts[1], (Clause::From, 7)));
    assert!(matches!(cuts[2], (Clause::When, 9)));
    assert!(matches!(cuts[3], (Clause::Where, 10)));
}

#[test]
fn no_clauses_in_plain_words() {
    let tokens = vec![word("returns"), word("whence"), TokenKind::Other, word("fro")];
    assert!(foreach_clauses(&tokens).is_empty());
}

#[test]
fn foreach_parts_cut_at_clauses() {
    let tokens = vec![
        word("payload"),
        TokenKind::Other,
        word("AS"),
        word("item"),
        word("RETURN"),
        word("item"),
        word("WHEN"),
        word("item"),
        word("FROM"),
        TokenKind::Other,
        word("WHERE"),
        word("x"),
    ];
    let p = foreach_parts(&tokens);
    assert_eq!(p.head_end, 4);
    assert_eq!(p.return_range, Some((5, 6)));
    assert_eq!(p.when_range, Some((7, 8)));
    assert_eq!(p.from_range, Some((9, 10)));
    assert_eq!(p.where_range, Some((11, 12)));
    let none = foreach_parts(&vec![word("a")]);
    assert_eq!(none.head_end, 1);
    assert!(none.from_range.is_none());
}
