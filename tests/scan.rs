use regex_deriv::{literal, ByteSet, LexTable, NaiveLexTable, RegEx, Scan, Token, DFA, START_STATE};

fn collect(table: &NaiveLexTable, text: &str, limit: usize) -> Vec<Result<Token, regex_deriv::ScanError>> {
    let mut scan = Scan::new(table, text.as_bytes());
    let mut items = Vec::new();
    while items.len() < limit {
        match scan.next() {
            Some(item) => items.push(item),
            None => break,
        }
    }
    items
}

#[test]
fn tests_simple_lexer() {
    let table = NaiveLexTable::new(&DFA::from(&[
        RegEx::set(ByteSet::point(b' ').union(&ByteSet::point(b','))).plus(),
        RegEx::set(ByteSet::range(b'a', b'z')).plus(),
    ]).minimize());
    let text = "waltz, bad nymph, for quick jigs vex";

    let tokens: Vec<Token> = collect(&table, text, 14).into_iter().map(|item| item.unwrap()).collect();
    let tokens: Vec<Token> = tokens.into_iter().filter(|token| token.class != 0).collect();

    assert_eq!(&text[tokens[0].span.clone()], "waltz");
    assert_eq!(&text[tokens[1].span.clone()], "bad");
    assert_eq!(&text[tokens[2].span.clone()], "nymph");
    assert_eq!(&text[tokens[3].span.clone()], "for");
    assert_eq!(&text[tokens[4].span.clone()], "quick");
    assert_eq!(&text[tokens[5].span.clone()], "jigs");
    assert_eq!(&text[tokens[6].span.clone()], "vex");
    assert!(tokens.iter().all(|token| token.class == 1));
}

#[test]
fn fail_lexer() {
    let table = NaiveLexTable::new(&DFA::from(&[
        RegEx::set(ByteSet::range(b'A', b'Z')),
    ]).minimize());
    let text = "bad";
    let res = Scan::new(&table, text.as_bytes()).next().unwrap();
    assert!(res.is_err());
}

#[test]
fn scan_error_position_and_end() {
    let table = NaiveLexTable::new(&DFA::from(&[RegEx::set(ByteSet::range(b'A', b'Z'))]).minimize());
    let mut scan = Scan::new(&table, "bad".as_bytes());
    match scan.next() {
        Some(Err(e)) => assert_eq!(e.pos, 0),
        _ => panic!("expected an error"),
    }
    assert!(scan.next().is_none());
    let items = collect(&table, "ABc", 10);
    assert_eq!(items.len(), 3);
    assert_eq!(items[0].as_ref().unwrap().span, 0..1);
    assert_eq!(items[1].as_ref().unwrap().span, 1..2);
    match &items[2] {
        Err(e) => assert_eq!(e.pos, 2),
        Ok(_) => panic!("expected an error"),
    }
}

#[test]
fn empty_input_gives_nothing() {
    let table = NaiveLexTable::new(&DFA::from(&[literal("a")]).minimize());
    assert!(Scan::new(&table, "".as_bytes()).next().is_none());
}

#[test]
fn spans_cover_the_input() {
    let table = NaiveLexTable::new(&DFA::from(&[
        RegEx::set(ByteSet::point(b' ')).plus(),
        RegEx::set(ByteSet::range(b'a', b'z')).plus(),
        RegEx::set(ByteSet::range(b'0', b'9')).plus(),
    ]).minimize());
    let text = "abc 123  de4";
    let items = collect(&table, text, 100);
    let mut end = 0;
    let mut rebuilt = String::new();
    for item in items {
        let token = item.unwrap();
        assert_eq!(token.span.start, end);
        end = token.span.end;
        rebuilt.push_str(&text[token.span.clone()]);
    }
    assert_eq!(rebuilt, text);
}

#[test]
fn longest_match_with_fallback() {
    let table = NaiveLexTable::new(&DFA::from(&[literal("ab"), literal("abcd"), RegEx::set(ByteSet::range(b'a', b'z'))]).minimize());
    let items = collect(&table, "abcab", 10);
    let tokens: Vec<Token> = items.into_iter().map(|item| item.unwrap()).collect();
    assert_eq!(tokens[0], Token { class: 0, span: 0..2 });
    assert_eq!(tokens[1], Token { class: 2, span: 2..3 });
    assert_eq!(tokens[2], Token { class: 0, span: 3..5 });
    assert_eq!(tokens.len(), 3);
}

#[test]
fn priority_on_equal_length() {
    let letters = RegEx::set(ByteSet::range(b'a', b'z')).plus();
    let table = NaiveLexTable::new(&DFA::from(&[literal("if"), letters.clone()]).minimize());
    let tokens: Vec<Token> = collect(&table, "if", 10).into_iter().map(|item| item.unwrap()).collect();
    assert_eq!(tokens, vec![Token { class: 0, span: 0..2 }]);
    let tokens: Vec<Token> = collect(&table, "iffy", 10).into_iter().map(|item| item.unwrap()).collect();
    assert_eq!(tokens, vec![Token { class: 1, span: 0..4 }]);
    let table = NaiveLexTable::new(&DFA::from(&[letters, literal("if")]).minimize());
    let tokens: Vec<Token> = collect(&table, "if", 10).into_iter().map(|item| item.unwrap()).collect();
    assert_eq!(tokens, vec![Token { class: 0, span: 0..2 }]);
}

#[test]
fn table_layout() {
    let dfa = DFA::from(&[literal("a")]).minimize();
    let table = NaiveLexTable::new(&dfa);
    let n = dfa.states().len();
    assert_eq!(table.sink(), n - 1);
    assert_eq!(table.class(table.sink()), None);
    assert_eq!(table.class(START_STATE), None);
    let next = table.step(START_STATE, b'a');
    assert_eq!(table.class(next), Some(0));
    assert_eq!(table.step(START_STATE, b'b'), table.sink());
}

#[test]
fn checked_table_rejects_accepting_start() {
    let nullable = DFA::from(&[literal("a").star()]).minimize();
    assert!(NaiveLexTable::try_new(&nullable).is_none());
    let dfa = DFA::from(&[literal("a").plus()]).minimize();
    let table = NaiveLexTable::try_new(&dfa).unwrap();
    assert_eq!(table.sink(), dfa.states().len() - 1);
    assert_eq!(table.class(table.step(START_STATE, b'a')), Some(0));
}
