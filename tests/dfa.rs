use regex_deriv::{literal, ByteSet, RegEx, DFA};

#[test]
fn excluding() {
    let digit = RegEx::set(ByteSet::range(0x30, 0x39));
    let zero = RegEx::set(ByteSet::point(0x30));
    let nonzero_digit = digit.and(&zero.not());

    let a = DFA::from(&[nonzero_digit]);

    assert!(!a.matches("0"));
    for i in 1..=9 {
        assert!(a.matches(&i.to_string()));
    }
}

#[test]
fn indentifiers() {
    let uppercase = RegEx::set(ByteSet::range(0x41, 0x5a));
    let lowercase = RegEx::set(ByteSet::range(0x61, 0x7a));
    let digit = RegEx::set(ByteSet::range(0x30, 0x39));
    let underscore = RegEx::set(ByteSet::point(0x5f));

    let character = uppercase.or(&lowercase);
    let indentifier = RegEx::concat(&character.or(&underscore), &character.or(&digit).or(&underscore).star());

    let a = DFA::from(&[indentifier]);

    assert!(!a.matches(""));
    assert!(!a.matches("123notanidentifier"));
    assert!(a.matches("ThIsIsAlLoWeD"));
    assert!(a.matches("__allowed_123_"));
    assert!(!a.matches("not allowed"));
}

fn identifier() -> RegEx {
    let letters = RegEx::set(ByteSet::range(b'A', b'Z')).or(&RegEx::set(ByteSet::range(b'a', b'z')));
    let digit = RegEx::set(ByteSet::range(b'0', b'9'));
    let underscore = RegEx::set(ByteSet::point(b'_'));
    RegEx::concat(&letters.or(&underscore), &letters.or(&digit).or(&underscore).star())
}

#[test]
fn identifier_cases() {
    let a = DFA::from(&[identifier()]);
    assert!(!a.matches(""));
    assert!(!a.matches("123abc"));
    assert!(a.matches("ThIsIsAlLoWeD"));
    assert!(a.matches("__allowed_123_"));
    assert!(!a.matches("not allowed"));
}

#[test]
fn minimize_keeps_language() {
    let patterns = [identifier(), literal("if"), RegEx::set(ByteSet::range(b'0', b'9')).plus()];
    let d = DFA::from(&patterns);
    let m = d.minimize();
    for text in ["", "if", "i", "iff", "x1", "_", "42", "4a", "if2", " "] {
        assert_eq!(d.matches(text), m.matches(text));
        let mut s = 1;
        let mut t = 1;
        for b in text.bytes() {
            s = d.step(s, b);
            t = m.step(t, b);
        }
        assert_eq!(d.class(s), m.class(t));
    }
}

#[test]
fn first_pattern_wins() {
    let d = DFA::from(&[identifier(), literal("if")]).minimize();
    let mut s = 1;
    for b in "if".bytes() {
        s = d.step(s, b);
    }
    assert_eq!(d.class(s), Some(0));
    let e = DFA::from(&[literal("if"), identifier()]).minimize();
    let mut s = 1;
    for b in "if".bytes() {
        s = e.step(s, b);
    }
    assert_eq!(e.class(s), Some(0));
    let mut s = 1;
    for b in "ifx".bytes() {
        s = e.step(s, b);
    }
    assert_eq!(e.class(s), Some(1));
}

#[test]
fn minimal_state_counts() {
    let m = DFA::from(&[identifier()]).minimize();
    assert_eq!(m.states().len(), 3);
    let digit = RegEx::set(ByteSet::range(0x30, 0x39));
    let nonzero = digit.and(&RegEx::set(ByteSet::point(0x30)).not());
    assert_eq!(DFA::from(&[nonzero]).minimize().states().len(), 3);
    let redundant = literal("ab").or(&literal("cb"));
    assert_eq!(DFA::from(&[redundant]).minimize().states().len(), 4);
}

#[test]
fn sink_and_start() {
    let m = DFA::from(&[literal("a")]).minimize();
    assert_eq!(m.class(0), None);
    assert_eq!(m.step(0, b'a'), 0);
    assert_eq!(m.class(1), None);
    let d = DFA::from(&[RegEx::none()]).minimize();
    assert_eq!(d.states().len(), 2);
    assert!(!d.matches(""));
    assert!(!d.matches("a"));
}
