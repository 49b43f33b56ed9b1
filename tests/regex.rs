use regex_deriv::{any, literal, ByteSet, Operator, RegEx};

#[test]
fn tests_approx_eq() {
    let re1 = RegEx::set(ByteSet::range(3, 17).complement());
    let re2 = RegEx::set(ByteSet::range(3, 17)).not();
    assert_eq!(re1, re2);
}

#[test]
fn tests_derivative() {
    let set1 = RegEx::set(ByteSet::range(0, 16));
    let set2 = RegEx::set(ByteSet::range(8, 24));
    let re1 = set1.and(&set2).or(&set1).and(&set2);
    let regex = RegEx::concat(&RegEx::concat(&RegEx::concat(&re1, &re1), &re1), &re1);
    assert_eq!(regex.deriv(8).deriv(8).deriv(8).deriv(8), RegEx::empty());
    assert_eq!(regex.deriv(0), RegEx::none());
}

#[test]
fn nested_derivative_without_final_intersection() {
    let set1 = RegEx::set(ByteSet::range(0, 16));
    let set2 = RegEx::set(ByteSet::range(8, 24));
    let r = set1.and(&set2).or(&set1);
    let regex = RegEx::concat(&RegEx::concat(&RegEx::concat(&r, &r), &r), &r);
    assert_eq!(regex.deriv(8).deriv(8).deriv(8).deriv(8), RegEx::empty());
    assert_eq!(regex.deriv(20), RegEx::none());
}

#[test]
fn none_and_empty() {
    assert!(!RegEx::none().is_fullmatch("non-empty string"));
    assert!(!RegEx::none().is_fullmatch(""));
    assert!(!RegEx::empty().is_fullmatch("non-empty string"));
    assert!(RegEx::empty().is_fullmatch(""));
    assert!(matches!(RegEx::set(ByteSet::empty()).operator(), Operator::Void));
}

#[test]
fn identities() {
    let samples = [
        RegEx::none(),
        RegEx::empty(),
        RegEx::set(ByteSet::range(b'a', b'z')),
        literal("abc"),
        literal("ab").star(),
        literal("x").or(&literal("yz")),
        literal("x").and(&RegEx::set(ByteSet::universe()).star()),
        literal("q").not(),
    ];
    for r in samples.iter() {
        assert_eq!(r.or(&RegEx::none()), *r);
        assert_eq!(RegEx::none().or(r), *r);
        assert_eq!(r.not().not(), *r);
        assert_eq!(RegEx::concat(r, &RegEx::empty()), *r);
        assert_eq!(RegEx::concat(&RegEx::empty(), r), *r);
        assert_eq!(r.star().star(), r.star());
        assert_eq!(r.or(r), *r);
        assert_eq!(r.and(r), *r);
    }
    let universe_star = RegEx::set(ByteSet::universe()).star();
    assert_eq!(universe_star.and(&universe_star), universe_star);
    assert_eq!(RegEx::empty().and(&universe_star), RegEx::empty());
    assert_eq!(RegEx::none().and(&universe_star), RegEx::none());
}

#[test]
fn union_merges_and_sorts_children() {
    let word = literal("ab");
    let xs = RegEx::set(ByteSet::point(b'x')).star();
    let u = word.or(&xs);
    assert_eq!(u, xs.or(&word));
    match u.operator() {
        Operator::Or(children) => {
            assert_eq!(children.len(), 2);
            assert!(matches!(children[0].operator(), Operator::Cat(_)));
            assert!(matches!(children[1].operator(), Operator::Star(_)));
        }
        _ => panic!("expected a union"),
    }
    assert!(u.is_fullmatch("ab"));
    assert!(u.is_fullmatch("xxx"));
    assert!(u.is_fullmatch(""));
    assert!(!u.is_fullmatch("abx"));
}

#[test]
fn union_folds_classes() {
    let a = RegEx::set(ByteSet::point(b'a'));
    let b = RegEx::set(ByteSet::point(b'b'));
    let c = RegEx::set(ByteSet::point(b'c'));
    let w = literal("zz");
    let u = a.or(&w).or(&b).or(&c);
    match u.operator() {
        Operator::Or(children) => {
            assert_eq!(children.len(), 2);
            assert_eq!(children[0], RegEx::set(ByteSet::range(b'a', b'c')));
            assert_eq!(children[1], w);
        }
        _ => panic!("expected a union"),
    }
    assert_eq!(a.or(&b), RegEx::set(ByteSet::range(b'a', b'b')));
}

#[test]
fn intersection_rules() {
    let digits = RegEx::set(ByteSet::range(b'0', b'9'));
    let letters = RegEx::set(ByteSet::range(b'a', b'z'));
    assert_eq!(digits.and(&letters), RegEx::none());
    let ab = literal("ab");
    assert_eq!(ab.and(&RegEx::empty()), RegEx::none());
    assert_eq!(ab.star().and(&RegEx::empty()), RegEx::empty());
    let both = ab.star().and(&RegEx::concat(&literal("a"), &RegEx::set(ByteSet::universe()).star()));
    assert!(both.is_fullmatch("abab"));
    assert!(!both.is_fullmatch(""));
    assert!(!both.is_fullmatch("aba"));
    let disjoint = digits.and(&ab.star()).and(&letters);
    assert_eq!(disjoint, RegEx::none());
    let kept = digits.and(&ab.star()).and(&RegEx::set(ByteSet::range(b'0', b'4')));
    match kept.operator() {
        Operator::And(children) => {
            assert_eq!(children.len(), 2);
            assert_eq!(children[0], RegEx::set(ByteSet::range(b'0', b'4')));
        }
        _ => panic!("expected an intersection"),
    }
}

#[test]
fn negation_rules() {
    assert_eq!(RegEx::none().not(), RegEx::set(ByteSet::universe()));
    assert_eq!(RegEx::set(ByteSet::universe()).not(), RegEx::none());
    let ab = literal("ab");
    assert!(matches!(ab.not().operator(), Operator::Not(_)));
    assert!(ab.not().is_fullmatch("ba"));
    assert!(ab.not().is_fullmatch(""));
    assert!(!ab.not().is_fullmatch("ab"));
}

#[test]
fn star_rules() {
    assert_eq!(RegEx::none().star(), RegEx::empty());
    assert_eq!(RegEx::empty().star(), RegEx::empty());
    let a = RegEx::set(ByteSet::point(b'a'));
    assert!(matches!(a.star().operator(), Operator::Star(_)));
    assert!(a.star().is_fullmatch(""));
    assert!(a.star().is_fullmatch("aaaa"));
    assert!(!a.star().is_fullmatch("aab"));
    assert!(a.plus().is_fullmatch("a"));
    assert!(!a.plus().is_fullmatch(""));
    assert!(a.opt().is_fullmatch(""));
    assert!(a.opt().is_fullmatch("a"));
    assert!(!a.opt().is_fullmatch("aa"));
}

#[test]
fn concatenation_flattens() {
    let r = RegEx::concat(&literal("ab"), &literal("cd"));
    match r.operator() {
        Operator::Cat(children) => assert_eq!(children.len(), 4),
        _ => panic!("expected a concatenation"),
    }
    assert_eq!(r, literal("abcd"));
    assert_eq!(RegEx::concat(&r, &RegEx::none()), RegEx::none());
    assert!(r.is_fullmatch("abcd"));
    assert!(!r.is_fullmatch("abc"));
}

#[test]
fn nullability() {
    assert!(!RegEx::none().is_nullable());
    assert!(RegEx::empty().is_nullable());
    assert!(!RegEx::set(ByteSet::point(1)).is_nullable());
    assert!(literal("a").star().is_nullable());
    assert!(!literal("ab").is_nullable());
    assert!(literal("ab").opt().is_nullable());
    assert!(literal("ab").not().is_nullable());
    assert!(!literal("ab").star().not().is_nullable());
}

#[test]
fn derivative_by_bytes() {
    let r = literal("abc");
    assert_eq!(r.deriv(b'a'), literal("bc"));
    assert_eq!(r.deriv(b'b'), RegEx::none());
    let s = literal("a").star();
    assert_eq!(s.deriv(b'a'), s);
    let d = literal("ab").diff(&literal("ab"));
    assert!(!d.is_fullmatch("ab"));
}

#[test]
fn fullmatch_agrees_with_derivatives() {
    let r = RegEx::concat(&literal("a").or(&literal("bc")).star(), &literal("d"));
    for (text, expected) in [("d", true), ("ad", true), ("bcad", true), ("bd", false), ("", false), ("abcd", true)] {
        let mut t = r.clone();
        for b in text.bytes() {
            t = t.deriv(b);
        }
        assert_eq!(t.is_nullable(), expected);
        assert_eq!(r.is_fullmatch(text), expected);
    }
}

#[test]
fn literals_and_any() {
    let l = literal("if");
    assert!(l.is_fullmatch("if"));
    assert!(!l.is_fullmatch("i"));
    assert_eq!(literal(""), RegEx::empty());
    let a = any("abc");
    assert!(a.is_fullmatch("a"));
    assert!(a.is_fullmatch("c"));
    assert!(!a.is_fullmatch(""));
    assert!(!a.is_fullmatch("ab"));
    assert_eq!(any(""), RegEx::none());
    let e = any("\u{e9}x");
    assert!(e.is_fullmatch("\u{e9}"));
    assert!(e.is_fullmatch("x"));
    assert!(!e.is_fullmatch("\u{e9}x"));
}
