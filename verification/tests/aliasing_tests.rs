use rust_challenges::mutable_aliasing::{mutable_aliasing_violations, Mutability, Reference};
use std::collections::HashSet;

/// A simulated `&x` reference.
fn r(variable: &'static str) -> Reference<&'static str> {
    Reference::new(variable, Mutability::Immutable)
}

/// A simulated `&mut x` reference.
fn m(variable: &'static str) -> Reference<&'static str> {
    Reference::new(variable, Mutability::Mutable)
}

fn check<const N: usize>(references: &[Reference<&str>], expected: [&str; N]) {
    assert_eq!(mutable_aliasing_violations(references), HashSet::from(expected));
}

#[test]
fn test_no_references() {
    check(&[], []);
}

#[test]
fn test_single_references() {
    check(&[r("a")], []);
    check(&[m("a")], []);
}

#[test]
fn test_one_variable_pairs() {
    check(&[r("b"), r("b")], []);
    check(&[m("b"), r("b")], ["b"]);
    check(&[r("b"), m("b")], ["b"]);
    check(&[m("b"), m("b")], ["b"]);
}

#[test]
fn test_two_variables() {
    check(&[r("c"), r("d")], []);
    check(&[m("c"), m("d")], []);
    check(&[r("a"), m("d"), m("d")], ["d"]);
    check(&[m("a"), r("d"), m("d")], ["d"]);
    check(&[m("a"), m("d"), m("d"), m("a")], ["a", "d"]);
    check(&[r("a"), m("d"), r("d"), r("a")], ["d"]);
    check(&[r("c"), m("g"), r("c"), r("c")], []);
    check(&[r("c"), m("g"), m("c"), r("c")], ["c"]);
}

#[test]
fn test_many_variables() {
    check(&[r("a"), r("b"), r("c"), r("d"), r("e")], []);
    check(&[m("f"), r("e"), r("e"), m("d")], []);
    check(&[r("f"), r("e"), m("e"), r("d")], ["e"]);
    check(&[r("a"), m("g"), r("b"), r("a"), r("b"), r("b"), m("f")], []);
    check(
        &[m("a"), r("g"), r("b"), r("a"), r("b"), m("b"), r("f")],
        ["a", "b"],
    );
}

#[test]
fn test_repeated_references() {
    check(&[r("a"), r("a"), r("a"), r("a"), r("a"), r("a"), r("a")], []);
    check(&[r("a"), r("a"), r("a"), m("a"), r("a"), r("a"), r("a")], ["a"]);
    check(
        &[m("a"), m("a"), m("a"), m("a"), m("a"), m("a"), m("a")],
        ["a"],
    );
    check(
        &[m("g"), m("g"), m("g"), m("g"), m("g"), m("g"), m("g")],
        ["g"],
    );
}

#[test]
fn test_mixed_lists() {
    check(&[r("a"), r("b"), m("c"), m("d"), r("e"), m("f"), r("g")], []);
    check(
        &[r("a"), r("b"), r("c"), m("a"), m("b"), m("c")],
        ["a", "b", "c"],
    );
    check(&[r("a"), m("a"), r("a"), m("g"), r("g"), m("g")], ["a", "g"]);
}

#[test]
fn test_integer_variables() {
    let refs = [
        Reference::new(1u32, Mutability::Immutable),
        Reference::new(2u32, Mutability::Mutable),
        Reference::new(1u32, Mutability::Mutable),
    ];
    assert_eq!(mutable_aliasing_violations(&refs), HashSet::from([1u32]));
}
