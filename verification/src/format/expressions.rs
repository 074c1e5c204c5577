//! Binary operator precedence, which decides where the formatter keeps
//! parentheses.

use vstd::prelude::*;
use crate::text::chars_of;

verus! {

/// How tightly a binary operator binds: `or` 1, `and` 2, comparisons 3,
/// `..` 4, `+` and `-` 5, `*`, `/`, `//` and `%` 6, `^` 7, and anything
/// else 0.
pub open spec fn precedence_of(op: Seq<char>) -> u8 {
    if op == seq!['o', 'r'] {
        1
    } else if op == seq!['a', 'n', 'd'] {
        2
    } else if op == seq!['<'] || op == seq!['>'] || op == seq!['<', '='] || op == seq!['>', '=']
        || op == seq!['~', '='] || op == seq!['=', '='] {
        3
    } else if op == seq!['.', '.'] {
        4
    } else if op == seq!['+'] || op == seq!['-'] {
        5
    } else if op == seq!['*'] || op == seq!['/'] || op == seq!['/', '/'] || op == seq!['%'] {
        6
    } else if op == seq!['^'] {
        7
    } else {
        0
    }
}

fn is1(v: &[char], a: char) -> (r: bool)
    ensures
        r == (v@ == seq![a]),
{
    let r = v.len() == 1 && v[0] == a;
    assert(r ==> v@ =~= seq![a]);
    assert(v@ == seq![a] ==> v@[0] == a);
    r
}

fn is2(v: &[char], a: char, b: char) -> (r: bool)
    ensures
        r == (v@ == seq![a, b]),
{
    let r = v.len() == 2 && v[0] == a && v[1] == b;
    assert(r ==> v@ =~= seq![a, b]);
    assert(v@ == seq![a, b] ==> v@[0] == a && v@[1] == b);
    r
}

fn is3(v: &[char], a: char, b: char, c: char) -> (r: bool)
    ensures
        r == (v@ == seq![a, b, c]),
{
    let r = v.len() == 3 && v[0] == a && v[1] == b && v[2] == c;
    assert(r ==> v@ =~= seq![a, b, c]);
    assert(v@ == seq![a, b, c] ==> v@[0] == a && v@[1] == b && v@[2] == c);
    r
}

/// The precedence of a binary operator.
pub fn precedence(operator: &str) -> (r: u8)
    ensures
        r == precedence_of(operator@),
{
    let v = chars_of(operator);
    if is2(&v, 'o', 'r') {
        1
    } else if is3(&v, 'a', 'n', 'd') {
        2
    } else if is1(&v, '<') || is1(&v, '>') || is2(&v, '<', '=') || is2(&v, '>', '=') || is2(&v, '~', '=')
        || is2(&v, '=', '=') {
        3
    } else if is2(&v, '.', '.') {
        4
    } else if is1(&v, '+') || is1(&v, '-') {
        5
    } else if is1(&v, '*') || is1(&v, '/') || is2(&v, '/', '/') || is1(&v, '%') {
        6
    } else if is1(&v, '^') {
        7
    } else {
        0
    }
}

} // verus!
