//! Well-formed Luau string patterns, as the Luau reference describes them:
//! a pattern is a sequence of items, each a character class (a character,
//! `.`, `%x`, or a set `[...]`) optionally followed by `*`, `+`, `-` or `?`,
//! a back reference `%1`..`%9` to a closed capture, a balance `%bxy`, a
//! frontier `%f[set]`, or a capture `(...)`, with at most 32 captures.

use vstd::prelude::*;

verus! {

/// The most captures a pattern may open.
pub const MAX_CAPTURES: usize = 32;

/// The index just past the `]` that closes a set whose body starts at `j`;
/// `%` escapes the character after it, and the first character of the body
/// is never the closing one. `None` where no `]` closes the set.
pub open spec fn set_close(p: Seq<char>, j: int) -> Option<int>
    decreases p.len() - j,
{
    if j < 0 || j >= p.len() {
        None
    } else {
        let k = if p[j] == '%' && j + 1 < p.len() {
            j + 2
        } else {
            j + 1
        };
        if k < p.len() && p[k] == ']' {
            Some(k + 1)
        } else {
            set_close(p, k)
        }
    }
}

/// The end of the set whose `[` stands just before `i`, an optional `^`
/// included.
pub open spec fn set_end(p: Seq<char>, i: int) -> Option<int> {
    set_close(
        p,
        if 0 <= i < p.len() && p[i] == '^' {
            i + 1
        } else {
            i
        },
    )
}

/// The index of the last capture still open, if any.
pub open spec fn last_open(closed: Seq<bool>) -> Option<int>
    decreases closed.len(),
{
    if closed.len() == 0 {
        None
    } else if !closed.last() {
        Some(closed.len() - 1)
    } else {
        last_open(closed.drop_last())
    }
}

/// Whether `c` repeats or makes optional the class before it.
pub open spec fn is_quantifier(c: char) -> bool {
    c == '*' || c == '+' || c == '-' || c == '?'
}

/// After a character class ending at `e`, the index past its quantifier.
pub open spec fn after_class(p: Seq<char>, e: int) -> int {
    if 0 <= e < p.len() && is_quantifier(p[e]) {
        e + 1
    } else {
        e
    }
}

/// Whether `p` from index `i` on is well formed, given which of the captures
/// opened before `i` are closed.
pub open spec fn well_formed_from(p: Seq<char>, i: int, closed: Seq<bool>) -> bool
    decreases p.len() - i,
{
    if i < 0 || i >= p.len() {
        forall|k: int| 0 <= k < closed.len() ==> #[trigger] closed[k]
    } else if p[i] == '(' {
        if closed.len() >= MAX_CAPTURES {
            false
        } else if i + 1 < p.len() && p[i + 1] == ')' {
            well_formed_from(p, i + 2, closed.push(true))
        } else {
            well_formed_from(p, i + 1, closed.push(false))
        }
    } else if p[i] == ')' {
        match last_open(closed) {
            Some(k) => well_formed_from(p, i + 1, closed.update(k, true)),
            None => false,
        }
    } else if p[i] == '%' {
        if i + 1 >= p.len() {
            false
        } else if p[i + 1] == 'b' {
            i + 3 < p.len() && well_formed_from(p, i + 4, closed)
        } else if p[i + 1] == 'f' {
            if i + 2 < p.len() && p[i + 2] == '[' {
                match set_end(p, i + 3) {
                    Some(e) => if i < e <= p.len() {
                        well_formed_from(p, e, closed)
                    } else {
                        false
                    },
                    None => false,
                }
            } else {
                false
            }
        } else if '0' <= p[i + 1] <= '9' {
            let l = p[i + 1] as int - '1' as int;
            0 <= l < closed.len() && closed[l] && well_formed_from(p, i + 2, closed)
        } else {
            well_formed_from(p, after_class(p, i + 2), closed)
        }
    } else if p[i] == '[' {
        match set_end(p, i + 1) {
            Some(e) => if i < e <= p.len() {
                well_formed_from(p, after_class(p, e), closed)
            } else {
                false
            },
            None => false,
        }
    } else {
        well_formed_from(p, after_class(p, i + 1), closed)
    }
}

/// Whether `p` is a well-formed Luau pattern.
pub open spec fn well_formed(p: Seq<char>) -> bool {
    well_formed_from(p, 0, Seq::empty())
}

proof fn lemma_set_close(p: Seq<char>, j: int)
    ensures
        set_close(p, j) matches Some(e) ==> j < e <= p.len(),
    decreases p.len() - j,
{
    if 0 <= j < p.len() {
        let k = if p[j] == '%' && j + 1 < p.len() {
            j + 2
        } else {
            j + 1
        };
        lemma_set_close(p, k);
    }
}

/// The end of the set whose body starts at `i`, as `set_end` gives it.
fn set_end_at(p: &Vec<char>, i: usize) -> (r: Option<usize>)
    requires
        i <= p.len(),
    ensures
        match set_end(p@, i as int) {
            Some(e) => r == Some(e as usize) && i < e <= p.len(),
            None => r is None,
        },
{
    let mut j = if i < p.len() && p[i] == '^' {
        i + 1
    } else {
        i
    };
    proof {
        lemma_set_close(p@, j as int);
    }
    while j < p.len()
        invariant
            i <= j <= p.len(),
            set_end(p@, i as int) == set_close(p@, j as int),
        decreases p.len() - j,
    {
        let k = if p[j] == '%' && j + 1 < p.len() {
            j + 2
        } else {
            j + 1
        };
        if k < p.len() && p[k] == ']' {
            return Some(k + 1);
        }
        proof {
            lemma_set_close(p@, k as int);
        }
        j = k;
    }
    None
}

/// The index of the last capture still open.
fn last_open_at(closed: &Vec<bool>) -> (r: Option<usize>)
    ensures
        match last_open(closed@) {
            Some(k) => r == Some(k as usize) && 0 <= k < closed@.len(),
            None => r is None,
        },
{
    let mut n = closed.len();
    assert(closed@.take(n as int) =~= closed@);
    while n > 0
        invariant
            n <= closed@.len(),
            last_open(closed@) == last_open(closed@.take(n as int)),
        decreases n,
    {
        if !closed[n - 1] {
            return Some(n - 1);
        }
        assert(closed@.take(n as int).drop_last() =~= closed@.take(n - 1));
        n = n - 1;
    }
    None
}

/// Whether `c` is a quantifier.
fn quantifier(c: char) -> (r: bool)
    ensures
        r == is_quantifier(c),
{
    c == '*' || c == '+' || c == '-' || c == '?'
}

/// Whether `pattern` is a well-formed Luau pattern.
pub fn valid_pattern(pattern: &str) -> (r: bool)
    ensures
        r == well_formed(pattern@),
{
    let p = crate::text::chars_of(pattern);
    let mut closed: Vec<bool> = Vec::new();
    let mut i: usize = 0;
    while i < p.len()
        invariant
            i <= p.len(),
            p@ == pattern@,
            closed@.len() <= MAX_CAPTURES,
            well_formed(pattern@) == well_formed_from(p@, i as int, closed@),
        decreases p.len() - i,
    {
        let c = p[i];
        if c == '(' {
            if closed.len() >= MAX_CAPTURES {
                return false;
            }
            if i + 1 < p.len() && p[i + 1] == ')' {
                closed.push(true);
                i = i + 2;
            } else {
                closed.push(false);
                i = i + 1;
            }
        } else if c == ')' {
            match last_open_at(&closed) {
                Some(k) => {
                    closed.set(k, true);
                    i = i + 1;
                },
                None => {
                    return false;
                },
            }
        } else if c == '%' {
            if i + 1 >= p.len() {
                return false;
            }
            let d = p[i + 1];
            if d == 'b' {
                if p.len() - i <= 3 {
                    return false;
                }
                i = i + 4;
            } else if d == 'f' {
                if !(i + 2 < p.len() && p[i + 2] == '[') {
                    return false;
                }
                match set_end_at(&p, i + 3) {
                    Some(e) => {
                        i = e;
                    },
                    None => {
                        return false;
                    },
                }
            } else if '0' <= d && d <= '9' {
                if d == '0' {
                    return false;
                }
                let l = (d as u32 - '1' as u32) as usize;
                if !(l < closed.len() && closed[l]) {
                    return false;
                }
                i = i + 2;
            } else {
                let e = i + 2;
                i = if e < p.len() && quantifier(p[e]) {
                    e + 1
                } else {
                    e
                };
            }
        } else if c == '[' {
            match set_end_at(&p, i + 1) {
                Some(e) => {
                    i = if e < p.len() && quantifier(p[e]) {
                        e + 1
                    } else {
                        e
                    };
                },
                None => {
                    return false;
                },
            }
        } else {
            let e = i + 1;
            i = if e < p.len() && quantifier(p[e]) {
                e + 1
            } else {
                e
            };
        }
    }
    assert(well_formed(pattern@) == forall|m: int| 0 <= m < closed@.len() ==> #[trigger] closed@[m]);
    let mut k: usize = 0;
    while k < closed.len()
        invariant
            k <= closed@.len(),
            well_formed(pattern@) == forall|m: int| 0 <= m < closed@.len() ==> #[trigger] closed@[m],
            forall|m: int| 0 <= m < k ==> #[trigger] closed@[m],
        decreases closed@.len() - k,
    {
        if !closed[k] {
            return false;
        }
        k = k + 1;
    }
    true
}

} // verus!
