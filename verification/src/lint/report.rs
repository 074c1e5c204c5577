//! What a lint run reports: the analyzer's syntax errors, and the findings,
//! ordered and deduplicated, whose fixes are withheld while the source has
//! syntax errors.

use vstd::prelude::*;
use crate::lint::findings::{lemma_text_irreflexive, lemma_text_total, lemma_text_transitive, text_before, text_lt, ascending, finding_key, finding_keys, first_keyed, normalize, Finding};
use crate::text::{chars_of, matches_at, starts_with};

verus! {

/// A diagnostic of the native analyzer, with its range in lines and columns.
pub struct NativeDiagnostic {
    pub path: String,
    pub message: String,
    pub line: u32,
    pub column: u32,
    pub end_line: u32,
    pub end_column: u32,
}

/// Findings and native syntax diagnostics for a source.
pub struct Report {
    /// Normalized configured lint findings.
    pub findings: Vec<Finding>,
    /// Native syntax failures; while there are any, no finding offers a fix.
    pub diagnostics: Vec<NativeDiagnostic>,
}

/// Why a lint run failed.
#[derive(Debug, PartialEq, Eq, Structural)]
pub enum LintError {
    /// The analyzer gave neither a syntax tree nor a syntax error.
    SyntaxUnavailable,
}

/// `SyntaxError:`.
pub open spec fn syntax_tag() -> Seq<char> {
    seq!['S', 'y', 'n', 't', 'a', 'x', 'E', 'r', 'r', 'o', 'r', ':']
}

/// The diagnostic reports a syntax error.
pub open spec fn is_syntax_error(d: NativeDiagnostic) -> bool {
    starts_with(d.message@, syntax_tag())
}

/// The syntax errors among the analyzer's diagnostics, in order.
pub open spec fn syntax_errors_of(native: Seq<NativeDiagnostic>) -> Seq<NativeDiagnostic> {
    native.filter(|d: NativeDiagnostic| is_syntax_error(d))
}

/// `g` is the finding `f`, without its fixes when `cleared`.
pub open spec fn kept(f: Finding, g: Finding, cleared: bool) -> bool {
    &&& g.rule@ == f.rule@
    &&& g.level == f.level
    &&& g.message@ == f.message@
    &&& g.start == f.start
    &&& g.end == f.end
    &&& if cleared {
        g.edits@.len() == 0
    } else {
        g.edits@ == f.edits@
    }
}

/// `after` holds the findings of `before` ordered by range, rule and message,
/// the first of each such key kept, without fixes when `cleared`.
pub open spec fn reported(before: Seq<Finding>, after: Seq<Finding>, cleared: bool) -> bool {
    &&& ascending(finding_keys(after))
    &&& forall|i: int|
        0 <= i < after.len() ==> (first_keyed(before, finding_key(#[trigger] after[i])) matches Some(
            f,
        ) && kept(f, after[i], cleared))
    &&& forall|j: int|
        0 <= j < before.len() ==> exists|i: int|
            0 <= i < after.len() && finding_key(#[trigger] after[i]) == finding_key(
                #[trigger] before[j],
            )
}

/// The syntax errors among the analyzer's diagnostics, in order.
pub fn syntax_errors(native: Vec<NativeDiagnostic>) -> (r: Vec<NativeDiagnostic>)
    ensures
        r@ == syntax_errors_of(native@),
{
    let mut tag: Vec<char> = Vec::new();
    tag.push('S');
    tag.push('y');
    tag.push('n');
    tag.push('t');
    tag.push('a');
    tag.push('x');
    tag.push('E');
    tag.push('r');
    tag.push('r');
    tag.push('o');
    tag.push('r');
    tag.push(':');
    assert(tag@ =~= syntax_tag());
    let ghost all = native@;
    let ghost pred = |d: NativeDiagnostic| is_syntax_error(d);
    let mut rest = native;
    let mut kept: Vec<NativeDiagnostic> = Vec::new();
    let mut i: usize = 0;
    let n = rest.len();
    assert(all.take(0).filter(pred) =~= Seq::<NativeDiagnostic>::empty()) by {
        reveal(Seq::filter);
    }
    while i < n
        invariant
            i <= n == all.len(),
            rest@ == all.skip(i as int),
            tag@ == syntax_tag(),
            pred == (|d: NativeDiagnostic| is_syntax_error(d)),
            kept@ == all.take(i as int).filter(pred),
        decreases n - i,
    {
        let d = rest.remove(0);
        assert(d == all[i as int]);
        assert(all.take(i + 1).drop_last() =~= all.take(i as int));
        assert(all.take(i + 1).last() == d);
        assert(rest@ =~= all.skip(i + 1));
        proof {
            reveal(Seq::filter);
        }
        if matches_at(chars_of(d.message.as_str()).as_slice(), tag.as_slice(), 0) {
            kept.push(d);
        }
        i = i + 1;
    }
    assert(all.take(n as int) =~= all);
    kept
}

/// The report of a lint run. Nothing when linting is disabled. Otherwise the
/// analyzer's syntax errors, and, when the analyzer gave a syntax tree, the
/// `findings` the rules made of it, normalized, without fixes while there
/// are syntax errors; without a syntax tree, an error unless there are
/// syntax errors to report.
pub fn conclude(enabled: Option<bool>, native: Vec<NativeDiagnostic>, findings: Option<Vec<Finding>>) -> (r: Result<
    Report,
    LintError,
>)
    ensures
        enabled == Some(false) ==> (r matches Ok(rep) && rep.findings@.len() == 0
            && rep.diagnostics@.len() == 0),
        enabled != Some(false) ==> match findings {
            None => if syntax_errors_of(native@).len() == 0 {
                r == Err::<Report, LintError>(LintError::SyntaxUnavailable)
            } else {
                (r matches Ok(rep) && rep.diagnostics@ == syntax_errors_of(native@)
                    && rep.findings@.len() == 0)
            },
            Some(fs) => (r matches Ok(rep) && rep.diagnostics@ == syntax_errors_of(native@)
                && reported(fs@, rep.findings@, syntax_errors_of(native@).len() > 0)),
        },
{
    if enabled == Some(false) {
        return Ok(Report { findings: Vec::new(), diagnostics: Vec::new() });
    }
    let diagnostics = syntax_errors(native);
    let mut fs = match findings {
        None => {
            if diagnostics.len() == 0 {
                return Err(LintError::SyntaxUnavailable);
            }
            return Ok(Report { findings: Vec::new(), diagnostics });
        },
        Some(fs) => fs,
    };
    let ghost before = fs@;
    normalize(&mut fs);
    if diagnostics.len() == 0 {
        return Ok(Report { findings: fs, diagnostics });
    }
    let mut cleared: Vec<Finding> = Vec::new();
    let mut i: usize = 0;
    while i < fs.len()
        invariant
            i <= fs@.len(),
            cleared@.len() == i,
            forall|k: int| 0 <= k < i ==> kept(fs@[k], #[trigger] cleared@[k], true),
        decreases fs@.len() - i,
    {
        let f = &fs[i];
        cleared.push(
            Finding {
                rule: f.rule.clone(),
                level: f.level,
                message: f.message.clone(),
                start: f.start,
                end: f.end,
                edits: Vec::new(),
            },
        );
        i = i + 1;
    }
    proof {
        assert forall|k: int| 0 <= k < cleared@.len() implies finding_key(#[trigger] cleared@[k])
            == finding_key(fs@[k]) by {
            assert(kept(fs@[k], cleared@[k], true));
        }
        assert(finding_keys(cleared@) =~= finding_keys(fs@));
        assert forall|k: int| 0 <= k < cleared@.len() implies (first_keyed(
            before,
            finding_key(#[trigger] cleared@[k]),
        ) matches Some(f) && kept(f, cleared@[k], true)) by {
            assert(finding_key(cleared@[k]) == finding_key(fs@[k]));
            assert(first_keyed(before, finding_key(fs@[k])) == Some(fs@[k]));
        }
        assert forall|j: int| 0 <= j < before.len() implies exists|k: int|
            0 <= k < cleared@.len() && finding_key(#[trigger] cleared@[k]) == finding_key(
                #[trigger] before[j],
            ) by {
            let k = choose|k: int|
                0 <= k < fs@.len() && finding_key(#[trigger] fs@[k]) == finding_key(before[j]);
            assert(finding_key(cleared@[k]) == finding_key(fs@[k]));
        }
    }
    Ok(Report { findings: cleared, diagnostics })
}

/// The first step of a lint run.
#[derive(Debug, PartialEq, Eq, Structural)]
pub enum LintStep {
    /// Linting is disabled: report nothing and query nothing.
    Skip,
    /// Ask the native analyzer for the source's syntax, then `conclude`.
    Query,
}

/// Decides whether a lint run queries the native analyzer: never when the
/// settings disable linting.
pub fn begin(enabled: Option<bool>) -> (r: LintStep)
    ensures
        r == if enabled == Some(false) {
            LintStep::Skip
        } else {
            LintStep::Query
        },
{
    match enabled {
        Some(false) => LintStep::Skip,
        _ => LintStep::Query,
    }
}


/// The text of each name.
pub open spec fn names_of(v: Seq<String>) -> Seq<Seq<char>> {
    v.map_values(|s: String| s@)
}

/// Each name comes before the next: in order, and none twice.
pub open spec fn strictly_ascending(v: Seq<Seq<char>>) -> bool {
    forall|i: int, j: int| 0 <= i < j < v.len() ==> text_lt(#[trigger] v[i], #[trigger] v[j])
}

/// A global the rules of a file know: one the native analysis declares,
/// one the settings add, or `script` where the Roblox environment is on.
pub open spec fn known_global(parameters: Seq<String>, configured: Seq<String>, roblox: bool, x: Seq<char>) -> bool {
    names_of(parameters).contains(x) || names_of(configured).contains(x) || (roblox && x == "script"@)
}

fn insert_name(out: &mut Vec<String>, name: &String)
    requires
        strictly_ascending(names_of(old(out)@)),
    ensures
        strictly_ascending(names_of(final(out)@)),
        forall|y: Seq<char>|
            #![trigger names_of(final(out)@).contains(y)]
            #![trigger names_of(old(out)@).contains(y)]
            names_of(final(out)@).contains(y) <==> (names_of(old(out)@).contains(y) || y == name@),
{
    let ghost before = names_of(out@);
    let x = chars_of(name.as_str());
    let mut p: usize = 0;
    while p < out.len() && text_before(chars_of(out[p].as_str()).as_slice(), x.as_slice())
        invariant
            p <= out@.len(),
            before == names_of(out@),
            strictly_ascending(before),
            forall|i: int| 0 <= i < p ==> text_lt(#[trigger] before[i], x@),
        decreases out@.len() - p,
    {
        p = p + 1;
    }
    if p < out.len() && crate::text::same(chars_of(out[p].as_str()).as_slice(), x.as_slice()) {
        proof {
            assert(before[p as int] == name@);
        }
        return;
    }
    proof {
        if p < out@.len() {
            assert(!text_lt(before[p as int], x@));
            lemma_text_total(before[p as int], x@);
            assert(text_lt(x@, before[p as int]));
        }
    }
    out.insert(p, name.clone());
    proof {
        let after = names_of(out@);
        assert(after =~= before.insert(p as int, name@));
        assert forall|i: int, j: int| 0 <= i < j < after.len() implies text_lt(#[trigger] after[i], #[trigger] after[j]) by {
            if j < p {
            } else if j == p {
                assert(after[i] == before[i]);
            } else if i < p {
                assert(after[j] == before[j - 1]);
                assert(after[i] == before[i]);
            } else if i == p {
                assert(after[j] == before[j - 1]);
                if j - 1 > p {
                    assert(text_lt(before[p as int], before[j - 1]));
                    lemma_text_transitive(x@, before[p as int], before[j - 1]);
                }
            } else {
                assert(after[j] == before[j - 1]);
                assert(after[i] == before[i - 1]);
            }
        }
        assert forall|y: Seq<char>| after.contains(y) <==> (before.contains(y) || y == name@) by {
            if after.contains(y) {
                let k = choose|k: int| 0 <= k < after.len() && after[k] == y;
                if k < p {
                    assert(before[k] == y);
                } else if k > p {
                    assert(before[k - 1] == y);
                }
            }
            if before.contains(y) {
                let k = choose|k: int| 0 <= k < before.len() && before[k] == y;
                if k < p {
                    assert(after[k] == y);
                } else {
                    assert(after[k + 1] == y);
                }
            }
            if y == name@ {
                assert(after[p as int] == y);
            }
        }
    }
}

fn insert_all(out: &mut Vec<String>, names: &Vec<String>)
    requires
        strictly_ascending(names_of(old(out)@)),
    ensures
        strictly_ascending(names_of(final(out)@)),
        forall|y: Seq<char>|
            #![trigger names_of(final(out)@).contains(y)]
            #![trigger names_of(old(out)@).contains(y)]
            #![trigger names_of(names@).contains(y)]
            names_of(final(out)@).contains(y) <==> (names_of(old(out)@).contains(y) || names_of(names@).contains(y)),
{
    let ghost start = names_of(out@);
    let mut k: usize = 0;
    while k < names.len()
        invariant
            k <= names@.len(),
            strictly_ascending(names_of(out@)),
            forall|y: Seq<char>|
                #![trigger names_of(out@).contains(y)]
                #![trigger start.contains(y)]
                #![trigger names_of(names@).subrange(0, k as int).contains(y)]
                names_of(out@).contains(y) <==> (start.contains(y) || names_of(names@).subrange(0, k as int).contains(y)),
        decreases names@.len() - k,
    {
        let ghost prev = names_of(out@);
        insert_name(out, &names[k]);
        proof {
            let taken = names_of(names@).subrange(0, k + 1);
            assert(taken =~= names_of(names@).subrange(0, k as int).push(names@[k as int]@));
            assert forall|y: Seq<char>| taken.contains(y) <==> (names_of(names@).subrange(0, k as int).contains(y) || y == names@[k as int]@) by {
                if taken.contains(y) {
                    let i = choose|i: int| 0 <= i < taken.len() && taken[i] == y;
                    if i < k {
                        assert(names_of(names@).subrange(0, k as int)[i] == y);
                    }
                }
                if names_of(names@).subrange(0, k as int).contains(y) {
                    let i = choose|i: int| 0 <= i < k && names_of(names@).subrange(0, k as int)[i] == y;
                    assert(taken[i] == y);
                }
                if y == names@[k as int]@ {
                    assert(taken[k as int] == y);
                }
            }
            assert forall|y: Seq<char>| names_of(out@).contains(y) <==> (start.contains(y) || taken.contains(y)) by {
                assert(names_of(out@).contains(y) <==> (prev.contains(y) || y == names@[k as int]@));
                assert(prev.contains(y) <==> (start.contains(y) || names_of(names@).subrange(0, k as int).contains(y)));
            }
        }
        k = k + 1;
    }
    proof {
        assert(names_of(names@).subrange(0, names@.len() as int) =~= names_of(names@));
    }
}

/// The globals the rules of a file know, in order and each once: the names
/// the native analysis declares, those the settings add, and `script` where
/// the Roblox environment is on.
pub fn known_globals(parameters: &Vec<String>, configured: &Vec<String>, roblox: bool) -> (r: Vec<String>)
    ensures
        strictly_ascending(names_of(r@)),
        forall|x: Seq<char>| names_of(r@).contains(x) <==> known_global(parameters@, configured@, roblox, x),
{
    let mut out: Vec<String> = Vec::new();
    proof {
        assert(names_of(out@) =~= Seq::<Seq<char>>::empty());
    }
    insert_all(&mut out, parameters);
    let ghost first = names_of(out@);
    insert_all(&mut out, configured);
    let ghost second = names_of(out@);
    proof {
        assert forall|x: Seq<char>| second.contains(x) <==> (names_of(parameters@).contains(x) || names_of(configured@).contains(x)) by {
            assert(!Seq::<Seq<char>>::empty().contains(x));
            assert(first.contains(x) <==> (Seq::<Seq<char>>::empty().contains(x) || names_of(parameters@).contains(x)));
            assert(second.contains(x) <==> (first.contains(x) || names_of(configured@).contains(x)));
        }
    }
    if roblox {
        let script = crate::text::string_of(chars_of("script").as_slice());
        insert_name(&mut out, &script);
    }
    proof {
        assert forall|x: Seq<char>| names_of(out@).contains(x) <==> known_global(parameters@, configured@, roblox, x) by {
            assert(second.contains(x) <==> (names_of(parameters@).contains(x) || names_of(configured@).contains(x)));
        }
    }
    out
}


/// `c` is the lower-case letter `lower`, in either case.
pub open spec fn letter(c: char, lower: char, upper: char) -> bool {
    c == lower || c == upper
}

/// The word "escape", in any mix of cases, starts at `i` in `m`.
pub open spec fn escape_word_at(m: Seq<char>, i: int) -> bool {
    0 <= i && i + 6 <= m.len() && letter(m[i], 'e', 'E') && letter(m[i + 1], 's', 'S') && letter(m[i + 2], 'c', 'C')
        && letter(m[i + 3], 'a', 'A') && letter(m[i + 4], 'p', 'P') && letter(m[i + 5], 'e', 'E')
}

/// A native diagnostic about an invalid escape in the linted file itself,
/// which the linter reports again as a finding of its own.
pub open spec fn about_escape(d: NativeDiagnostic, path: Seq<char>) -> bool {
    d.path@ == path && exists|i: int| escape_word_at(d.message@, i)
}

/// Whether a native diagnostic is about an invalid escape in the file at
/// `path`: it is about that file, and its message names an escape in any case.
pub fn escape_diagnostic(d: &NativeDiagnostic, path: &String) -> (r: bool)
    ensures
        r == about_escape(*d, path@),
{
    let p = chars_of(d.path.as_str());
    let q = chars_of(path.as_str());
    if !crate::text::same(p.as_slice(), q.as_slice()) {
        return false;
    }
    let m = chars_of(d.message.as_str());
    let mut i: usize = 0;
    while i < m.len() && m.len() - i >= 6
        invariant
            i <= m@.len(),
            d.path@ == path@,
            m@ == d.message@,
            forall|j: int| 0 <= j < i ==> !#[trigger] escape_word_at(m@, j),
        decreases m@.len() - i,
    {
        let e1 = m[i] == 'e' || m[i] == 'E';
        let e2 = m[i + 1] == 's' || m[i + 1] == 'S';
        let e3 = m[i + 2] == 'c' || m[i + 2] == 'C';
        let e4 = m[i + 3] == 'a' || m[i + 3] == 'A';
        let e5 = m[i + 4] == 'p' || m[i + 4] == 'P';
        let e6 = m[i + 5] == 'e' || m[i + 5] == 'E';
        if e1 && e2 && e3 && e4 && e5 && e6 {
            proof {
                assert(escape_word_at(m@, i as int));
            }
            return true;
        }
        i = i + 1;
    }
    proof {
        assert forall|j: int| !#[trigger] escape_word_at(m@, j) by {
            if 0 <= j < i {
            }
        }
    }
    false
}

/// The rule of a graft's finding as the report names it: the graft's name,
/// a slash, and the graft's own rule.
pub fn graft_rule(name: &String, rule: &String) -> (r: String)
    ensures
        r@ == name@ + "/"@ + rule@,
{
    let mut v = chars_of(name.as_str());
    crate::text::push_all(&mut v, chars_of("/").as_slice());
    crate::text::push_all(&mut v, chars_of(rule.as_str()).as_slice());
    crate::text::string_of(v.as_slice())
}

} // verus!
