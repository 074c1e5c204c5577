//! The checks made at each call expression: discarded results, misplaced
//! comparisons, restricted imports, deprecated functions, argument counts,
//! table operations and format strings.

use vstd::prelude::*;
use crate::lint::configuration::Settings;
use crate::lsp::diagnostics::{decimal, decimal_text};
use crate::text::{chars_of, push_all, same, string_of, texts, trim_end, trimmed_end};

verus! {

/// The local function that a call names: the type annotation of each
/// parameter as written, if it has one, and whether it takes `...`.
pub struct Callee {
    pub parameters: Vec<Option<String>>,
    pub vararg: bool,
}

/// The second argument of a call, when it is a number constant.
#[derive(Debug, Clone, Copy, PartialEq, Eq, Structural)]
pub enum Index {
    /// The argument is no number constant.
    Absent,
    /// A whole number of at least one.
    Whole,
    /// A number below one, or with a fraction.
    Other,
}

/// A call expression, as the call checks read it.
pub struct CallView {
    /// The global path of the callee (`math.floor`), empty when it has none.
    pub path: String,
    /// The call stands as a statement of its own, its results unused.
    pub statement: bool,
    /// The number of arguments.
    pub arguments: usize,
    /// The first argument is a comparison.
    pub first_compares: bool,
    /// The value of the first argument, when it is a string constant.
    pub first_text: Option<String>,
    /// The last argument is a call or `...`, which may give any number of values.
    pub last_expands: bool,
    /// The method's name, when the call is a method call (`a:b()`).
    pub method: Option<String>,
    /// The value of a method call's receiver, when it is a string constant.
    pub receiver_text: Option<String>,
    /// The local function called, when the callee is a local that is never
    /// assigned again and whose declaration is a function.
    pub local: Option<Callee>,
    /// The second argument.
    pub index: Index,
}

/// The node a finding is reported at.
#[derive(Debug, Clone, Copy, PartialEq, Eq, Structural)]
pub enum Site {
    Call,
    FirstArgument,
    Receiver,
}

/// A finding of the call checks: its rule, its node and its message.
pub struct CallFinding {
    pub rule: String,
    pub site: Site,
    pub message: String,
}

/// A finding as plain values.
pub open spec fn found(f: CallFinding) -> (Seq<char>, Site, Seq<char>) {
    (f.rule@, f.site, f.message@)
}

/// Each finding as plain values.
pub open spec fn founds(s: Seq<CallFinding>) -> Seq<(Seq<char>, Site, Seq<char>)> {
    s.map_values(|f: CallFinding| found(f))
}

/// The functions whose only effect is their result.
pub open spec fn is_pure(p: Seq<char>) -> bool {
    ||| p == "math.abs"@ ||| p == "math.ceil"@ ||| p == "math.clamp"@ ||| p == "math.floor"@
    ||| p == "math.max"@ ||| p == "math.min"@ ||| p == "math.round"@ ||| p == "math.sqrt"@
    ||| p == "os.date"@ ||| p == "os.time"@ ||| p == "rawequal"@ ||| p == "rawget"@
    ||| p == "rawlen"@ ||| p == "select"@ ||| p == "string.byte"@ ||| p == "string.char"@
    ||| p == "string.find"@ ||| p == "string.format"@ ||| p == "string.gsub"@ ||| p == "string.len"@
    ||| p == "string.lower"@ ||| p == "string.match"@ ||| p == "string.rep"@
    ||| p == "string.reverse"@ ||| p == "string.split"@ ||| p == "string.sub"@
    ||| p == "string.upper"@ ||| p == "table.concat"@ ||| p == "table.find"@ ||| p == "table.pack"@
    ||| p == "tonumber"@ ||| p == "tostring"@ ||| p == "type"@ ||| p == "typeof"@
    ||| p == "utf8.char"@ ||| p == "utf8.len"@
}

/// The replacement of a deprecated global function.
pub open spec fn builtin_replacement(p: Seq<char>) -> Option<Seq<char>> {
    if p == "delay"@ {
        Some("task.delay"@)
    } else if p == "elapsedTime"@ {
        Some("os.clock"@)
    } else if p == "spawn"@ {
        Some("task.spawn"@)
    } else if p == "table.foreach"@ || p == "table.foreachi"@ {
        Some("a for loop"@)
    } else if p == "table.getn"@ {
        Some("the length operator"@)
    } else if p == "wait"@ {
        Some("task.wait"@)
    } else {
        None
    }
}

/// The replacement of a deprecated Roblox method.
pub open spec fn method_replacement(m: Seq<char>) -> Option<Seq<char>> {
    if m == "Remove"@ {
        Some("Destroy"@)
    } else if m == "children"@ || m == "getChildren"@ {
        Some("GetChildren"@)
    } else if m == "findFirstChild"@ {
        Some("FindFirstChild"@)
    } else {
        None
    }
}

/// The value of the first entry of `m` under `key`.
pub open spec fn text_lookup(m: Seq<(String, String)>, key: Seq<char>) -> Option<Seq<char>>
    decreases m.len(),
{
    if m.len() == 0 {
        None
    } else if m[0].0@ == key {
        Some(m[0].1@)
    } else {
        text_lookup(m.drop_first(), key)
    }
}

/// One finding at the call itself.
pub open spec fn at_call(rule: Seq<char>, message: Seq<char>) -> Seq<(Seq<char>, Site, Seq<char>)> {
    seq![(rule, Site::Call, message)]
}

/// A call whose results are dropped although they are all it gives.
pub open spec fn discarded_findings(c: CallView) -> Seq<(Seq<char>, Site, Seq<char>)> {
    if !c.statement {
        seq![]
    } else {
        (if is_pure(c.path@) {
            at_call("discarded_return"@, "The result of "@ + c.path@ + " is discarded"@)
        } else {
            seq![]
        }) + (if c.path@ == "pcall"@ || c.path@ == "xpcall"@ {
            at_call("ignored_protected_call"@, "The protected call discards its status and results"@)
        } else {
            seq![]
        })
    }
}

/// `type(a == b)` in place of `type(a) == b`.
pub open spec fn type_findings(c: CallView) -> Seq<(Seq<char>, Site, Seq<char>)> {
    if c.path@ == "type"@ && c.first_compares {
        at_call("misplaced_type_comparison"@, "Move the comparison outside type()"@)
    } else {
        seq![]
    }
}

/// A require of a path that the settings restrict, with their reason.
pub open spec fn restricted_findings(c: CallView, settings: Settings) -> Seq<(Seq<char>, Site, Seq<char>)> {
    if c.path@ == "require"@ && c.first_text is Some {
        match text_lookup(settings.options.restricted_import.paths@, c.first_text->0@) {
            Some(reason) => seq![("restricted_import"@, Site::FirstArgument, "This import is restricted: "@ + reason)],
            None => seq![],
        }
    } else {
        seq![]
    }
}

/// A deprecated global function, built in or named in the settings, and on
/// Roblox a deprecated method.
pub open spec fn deprecated_findings(c: CallView, settings: Settings, roblox: bool) -> Seq<(Seq<char>, Site, Seq<char>)> {
    let replacement = match builtin_replacement(c.path@) {
        Some(r) => Some(r),
        None => text_lookup(settings.options.deprecated_function.additional@, c.path@),
    };
    (match replacement {
        Some(r) => at_call("deprecated_function"@, c.path@ + " is deprecated; use "@ + r),
        None => seq![],
    }) + (if roblox && c.method is Some {
        match method_replacement(c.method->0@) {
            Some(r) => at_call("deprecated_function"@, c.method->0@ + " is deprecated; use "@ + r),
            None => seq![],
        }
    } else {
        seq![]
    })
}

/// A parameter must be given: it has an annotation that does not end in `?`.
pub open spec fn demands(annotation: Option<String>) -> bool {
    match annotation {
        Some(a) => {
            let t = trim_end(a@);
            !(t.len() > 0 && t[t.len() - 1] == '?')
        },
        None => false,
    }
}

/// Every parameter of the callee must be given, and it has some.
pub open spec fn all_required(parameters: Seq<Option<String>>) -> bool {
    parameters.len() > 0 && forall|i: int| 0 <= i < parameters.len() ==> demands(#[trigger] parameters[i])
}

/// More arguments than the local function declares, or fewer when it
/// requires all of them.
pub open spec fn count_findings(c: CallView) -> Seq<(Seq<char>, Site, Seq<char>)> {
    match c.local {
        Some(l) => {
            let n = l.parameters@.len();
            if !l.vararg && !c.last_expands && (c.arguments > n || (all_required(l.parameters@) && c.arguments < n)) {
                at_call(
                    "argument_count"@,
                    "Function declares "@ + decimal(n) + " parameters but receives "@ + decimal(
                        c.arguments as nat,
                    ) + " arguments"@,
                )
            } else {
                seq![]
            }
        },
        None => seq![],
    }
}

/// `table.insert` and `table.remove` with a wrong number of arguments, or a
/// position that is no whole number of at least one.
pub open spec fn table_findings(c: CallView) -> Seq<(Seq<char>, Site, Seq<char>)> {
    let insert = c.path@ == "table.insert"@;
    let remove = c.path@ == "table.remove"@;
    let n = c.arguments;
    let valid = if insert { 2 <= n <= 3 } else { 1 <= n <= 2 };
    let indexed = n == if insert { 3usize } else { 2usize };
    if (insert || remove) && !c.last_expands && (!valid || (indexed && c.index == Index::Other)) {
        at_call("invalid_table_operation"@, "Invalid table operation arguments or index"@)
    } else {
        seq![]
    }
}

/// A character that may stand between `%` and the conversion of
/// `string.format`.
pub open spec fn is_flag(c: char) -> bool {
    c == '-' || c == '+' || c == ' ' || c == '#' || c == '.' || ('0' <= c && c <= '9')
}

/// A conversion that `os.date` (`date`) or `string.format` accepts.
pub open spec fn accepts(date: bool, c: char) -> bool {
    if date {
        c == 'a' || c == 'A' || c == 'b' || c == 'B' || c == 'c' || c == 'd' || c == 'H' || c == 'I'
            || c == 'j' || c == 'm' || c == 'M' || c == 'p' || c == 'S' || c == 'U' || c == 'w'
            || c == 'W' || c == 'x' || c == 'X' || c == 'y' || c == 'Y' || c == 'Z' || c == 'z'
            || c == 'C' || c == 'e' || c == 'F' || c == 'g' || c == 'G' || c == 'h' || c == 'R'
            || c == 'r' || c == 'T' || c == 't' || c == 'D' || c == 'u' || c == 'V' || c == 'n'
            || c == '%'
    } else {
        c == 'c' || c == 'd' || c == 'i' || c == 'o' || c == 'u' || c == 'x' || c == 'X' || c == 'e'
            || c == 'E' || c == 'f' || c == 'g' || c == 'G' || c == 'q' || c == 's'
    }
}

/// The first position from `k` that holds no flag.
pub open spec fn skip_flags(s: Seq<char>, k: int) -> int
    decreases s.len() - k,
{
    if 0 <= k < s.len() && is_flag(s[k]) {
        skip_flags(s, k + 1)
    } else {
        k
    }
}

/// The message on a conversion that is cut off by the end of the text.
pub open spec fn unfinished() -> Seq<char> {
    "Unfinished format conversion"@
}

/// The message on a conversion that is not accepted.
pub open spec fn invalid(c: char) -> Seq<char> {
    "Invalid format conversion %"@.push(c)
}

/// The messages on the conversions of a format text from position `i`:
/// each `%` not doubled starts one, flags follow it (but for `os.date`),
/// then the conversion; the first that the text's end cuts off ends the scan.
pub open spec fn conversions(s: Seq<char>, i: int, date: bool) -> Seq<Seq<char>>
    decreases s.len() - i,
{
    if i < 0 || i >= s.len() {
        seq![]
    } else if s[i] != '%' {
        conversions(s, i + 1, date)
    } else if i + 1 >= s.len() {
        seq![unfinished()]
    } else if s[i + 1] == '%' {
        conversions(s, i + 2, date)
    } else {
        let j = if date { i + 1 } else { skip_flags(s, i + 1) };
        if j >= s.len() {
            seq![unfinished()]
        } else if j <= i {
            seq![]
        } else {
            (if accepts(date, s[j]) { seq![] } else { seq![invalid(s[j])] }) + conversions(s, j + 1, date)
        }
    }
}

/// The format text that a call hands over, and where it stands:
/// the first argument of `string.format` and `os.date`, or the receiver of
/// a `format` method call, when it is a string constant.
pub open spec fn format_text(c: CallView) -> Option<(Seq<char>, Site)> {
    if c.path@ == "string.format"@ || c.path@ == "os.date"@ {
        match c.first_text {
            Some(t) => Some((t@, Site::FirstArgument)),
            None => None,
        }
    } else if c.method is Some && c.method->0@ == "format"@ {
        match c.receiver_text {
            Some(t) => Some((t@, Site::Receiver)),
            None => None,
        }
    } else {
        None
    }
}

/// The findings on the format text of a call.
pub open spec fn format_findings(c: CallView) -> Seq<(Seq<char>, Site, Seq<char>)> {
    match format_text(c) {
        Some((t, site)) => conversions(t, 0, c.path@ == "os.date"@).map_values(
            |m: Seq<char>| ("invalid_format_string"@, site, m),
        ),
        None => seq![],
    }
}

/// Everything the call checks report at one call, in order.
pub open spec fn invocation_findings(c: CallView, settings: Settings, roblox: bool) -> Seq<(Seq<char>, Site, Seq<char>)> {
    discarded_findings(c) + type_findings(c) + restricted_findings(c, settings) + deprecated_findings(
        c,
        settings,
        roblox,
    ) + count_findings(c) + table_findings(c) + format_findings(c)
}

fn is(p: &Vec<char>, name: &str) -> (r: bool)
    ensures
        r == (p@ == name@),
{
    same(p.as_slice(), chars_of(name).as_slice())
}

fn pure(p: &Vec<char>) -> (r: bool)
    ensures
        r == is_pure(p@),
{
    is(p, "math.abs") || is(p, "math.ceil") || is(p, "math.clamp") || is(p, "math.floor") || is(p, "math.max")
        || is(p, "math.min") || is(p, "math.round") || is(p, "math.sqrt") || is(p, "os.date") || is(
        p,
        "os.time",
    ) || is(p, "rawequal") || is(p, "rawget") || is(p, "rawlen") || is(p, "select") || is(p, "string.byte")
        || is(p, "string.char") || is(p, "string.find") || is(p, "string.format") || is(p, "string.gsub")
        || is(p, "string.len") || is(p, "string.lower") || is(p, "string.match") || is(p, "string.rep")
        || is(p, "string.reverse") || is(p, "string.split") || is(p, "string.sub") || is(p, "string.upper")
        || is(p, "table.concat") || is(p, "table.find") || is(p, "table.pack") || is(p, "tonumber") || is(
        p,
        "tostring",
    ) || is(p, "type") || is(p, "typeof") || is(p, "utf8.char") || is(p, "utf8.len")
}

fn builtin(p: &Vec<char>) -> (r: Option<Vec<char>>)
    ensures
        match r {
            Some(v) => builtin_replacement(p@) == Some(v@),
            None => builtin_replacement(p@) is None,
        },
{
    if is(p, "delay") {
        Some(chars_of("task.delay"))
    } else if is(p, "elapsedTime") {
        Some(chars_of("os.clock"))
    } else if is(p, "spawn") {
        Some(chars_of("task.spawn"))
    } else if is(p, "table.foreach") || is(p, "table.foreachi") {
        Some(chars_of("a for loop"))
    } else if is(p, "table.getn") {
        Some(chars_of("the length operator"))
    } else if is(p, "wait") {
        Some(chars_of("task.wait"))
    } else {
        None
    }
}

fn method_instead(m: &Vec<char>) -> (r: Option<Vec<char>>)
    ensures
        match r {
            Some(v) => method_replacement(m@) == Some(v@),
            None => method_replacement(m@) is None,
        },
{
    if is(m, "Remove") {
        Some(chars_of("Destroy"))
    } else if is(m, "children") || is(m, "getChildren") {
        Some(chars_of("GetChildren"))
    } else if is(m, "findFirstChild") {
        Some(chars_of("FindFirstChild"))
    } else {
        None
    }
}

pub(crate) fn lookup_text(m: &Vec<(String, String)>, key: &Vec<char>) -> (r: Option<Vec<char>>)
    ensures
        match r {
            Some(v) => text_lookup(m@, key@) == Some(v@),
            None => text_lookup(m@, key@) is None,
        },
{
    let mut i: usize = 0;
    proof {
        assert(m@.subrange(0, m@.len() as int) =~= m@);
    }
    while i < m.len()
        invariant
            i <= m@.len(),
            text_lookup(m@, key@) == text_lookup(m@.subrange(i as int, m@.len() as int), key@),
        decreases m@.len() - i,
    {
        let k = chars_of(m[i].0.as_str());
        proof {
            let rest = m@.subrange(i as int, m@.len() as int);
            assert(rest.drop_first() =~= m@.subrange(i + 1, m@.len() as int));
            assert(rest[0] == m@[i as int]);
        }
        if same(k.as_slice(), key.as_slice()) {
            return Some(chars_of(m[i].1.as_str()));
        }
        i = i + 1;
    }
    None
}

fn finding(rule: &str, site: Site, message: Vec<char>) -> (f: CallFinding)
    ensures
        found(f) == (rule@, site, message@),
{
    CallFinding { rule: string_of(chars_of(rule).as_slice()), site, message: string_of(message.as_slice()) }
}

fn message3(a: &Vec<char>, b: &str, c: &Vec<char>) -> (r: Vec<char>)
    ensures
        r@ == a@ + b@ + c@,
{
    let mut v: Vec<char> = Vec::new();
    push_all(&mut v, a.as_slice());
    push_all(&mut v, chars_of(b).as_slice());
    push_all(&mut v, c.as_slice());
    v
}

fn accepted(date: bool, c: char) -> (r: bool)
    ensures
        r == accepts(date, c),
{
    if date {
        c == 'a' || c == 'A' || c == 'b' || c == 'B' || c == 'c' || c == 'd' || c == 'H' || c == 'I'
            || c == 'j' || c == 'm' || c == 'M' || c == 'p' || c == 'S' || c == 'U' || c == 'w'
            || c == 'W' || c == 'x' || c == 'X' || c == 'y' || c == 'Y' || c == 'Z' || c == 'z'
            || c == 'C' || c == 'e' || c == 'F' || c == 'g' || c == 'G' || c == 'h' || c == 'R'
            || c == 'r' || c == 'T' || c == 't' || c == 'D' || c == 'u' || c == 'V' || c == 'n'
            || c == '%'
    } else {
        c == 'c' || c == 'd' || c == 'i' || c == 'o' || c == 'u' || c == 'x' || c == 'X' || c == 'e'
            || c == 'E' || c == 'f' || c == 'g' || c == 'G' || c == 'q' || c == 's'
    }
}

/// The messages on the conversions of a format text: each `%` that is not
/// doubled opens a conversion, which `string.format` lets flags precede and
/// `os.date` (`date`) does not; a conversion that the text's end cuts off
/// ends the scan.
pub fn format_messages(s: &Vec<char>, date: bool) -> (r: Vec<Vec<char>>)
    ensures
        texts(r@) == conversions(s@, 0, date),
{
    let n = s.len();
    let mut out: Vec<Vec<char>> = Vec::new();
    let mut i: usize = 0;
    let mut done = false;
    while i < n && !done
        invariant
            i <= n == s@.len(),
            done ==> texts(out@) == conversions(s@, 0, date),
            !done ==> texts(out@) + conversions(s@, i as int, date) == conversions(s@, 0, date),
        decreases n - i + (if done { 0int } else { 1int }),
    {
        let ghost before = out@;
        if s[i] != '%' {
            i = i + 1;
        } else if i + 1 >= n {
            out.push(chars_of("Unfinished format conversion"));
            proof {
                assert(texts(out@) =~= texts(before) + seq![unfinished()]);
            }
            done = true;
        } else if s[i + 1] == '%' {
            i = i + 2;
        } else {
            let mut j = i + 1;
            if !date {
                while j < n && (s[j] == '-' || s[j] == '+' || s[j] == ' ' || s[j] == '#' || s[j] == '.' || ('0'
                    <= s[j] && s[j] <= '9'))
                    invariant
                        i + 1 <= j <= n == s@.len(),
                        skip_flags(s@, j as int) == skip_flags(s@, i + 1),
                    decreases n - j,
                {
                    j = j + 1;
                }
            }
            proof {
                if !date {
                    assert(skip_flags(s@, j as int) == j);
                }
            }
            if j >= n {
                out.push(chars_of("Unfinished format conversion"));
                proof {
                    assert(texts(out@) =~= texts(before) + seq![unfinished()]);
                }
                done = true;
            } else {
                let c = s[j];
                if !accepted(date, c) {
                    let mut m = chars_of("Invalid format conversion %");
                    m.push(c);
                    out.push(m);
                    proof {
                        assert(texts(out@) =~= texts(before) + seq![invalid(c)]);
                    }
                } else {
                    proof {
                        assert(texts(out@) =~= texts(before));
                    }
                }
                i = j + 1;
            }
        }
    }
    proof {
        if !done {
            assert(texts(out@) + conversions(s@, i as int, date) =~= texts(out@));
        }
    }
    out
}

/// Whether a parameter must be given: it has an annotation that does not end in `?`.
fn demanded(annotation: &Option<String>) -> (r: bool)
    ensures
        r == demands(*annotation),
{
    match annotation {
        Some(a) => {
            let t = trimmed_end(chars_of(a.as_str()).as_slice());
            !(t.len() > 0 && t[t.len() - 1] == '?')
        },
        None => false,
    }
}

fn every_required(parameters: &Vec<Option<String>>) -> (r: bool)
    ensures
        r == all_required(parameters@),
{
    if parameters.len() == 0 {
        return false;
    }
    let mut i: usize = 0;
    while i < parameters.len()
        invariant
            i <= parameters@.len(),
            forall|p: int| 0 <= p < i ==> demands(#[trigger] parameters@[p]),
        decreases parameters@.len() - i,
    {
        if !demanded(&parameters[i]) {
            return false;
        }
        i = i + 1;
    }
    true
}

fn emit(out: &mut Vec<CallFinding>, f: CallFinding)
    ensures
        founds(final(out)@) == founds(old(out)@).push(found(f)),
{
    let ghost before = out@;
    out.push(f);
    proof {
        assert(founds(out@) =~= founds(before).push(found(f)));
    }
}

fn discarded(call: &CallView, path: &Vec<char>, out: &mut Vec<CallFinding>)
    requires
        path@ == call.path@,
    ensures
        founds(final(out)@) == founds(old(out)@) + discarded_findings(*call),
{
    let ghost start = founds(out@);
    if call.statement {
        if pure(path) {
            emit(out, finding("discarded_return", Site::Call, message3(&chars_of("The result of "), call.path.as_str(), &chars_of(" is discarded"))));
        }
        let ghost middle = founds(out@);
        if is(path, "pcall") || is(path, "xpcall") {
            emit(out, finding("ignored_protected_call", Site::Call, chars_of("The protected call discards its status and results")));
        }
        proof {
            assert(middle =~= start + (if is_pure(call.path@) {
                at_call("discarded_return"@, "The result of "@ + call.path@ + " is discarded"@)
            } else {
                seq![]
            }));
        }
    }
    proof {
        assert(founds(out@) =~= start + discarded_findings(*call));
    }
}

fn restricted(call: &CallView, path: &Vec<char>, settings: &Settings, out: &mut Vec<CallFinding>)
    requires
        path@ == call.path@,
    ensures
        founds(final(out)@) == founds(old(out)@) + type_findings(*call) + restricted_findings(*call, *settings),
{
    let ghost start = founds(out@);
    if is(path, "type") && call.first_compares {
        emit(out, finding("misplaced_type_comparison", Site::Call, chars_of("Move the comparison outside type()")));
    }
    let ghost middle = founds(out@);
    proof {
        assert(middle =~= start + type_findings(*call));
    }
    if is(path, "require") {
        if let Some(t) = &call.first_text {
            let key = chars_of(t.as_str());
            if let Some(reason) = lookup_text(&settings.options.restricted_import.paths, &key) {
                let mut m = chars_of("This import is restricted: ");
                push_all(&mut m, reason.as_slice());
                emit(out, finding("restricted_import", Site::FirstArgument, m));
            }
        }
    }
    proof {
        assert(founds(out@) =~= middle + restricted_findings(*call, *settings));
    }
}

fn deprecated(call: &CallView, path: &Vec<char>, settings: &Settings, roblox: bool, out: &mut Vec<CallFinding>)
    requires
        path@ == call.path@,
    ensures
        founds(final(out)@) == founds(old(out)@) + deprecated_findings(*call, *settings, roblox),
{
    let ghost start = founds(out@);
    let replacement = match builtin(path) {
        Some(r) => Some(r),
        None => lookup_text(&settings.options.deprecated_function.additional, path),
    };
    if let Some(r) = replacement {
        emit(out, finding("deprecated_function", Site::Call, message3(path, " is deprecated; use ", &r)));
    }
    let ghost middle = founds(out@);
    if roblox {
        if let Some(m) = &call.method {
            let name = chars_of(m.as_str());
            if let Some(r) = method_instead(&name) {
                emit(out, finding("deprecated_function", Site::Call, message3(&name, " is deprecated; use ", &r)));
            }
        }
    }
    proof {
        let first = match (match builtin_replacement(call.path@) {
            Some(r) => Some(r),
            None => text_lookup(settings.options.deprecated_function.additional@, call.path@),
        }) {
            Some(r) => at_call("deprecated_function"@, call.path@ + " is deprecated; use "@ + r),
            None => seq![],
        };
        assert(middle =~= start + first);
        assert(founds(out@) =~= start + deprecated_findings(*call, *settings, roblox));
    }
}

fn counted(call: &CallView, out: &mut Vec<CallFinding>)
    ensures
        founds(final(out)@) == founds(old(out)@) + count_findings(*call),
{
    let ghost start = founds(out@);
    if let Some(l) = &call.local {
        let n = l.parameters.len();
        if !l.vararg && !call.last_expands && (call.arguments > n || (every_required(&l.parameters) && call.arguments < n)) {
            let mut m = chars_of("Function declares ");
            push_all(&mut m, chars_of(decimal_text(n as u64).as_str()).as_slice());
            push_all(&mut m, chars_of(" parameters but receives ").as_slice());
            push_all(&mut m, chars_of(decimal_text(call.arguments as u64).as_str()).as_slice());
            push_all(&mut m, chars_of(" arguments").as_slice());
            emit(out, finding("argument_count", Site::Call, m));
        }
    }
    proof {
        assert(founds(out@) =~= start + count_findings(*call));
    }
}

fn table(call: &CallView, path: &Vec<char>, out: &mut Vec<CallFinding>)
    requires
        path@ == call.path@,
    ensures
        founds(final(out)@) == founds(old(out)@) + table_findings(*call),
{
    let ghost start = founds(out@);
    let insert = is(path, "table.insert");
    let remove = is(path, "table.remove");
    if (insert || remove) && !call.last_expands {
        let n = call.arguments;
        let valid = if insert { 2 <= n && n <= 3 } else { 1 <= n && n <= 2 };
        let indexed = n == if insert { 3usize } else { 2usize };
        if !valid || (indexed && call.index == Index::Other) {
            emit(out, finding("invalid_table_operation", Site::Call, chars_of("Invalid table operation arguments or index")));
        }
    }
    proof {
        assert(founds(out@) =~= start + table_findings(*call));
    }
}

fn formats(call: &CallView, path: &Vec<char>, out: &mut Vec<CallFinding>)
    requires
        path@ == call.path@,
    ensures
        founds(final(out)@) == founds(old(out)@) + format_findings(*call),
{
    let ghost start = founds(out@);
    let date = is(path, "os.date");
    let text: Option<(Vec<char>, Site)> = if date || is(path, "string.format") {
        match &call.first_text {
            Some(t) => Some((chars_of(t.as_str()), Site::FirstArgument)),
            None => None,
        }
    } else {
        match &call.method {
            Some(m) => {
                if is(&chars_of(m.as_str()), "format") {
                    match &call.receiver_text {
                        Some(t) => Some((chars_of(t.as_str()), Site::Receiver)),
                        None => None,
                    }
                } else {
                    None
                }
            },
            None => None,
        }
    };
    proof {
        match format_text(*call) {
            Some((t, site)) => {
                assert(match text {
                    Some((tv, sv)) => tv@ == t && sv == site,
                    None => false,
                });
            },
            None => {
                assert(text is None);
            },
        }
    }
    if let Some((t, site)) = text {
        let messages = format_messages(&t, date);
        let ghost ms = conversions(t@, 0, date);
        let mut k: usize = 0;
        while k < messages.len()
            invariant
                k <= messages@.len() == ms.len(),
                texts(messages@) == ms,
                founds(out@) =~= start + ms.subrange(0, k as int).map_values(
                    |m: Seq<char>| ("invalid_format_string"@, site, m),
                ),
            decreases messages@.len() - k,
        {
            let ghost before = founds(out@);
            let mut m: Vec<char> = Vec::new();
            push_all(&mut m, messages[k].as_slice());
            emit(out, finding("invalid_format_string", site, m));
            proof {
                assert(ms[k as int] == messages@[k as int]@);
                assert(ms.subrange(0, k + 1).map_values(|m: Seq<char>| ("invalid_format_string"@, site, m)) =~= ms.subrange(
                    0,
                    k as int,
                ).map_values(|m: Seq<char>| ("invalid_format_string"@, site, m)).push(("invalid_format_string"@, site, ms[k as int])));
            }
            k = k + 1;
        }
        proof {
            assert(ms.subrange(0, ms.len() as int) =~= ms);
        }
    }
    proof {
        assert(founds(out@) =~= start + format_findings(*call));
    }
}

/// The findings of the call checks at one call: a pure function or a
/// protected call whose results are dropped, a comparison inside `type()`,
/// a restricted require, a deprecated function, a wrong number of arguments
/// to a local function, a malformed `table.insert` or `table.remove`, and
/// malformed format strings; `roblox` tells whether the Roblox methods are
/// checked too.
pub fn invocation(call: &CallView, settings: &Settings, roblox: bool) -> (r: Vec<CallFinding>)
    ensures
        founds(r@) == invocation_findings(*call, *settings, roblox),
{
    let path = chars_of(call.path.as_str());
    let mut out: Vec<CallFinding> = Vec::new();
    proof {
        assert(founds(out@) =~= seq![]);
    }
    discarded(call, &path, &mut out);
    restricted(call, &path, settings, &mut out);
    deprecated(call, &path, settings, roblox, &mut out);
    counted(call, &mut out);
    table(call, &path, &mut out);
    formats(call, &path, &mut out);
    proof {
        assert(founds(out@) =~= invocation_findings(*call, *settings, roblox));
    }
    out
}


/// The conversions of `string.format` are exactly the letters
/// `c d i o u x X e E f g G q s`: `%` followed by one of them draws no
/// message, and `%` followed by any other character that is neither a flag
/// nor a second `%` draws the one message naming it.
pub proof fn law_format_conversions(c: char)
    ensures
        "cdiouxXeEfgGqs"@.contains(c) ==> conversions(seq!['%', c], 0, false) == Seq::<Seq<char>>::empty(),
        !"cdiouxXeEfgGqs"@.contains(c) && !is_flag(c) && c != '%' ==> conversions(seq!['%', c], 0, false)
            == seq!["Invalid format conversion %"@.push(c)],
{
    reveal_strlit("cdiouxXeEfgGqs");
    let s = seq!['%', c];
    let in_list = c == 'c' || c == 'd' || c == 'i' || c == 'o' || c == 'u' || c == 'x' || c == 'X' || c == 'e'
        || c == 'E' || c == 'f' || c == 'g' || c == 'G' || c == 'q' || c == 's';
    assert("cdiouxXeEfgGqs"@.contains(c) <==> in_list) by {
        let l = "cdiouxXeEfgGqs"@;
        if l.contains(c) {
            let k = choose|k: int| 0 <= k < l.len() && l[k] == c;
            assert(in_list);
        }
        if in_list {
            if c == 'c' { assert(l[0] == c); } else if c == 'd' { assert(l[1] == c); } else if c == 'i' {
                assert(l[2] == c);
            } else if c == 'o' { assert(l[3] == c); } else if c == 'u' { assert(l[4] == c); } else if c == 'x' {
                assert(l[5] == c);
            } else if c == 'X' { assert(l[6] == c); } else if c == 'e' { assert(l[7] == c); } else if c == 'E' {
                assert(l[8] == c);
            } else if c == 'f' { assert(l[9] == c); } else if c == 'g' { assert(l[10] == c); } else if c == 'G' {
                assert(l[11] == c);
            } else if c == 'q' { assert(l[12] == c); } else { assert(l[13] == c); }
        }
    }
    assert(s[0] == '%' && s[1] == c && s.len() == 2);
    if in_list || (!is_flag(c) && c != '%') {
        assert(!is_flag(c));
        assert(skip_flags(s, 1) == 1);
        assert(conversions(s, 2, false) == Seq::<Seq<char>>::empty());
    }
}

/// Where `c` stands among the conversions of `os.date`, as listed in
/// `law_date_conversions`.
spec fn position_in(c: char) -> int {
    if c == 'a' { 0 } else if c == 'A' { 1 } else if c == 'b' { 2 } else if c == 'B' { 3 } else if c == 'c' { 4 } else if c == 'd' { 5 } else if c == 'H' { 6 } else if c == 'I' { 7 } else if c == 'j' { 8 } else if c == 'm' { 9 } else if c == 'M' { 10 } else if c == 'p' { 11 } else if c == 'S' { 12 } else if c == 'U' { 13 } else if c == 'w' { 14 } else if c == 'W' { 15 } else if c == 'x' { 16 } else if c == 'X' { 17 } else if c == 'y' { 18 } else if c == 'Y' { 19 } else if c == 'Z' { 20 } else if c == 'z' { 21 } else if c == 'C' { 22 } else if c == 'e' { 23 } else if c == 'F' { 24 } else if c == 'g' { 25 } else if c == 'G' { 26 } else if c == 'h' { 27 } else if c == 'R' { 28 } else if c == 'r' { 29 } else if c == 'T' { 30 } else if c == 't' { 31 } else if c == 'D' { 32 } else if c == 'u' { 33 } else if c == 'V' { 34 } else if c == 'n' { 35 } else if c == '%' { 36 } else { 0 }
}

/// The conversions of `os.date` are exactly the characters
/// `a A b B c d H I j m M p S U w W x X y Y Z z C e F g G h R r T t D u V n %`:
/// `%` followed by one of them draws no message, and by any other the one
/// message naming it.
pub proof fn law_date_conversions(c: char)
    ensures
        "aAbBcdHIjmMpSUwWxXyYZzCeFgGhRrTtDuVn%"@.contains(c) ==> conversions(seq!['%', c], 0, true)
            == Seq::<Seq<char>>::empty(),
        !"aAbBcdHIjmMpSUwWxXyYZzCeFgGhRrTtDuVn%"@.contains(c) ==> conversions(seq!['%', c], 0, true)
            == seq!["Invalid format conversion %"@.push(c)],
{
    reveal_strlit("aAbBcdHIjmMpSUwWxXyYZzCeFgGhRrTtDuVn%");
    let l = "aAbBcdHIjmMpSUwWxXyYZzCeFgGhRrTtDuVn%"@;
    let s = seq!['%', c];
    assert(l.contains(c) <==> accepts(true, c)) by {
        if l.contains(c) {
            let k = choose|k: int| 0 <= k < l.len() && l[k] == c;
            assert(accepts(true, c));
        }
        if accepts(true, c) {
            assert(l[position_in(c)] == c);
        }
    }
    assert(s[0] == '%' && s[1] == c && s.len() == 2);
    if c != '%' {
        assert(conversions(s, 2, true) == Seq::<Seq<char>>::empty());
    } else {
        assert(conversions(s, 2, true) == Seq::<Seq<char>>::empty());
    }
}

} // verus!
