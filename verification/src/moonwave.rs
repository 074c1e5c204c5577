//! Rendering of Moonwave documentation comments as Markdown for editor hovers.

use vstd::prelude::*;
use crate::text::{
    is_white, lemma_find_from, white_from,
    chars_of, copy_range, find, find_from, join, joined, lines, matches_at, push_all,
    same, split_at_white, split_lines, split_white, starts_with, string_of, trim, trim_end, trimmed,
    trimmed_end,
};

verus! {

/// What the lines of a comment contribute, read from the first line on.
#[verifier::ext_equal]
pub struct Notes {
    pub prose: Seq<Seq<char>>,
    pub fields: Seq<Seq<char>>,
    pub parameters: Seq<Seq<char>>,
    pub returns: Seq<Seq<char>>,
    pub errors: Seq<Seq<char>>,
    /// The open code fence: `Some(true)` for backticks, `Some(false)` for tildes.
    pub fence: Option<bool>,
}

pub open spec fn no_notes() -> Notes {
    Notes {
        prose: seq![],
        fields: seq![],
        parameters: seq![],
        returns: seq![],
        errors: seq![],
        fence: None,
    }
}

pub open spec fn with_prose(n: Notes, line: Seq<char>) -> Notes {
    Notes { prose: n.prose.push(line), ..n }
}

/// `@param` and `@field` entries: the name in code, then its description.
pub open spec fn named_entry(value: Seq<char>) -> Seq<char> {
    match split_white(value) {
        Some((name, description)) => trim_end("- `"@ + name + "` "@ + description),
        None => trim_end("- `"@ + value + "` "@),
    }
}

/// `@return` and `@error` entries: the type in code when ` --` introduces a description.
pub open spec fn result_entry(value: Seq<char>) -> Seq<char> {
    match find_from(value, " --"@, 0) {
        Some(i) => "- `"@ + value.take(i) + "` --"@ + value.skip(i + " --"@.len()),
        None => "- "@ + value,
    }
}

/// Tags that contribute nothing to the rendered text.
pub open spec fn ignored_tag(tag: Seq<char>) -> bool {
    tag == "@ignore"@ || tag == "@tag"@ || tag == "@within"@ || tag == "@class"@ || tag
        == "@function"@ || tag == "@method"@ || tag == "@prop"@ || tag == "@interface"@ || tag
        == "@type"@ || tag == "@__index"@ || tag == "@external"@
}

/// What one tagged or untagged line outside a code fence contributes.
pub open spec fn tagged(n: Notes, line: Seq<char>, tag: Seq<char>, value: Seq<char>) -> Notes {
    if tag == "@param"@ {
        Notes { parameters: n.parameters.push(named_entry(value)), ..n }
    } else if tag == "@field"@ {
        Notes { fields: n.fields.push(named_entry(value)), ..n }
    } else if tag == "@return"@ {
        Notes { returns: n.returns.push(result_entry(value)), ..n }
    } else if tag == "@error"@ || tag == "@throws"@ {
        Notes { errors: n.errors.push(result_entry(value)), ..n }
    } else if tag == "@since"@ {
        with_prose(n, "**Since** `"@ + value + "`"@)
    } else if tag == "@deprecated"@ {
        with_prose(n, "**Deprecated** "@ + value)
    } else if tag == "@private"@ {
        with_prose(n, "**Private**"@)
    } else if tag == "@yields"@ {
        with_prose(n, "**Yields**"@)
    } else if tag == "@unreleased"@ {
        with_prose(n, "**Unreleased**"@)
    } else if tag == "@server"@ {
        with_prose(n, "**Server**"@)
    } else if tag == "@client"@ {
        with_prose(n, "**Client**"@)
    } else if tag == "@plugin"@ {
        with_prose(n, "**Plugin**"@)
    } else if tag == "@readonly"@ {
        with_prose(n, "**Read Only**"@)
    } else if ignored_tag(tag) {
        n
    } else {
        with_prose(n, line)
    }
}

/// The tag of a trimmed line and the trimmed text after it.
pub open spec fn tag_of(trimmed: Seq<char>) -> (Seq<char>, Seq<char>) {
    match split_white(trimmed) {
        Some((tag, rest)) => (tag, trim(rest)),
        None => (trimmed, seq![]),
    }
}

/// What one line contributes after the lines before it.
pub open spec fn step(n: Notes, line: Seq<char>) -> Notes {
    let trimmed = trim(line);
    if starts_with(trimmed, "```"@) || starts_with(trimmed, "~~~"@) {
        let marker = starts_with(trimmed, "```"@);
        let fence = if n.fence == Some(marker) {
            None
        } else if n.fence is None {
            Some(marker)
        } else {
            n.fence
        };
        Notes { fence: fence, ..with_prose(n, line) }
    } else if n.fence is Some {
        with_prose(n, line)
    } else {
        tagged(n, line, tag_of(trimmed).0, tag_of(trimmed).1)
    }
}

pub open spec fn scan(ls: Seq<Seq<char>>) -> Notes
    decreases ls.len(),
{
    if ls.len() == 0 {
        no_notes()
    } else {
        step(scan(ls.drop_last()), ls.last())
    }
}

/// A bold heading and its entries after the text so far.
pub open spec fn section(out: Seq<char>, heading: Seq<char>, entries: Seq<Seq<char>>) -> Seq<
    char,
> {
    if entries.len() == 0 {
        out
    } else {
        (if out.len() == 0 {
            out
        } else {
            out + "\n\n"@
        }) + "**"@ + heading + "**\n\n"@ + join(entries, "\n"@)
    }
}

/// The Markdown rendering of a Moonwave comment: prose with tag lines
/// rewritten, then Fields, Parameters, Returns and Throws sections.
pub open spec fn rendered(text: Seq<char>) -> Seq<char> {
    let n = scan(lines(text));
    let out = trim(join(n.prose, "\n"@));
    section(
        section(
            section(section(out, "Fields"@, n.fields), "Parameters"@, n.parameters),
            "Returns"@,
            n.returns,
        ),
        "Throws"@,
        n.errors,
    )
}

struct NotesBuffer {
    prose: Vec<Vec<char>>,
    fields: Vec<Vec<char>>,
    parameters: Vec<Vec<char>>,
    returns: Vec<Vec<char>>,
    errors: Vec<Vec<char>>,
    fence: Option<bool>,
}

spec fn texts(v: Seq<Vec<char>>) -> Seq<Seq<char>> {
    v.map_values(|l: Vec<char>| l@)
}

impl NotesBuffer {
    spec fn notes(&self) -> Notes {
        Notes {
            prose: texts(self.prose@),
            fields: texts(self.fields@),
            parameters: texts(self.parameters@),
            returns: texts(self.returns@),
            errors: texts(self.errors@),
            fence: self.fence,
        }
    }
}

fn push_text(v: &mut Vec<Vec<char>>, line: Vec<char>)
    ensures
        texts(final(v)@) == texts(old(v)@).push(line@),
{
    v.push(line);
    assert(texts(v@) =~= texts(old(v)@).push(line@));
}

fn is(tag: &[char], name: &str) -> (r: bool)
    ensures
        r == (tag@ == name@),
{
    same(tag, &chars_of(name))
}

/// The `- `name` description` entry of `@param` and `@field`.
pub fn named(value: &[char]) -> (r: Vec<char>)
    ensures
        r@ == named_entry(value@),
{
    let open = chars_of("- `");
    let close = chars_of("` ");
    match split_at_white(value) {
        Some((name, description)) => {
            let mut s = open;
            push_all(&mut s, &name);
            push_all(&mut s, &close);
            push_all(&mut s, &description);
            trimmed_end(&s)
        },
        None => {
            let mut s = open;
            push_all(&mut s, value);
            push_all(&mut s, &close);
            trimmed_end(&s)
        },
    }
}

/// The `- `type` --description` entry of `@return` and `@error`.
pub fn result(value: &[char]) -> (r: Vec<char>)
    ensures
        r@ == result_entry(value@),
{
    let marker = chars_of(" --");
    match find(value, &marker) {
        Some(i) => {
            proof {
                lemma_find_from(value@, marker@, 0);
            }
            assert(value@.len() == value.len());
            let mut s = chars_of("- `");
            push_all(&mut s, &copy_range(value, 0, i));
            push_all(&mut s, &chars_of("` --"));
            push_all(&mut s, &copy_range(value, i + marker.len(), value.len()));
            assert(value@.subrange(0, i as int) =~= value@.take(i as int));
            assert(value@.subrange(i + marker@.len(), value@.len() as int) =~= value@.skip(
                i + " --"@.len(),
            ));
            s
        },
        None => {
            let mut s = chars_of("- ");
            push_all(&mut s, value);
            s
        },
    }
}

fn add_prose(buffer: &mut NotesBuffer, line: Vec<char>)
    ensures
        final(buffer).notes() == with_prose(old(buffer).notes(), line@),
{
    push_text(&mut buffer.prose, line);
}

fn add_tagged(buffer: &mut NotesBuffer, line: &[char], tag: &[char], value: &[char])
    ensures
        final(buffer).notes() == tagged(old(buffer).notes(), line@, tag@, value@),
{
    if is(tag, "@param") {
        push_text(&mut buffer.parameters, named(value));
    } else if is(tag, "@field") {
        push_text(&mut buffer.fields, named(value));
    } else if is(tag, "@return") {
        push_text(&mut buffer.returns, result(value));
    } else if is(tag, "@error") || is(tag, "@throws") {
        push_text(&mut buffer.errors, result(value));
    } else if is(tag, "@since") {
        let mut s = chars_of("**Since** `");
        push_all(&mut s, value);
        push_all(&mut s, &chars_of("`"));
        add_prose(buffer, s);
    } else if is(tag, "@deprecated") {
        let mut s = chars_of("**Deprecated** ");
        push_all(&mut s, value);
        add_prose(buffer, s);
    } else if is(tag, "@private") {
        add_prose(buffer, chars_of("**Private**"));
    } else if is(tag, "@yields") {
        add_prose(buffer, chars_of("**Yields**"));
    } else if is(tag, "@unreleased") {
        add_prose(buffer, chars_of("**Unreleased**"));
    } else if is(tag, "@server") {
        add_prose(buffer, chars_of("**Server**"));
    } else if is(tag, "@client") {
        add_prose(buffer, chars_of("**Client**"));
    } else if is(tag, "@plugin") {
        add_prose(buffer, chars_of("**Plugin**"));
    } else if is(tag, "@readonly") {
        add_prose(buffer, chars_of("**Read Only**"));
    } else if is(tag, "@ignore") || is(tag, "@tag") || is(tag, "@within") || is(tag, "@class")
        || is(tag, "@function") || is(tag, "@method") || is(tag, "@prop") || is(
        tag,
        "@interface",
    ) || is(tag, "@type") || is(tag, "@__index") || is(tag, "@external") {
    } else {
        add_prose(buffer, copy_range(line, 0, line.len()));
        assert(line@.subrange(0, line@.len() as int) =~= line@);
    }
}

fn add_line(buffer: &mut NotesBuffer, line: &[char])
    ensures
        final(buffer).notes() == step(old(buffer).notes(), line@),
{
    let bare = trimmed(line);
    let backticks = matches_at(&bare, &chars_of("```"), 0);
    if backticks || matches_at(&bare, &chars_of("~~~"), 0) {
        let fence = if buffer.fence == Some(backticks) {
            None
        } else if buffer.fence.is_none() {
            Some(backticks)
        } else {
            buffer.fence
        };
        add_prose(buffer, copy_range(line, 0, line.len()));
        assert(line@.subrange(0, line@.len() as int) =~= line@);
        buffer.fence = fence;
    } else if buffer.fence.is_some() {
        add_prose(buffer, copy_range(line, 0, line.len()));
        assert(line@.subrange(0, line@.len() as int) =~= line@);
    } else {
        match split_at_white(&bare) {
            Some((tag, rest)) => {
                let value = trimmed(&rest);
                add_tagged(buffer, line, &tag, &value);
            },
            None => {
                let value: Vec<char> = Vec::new();
                assert(value@ =~= seq![]);
                add_tagged(buffer, line, &bare, &value);
            },
        }
    }
}

fn add_section(out: &mut Vec<char>, heading: &str, entries: &Vec<Vec<char>>)
    ensures
        final(out)@ == section(old(out)@, heading@, texts(entries@)),
{
    if entries.len() > 0 {
        if out.len() > 0 {
            push_all(out, &chars_of("\n\n"));
        }
        push_all(out, &chars_of("**"));
        push_all(out, &chars_of(heading));
        push_all(out, &chars_of("**\n\n"));
        let body = joined(entries, &chars_of("\n"));
        push_all(out, &body);
    }
}

/// Renders a Moonwave documentation comment as Markdown.
pub fn comments(text: &str) -> (r: String)
    ensures
        r@ == rendered(text@),
{
    let characters = chars_of(text);
    let all = split_lines(&characters);
    let ghost ls = lines(text@);
    assert(texts(all@) =~= ls);
    let mut buffer = NotesBuffer {
        prose: Vec::new(),
        fields: Vec::new(),
        parameters: Vec::new(),
        returns: Vec::new(),
        errors: Vec::new(),
        fence: None,
    };
    assert(texts(buffer.prose@) =~= Seq::<Seq<char>>::empty());
    assert(texts(buffer.fields@) =~= Seq::<Seq<char>>::empty());
    assert(texts(buffer.parameters@) =~= Seq::<Seq<char>>::empty());
    assert(texts(buffer.returns@) =~= Seq::<Seq<char>>::empty());
    assert(texts(buffer.errors@) =~= Seq::<Seq<char>>::empty());
    assert(buffer.notes() =~= no_notes());
    let mut i: usize = 0;
    while i < all.len()
        invariant
            i <= all@.len(),
            ls == texts(all@),
            buffer.notes() == scan(ls.take(i as int)),
        decreases all@.len() - i,
    {
        add_line(&mut buffer, &all[i]);
        assert(ls.take(i + 1).drop_last() =~= ls.take(i as int));
        i = i + 1;
    }
    assert(ls.take(i as int) =~= ls);
    let prose = joined(&buffer.prose, &chars_of("\n"));
    let mut out = trimmed(&prose);
    add_section(&mut out, "Fields", &buffer.fields);
    add_section(&mut out, "Parameters", &buffer.parameters);
    add_section(&mut out, "Returns", &buffer.returns);
    add_section(&mut out, "Throws", &buffer.errors);
    string_of(&out)
}


/// A lone tag: one word that starts with `@`.
proof fn lemma_lone_tag(t: Seq<char>)
    requires
        t.len() > 0,
        t[0] == '@',
        forall|i: int| 0 <= i < t.len() ==> !is_white(#[trigger] t[i]),
    ensures
        tag_of(t) == (t, Seq::<char>::empty()),
        !starts_with(t, "```"@),
        !starts_with(t, "~~~"@),
{
    crate::text::lemma_white_from(t, 0);
    reveal_strlit("```");
    reveal_strlit("~~~");
    if let Some(p) = white_from(t, 0) {
        assert(!is_white(t[p]));
    }
    if t.len() >= 3 {
        assert(t.subrange(0, 3)[0] == t[0]);
    }
}

/// Each realm or flag tag on a line of its own, outside a code fence, adds
/// its own label to the prose and nothing else: `@server` **Server**,
/// `@client` **Client**, `@plugin` **Plugin**, `@private` **Private**,
/// `@yields` **Yields**, `@unreleased` **Unreleased**, `@readonly`
/// **Read Only**.
pub proof fn law_tag_labels(n: Notes, line: Seq<char>)
    requires
        n.fence is None,
    ensures
        trim(line) == "@server"@ ==> step(n, line) == (Notes { prose: n.prose.push("**Server**"@), ..n }),
        trim(line) == "@client"@ ==> step(n, line) == (Notes { prose: n.prose.push("**Client**"@), ..n }),
        trim(line) == "@plugin"@ ==> step(n, line) == (Notes { prose: n.prose.push("**Plugin**"@), ..n }),
        trim(line) == "@private"@ ==> step(n, line) == (Notes { prose: n.prose.push("**Private**"@), ..n }),
        trim(line) == "@yields"@ ==> step(n, line) == (Notes { prose: n.prose.push("**Yields**"@), ..n }),
        trim(line) == "@unreleased"@ ==> step(n, line) == (Notes { prose: n.prose.push("**Unreleased**"@), ..n }),
        trim(line) == "@readonly"@ ==> step(n, line) == (Notes { prose: n.prose.push("**Read Only**"@), ..n }),
{
    reveal_strlit("@param");
    reveal_strlit("@field");
    reveal_strlit("@return");
    reveal_strlit("@error");
    reveal_strlit("@throws");
    reveal_strlit("@since");
    reveal_strlit("@deprecated");
    reveal_strlit("@private");
    reveal_strlit("@yields");
    reveal_strlit("@unreleased");
    reveal_strlit("@server");
    reveal_strlit("@client");
    reveal_strlit("@plugin");
    reveal_strlit("@readonly");
    reveal_strlit("@ignore");
    reveal_strlit("@tag");
    reveal_strlit("@within");
    reveal_strlit("@class");
    reveal_strlit("@function");
    reveal_strlit("@method");
    reveal_strlit("@prop");
    reveal_strlit("@interface");
    reveal_strlit("@type");
    reveal_strlit("@__index");
    reveal_strlit("@external");
    reveal_strlit("```");
    reveal_strlit("~~~");
    if trim(line) == "@server"@ {
        lemma_lone_tag(trim(line));
        assert("@server"@[1] != "@return"@[1]);
        assert("@server"@[1] != "@throws"@[1]);
        assert("@server"@[1] != "@yields"@[1]);
        assert("@server"@[1] != "@client"@[1]);
        assert("@server"@[1] != "@plugin"@[1]);
        assert("@server"@[1] != "@ignore"@[1]);
        assert("@server"@[1] != "@within"@[1]);
        assert("@server"@[1] != "@method"@[1]);
    }
    if trim(line) == "@client"@ {
        lemma_lone_tag(trim(line));
        assert("@client"@[1] != "@return"@[1]);
        assert("@client"@[1] != "@throws"@[1]);
        assert("@client"@[1] != "@yields"@[1]);
        assert("@client"@[1] != "@server"@[1]);
        assert("@client"@[1] != "@plugin"@[1]);
        assert("@client"@[1] != "@ignore"@[1]);
        assert("@client"@[1] != "@within"@[1]);
        assert("@client"@[1] != "@method"@[1]);
    }
    if trim(line) == "@plugin"@ {
        lemma_lone_tag(trim(line));
        assert("@plugin"@[1] != "@return"@[1]);
        assert("@plugin"@[1] != "@throws"@[1]);
        assert("@plugin"@[1] != "@yields"@[1]);
        assert("@plugin"@[1] != "@server"@[1]);
        assert("@plugin"@[1] != "@client"@[1]);
        assert("@plugin"@[1] != "@ignore"@[1]);
        assert("@plugin"@[1] != "@within"@[1]);
        assert("@plugin"@[1] != "@method"@[1]);
    }
    if trim(line) == "@private"@ {
        lemma_lone_tag(trim(line));
        assert("@private"@[1] != "@__index"@[1]);
    }
    if trim(line) == "@yields"@ {
        lemma_lone_tag(trim(line));
        assert("@yields"@[1] != "@return"@[1]);
        assert("@yields"@[1] != "@throws"@[1]);
        assert("@yields"@[1] != "@server"@[1]);
        assert("@yields"@[1] != "@client"@[1]);
        assert("@yields"@[1] != "@plugin"@[1]);
        assert("@yields"@[1] != "@ignore"@[1]);
        assert("@yields"@[1] != "@within"@[1]);
        assert("@yields"@[1] != "@method"@[1]);
    }
    if trim(line) == "@unreleased"@ {
        lemma_lone_tag(trim(line));
        assert("@unreleased"@[1] != "@deprecated"@[1]);
    }
    if trim(line) == "@readonly"@ {
        lemma_lone_tag(trim(line));
        assert("@readonly"@[1] != "@function"@[1]);
        assert("@readonly"@[1] != "@external"@[1]);
    }
}

} // verus!
