//! Formatter options, the document model and its rendering, the emitter of
//! layout documents, and the rewriting of literals, operators and require paths.

pub mod configuration;
pub mod document;
pub mod emit;
pub mod emitting;
pub mod expressions;
pub mod literals;
pub mod regions;
pub mod rewrite;
pub mod scope;
pub mod sorting;

use vstd::prelude::*;
use crate::format::configuration::{Endings, Options};
use crate::format::document::{fits_render, render, renderable, rendered, style_of, Document};
use crate::format::emit::{doc, Emitter};
use crate::format::emitting::lemma_same_rendering;
use crate::format::scope::{Shape, Tree};
use crate::text::{chars_of, copy_range, string_of};

verus! {

/// Why a source could not be formatted.
#[derive(Debug, Clone, Copy, PartialEq, Eq, Structural)]
pub enum FormatError {
    /// The indentation width or the column width is zero.
    Widths,
    /// The tree has no nodes.
    MissingRoot,
    /// The first node of the tree is not a root.
    InvalidRoot,
    /// The layout would not fit the machine's word.
    TooLarge,
}

/// Whether a trailing character goes when the output is finished.
pub open spec fn trailing_blank(c: char) -> bool {
    c == ' ' || c == '\t' || c == '\r' || c == '\n'
}

/// Text without the blanks and line breaks it ends with.
pub open spec fn trim_trailing(s: Seq<char>) -> Seq<char>
    decreases s.len(),
{
    if s.len() > 0 && trailing_blank(s.last()) {
        trim_trailing(s.drop_last())
    } else {
        s
    }
}

/// The rendered layout without trailing blanks, and a final line break when
/// the options ask for one and there is any text.
pub open spec fn finished(out: Seq<char>, o: Options) -> Seq<char> {
    let t = trim_trailing(out);
    if o.final_newline && t.len() > 0 {
        t + style_of(o).newline
    } else {
        t
    }
}

/// A held range covers the whole source.
pub open spec fn held_whole(held: Seq<(usize, usize)>, len: int) -> bool {
    exists|k: int| 0 <= k < held.len() && #[trigger] held[k].0 == 0 && held[k].1 == len
}

/// Finishes rendered output: trailing blanks go, and a final line break is
/// added as the options ask.
pub fn finish_output(out: &String, options: &Options) -> (r: String)
    ensures
        r@ == finished(out@, *options),
{
    let c = chars_of(out.as_str());
    let mut n = c.len();
    assert(c@.take(n as int) =~= c@);
    while n > 0 && (c[n - 1] == ' ' || c[n - 1] == '\t' || c[n - 1] == '\r' || c[n - 1] == '\n')
        invariant
            n <= c@.len(),
            trim_trailing(c@) == trim_trailing(c@.take(n as int)),
        decreases n,
    {
        assert(c@.take(n as int).drop_last() =~= c@.take(n - 1));
        n = n - 1;
    }
    let mut t = copy_range(c.as_slice(), 0, n);
    assert(t@ == trim_trailing(c@));
    if options.final_newline && n > 0 {
        match options.line_endings {
            Endings::Unix => {
                t.push('\n');
            },
            Endings::Windows => {
                t.push('\r');
                t.push('\n');
            },
        }
        proof {
            reveal_strlit("\n");
            reveal_strlit("\r\n");
        }
        assert(t@ =~= finished(out@, *options));
    }
    string_of(t.as_slice())
}

/// Formats a source from its syntax tree, its tokens and its held regions
/// (those that `regions::held` finds among the tokens): disabled options
/// leave it as it is, zero widths are refused, a source held whole stays as
/// it is, and otherwise the layout of the root's block is rendered and
/// finished. Every document with the plain values of that layout renders the
/// same, so the result is the one text that the layout gives.
pub fn format(tree: &Tree, source: &Vec<char>, options: &Options, held: &Vec<(usize, usize)>) -> (r: Result<
    String,
    FormatError,
>)
    requires
        (Emitter { tree, source, options, held }).wf(),
    ensures
        !options.enabled ==> (r matches Ok(s) && s@ == source@),
        options.enabled && (options.indentation.width == 0 || options.column_width == 0) ==> r == Err::<
            String,
            FormatError,
        >(FormatError::Widths),
        options.enabled && options.indentation.width > 0 && options.column_width > 0 && held_whole(
            held@,
            source@.len() as int,
        ) ==> (r matches Ok(s) && s@ == source@),
        options.enabled && options.indentation.width > 0 && options.column_width > 0 && !held_whole(
            held@,
            source@.len() as int,
        ) ==> {
            let e = Emitter { tree, source, options, held };
            if tree.nodes@.len() == 0 {
                r == Err::<String, FormatError>(FormatError::MissingRoot)
            } else if !(tree.nodes@[0].shape is Root) {
                r == Err::<String, FormatError>(FormatError::InvalidRoot)
            } else {
                match r {
                    Ok(s) => (exists|d: Document| #[trigger] doc(d) == e.shaped(0)) && forall|d: Document|
                        #[trigger] doc(d) == e.shaped(0) ==> renderable(d, *options) && s@ == finished(
                            rendered(d, style_of(*options)),
                            *options,
                        ),
                    Err(x) => x == FormatError::TooLarge && (exists|d: Document| #[trigger] doc(d) == e.shaped(0))
                        && forall|d: Document| #[trigger] doc(d) == e.shaped(0) ==> !renderable(d, *options),
                }
            }
        },
{
    if !options.enabled {
        return Ok(string_of(source.as_slice()));
    }
    if options.indentation.width == 0 || options.column_width == 0 {
        return Err(FormatError::Widths);
    }
    let mut k: usize = 0;
    while k < held.len()
        invariant
            options.enabled,
            options.indentation.width > 0,
            options.column_width > 0,
            k <= held@.len(),
            forall|j: int| 0 <= j < k ==> !(#[trigger] held@[j].0 == 0 && held@[j].1 == source@.len()),
        decreases held@.len() - k,
    {
        if held[k].0 == 0 && held[k].1 == source.len() {
            assert(held_whole(held@, source@.len() as int));
            return Ok(string_of(source.as_slice()));
        }
        k = k + 1;
    }
    if tree.nodes.len() == 0 {
        return Err(FormatError::MissingRoot);
    }
    match &tree.nodes[0].shape {
        Shape::Root { .. } => {},
        _ => {
            return Err(FormatError::InvalidRoot);
        },
    }
    let e = Emitter { tree, source, options, held };
    let document = e.shaped_doc(0);
    proof {
        assert forall|d: Document| #[trigger] doc(d) == e.shaped(0) implies rendered(d, style_of(*options))
            == rendered(document, style_of(*options)) && renderable(d, *options) == renderable(
            document,
            *options,
        ) by {
            lemma_same_rendering(document, d, *options);
        }
    }
    if !fits_render(&document, options) {
        return Err(FormatError::TooLarge);
    }
    let out = render(&document, options);
    Ok(finish_output(&out, options))
}

} // verus!
