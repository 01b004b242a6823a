//! Drawing trees as lines of text with box-drawing characters.

use crate::common::text::{repeat, repeated};
use vstd::prelude::*;
use vstd::string::{to_string_from_display_ensures, StrSliceExecFns, StringExecFns};

verus! {

/// Trait for types that can be drawn as trees.
pub trait Visualize {
    /// `text` is a drawing of the tree, as `visualize` makes one.
    spec fn drawn_as(&self, text: Seq<char>) -> bool;

    /// Returns a string representation of the tree structure.
    fn visualize(&self) -> (s: String)
        ensures
            self.drawn_as(s@),
    ;

    /// Returns a colored string representation of the tree structure; by
    /// default the plain one that `visualize` draws.
    fn visualize_colored(&self) -> (s: String)
        default_ensures
            self.drawn_as(s@),
    {
        self.visualize()
    }
}

/// Two spaces for each level of indentation.
pub open spec fn indentation(level: nat) -> Seq<char> {
    repeated(seq![' ', ' '], level)
}

/// The mark in front of a node: a branch for one with children after it, a
/// corner for the last.
pub open spec fn branch_mark(has_children: bool) -> Seq<char> {
    if has_children {
        seq!['├', '─']
    } else {
        seq!['└', '─']
    }
}

/// The lines separated by newlines.
pub open spec fn lines_joined(ls: Seq<Seq<char>>) -> Seq<char>
    decreases ls.len(),
{
    if ls.len() == 0 {
        Seq::empty()
    } else if ls.len() == 1 {
        ls[0]
    } else {
        lines_joined(ls.drop_last()) + seq!['\n'] + ls.last()
    }
}

/// `needle` occurs somewhere in `hay`.
pub open spec fn text_contains(hay: Seq<char>, needle: Seq<char>) -> bool {
    exists|i: int| 0 <= i <= hay.len() - needle.len() && #[trigger] hay.subrange(i, i + needle.len()) == needle
}

/// The escape sequence that ends colored text.
pub open spec fn color_reset() -> Seq<char> {
    seq!['\x1b', '[', '0', 'm']
}

/// The escape sequence that starts text in the color with the given code.
pub open spec fn color_start(code: Seq<char>) -> Seq<char> {
    seq!['\x1b', '['] + code + seq!['m']
}

/// `r` is `s` as the `colored` crate prints it in the color with the given
/// code: unchanged where coloring is off, else wrapped in that color's escape
/// sequences. For an `s` that holds a reset sequence of its own nothing is
/// stated.
pub open spec fn painted(s: Seq<char>, r: Seq<char>, code: Seq<char>) -> bool {
    ||| r == s
    ||| r == color_start(code) + s + color_reset()
    ||| text_contains(s, color_reset())
}

/// The color code of bright blue.
pub open spec fn bright_blue_code() -> Seq<char> {
    seq!['9', '4']
}

/// The color code of green.
pub open spec fn green_code() -> Seq<char> {
    seq!['3', '2']
}

/// `text` is what `Display` writes for `v`.
pub open spec fn shows<T: std::fmt::Display>(v: &T, text: Seq<char>) -> bool {
    exists|s: String| to_string_from_display_ensures::<T>(v, s) && s@ == text
}

/// `lines` joined with a newline between each two.
fn join_lines(lines: &Vec<String>) -> (r: String)
    ensures
        r@ == lines_joined(lines@.map_values(|l: String| l@)),
{
    let ghost ls = lines@.map_values(|l: String| l@);
    let newline = "\n";
    proof {
        reveal_strlit("\n");
    }
    let mut r = String::new();
    let mut i: usize = 0;
    while i < lines.len()
        invariant
            i <= lines@.len(),
            ls == lines@.map_values(|l: String| l@),
            newline@ == seq!['\n'],
            r@ == lines_joined(ls.take(i as int)),
        decreases lines@.len() - i,
    {
        if i > 0 {
            r.append(newline);
        }
        r.append(lines[i].as_str());
        proof {
            assert(ls.take(i + 1).drop_last() =~= ls.take(i as int));
            assert(ls.take(i + 1).last() == lines@[i as int]@);
            if i == 0 {
                assert(ls.take(1) =~= seq![lines@[0]@]);
            }
        }
        i = i + 1;
    }
    proof {
        assert(ls.take(lines@.len() as int) =~= ls);
    }
    r
}

/// Whether `needle` occurs in `hay`.
fn contains_text(hay: &str, needle: &str) -> (b: bool)
    ensures
        b == text_contains(hay@, needle@),
{
    let hn = hay.unicode_len();
    let nn = needle.unicode_len();
    if nn > hn {
        return false;
    }
    let mut i: usize = 0;
    while i <= hn - nn
        invariant
            hn == hay@.len(),
            nn == needle@.len(),
            nn <= hn,
            i <= hn - nn + 1,
            forall|k: int| 0 <= k < i ==> #[trigger] hay@.subrange(k, k + nn) != needle@,
        decreases hn - nn + 1 - i,
    {
        let mut j: usize = 0;
        let mut same = true;
        while j < nn && same
            invariant
                hn == hay@.len(),
                nn == needle@.len(),
                i + nn <= hn,
                j <= nn,
                same == (forall|m: int| 0 <= m < j ==> hay@[i + m] == #[trigger] needle@[m]),
            decreases nn - j,
        {
            if hay.get_char(i + j) != needle.get_char(j) {
                same = false;
            }
            j = j + 1;
        }
        if same {
            proof {
                assert(hay@.subrange(i as int, i + nn) =~= needle@);
            }
            return true;
        }
        proof {
            let m = choose|m: int| 0 <= m < j && hay@[i + m] != #[trigger] needle@[m];
            assert(hay@.subrange(i as int, i + nn)[m] != needle@[m]);
        }
        i = i + 1;
    }
    false
}

/// `s` in bright blue, by `colored`'s `Colorize::bright_blue` and its
/// `Display`: unchanged where the crate's settings turn coloring off.
#[verifier::external_body]
fn paint_bright_blue(s: &str) -> (r: String)
    ensures
        painted(s@, r@, bright_blue_code()),
{
    colored::Colorize::bright_blue(s).to_string()
}

/// `s` in green, by `colored`'s `Colorize::green` and its `Display`:
/// unchanged where the crate's settings turn coloring off.
#[verifier::external_body]
fn paint_green(s: &str) -> (r: String)
    ensures
        painted(s@, r@, green_code()),
{
    colored::Colorize::green(s).to_string()
}

/// Helper for building tree drawings line by line.
#[derive(Debug, Clone)]
pub struct TreeVisualBuilder {
    /// The lines so far.
    pub lines: Vec<String>,
    /// The current indentation level; each level is two spaces.
    pub indent_level: usize,
}

impl TreeVisualBuilder {
    /// The text of the lines so far.
    pub open spec fn line_texts(&self) -> Seq<Seq<char>> {
        self.lines@.map_values(|l: String| l@)
    }

    /// Creates a builder without lines, at indentation level 0.
    pub fn new() -> (b: Self)
        ensures
            b.line_texts() == Seq::<Seq<char>>::empty(),
            b.indent_level == 0,
    {
        let b = TreeVisualBuilder { lines: Vec::new(), indent_level: 0 };
        assert(b.line_texts() =~= Seq::<Seq<char>>::empty());
        b
    }

    /// Adds `line`, indented to the current level.
    pub fn add_line(&mut self, line: &str) -> (r: &mut Self)
        ensures
            r.line_texts() == old(self).line_texts().push(
                indentation(old(self).indent_level as nat) + line@,
            ),
            r.indent_level == old(self).indent_level,
            *final(self) == *final(r),
    {
        let indent = repeat("  ", self.indent_level);
        proof {
            reveal_strlit("  ");
            assert("  "@ =~= seq![' ', ' ']);
        }
        let ghost old_texts = self.line_texts();
        self.lines.push(indent.concat(line));
        assert(self.line_texts() =~= old_texts.push(indentation(self.indent_level as nat) + line@));
        self
    }

    /// Adds a node showing `value`, behind a branch mark when `has_children`
    /// and a corner mark otherwise.
    pub fn add_node<T: std::fmt::Display>(&mut self, value: &T, has_children: bool) -> (r:
        &mut Self)
        ensures
            r.line_texts().len() == old(self).line_texts().len() + 1,
            r.line_texts().drop_last() == old(self).line_texts(),
            (indentation(old(self).indent_level as nat) + branch_mark(has_children) + seq![' '])
                .is_prefix_of(r.line_texts().last()),
            shows(
                value,
                r.line_texts().last().skip(
                    (indentation(old(self).indent_level as nat) + branch_mark(has_children)
                        + seq![' ']).len() as int,
                ),
            ),
            r.indent_level == old(self).indent_level,
            *final(self) == *final(r),
    {
        let prefix = if has_children {
            "├─"
        } else {
            "└─"
        };
        proof {
            reveal_strlit("├─");
            reveal_strlit("└─");
            reveal_strlit(" ");
        }
        let text = value.to_string();
        let line = prefix.to_owned().concat(" ").concat(text.as_str());
        let ghost old_texts = self.line_texts();
        let ghost head = indentation(self.indent_level as nat) + branch_mark(has_children) + seq![
            ' ',
        ];
        self.add_line(line.as_str());
        proof {
            let last = self.line_texts().last();
            assert(self.line_texts().drop_last() =~= old_texts);
            assert(last =~= head + text@);
            assert(head.is_prefix_of(last));
            assert(last.skip(head.len() as int) =~= text@);
        }
        self
    }

    /// Increases the indentation level by one.
    pub fn indent(&mut self) -> (r: &mut Self)
        requires
            old(self).indent_level < usize::MAX,
        ensures
            r.indent_level == old(self).indent_level + 1,
            r.lines == old(self).lines,
            *final(self) == *final(r),
    {
        self.indent_level += 1;
        self
    }

    /// Decreases the indentation level by one, down to zero.
    pub fn dedent(&mut self) -> (r: &mut Self)
        ensures
            r.indent_level == if old(self).indent_level > 0 {
                old(self).indent_level - 1
            } else {
                0
            },
            r.lines == old(self).lines,
            *final(self) == *final(r),
    {
        if self.indent_level > 0 {
            self.indent_level -= 1;
        }
        self
    }

    /// The lines joined by newlines.
    pub fn build(&self) -> (s: String)
        ensures
            s@ == lines_joined(self.line_texts()),
    {
        join_lines(&self.lines)
    }

    /// The lines joined by newlines, each line that holds a branch or corner
    /// mark colored bright blue.
    pub fn build_colored(&self) -> (s: String)
        ensures
            exists|out: Seq<Seq<char>>|
                {
                    &&& out.len() == self.line_texts().len()
                    &&& s@ == lines_joined(out)
                    &&& forall|i: int|
                        0 <= i < out.len() ==> #[trigger] out[i] == self.line_texts()[i] || (
                        painted(self.line_texts()[i], out[i], bright_blue_code()) && (
                        text_contains(self.line_texts()[i], branch_mark(true)) || text_contains(
                            self.line_texts()[i],
                            branch_mark(false),
                        )))
                },
    {
        proof {
            reveal_strlit("├─");
            reveal_strlit("└─");
        }
        let mut out: Vec<String> = Vec::new();
        let mut i: usize = 0;
        while i < self.lines.len()
            invariant
                i <= self.lines@.len(),
                out@.len() == i,
                forall|j: int|
                    0 <= j < i ==> #[trigger] out@[j]@ == self.line_texts()[j] || (painted(
                        self.line_texts()[j],
                        out@[j]@,
                        bright_blue_code(),
                    ) && (text_contains(self.line_texts()[j], branch_mark(true)) || text_contains(
                        self.line_texts()[j],
                        branch_mark(false),
                    ))),
            decreases self.lines@.len() - i,
        {
            let line = &self.lines[i];
            proof {
                reveal_strlit("├─");
                reveal_strlit("└─");
                assert("├─"@ =~= branch_mark(true));
                assert("└─"@ =~= branch_mark(false));
                assert(line@ == self.line_texts()[i as int]);
            }
            let ghost before = out@;
            if contains_text(line.as_str(), "├─") || contains_text(line.as_str(), "└─") {
                out.push(paint_bright_blue(line.as_str()));
            } else {
                out.push(line.clone());
            }
            assert forall|j: int| 0 <= j < i implies out@[j] == before[j] by {}
            i += 1;
        }
        let s = join_lines(&out);
        proof {
            let texts = out@.map_values(|l: String| l@);
            assert forall|j: int| 0 <= j < texts.len() implies #[trigger] texts[j]
                == self.line_texts()[j] || (painted(
                self.line_texts()[j],
                texts[j],
                bright_blue_code(),
            ) && (text_contains(self.line_texts()[j], branch_mark(true)) || text_contains(
                self.line_texts()[j],
                branch_mark(false),
            ))) by {
                assert(texts[j] == out@[j]@);
            }
        }
        s
    }
}

impl Default for TreeVisualBuilder {
    fn default() -> (b: Self)
        ensures
            b.line_texts() == Seq::<Seq<char>>::empty(),
            b.indent_level == 0,
    {
        Self::new()
    }
}

/// Formats a node value for display, as its `Display` writes it.
pub fn format_node_value<T: std::fmt::Display>(value: &T) -> (s: String)
    ensures
        to_string_from_display_ensures::<T>(value, s),
{
    value.to_string()
}

/// Formats a node value for display in green.
pub fn format_node_value_colored<T: std::fmt::Display>(value: &T) -> (s: String)
    ensures
        exists|text: String|
            to_string_from_display_ensures::<T>(value, text) && painted(text@, s@, green_code()),
{
    let text = value.to_string();
    paint_green(text.as_str())
}

/// Indenting and then dedenting gives back the builder as it was.
pub proof fn lemma_indent_then_dedent(
    b0: TreeVisualBuilder,
    b1: TreeVisualBuilder,
    b2: TreeVisualBuilder,
)
    requires
        b1.indent_level == b0.indent_level + 1,
        b1.lines == b0.lines,
        b2.indent_level == if b1.indent_level > 0 {
            b1.indent_level - 1
        } else {
            0
        },
        b2.lines == b1.lines,
    ensures
        b2 == b0,
{
}

/// Dedenting at level zero changes nothing.
pub proof fn lemma_dedent_at_zero(b0: TreeVisualBuilder, b1: TreeVisualBuilder)
    requires
        b0.indent_level == 0,
        b1.indent_level == if b0.indent_level > 0 {
            b0.indent_level - 1
        } else {
            0
        },
        b1.lines == b0.lines,
    ensures
        b1 == b0,
{
}

} // verus!
