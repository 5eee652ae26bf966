//! The building blocks of rendered text: indentation and the joining of
//! lines and paragraphs.

use crate::changelog::parsing_utils::{
    chars_of, count_leading, lemma_prefix_len, lemma_prefix_len_bounds, prefix_len, push_char,
    push_range,
    split_lines, split_lines_spec, CharClass,
};
use crate::changelog::seq_utils::items_view;
use vstd::prelude::*;
use vstd::string::StringExecFns;

verus! {

/// A run of `n` spaces.
pub open spec fn spaces(n: nat) -> Seq<char> {
    Seq::new(n, |i: int| ' ')
}

/// The line `line` without the spaces and tabs that it starts with.
pub open spec fn strip_blanks(line: Seq<char>) -> Seq<char> {
    line.skip(prefix_len(line, CharClass::Blank) as int)
}

/// The line `line`, indented by exactly `width` spaces: the indentation
/// that it came with is replaced.
pub open spec fn indent_line(line: Seq<char>, width: nat) -> Seq<char> {
    spaces(width) + strip_blanks(line)
}

/// The lines of the text `text`, the first one indented by `indent` spaces
/// and each further one by `overflow_indent` spaces.
pub open spec fn indent_text(text: Seq<char>, indent: nat, overflow_indent: nat) -> Seq<Seq<char>> {
    let lines = split_lines_spec(text);
    Seq::new(
        lines.len(),
        |i: int|
            indent_line(
                lines[i],
                if i == 0 {
                    indent
                } else {
                    overflow_indent
                },
            ),
    )
}

/// The pieces `pieces` in their order, with `sep` between each two
/// neighbours.
pub open spec fn join(pieces: Seq<Seq<char>>, sep: Seq<char>) -> Seq<char>
    decreases pieces.len(),
{
    if pieces.len() == 0 {
        Seq::empty()
    } else if pieces.len() == 1 {
        pieces[0]
    } else {
        join(pieces.drop_last(), sep) + sep + pieces.last()
    }
}

/// Joining a first piece and at least one more puts the separator behind
/// the first piece.
pub proof fn lemma_join_prepend(first: Seq<char>, more: Seq<Seq<char>>, sep: Seq<char>)
    requires
        more.len() > 0,
    ensures
        join(seq![first] + more, sep) == first + sep + join(more, sep),
    decreases more.len(),
{
    let all = seq![first] + more;
    assert(all.drop_last() =~= seq![first] + more.drop_last());
    assert(all.last() == more.last());
    if more.len() == 1 {
        assert(all.drop_last() =~= seq![first]);
        assert(join(all.drop_last(), sep) == first);
        assert(join(more, sep) == more[0]);
    } else {
        lemma_join_prepend(first, more.drop_last(), sep);
        assert(join(all, sep) =~= first + sep + join(more, sep));
    }
}

/// A text has at least one line.
pub proof fn lemma_split_lines_is_not_empty(text: Seq<char>)
    ensures
        split_lines_spec(text).len() > 0,
{
}

/// The lines of a text, joined by line feeds, are the text.
pub proof fn lemma_lines_join_to_text(text: Seq<char>)
    ensures
        join(split_lines_spec(text), seq!['\n']) == text,
    decreases text.len(),
{
    let n = prefix_len(text, CharClass::NotLineFeed);
    lemma_prefix_len_bounds(text, CharClass::NotLineFeed);
    if n < text.len() {
        let rest = text.skip(n as int + 1);
        lemma_lines_join_to_text(rest);
        lemma_split_lines_is_not_empty(rest);
        lemma_join_prepend(text.take(n as int), split_lines_spec(rest), seq!['\n']);
        assert(text[n as int] == '\n');
        assert(text.take(n as int) + seq!['\n'] + rest =~= text);
    }
}

/// Whether the text `line` holds no line feed.
pub open spec fn is_one_line(line: Seq<char>) -> bool {
    forall|i: int| 0 <= i < line.len() ==> #[trigger] line[i] != '\n'
}

/// A text without a line feed is its own single line.
pub proof fn lemma_one_line_splits_to_itself(line: Seq<char>)
    requires
        is_one_line(line),
    ensures
        split_lines_spec(line) == seq![line],
{
    assert forall|j: int| 0 <= j < line.len() implies CharClass::NotLineFeed.holds(
        #[trigger] line[j],
    ) by {}
    lemma_prefix_len(line, CharClass::NotLineFeed, line.len() as int);
}

/// Lines, joined by line feeds, split into those lines again: between two
/// of them stands exactly one line feed and none stands behind the last.
pub proof fn lemma_joined_lines_split_back(lines: Seq<Seq<char>>)
    requires
        lines.len() > 0,
        forall|k: int| 0 <= k < lines.len() ==> is_one_line(#[trigger] lines[k]),
    ensures
        split_lines_spec(join(lines, seq!['\n'])) == lines,
    decreases lines.len(),
{
    let first = lines[0];
    let more = lines.drop_first();
    assert(lines =~= seq![first] + more);
    if more.len() == 0 {
        assert(join(lines, seq!['\n']) == first);
        lemma_one_line_splits_to_itself(first);
        assert(lines =~= seq![first]);
    } else {
        lemma_join_prepend(first, more, seq!['\n']);
        assert forall|k: int| 0 <= k < more.len() implies is_one_line(#[trigger] more[k]) by {
            assert(more[k] == lines[k + 1]);
        }
        lemma_joined_lines_split_back(more);
        let rest = join(more, seq!['\n']);
        let text = first + seq!['\n'] + rest;
        let n = first.len() as int;
        assert forall|j: int| 0 <= j < n implies CharClass::NotLineFeed.holds(#[trigger] text[j]) by {
            assert(text[j] == first[j]);
        }
        assert(text[n] == '\n');
        lemma_prefix_len(text, CharClass::NotLineFeed, n);
        assert(text.take(n) =~= first);
        assert(text.skip(n + 1) =~= rest);
    }
}

/// A line that does not start with a space or a tab is indented by being
/// put behind the spaces of the indentation.
pub proof fn lemma_indent_of_flush_line(line: Seq<char>, width: nat)
    requires
        line.len() == 0 || !CharClass::Blank.holds(line[0]),
    ensures
        indent_line(line, width) == spaces(width) + line,
{
    assert(prefix_len(line, CharClass::Blank) == 0);
    assert(line.skip(0) =~= line);
}

/// A text of one line is rendered as that line, indented as a first line.
pub proof fn lemma_indent_of_one_line(text: Seq<char>, indent: nat, overflow_indent: nat)
    requires
        is_one_line(text),
    ensures
        indent_text(text, indent, overflow_indent) == seq![indent_line(text, indent)],
{
    lemma_one_line_splits_to_itself(text);
    assert(indent_text(text, indent, overflow_indent) =~= seq![indent_line(text, indent)]);
}

/// Appends `n` spaces to `out`.
pub fn push_spaces(out: &mut String, n: usize)
    ensures
        final(out)@ == old(out)@ + spaces(n as nat),
{
    let mut i: usize = 0;
    assert(out@ =~= old(out)@ + spaces(0));
    while i < n
        invariant
            i <= n,
            out@ == old(out)@ + spaces(i as nat),
        decreases n - i,
    {
        push_char(out, ' ');
        i += 1;
        assert(out@ =~= old(out)@ + spaces(i as nat));
    }
}

/// The line `line`, indented by exactly `width` spaces.
pub fn indented_line(line: &Vec<char>, width: usize) -> (r: String)
    ensures
        r@ == indent_line(line@, width as nat),
{
    let mut r = String::new();
    push_spaces(&mut r, width);
    let b = count_leading(line, 0, CharClass::Blank);
    assert(line@.skip(0) == line@);
    push_range(&mut r, line, b, line.len());
    assert(line@.subrange(b as int, line.len() as int) == line@.skip(b as int));
    assert(r@ =~= indent_line(line@, width as nat));
    r
}

/// Splits the text `text` into lines and indents the first one by `indent`
/// spaces and each further one by `overflow_indent` spaces.
pub fn indented_lines(text: &str, indent: usize, overflow_indent: usize) -> (lines: Vec<String>)
    ensures
        items_view(lines@) == indent_text(text@, indent as nat, overflow_indent as nat),
{
    let chars = chars_of(text);
    let pieces = split_lines(&chars);
    let ghost want = indent_text(text@, indent as nat, overflow_indent as nat);
    let mut lines: Vec<String> = Vec::new();
    let mut i: usize = 0;
    assert(items_view(pieces@).len() == pieces.len());
    while i < pieces.len()
        invariant
            i <= pieces.len(),
            items_view(pieces@) == split_lines_spec(text@),
            want == indent_text(text@, indent as nat, overflow_indent as nat),
            lines.len() == i,
            forall|j: int| 0 <= j < i ==> (#[trigger] lines@[j])@ == want[j],
        decreases pieces.len() - i,
    {
        let width = if i == 0 {
            indent
        } else {
            overflow_indent
        };
        assert(items_view(pieces@)[i as int] == pieces@[i as int]@);
        let line = indented_line(&pieces[i], width);
        lines.push(line);
        i += 1;
    }
    assert(items_view(lines@) =~= want);
    lines
}

/// Joins the pieces `pieces` in their order, with `sep` between each two
/// neighbours.
pub fn join_strings(pieces: &Vec<String>, sep: &str) -> (r: String)
    ensures
        r@ == join(items_view(pieces@), sep@),
{
    let ghost views = items_view(pieces@);
    let mut r = String::new();
    let mut i: usize = 0;
    assert(views.take(0) =~= Seq::<Seq<char>>::empty());
    while i < pieces.len()
        invariant
            i <= pieces.len(),
            views == items_view(pieces@),
            r@ == join(views.take(i as int), sep@),
        decreases pieces.len() - i,
    {
        let ghost before = r@;
        assert(views.take(i + 1).drop_last() =~= views.take(i as int));
        assert(views.take(i + 1).last() == pieces@[i as int]@);
        if i > 0 {
            r.append(sep);
        }
        r.append(pieces[i].as_str());
        proof {
            if i == 0 {
                assert(before =~= Seq::<char>::empty());
                assert(r@ =~= pieces@[0]@);
                assert(views.take(1)[0] == pieces@[0]@);
            }
        }
        i += 1;
    }
    assert(views.take(pieces.len() as int) =~= views);
    r
}

} // verus!
