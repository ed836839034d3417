//! Characters, strings and the ways a text is cut into pieces.
use vstd::prelude::*;
use vstd::string::*;

verus! {

/// `String::push` appends one character.
pub assume_specification[ String::push ](text: &mut String, c: char)
    ensures
        final(text)@ == old(text)@.push(c),
;

/// The characters of a text, one by one.
pub fn chars_of(text: &str) -> (chars: Vec<char>)
    ensures
        chars@ == text@,
{
    let mut chars: Vec<char> = Vec::new();
    for c in it: text.chars()
        invariant
            it.seq() == text@,
            chars@ == it.seq().take(it.index() as int),
    {
        chars.push(c);
    }
    chars
}

/// The text made of the characters from `from` up to, but not including, `to`.
pub fn text_between(chars: &Vec<char>, from: usize, to: usize) -> (text: String)
    requires
        from <= to <= chars@.len(),
    ensures
        text@ == chars@.subrange(from as int, to as int),
{
    let mut text: String = String::new();
    let mut i: usize = from;
    while i < to
        invariant
            from <= i <= to <= chars@.len(),
            text@ == chars@.subrange(from as int, i as int),
        decreases to - i,
    {
        text.push(chars[i]);
        i = i + 1;
    }
    text
}

/// Cuts a text at every separator. The separators themselves are left out, so the
/// pieces are one more than the separators.
pub open spec fn split_on(text: Seq<char>, separator: char) -> Seq<Seq<char>>
    decreases text.len(),
{
    if text.len() == 0 {
        seq![Seq::empty()]
    } else {
        let before = split_on(text.drop_last(), separator);
        if text.last() == separator {
            before.push(Seq::empty())
        } else {
            before.drop_last().push(before.last().push(text.last()))
        }
    }
}

/// The characters behind a list of strings.
pub open spec fn text_views(texts: Seq<String>) -> Seq<Seq<char>> {
    texts.map_values(|text: String| text@)
}

pub proof fn lemma_split_not_empty(text: Seq<char>, separator: char)
    ensures
        split_on(text, separator).len() >= 1,
    decreases text.len(),
{
    if text.len() > 0 {
        lemma_split_not_empty(text.drop_last(), separator);
    }
}

/// A text without the separator is its own only piece.
pub proof fn lemma_split_whole(text: Seq<char>, separator: char)
    requires
        !text.contains(separator),
    ensures
        split_on(text, separator) == seq![text],
    decreases text.len(),
{
    if text.len() > 0 {
        let before = text.drop_last();
        assert forall|k: int| 0 <= k < before.len() implies before[k] != separator by {
            assert(text[k] == before[k]);
        }
        lemma_split_whole(before, separator);
        assert(text[text.len() - 1] != separator);
        assert(before.push(text.last()) =~= text);
        assert(split_on(text, separator) =~= seq![text]);
    } else {
        assert(text =~= Seq::empty());
    }
}

/// The pieces of two texts with a separator between them are the pieces of the one
/// followed by the pieces of the other.
pub proof fn lemma_split_joined(left: Seq<char>, separator: char, right: Seq<char>)
    ensures
        split_on(left + seq![separator] + right, separator) == split_on(left, separator)
            + split_on(right, separator),
    decreases right.len(),
{
    let whole = left + seq![separator] + right;
    if right.len() == 0 {
        assert(whole.drop_last() =~= left);
        assert(right =~= Seq::empty());
        assert(split_on(whole, separator) =~= split_on(left, separator) + split_on(
            right,
            separator,
        ));
    } else {
        let shorter = right.drop_last();
        assert(whole.drop_last() =~= left + seq![separator] + shorter);
        lemma_split_joined(left, separator, shorter);
        lemma_split_not_empty(shorter, separator);
        assert(whole.last() == right.last());
        let front = split_on(left, separator);
        let back = split_on(shorter, separator);
        assert((front + back).last() == back.last());
        assert((front + back).drop_last() =~= front + back.drop_last());
        assert(split_on(whole, separator) =~= front + split_on(right, separator));
    }
}

/// No piece holds the separator.
pub proof fn lemma_split_pieces_clean(text: Seq<char>, separator: char)
    ensures
        forall|k: int|
            0 <= k < split_on(text, separator).len() ==> !(#[trigger] split_on(
                text,
                separator,
            )[k]).contains(separator),
    decreases text.len(),
{
    if text.len() > 0 {
        let before = split_on(text.drop_last(), separator);
        lemma_split_not_empty(text.drop_last(), separator);
        lemma_split_pieces_clean(text.drop_last(), separator);
        let pieces = split_on(text, separator);
        assert forall|k: int| 0 <= k < pieces.len() implies !(#[trigger] pieces[k]).contains(
            separator,
        ) by {
            if k < before.len() - 1 {
                assert(pieces[k] == before[k]);
            } else if text.last() == separator {
                if k < before.len() {
                    assert(pieces[k] == before[k]);
                }
            } else {
                let last = before[before.len() - 1];
                assert(pieces[k] == last.push(text.last()));
                assert forall|m: int| 0 <= m < pieces[k].len() implies pieces[k][m]
                    != separator by {
                    if m < last.len() {
                        assert(last[m] == pieces[k][m]);
                    }
                }
            }
        }
    }
}

/// Cuts a text at every separator.
pub fn split_text(text: &str, separator: char) -> (pieces: Vec<String>)
    ensures
        text_views(pieces@) == split_on(text@, separator),
{
    let chars: Vec<char> = chars_of(text);
    let mut pieces: Vec<String> = Vec::new();
    let mut piece: String = String::new();
    let mut i: usize = 0;
    assert(text_views(pieces@).push(piece@) =~= split_on(text@.take(0), separator));
    while i < chars.len()
        invariant
            i <= chars@.len(),
            chars@ == text@,
            text_views(pieces@).push(piece@) == split_on(text@.take(i as int), separator),
        decreases chars@.len() - i,
    {
        let c: char = chars[i];
        let ghost before = text_views(pieces@).push(piece@);
        proof {
            assert(text@.take(i + 1).drop_last() =~= text@.take(i as int));
            assert(before.drop_last() =~= text_views(pieces@));
        }
        if c == separator {
            let ghost old_pieces = pieces@;
            let ghost old_piece = piece;
            pieces.push(piece);
            piece = String::new();
            assert(text_views(pieces@) =~= text_views(old_pieces).push(old_piece@));
        } else {
            piece.push(c);
        }
        i = i + 1;
    }
    assert(text@.take(i as int) =~= text@);
    let ghost old_pieces = pieces@;
    let ghost old_piece = piece;
    pieces.push(piece);
    assert(text_views(pieces@) =~= text_views(old_pieces).push(old_piece@));
    pieces
}

/// A line without the carriage return that may stand at its end.
pub open spec fn without_carriage_return(line: Seq<char>) -> Seq<char> {
    if line.len() > 0 && line.last() == '\r' {
        line.drop_last()
    } else {
        line
    }
}

/// The lines of a text. A line ends with a line feed, or with a carriage return and a
/// line feed; neither belongs to the line. The last line may lack its ending, and then
/// it keeps every character it has.
pub open spec fn text_lines(text: Seq<char>) -> Seq<Seq<char>> {
    let pieces = split_on(text, '\n');
    let ended = pieces.drop_last().map_values(|line: Seq<char>| without_carriage_return(line));
    if pieces.last().len() == 0 {
        ended
    } else {
        ended.push(pieces.last())
    }
}

/// The lines of a text, as `str::lines` gives them.
pub fn lines_of(text: &str) -> (lines: Vec<String>)
    ensures
        text_views(lines@) == text_lines(text@),
{
    let pieces: Vec<String> = split_text(text, '\n');
    proof {
        lemma_split_not_empty(text@, '\n');
    }
    let ghost views = text_views(pieces@);
    let mut lines: Vec<String> = Vec::new();
    let mut i: usize = 0;
    while i < pieces.len() - 1
        invariant
            pieces@.len() >= 1,
            i <= pieces@.len() - 1,
            views == text_views(pieces@),
            text_views(lines@) == views.take(i as int).map_values(
                |line: Seq<char>| without_carriage_return(line),
            ),
        decreases pieces@.len() - i,
    {
        let chars: Vec<char> = chars_of(pieces[i].as_str());
        let end: usize = if chars.len() > 0 && chars[chars.len() - 1] == '\r' {
            chars.len() - 1
        } else {
            chars.len()
        };
        let line: String = text_between(&chars, 0, end);
        let ghost old_lines = lines@;
        let ghost stripped = line@;
        assert(chars@ == views[i as int]);
        assert(stripped =~= without_carriage_return(views[i as int]));
        lines.push(line);
        assert(text_views(lines@) =~= text_views(old_lines).push(stripped));
        assert(text_views(lines@) =~= views.take(i + 1).map_values(
            |line: Seq<char>| without_carriage_return(line),
        ));
        i = i + 1;
    }
    assert(views.take(i as int) =~= views.drop_last());
    let last: &String = &pieces[pieces.len() - 1];
    assert(last@ == views.last());
    if !last.as_str().is_empty() {
        let ghost old_lines = lines@;
        lines.push(last.clone());
        assert(text_views(lines@) =~= text_views(old_lines).push(last@));
    }
    lines
}

/// What stands before the first line feed is the first line, without a carriage return that
/// stands right before it, and the rest has its own lines.
pub proof fn law_lines_end_at_line_feeds(line: Seq<char>, rest: Seq<char>)
    requires
        !line.contains('\n'),
    ensures
        line.len() == 0 || line.last() != '\r' ==> text_lines(line + seq!['\n'] + rest) == seq![
            line,
        ] + text_lines(rest),
        text_lines(line + seq!['\r'] + seq!['\n'] + rest) == seq![line] + text_lines(rest),
{
    lemma_first_line(line, rest);
    let returned = line + seq!['\r'];
    assert forall|k: int| 0 <= k < returned.len() implies returned[k] != '\n' by {
        if k < line.len() {
            assert(returned[k] == line[k]);
        }
    }
    lemma_first_line(returned, rest);
    assert(returned.drop_last() =~= line);
}

proof fn lemma_first_line(line: Seq<char>, rest: Seq<char>)
    requires
        !line.contains('\n'),
    ensures
        text_lines(line + seq!['\n'] + rest) == seq![without_carriage_return(line)] + text_lines(
            rest,
        ),
{
    lemma_split_whole(line, '\n');
    lemma_split_joined(line, '\n', rest);
    lemma_split_not_empty(rest, '\n');
    let pieces = split_on(line + seq!['\n'] + rest, '\n');
    let others = split_on(rest, '\n');
    assert(pieces == seq![line] + others);
    assert(pieces.last() == others.last());
    let ended = |line: Seq<char>| without_carriage_return(line);
    assert(pieces.drop_last().map_values(ended) =~= seq![without_carriage_return(line)]
        + others.drop_last().map_values(ended));
    assert(text_lines(line + seq!['\n'] + rest) =~= seq![without_carriage_return(line)]
        + text_lines(rest));
}

/// A text without a line feed is one line as it is, and no line at all where it is empty.
pub proof fn law_text_without_line_feed_is_one_line(text: Seq<char>)
    requires
        !text.contains('\n'),
    ensures
        text_lines(text) == if text.len() == 0 {
            Seq::<Seq<char>>::empty()
        } else {
            seq![text]
        },
{
    lemma_split_whole(text, '\n');
    assert(text_lines(text) =~= if text.len() == 0 {
        Seq::<Seq<char>>::empty()
    } else {
        seq![text]
    });
}

/// Cutting a text at a separator: without one the text is the only piece, and around one
/// stand the pieces of what is before it and the pieces of what is behind it.
pub proof fn law_split_at_each_separator(left: Seq<char>, separator: char, right: Seq<char>)
    ensures
        !left.contains(separator) ==> split_on(left, separator) == seq![left],
        split_on(left + seq![separator] + right, separator) == split_on(left, separator)
            + split_on(right, separator),
{
    if !left.contains(separator) {
        lemma_split_whole(left, separator);
    }
    lemma_split_joined(left, separator, right);
}

/// The views of strings are their characters, one by one.
pub proof fn law_text_views_hold_every_text(texts: Seq<String>)
    ensures
        text_views(texts).len() == texts.len(),
        forall|i: int| 0 <= i < texts.len() ==> (#[trigger] text_views(texts)[i]) == texts[i]@,
{
}

} // verus!
