//! Escaping of the one free-form field of a cache line.
//!
//! A cache file holds one record per line and separates fields with tabs, so a path
//! that holds either is written with backslash sequences.
use vstd::prelude::*;

use crate::text::chars_of;

verus! {

/// How one character is written: a backslash, a tab and a line feed as a backslash and a
/// letter of their own, every other character as itself.
pub open spec fn escaped_char(c: char) -> Seq<char> {
    if c == '\\' {
        seq!['\\', '\\']
    } else if c == '\t' {
        seq!['\\', 't']
    } else if c == '\n' {
        seq!['\\', 'n']
    } else {
        seq![c]
    }
}

/// The written form of a value.
pub open spec fn escaped(value: Seq<char>) -> Seq<char>
    decreases value.len(),
{
    if value.len() == 0 {
        Seq::empty()
    } else {
        escaped_char(value[0]) + escaped(value.skip(1))
    }
}

/// What the character behind a backslash stands for.
pub open spec fn unescaped_char(c: char) -> char {
    if c == 't' {
        '\t'
    } else if c == 'n' {
        '\n'
    } else {
        c
    }
}

/// The value that a written form stands for. A backslash takes the next character with
/// it; one at the very end stands for nothing.
pub open spec fn unescaped(written: Seq<char>) -> Seq<char>
    decreases written.len(),
{
    if written.len() == 0 {
        Seq::empty()
    } else if written[0] != '\\' {
        seq![written[0]] + unescaped(written.skip(1))
    } else if written.len() == 1 {
        Seq::empty()
    } else {
        seq![unescaped_char(written[1])] + unescaped(written.skip(2))
    }
}

/// Writes a value so that it holds neither a tab nor a line feed.
pub fn escape_field(value: &str) -> (written: String)
    ensures
        written@ == escaped(value@),
{
    let chars: Vec<char> = chars_of(value);
    let mut written: String = String::new();
    let mut i: usize = 0;
    assert(value@.skip(0) =~= value@);
    while i < chars.len()
        invariant
            i <= chars@.len(),
            chars@ == value@,
            written@ + escaped(value@.skip(i as int)) == escaped(value@),
        decreases chars@.len() - i,
    {
        let c: char = chars[i];
        let ghost before = written@;
        if c == '\\' {
            written.push('\\');
            written.push('\\');
        } else if c == '\t' {
            written.push('\\');
            written.push('t');
        } else if c == '\n' {
            written.push('\\');
            written.push('n');
        } else {
            written.push(c);
        }
        proof {
            assert(written@ =~= before + escaped_char(c));
            assert(value@.skip(i as int).skip(1) =~= value@.skip(i + 1));
            assert(before + escaped(value@.skip(i as int)) =~= written@ + escaped(
                value@.skip(i + 1),
            ));
        }
        i = i + 1;
    }
    assert(value@.skip(i as int) =~= Seq::empty());
    assert(written@ =~= written@ + Seq::<char>::empty());
    written
}

/// Reads a written value back.
pub fn unescape_field(value: &str) -> (output: String)
    ensures
        output@ == unescaped(value@),
{
    let chars: Vec<char> = chars_of(value);
    let mut output: String = String::new();
    let mut escaping: bool = false;
    let mut i: usize = 0;
    assert(value@.skip(0) =~= value@);
    while i < chars.len()
        invariant
            i <= chars@.len(),
            chars@ == value@,
            escaping ==> i > 0 && value@[i - 1] == '\\',
            output@ + unescaped(value@.skip(if escaping { i - 1 } else { i as int }))
                == unescaped(value@),
        decreases chars@.len() - i,
    {
        let c: char = chars[i];
        let ghost before = output@;
        if escaping {
            proof {
                let rest = value@.skip(i - 1);
                assert(rest.skip(2) =~= value@.skip(i + 1));
                assert(rest[1] == c);
                assert(before + unescaped(rest) =~= before.push(unescaped_char(c)) + unescaped(
                    value@.skip(i + 1),
                ));
            }
            output.push(
                if c == 't' {
                    '\t'
                } else if c == 'n' {
                    '\n'
                } else {
                    c
                },
            );
            escaping = false;
        } else if c == '\\' {
            escaping = true;
        } else {
            proof {
                let rest = value@.skip(i as int);
                assert(rest.skip(1) =~= value@.skip(i + 1));
                assert(before + unescaped(rest) =~= before.push(c) + unescaped(
                    value@.skip(i + 1),
                ));
            }
            output.push(c);
        }
        i = i + 1;
    }
    proof {
        let rest = value@.skip(if escaping { i - 1 } else { i as int });
        assert(unescaped(rest) =~= Seq::empty());
        assert(output@ + unescaped(rest) =~= output@);
    }
    output
}

/// Reading a written value back gives the value.
pub proof fn law_unescape_undoes_escape(value: Seq<char>)
    ensures
        unescaped(escaped(value)) == value,
    decreases value.len(),
{
    if value.len() == 0 {
        assert(value =~= Seq::empty());
    } else {
        let rest = value.skip(1);
        law_unescape_undoes_escape(rest);
        let head = escaped_char(value[0]);
        let written = head + escaped(rest);
        assert(written.skip(head.len() as int) =~= escaped(rest));
        assert(written[0] == head[0]);
        if head.len() == 2 {
            assert(written[1] == head[1]);
        }
        assert(unescaped(written) =~= seq![value[0]] + rest);
        assert(seq![value[0]] + rest =~= value);
    }
}

/// A written value holds neither a tab nor a line feed, whatever the value holds.
pub proof fn law_escaped_field_is_one_field(value: Seq<char>)
    ensures
        !escaped(value).contains('\t'),
        !escaped(value).contains('\n'),
    decreases value.len(),
{
    if value.len() > 0 {
        law_escaped_field_is_one_field(value.skip(1));
        let head = escaped_char(value[0]);
        let rest = escaped(value.skip(1));
        assert forall|k: int| 0 <= k < escaped(value).len() implies escaped(value)[k] != '\t'
            && escaped(value)[k] != '\n' by {
            if k >= head.len() {
                assert(escaped(value)[k] == rest[k - head.len()]);
            }
        }
    }
}

/// Two different values never have the same written form.
pub proof fn law_escape_keeps_values_apart(left: Seq<char>, right: Seq<char>)
    requires
        left != right,
    ensures
        escaped(left) != escaped(right),
{
    law_unescape_undoes_escape(left);
    law_unescape_undoes_escape(right);
}

/// The written form of two texts, one behind the other, is their written forms, one behind
/// the other.
pub proof fn law_escape_of_joined_texts(left: Seq<char>, right: Seq<char>)
    ensures
        escaped(left + right) == escaped(left) + escaped(right),
    decreases left.len(),
{
    let whole = left + right;
    if left.len() == 0 {
        assert(whole =~= right);
        assert(escaped(left) + escaped(right) =~= escaped(right));
    } else {
        law_escape_of_joined_texts(left.skip(1), right);
        assert(whole.skip(1) =~= left.skip(1) + right);
        assert(escaped(whole) =~= escaped(left) + escaped(right));
    }
}

/// Whether a value holds none of the characters that are written otherwise.
pub open spec fn is_plain(value: Seq<char>) -> bool {
    !value.contains('\\') && !value.contains('\t') && !value.contains('\n')
}

/// A written form is never shorter than its value, and as long only where the value is
/// plain.
proof fn lemma_escaped_length(value: Seq<char>)
    ensures
        escaped(value).len() >= value.len(),
        is_plain(value) <==> escaped(value).len() == value.len(),
        is_plain(value) ==> escaped(value) == value,
    decreases value.len(),
{
    if value.len() > 0 {
        let rest = value.skip(1);
        lemma_escaped_length(rest);
        assert forall|c: char| value.contains(c) <==> value[0] == c || rest.contains(c) by {
            if value.contains(c) {
                let k = choose|k: int| 0 <= k < value.len() && value[k] == c;
                if k > 0 {
                    assert(rest[k - 1] == c);
                }
            }
            if rest.contains(c) {
                let k = choose|k: int| 0 <= k < rest.len() && rest[k] == c;
                assert(value[k + 1] == c);
            }
        }
        assert(is_plain(value) <==> escaped_char(value[0]).len() == 1 && is_plain(rest));
        if is_plain(value) {
            assert(escaped(value) =~= value);
        }
    } else {
        assert(escaped(value) =~= value);
    }
}

/// A value is written as it is exactly if it holds no backslash, no tab and no line feed.
pub proof fn law_plain_values_are_written_as_they_are(value: Seq<char>)
    ensures
        escaped(value) == value <==> is_plain(value),
{
    lemma_escaped_length(value);
}

/// How each single character is written.
pub proof fn law_escape_of_one_character(c: char)
    ensures
        escaped(seq!['\\']) == seq!['\\', '\\'],
        escaped(seq!['\t']) == seq!['\\', 't'],
        escaped(seq!['\n']) == seq!['\\', 'n'],
        c != '\\' && c != '\t' && c != '\n' ==> escaped(seq![c]) == seq![c],
{
    lemma_escaped_alone('\\');
    lemma_escaped_alone('\t');
    lemma_escaped_alone('\n');
    lemma_escaped_alone(c);
}

proof fn lemma_escaped_alone(c: char)
    ensures
        escaped(seq![c]) == escaped_char(c),
{
    assert(seq![c].skip(1) =~= Seq::empty());
    assert(escaped_char(c) + escaped(seq![c].skip(1)) =~= escaped_char(c));
}

/// How a written form is read, from its front: a backslash and the character behind it stand
/// for one character, any other character stands for itself, and a backslash at the very end
/// stands for nothing.
pub proof fn law_unescape_from_the_front(c: char, rest: Seq<char>)
    ensures
        unescaped(Seq::empty()) == Seq::<char>::empty(),
        unescaped(seq!['\\']) == Seq::<char>::empty(),
        c != '\\' ==> unescaped(seq![c] + rest) == seq![c] + unescaped(rest),
        unescaped(seq!['\\', 't'] + rest) == seq!['\t'] + unescaped(rest),
        unescaped(seq!['\\', 'n'] + rest) == seq!['\n'] + unescaped(rest),
        c != 't' && c != 'n' ==> unescaped(seq!['\\', c] + rest) == seq![c] + unescaped(rest),
{
    assert((seq![c] + rest).skip(1) =~= rest);
    assert((seq!['\\', 't'] + rest).skip(2) =~= rest);
    assert((seq!['\\', 'n'] + rest).skip(2) =~= rest);
    assert((seq!['\\', c] + rest).skip(2) =~= rest);
}

} // verus!
