//! Paths of files, as text: their names, their extensions and the identifiers made from
//! them.
use std::collections::hash_map::DefaultHasher;
use std::hash::{Hash, Hasher};
use std::path::Path;

use vstd::arithmetic::power::pow;
use vstd::prelude::*;
use vstd::std_specs::hash::DefaultHasherAdditionalSpecFns;
use vstd::string::*;
use vstd::utf8::is_ascii_chars;

use crate::numbers::{hex_text, hexadecimal, is_hex_digit, law_hexadecimal_shape};
use crate::text::{chars_of, text_between};

verus! {

/// What `Path::file_name` finds in a path with this text. Which characters separate the
/// components of a path is settled by the platform that the library is built for.
pub uninterp spec fn file_name_text(path: Seq<char>) -> Option<Seq<char>>;

/// What `str::to_lowercase` makes of a text.
pub uninterp spec fn lowercase_text(text: Seq<char>) -> Seq<char>;

/// What `Hash::hash` feeds to a hasher for a text.
pub uninterp spec fn hashed_pieces(text: Seq<char>) -> Seq<Seq<u8>>;

/// Whether a text is a single component on every platform: it holds no character that could
/// part components or end a prefix, and does not stand for a folder relative to another.
pub open spec fn is_plain_name(text: Seq<char>) -> bool {
    &&& text.len() > 0
    &&& text != seq!['.']
    &&& text != seq!['.', '.']
    &&& !text.contains('/')
    &&& !text.contains('\\')
    &&& !text.contains(':')
}

/// The file name of a path, where it is the same on every platform: a plain name alone, or
/// one behind a slash and a folder that has neither a root nor a prefix anywhere.
pub open spec fn simple_name(path: Seq<char>) -> Option<Seq<char>> {
    if is_plain_name(path) {
        Some(path)
    } else {
        match last_place(path, '/', path.len() as int) {
            Some(slash) => {
                let folder = path.take(slash);
                let name = path.skip(slash + 1);
                if is_plain_name(name) && slash > 0 && folder[0] != '/' && !folder.contains('\\')
                    && !folder.contains(':') {
                    Some(name)
                } else {
                    None
                }
            },
            None => None,
        }
    }
}

/// `Path::file_name` gives the last component of a path. There is none where the path ends
/// in `..`, or is nothing but a root or a prefix. Of a plain component alone, or behind a
/// slash and a relative folder, it gives that component.
#[verifier::external_body]
pub(crate) fn file_name(path: &str) -> (name: Option<String>)
    ensures
        optional_text(name) == file_name_text(path@),
        simple_name(path@) matches Some(simple) ==> optional_text(name) == Some(simple),
{
    Path::new(path).file_name().and_then(|name| name.to_str()).map(|name| name.to_string())
}

/// `str::to_lowercase` lowers every letter of a text. ASCII letters become their
/// lower-case counterparts, and other ASCII characters stay.
#[verifier::external_body]
fn to_lowercase(text: &str) -> (lowered: String)
    ensures
        lowered@ == lowercase_text(text@),
        is_ascii_chars(text@) ==> lowered@ == ascii_lowercase(text@),
{
    text.to_lowercase()
}

/// `Hash::hash` for a text feeds its bytes to a hasher, after everything that was fed
/// before.
#[verifier::external_body]
fn feed_text(text: &str, hasher: &mut DefaultHasher)
    ensures
        final(hasher)@ == old(hasher)@ + hashed_pieces(text@),
{
    text.hash(hasher)
}

/// The last place of a character before `end`, if there is one.
pub open spec fn last_place(text: Seq<char>, c: char, end: int) -> Option<int>
    decreases end,
{
    if end <= 0 {
        None
    } else if text[end - 1] == c {
        Some(end - 1)
    } else {
        last_place(text, c, end - 1)
    }
}

/// The extension of a file name: what stands behind its last dot, unless that dot begins
/// the name.
pub open spec fn extension_of(name: Seq<char>) -> Option<Seq<char>> {
    match last_place(name, '.', name.len() as int) {
        Some(dot) => if dot == 0 {
            None
        } else {
            Some(name.skip(dot + 1))
        },
        None => None,
    }
}

/// An ASCII letter in lower case; any other character as it is.
pub open spec fn ascii_lowercase_char(c: char) -> char {
    if 'A' <= c <= 'Z' {
        (c as u32 + 32) as char
    } else {
        c
    }
}

/// A text with its ASCII letters in lower case.
pub open spec fn ascii_lowercase(text: Seq<char>) -> Seq<char> {
    text.map_values(|c: char| ascii_lowercase_char(c))
}

/// Whether an extension, in any case, is one of those of the image formats handled.
pub open spec fn is_supported_extension(extension: Seq<char>) -> bool {
    let lowered = ascii_lowercase(extension);
    lowered == "jpg"@ || lowered == "jpeg"@ || lowered == "png"@ || lowered == "webp"@
}

/// The extension of an optional file name.
pub open spec fn named_extension(name: Option<Seq<char>>) -> Option<Seq<char>> {
    match name {
        Some(name) => extension_of(name),
        None => None,
    }
}

/// Whether a file name is that of an image of a format handled, judged by its extension.
pub open spec fn is_image_name(name: Option<Seq<char>>) -> bool {
    match named_extension(name) {
        Some(extension) => is_supported_extension(extension),
        None => false,
    }
}

/// What is shown as the name of a file: its file name, or a fixed label where it has none.
pub open spec fn name_label(name: Option<Seq<char>>) -> Seq<char> {
    match name {
        Some(name) => name,
        None => "不明なファイル"@,
    }
}

/// What is shown as the extension of a file: its extension in lower case, or nothing where
/// it has none.
pub open spec fn extension_label(name: Option<Seq<char>>) -> Seq<char> {
    match named_extension(name) {
        Some(extension) => lowercase_text(extension),
        None => Seq::empty(),
    }
}

/// The extension shown for an ASCII file name.
pub open spec fn ascii_extension(name: Seq<char>) -> Seq<char> {
    match extension_of(name) {
        Some(extension) => ascii_lowercase(extension),
        None => Seq::empty(),
    }
}

/// Whether a path leads to an image of a format handled, judged by its extension.
pub open spec fn is_image_path(path: Seq<char>) -> bool {
    is_image_name(file_name_text(path))
}

/// What is shown as the name of the file that a path leads to.
pub open spec fn shown_name(path: Seq<char>) -> Seq<char> {
    name_label(file_name_text(path))
}

/// The identifier made from a path's text: its hash, in hexadecimal.
pub open spec fn path_id(path: Seq<char>) -> Seq<char> {
    hexadecimal(DefaultHasher::spec_finish(hashed_pieces(path)) as nat)
}

/// The characters of an optional string.
pub open spec fn optional_text(text: Option<String>) -> Option<Seq<char>> {
    match text {
        Some(text) => Some(text@),
        None => None,
    }
}

/// The extension of a file name.
pub fn name_extension(name: &str) -> (extension: Option<String>)
    ensures
        match extension {
            Some(text) => extension_of(name@) == Some(text@),
            None => extension_of(name@) is None,
        },
{
    let chars: Vec<char> = chars_of(name);
    let mut end: usize = chars.len();
    while end > 0
        invariant
            end <= chars@.len(),
            chars@ == name@,
            last_place(name@, '.', chars@.len() as int) == last_place(name@, '.', end as int),
        decreases end,
    {
        if chars[end - 1] == '.' {
            if end == 1 {
                return None;
            }
            let extension: String = text_between(&chars, end, chars.len());
            assert(extension@ =~= name@.skip(end as int));
            return Some(extension);
        }
        end = end - 1;
    }
    None
}

fn lower_char(c: char) -> (lowered: char)
    ensures
        lowered == ascii_lowercase_char(c),
{
    if 'A' <= c && c <= 'Z' {
        (c as u8 + 32) as char
    } else {
        c
    }
}

/// Whether two texts are the same but for the case of their ASCII letters.
pub fn eq_ignore_ascii_case(left: &str, right: &str) -> (same: bool)
    ensures
        same == (ascii_lowercase(left@) == ascii_lowercase(right@)),
{
    let left_chars: Vec<char> = chars_of(left);
    let right_chars: Vec<char> = chars_of(right);
    let ghost lowered_left = ascii_lowercase(left@);
    let ghost lowered_right = ascii_lowercase(right@);
    if left_chars.len() != right_chars.len() {
        assert(lowered_left.len() != lowered_right.len());
        return false;
    }
    let mut i: usize = 0;
    while i < left_chars.len()
        invariant
            i <= left_chars@.len() == right_chars@.len(),
            left_chars@ == left@,
            right_chars@ == right@,
            lowered_left == ascii_lowercase(left@),
            lowered_right == ascii_lowercase(right@),
            forall|k: int| 0 <= k < i ==> lowered_left[k] == lowered_right[k],
        decreases left_chars@.len() - i,
    {
        if lower_char(left_chars[i]) != lower_char(right_chars[i]) {
            assert(lowered_left[i as int] != lowered_right[i as int]);
            return false;
        }
        i = i + 1;
    }
    assert(lowered_left =~= lowered_right);
    true
}

/// Whether an extension, in any case, is one of those of the image formats handled.
pub fn supports_extension(extension: &str) -> (supported: bool)
    ensures
        supported == is_supported_extension(extension@),
{
    proof {
        reveal_strlit("jpg");
        reveal_strlit("jpeg");
        reveal_strlit("png");
        reveal_strlit("webp");
        assert(ascii_lowercase("jpg"@) =~= "jpg"@);
        assert(ascii_lowercase("jpeg"@) =~= "jpeg"@);
        assert(ascii_lowercase("png"@) =~= "png"@);
        assert(ascii_lowercase("webp"@) =~= "webp"@);
    }
    eq_ignore_ascii_case("jpg", extension) || eq_ignore_ascii_case("jpeg", extension)
        || eq_ignore_ascii_case("png", extension) || eq_ignore_ascii_case("webp", extension)
}

/// Whether a file name is that of an image of a format handled, judged by its extension.
pub fn supports_name(name: &Option<String>) -> (supported: bool)
    ensures
        supported == is_image_name(optional_text(*name)),
{
    match name {
        Some(name) => match name_extension(name.as_str()) {
            Some(extension) => supports_extension(extension.as_str()),
            None => false,
        },
        None => false,
    }
}

/// What is shown as the name of a file.
pub fn label_name(name: Option<String>) -> (label: String)
    ensures
        label@ == name_label(optional_text(name)),
{
    match name {
        Some(name) => name,
        None => "不明なファイル".to_string(),
    }
}

/// What is shown as the extension of a file.
pub fn label_extension(name: &Option<String>) -> (label: String)
    ensures
        label@ == extension_label(optional_text(*name)),
        match optional_text(*name) {
            Some(text) => is_ascii_chars(text) ==> label@ == ascii_extension(text),
            None => label@.len() == 0,
        },
{
    match name {
        Some(name) => match name_extension(name.as_str()) {
            Some(extension) => {
                proof {
                    lemma_extension_within(name@);
                }
                to_lowercase(extension.as_str())
            },
            None => String::new(),
        },
        None => String::new(),
    }
}

/// The extension of an ASCII name is ASCII.
proof fn lemma_extension_within(name: Seq<char>)
    ensures
        is_ascii_chars(name) ==> (extension_of(name) matches Some(extension) ==> is_ascii_chars(
            extension,
        )),
{
    lemma_last_place(name, '.', name.len() as int);
}

proof fn lemma_last_place(text: Seq<char>, c: char, end: int)
    requires
        0 <= end <= text.len(),
    ensures
        last_place(text, c, end) matches Some(place) ==> 0 <= place < end && text[place] == c,
    decreases end,
{
    if end > 0 {
        lemma_last_place(text, c, end - 1);
    }
}

/// Whether a path leads to an image of a format handled, judged by its extension.
pub fn is_supported_image(path: &str) -> (supported: bool)
    ensures
        supported == is_image_path(path@),
        simple_name(path@) is Some ==> supported == is_image_name(simple_name(path@)),
{
    supports_name(&file_name(path))
}

/// What is shown as the name of the file that a path leads to.
pub fn display_file_name(path: &str) -> (name: String)
    ensures
        name@ == shown_name(path@),
        simple_name(path@) matches Some(simple) ==> name@ == simple,
{
    label_name(file_name(path))
}

/// The identifier of a path: the same for the same text.
pub fn stable_id(path: &str) -> (id: String)
    ensures
        id@ == path_id(path@),
{
    let mut hasher: DefaultHasher = DefaultHasher::new();
    feed_text(path, &mut hasher);
    assert(hasher@ =~= hashed_pieces(path@));
    hex_text(hasher.finish())
}

/// An identifier has one to sixteen hexadecimal digits, in lower case, and begins with a zero
/// only where it is nothing else.
pub proof fn law_identifier_shape(path: Seq<char>)
    ensures
        1 <= path_id(path).len() <= 16,
        forall|k: int| 0 <= k < path_id(path).len() ==> is_hex_digit(#[trigger] path_id(path)[k]),
        path_id(path)[0] == '0' ==> path_id(path).len() == 1,
{
    let hash = DefaultHasher::spec_finish(hashed_pieces(path));
    assert(pow(16, 16) == 0x1_0000_0000_0000_0000) by {
        reveal_with_fuel(pow, 17);
    }
    law_hexadecimal_shape(hash as nat, 16);
}

/// The extension of a name is what stands behind its last dot. A name without a dot has none,
/// and neither has one whose only dot begins it.
pub proof fn law_extension_behind_the_last_dot(stem: Seq<char>, extension: Seq<char>)
    requires
        !extension.contains('.'),
    ensures
        extension_of(extension) is None,
        extension_of(stem + seq!['.'] + extension) == if stem.len() == 0 {
            None::<Seq<char>>
        } else {
            Some(extension)
        },
{
    let name = stem + seq!['.'] + extension;
    lemma_no_place(extension, '.', extension.len() as int);
    lemma_place_before(name, '.', stem.len() as int, name.len() as int);
    assert(name.skip(stem.len() as int + 1) =~= extension);
}

proof fn lemma_no_place(text: Seq<char>, c: char, end: int)
    requires
        0 <= end <= text.len(),
        !text.contains(c),
    ensures
        last_place(text, c, end) is None,
    decreases end,
{
    if end > 0 {
        assert(text[end - 1] != c);
        lemma_no_place(text, c, end - 1);
    }
}

proof fn lemma_place_before(text: Seq<char>, c: char, place: int, end: int)
    requires
        0 <= place < end <= text.len(),
        text[place] == c,
        forall|k: int| place < k < end ==> text[k] != c,
    ensures
        last_place(text, c, end) == Some(place),
    decreases end,
{
    if end > place + 1 {
        lemma_place_before(text, c, place, end - 1);
    }
}

/// Which extensions are those of images: `jpg`, `jpeg`, `png` and `webp`, each letter large
/// or small.
pub proof fn law_supported_extensions(text: Seq<char>)
    ensures
        is_supported_extension(text) <==> {
            ||| text.len() == 3 && (text[0] == 'j' || text[0] == 'J') && (text[1] == 'p' || text[1]
                == 'P') && (text[2] == 'g' || text[2] == 'G')
            ||| text.len() == 4 && (text[0] == 'j' || text[0] == 'J') && (text[1] == 'p' || text[1]
                == 'P') && (text[2] == 'e' || text[2] == 'E') && (text[3] == 'g' || text[3] == 'G')
            ||| text.len() == 3 && (text[0] == 'p' || text[0] == 'P') && (text[1] == 'n' || text[1]
                == 'N') && (text[2] == 'g' || text[2] == 'G')
            ||| text.len() == 4 && (text[0] == 'w' || text[0] == 'W') && (text[1] == 'e' || text[1]
                == 'E') && (text[2] == 'b' || text[2] == 'B') && (text[3] == 'p' || text[3] == 'P')
        },
{
    reveal_strlit("jpg");
    reveal_strlit("jpeg");
    reveal_strlit("png");
    reveal_strlit("webp");
    let lowered = ascii_lowercase(text);
    assert(lowered.len() == text.len());
    if text.len() == 3 {
        lemma_lowered(text[0], 'j', 'J');
        lemma_lowered(text[1], 'p', 'P');
        lemma_lowered(text[2], 'g', 'G');
        lemma_lowered(text[0], 'p', 'P');
        lemma_lowered(text[1], 'n', 'N');
        assert(lowered == "jpg"@ <==> lowered[0] == 'j' && lowered[1] == 'p' && lowered[2] == 'g')
            by {
            if lowered[0] == 'j' && lowered[1] == 'p' && lowered[2] == 'g' {
                assert(lowered =~= "jpg"@);
            }
        }
        assert(lowered == "png"@ <==> lowered[0] == 'p' && lowered[1] == 'n' && lowered[2] == 'g')
            by {
            if lowered[0] == 'p' && lowered[1] == 'n' && lowered[2] == 'g' {
                assert(lowered =~= "png"@);
            }
        }
    } else if text.len() == 4 {
        lemma_lowered(text[0], 'j', 'J');
        lemma_lowered(text[1], 'p', 'P');
        lemma_lowered(text[2], 'e', 'E');
        lemma_lowered(text[3], 'g', 'G');
        lemma_lowered(text[0], 'w', 'W');
        lemma_lowered(text[1], 'e', 'E');
        lemma_lowered(text[2], 'b', 'B');
        lemma_lowered(text[3], 'p', 'P');
        assert(lowered == "jpeg"@ <==> lowered[0] == 'j' && lowered[1] == 'p' && lowered[2] == 'e'
            && lowered[3] == 'g') by {
            if lowered[0] == 'j' && lowered[1] == 'p' && lowered[2] == 'e' && lowered[3] == 'g' {
                assert(lowered =~= "jpeg"@);
            }
        }
        assert(lowered == "webp"@ <==> lowered[0] == 'w' && lowered[1] == 'e' && lowered[2] == 'b'
            && lowered[3] == 'p') by {
            if lowered[0] == 'w' && lowered[1] == 'e' && lowered[2] == 'b' && lowered[3] == 'p' {
                assert(lowered =~= "webp"@);
            }
        }
    }
}

/// A letter in lower case is that letter, large or small.
proof fn lemma_lowered(c: char, small: char, large: char)
    requires
        97 <= small as int <= 122,
        large as int == small as int - 32,
    ensures
        ascii_lowercase_char(c) == small <==> c == small || c == large,
{
    if 'A' <= c <= 'Z' {
        assert(ascii_lowercase_char(c) as int == c as int + 32);
    }
}

/// A text in lower case has its ASCII letters lowered by 32, and every other character as it
/// was.
pub proof fn law_ascii_lowercase_letter_by_letter(text: Seq<char>)
    ensures
        ascii_lowercase(text).len() == text.len(),
        forall|k: int|
            0 <= k < text.len() ==> (#[trigger] ascii_lowercase(text)[k]) as u32 == if 65
                <= text[k] as u32 <= 90 {
                text[k] as u32 + 32
            } else {
                text[k] as int
            },
{
}

/// A file is one of an image exactly if it has a file name whose extension is that of an
/// image; its name is shown as it is, and its extension in lower case.
pub proof fn law_file_names_are_judged_by_their_extension(
    path: Seq<char>,
    stem: Seq<char>,
    extension: Seq<char>,
)
    requires
        stem.len() > 0,
        !extension.contains('.'),
    ensures
        is_image_name(Some(stem + seq!['.'] + extension)) <==> is_supported_extension(extension),
        extension_label(Some(stem + seq!['.'] + extension)) == lowercase_text(extension),
        ascii_extension(stem + seq!['.'] + extension) == ascii_lowercase(extension),
        !is_image_name(Some(extension)),
        !is_image_name(Some(seq!['.'] + extension)),
        !is_image_name(None),
        extension_label(Some(extension)) == Seq::<char>::empty(),
        extension_label(Some(seq!['.'] + extension)) == Seq::<char>::empty(),
        extension_label(None) == Seq::<char>::empty(),
        name_label(Some(stem)) == stem,
        name_label(None) == "不明なファイル"@,
        is_image_path(path) <==> is_image_name(file_name_text(path)),
        shown_name(path) == name_label(file_name_text(path)),
        path_id(path) == hexadecimal(DefaultHasher::spec_finish(hashed_pieces(path)) as nat),
{
    law_extension_behind_the_last_dot(stem, extension);
    law_extension_behind_the_last_dot(Seq::empty(), extension);
    assert(Seq::<char>::empty() + seq!['.'] + extension =~= seq!['.'] + extension);
}

/// The file name of a plain name, alone or behind a folder.
pub proof fn law_simple_names(folder: Seq<char>, name: Seq<char>)
    requires
        name.len() > 0,
        name != seq!['.'],
        name != seq!['.', '.'],
        !name.contains('/') && !name.contains('\\') && !name.contains(':'),
    ensures
        simple_name(name) == Some(name),
        folder.len() > 0 && folder[0] != '/' && !folder.contains('\\') && !folder.contains(':')
            ==> simple_name(folder + seq!['/'] + name) == Some(name),
{
    let path = folder + seq!['/'] + name;
    assert(path[folder.len() as int] == '/');
    assert forall|k: int| folder.len() < k < path.len() implies path[k] != '/' by {
        assert(path[k] == name[k - folder.len() - 1]);
    }
    lemma_place_before(path, '/', folder.len() as int, path.len() as int);
    assert(path.take(folder.len() as int) =~= folder);
    assert(path.skip(folder.len() as int + 1) =~= name);
    assert(path.contains('/'));
}

/// An optional text is its characters, or none.
pub proof fn law_optional_text_holds_the_text(text: String)
    ensures
        optional_text(Some(text)) == Some(text@),
        optional_text(None) is None,
{
}

} // verus!
