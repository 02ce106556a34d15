//! File names: their parts, and the names that results are stored under.

use vstd::prelude::*;
use vstd::string::{StrSliceExecFns, StringExecFns};

verus! {

/// The position of the last dot of a name; -1 where there is none.
pub open spec fn last_dot(name: Seq<char>) -> int
    decreases name.len(),
{
    if name.len() == 0 {
        -1
    } else if name.last() == '.' {
        name.len() - 1
    } else {
        last_dot(name.drop_last())
    }
}

/// Whether a name has an extension: its last dot is not its first character, and it is not
/// the name of the parent directory.
pub open spec fn has_extension(name: Seq<char>) -> bool {
    last_dot(name) > 0 && name != seq!['.', '.']
}

/// A name without its extension and the dot before it.
pub open spec fn stem_of(name: Seq<char>) -> Seq<char> {
    if has_extension(name) {
        name.take(last_dot(name))
    } else {
        name
    }
}

/// The extension of a name: what follows its last dot.
pub open spec fn extension_of(name: Seq<char>) -> Option<Seq<char>> {
    if has_extension(name) {
        Some(name.skip(last_dot(name) + 1))
    } else {
        None
    }
}

proof fn lemma_last_dot(name: Seq<char>)
    ensures
        -1 <= last_dot(name) < name.len(),
        last_dot(name) >= 0 ==> name[last_dot(name)] == '.',
        forall|k: int| last_dot(name) < k < name.len() ==> name[k] != '.',
    decreases name.len(),
{
    if name.len() > 0 && name.last() != '.' {
        let front = name.drop_last();
        lemma_last_dot(front);
        assert forall|k: int| last_dot(name) < k < name.len() implies name[k] != '.' by {
            if k < front.len() {
                assert(front[k] == name[k]);
            }
        }
    }
}

/// A position is the last dot if it holds a dot and no dot follows.
proof fn lemma_last_dot_is(name: Seq<char>, i: int)
    requires
        -1 <= i < name.len(),
        i >= 0 ==> name[i] == '.',
        forall|k: int| i < k < name.len() ==> name[k] != '.',
    ensures
        last_dot(name) == i,
{
    lemma_last_dot(name);
}

/// The position of the dot before the extension, if the name has one.
fn extension_dot(name: &str) -> (dot: Option<usize>)
    ensures
        dot is Some <==> has_extension(name@),
        dot matches Some(d) ==> d == last_dot(name@),
{
    let total: usize = name.unicode_len();
    if total == 2 && name.get_char(0) == '.' && name.get_char(1) == '.' {
        assert(name@ =~= seq!['.', '.']);
        return None;
    }
    proof {
        if name@ == seq!['.', '.'] {
            assert(name@[0] == '.' && name@[1] == '.');
        }
    }
    let mut i: usize = total;
    while i > 0
        invariant
            total == name@.len(),
            0 <= i <= total,
            name@ != seq!['.', '.'],
            forall|k: int| i <= k < total ==> name@[k] != '.',
        decreases i,
    {
        i = i - 1;
        if name.get_char(i) == '.' {
            proof {
                lemma_last_dot_is(name@, i as int);
            }
            if i > 0 {
                return Some(i);
            } else {
                return None;
            }
        }
    }
    proof {
        lemma_last_dot_is(name@, -1);
    }
    None
}

/// A name without its extension.
pub fn file_stem(name: &str) -> (stem: String)
    ensures
        stem@ == stem_of(name@),
{
    match extension_dot(name) {
        Some(dot) => {
            proof {
                lemma_last_dot(name@);
            }
            name.substring_char(0, dot).to_owned()
        },
        None => name.to_owned(),
    }
}

/// The extension of a name, without the dot before it.
pub fn extension(name: &str) -> (extension: Option<String>)
    ensures
        extension is Some <==> extension_of(name@) is Some,
        extension matches Some(e) ==> extension_of(name@) == Some(e@),
{
    match extension_dot(name) {
        Some(dot) => {
            proof {
                lemma_last_dot(name@);
            }
            let total: usize = name.unicode_len();
            Some(name.substring_char(dot + 1, total).to_owned())
        },
        None => None,
    }
}

/// The placeholder that stands for the stem of the input file.
pub open spec fn stem_mark() -> Seq<char> {
    seq!['{', 's', 't', 'e', 'm', '}']
}

/// The placeholder that stands for the extension of the input file.
pub open spec fn ext_mark() -> Seq<char> {
    seq!['{', 'e', 'x', 't', '}']
}

/// Whether `mark` stands at the start of `text`.
pub open spec fn begins_with(text: Seq<char>, mark: Seq<char>) -> bool {
    text.len() >= mark.len() && text.take(mark.len() as int) == mark
}

/// A pattern with its placeholders replaced. What replaces a placeholder is not searched for
/// placeholders again.
pub open spec fn expanded(pattern: Seq<char>, stem: Seq<char>, ext: Seq<char>) -> Seq<char>
    decreases pattern.len(),
{
    if pattern.len() == 0 {
        Seq::empty()
    } else if begins_with(pattern, stem_mark()) {
        stem + expanded(pattern.skip(6), stem, ext)
    } else if begins_with(pattern, ext_mark()) {
        ext + expanded(pattern.skip(5), stem, ext)
    } else {
        seq![pattern[0]] + expanded(pattern.skip(1), stem, ext)
    }
}

/// Whether `mark` stands in `text` at position `at`.
fn stands_at(text: &str, at: usize, mark: &Vec<char>) -> (result: bool)
    requires
        at <= text@.len(),
    ensures
        result == begins_with(text@.skip(at as int), mark@),
{
    let total: usize = text.unicode_len();
    let length: usize = mark.len();
    if total - at < length {
        return false;
    }
    let mut i: usize = 0;
    while i < length
        invariant
            total == text@.len(),
            length == mark@.len(),
            at <= total,
            length <= total - at,
            0 <= i <= length,
            forall|k: int| 0 <= k < i ==> text@[at + k] == #[trigger] mark@[k],
        decreases length - i,
    {
        if text.get_char(at + i) != mark[i] {
            proof {
                assert(text@.skip(at as int).take(length as int)[i as int] == text@[at + i]);
            }
            return false;
        }
        i = i + 1;
    }
    assert(text@.skip(at as int).take(length as int) =~= mark@);
    true
}

/// Fills in a naming pattern: `{stem}` becomes the stem of the input file and `{ext}` its
/// extension.
pub fn expand_pattern(pattern: &str, stem: &str, ext: &str) -> (name: String)
    ensures
        name@ == expanded(pattern@, stem@, ext@),
{
    let stem_text: Vec<char> = vec!['{', 's', 't', 'e', 'm', '}'];
    let ext_text: Vec<char> = vec!['{', 'e', 'x', 't', '}'];
    assert(stem_text@ =~= stem_mark());
    assert(ext_text@ =~= ext_mark());
    let total: usize = pattern.unicode_len();
    let mut name: String = String::new();
    let mut i: usize = 0;
    assert(pattern@.skip(0) =~= pattern@);
    while i < total
        invariant
            total == pattern@.len(),
            0 <= i <= total,
            stem_text@ == stem_mark(),
            ext_text@ == ext_mark(),
            expanded(pattern@, stem@, ext@) == name@ + expanded(
                pattern@.skip(i as int),
                stem@,
                ext@,
            ),
        decreases total - i,
    {
        let ghost rest = pattern@.skip(i as int);
        let ghost done = name@;
        if stands_at(pattern, i, &stem_text) {
            name.append(stem);
            assert(rest.skip(6) =~= pattern@.skip(i + 6));
            assert(done + (stem@ + expanded(rest.skip(6), stem@, ext@)) =~= done + stem@ + expanded(
                rest.skip(6),
                stem@,
                ext@,
            ));
            i = i + 6;
        } else if stands_at(pattern, i, &ext_text) {
            name.append(ext);
            assert(rest.skip(5) =~= pattern@.skip(i + 5));
            assert(done + (ext@ + expanded(rest.skip(5), stem@, ext@)) =~= done + ext@ + expanded(
                rest.skip(5),
                stem@,
                ext@,
            ));
            i = i + 5;
        } else {
            let next: &str = pattern.substring_char(i, i + 1);
            name.append(next);
            assert(next@ =~= seq![rest[0]]);
            assert(rest.skip(1) =~= pattern@.skip(i + 1));
            assert(done + (seq![rest[0]] + expanded(rest.skip(1), stem@, ext@)) =~= done + seq![
                rest[0],
            ] + expanded(rest.skip(1), stem@, ext@));
            i = i + 1;
        }
    }
    assert(pattern@.skip(total as int) =~= Seq::empty());
    assert(name@ + Seq::<char>::empty() =~= name@);
    name
}

/// The file name of the cropped result next to a result with the stem `stem`: the stem with
/// a suffix, and `png` in place of what then counts as the extension.
pub open spec fn cropped_name_of(stem: Seq<char>) -> Seq<char> {
    stem_of(stem + "_cropped"@) + ".png"@
}

/// The file name of the cropped result next to a result with the stem `stem`.
pub fn cropped_name(stem: &str) -> (name: String)
    ensures
        name@ == cropped_name_of(stem@),
{
    let mut marked: String = stem.to_owned();
    marked.append("_cropped");
    let mut name: String = file_stem(marked.as_str());
    name.append(".png");
    name
}

/// A name with an extension is its stem, a dot and its extension; a name without one is its
/// stem.
pub proof fn law_name_is_stem_and_extension(name: Seq<char>)
    ensures
        extension_of(name) matches Some(ext) ==> name == stem_of(name) + seq!['.'] + ext,
        extension_of(name) is None ==> name == stem_of(name),
{
    lemma_last_dot(name);
    if has_extension(name) {
        assert(name =~= stem_of(name) + seq!['.'] + name.skip(last_dot(name) + 1));
    }
}

/// An extension has no dot.
pub proof fn law_extension_has_no_dot(name: Seq<char>)
    ensures
        extension_of(name) matches Some(ext) ==> !ext.contains('.'),
{
    lemma_last_dot(name);
}

/// A pattern without a brace is the name of every result.
pub proof fn law_plain_pattern_is_the_name(pattern: Seq<char>, stem: Seq<char>, ext: Seq<char>)
    requires
        !pattern.contains('{'),
    ensures
        expanded(pattern, stem, ext) == pattern,
    decreases pattern.len(),
{
    if pattern.len() > 0 {
        assert(pattern[0] != '{');
        assert(!begins_with(pattern, stem_mark())) by {
            if pattern.len() >= 6 {
                assert(pattern.take(6)[0] == pattern[0]);
            }
        }
        assert(!begins_with(pattern, ext_mark())) by {
            if pattern.len() >= 5 {
                assert(pattern.take(5)[0] == pattern[0]);
            }
        }
        let rest = pattern.skip(1);
        assert forall|k: int| 0 <= k < rest.len() implies rest[k] != '{' by {
            assert(rest[k] == pattern[k + 1]);
        }
        law_plain_pattern_is_the_name(rest, stem, ext);
        assert(seq![pattern[0]] + rest =~= pattern);
    }
}

/// A placeholder in front of a pattern puts the stem, or the extension, in front of its
/// expansion.
pub proof fn law_leading_placeholder(pattern: Seq<char>, stem: Seq<char>, ext: Seq<char>)
    ensures
        expanded(stem_mark() + pattern, stem, ext) == stem + expanded(pattern, stem, ext),
        expanded(ext_mark() + pattern, stem, ext) == ext + expanded(pattern, stem, ext),
{
    let first = stem_mark() + pattern;
    assert(first.take(6) =~= stem_mark());
    assert(first.skip(6) =~= pattern);
    let second = ext_mark() + pattern;
    assert(second.take(5) =~= ext_mark());
    assert(second.skip(5) =~= pattern);
    assert(!begins_with(second, stem_mark())) by {
        if second.len() >= 6 {
            assert(second.take(6)[1] == 'e');
            assert(stem_mark()[1] == 's');
        }
    }
}

/// A name is split at its last dot: whatever stands before it is the stem, if it is not empty,
/// and what follows, in which there is no further dot, is the extension. The name of the parent
/// directory is not split.
pub proof fn law_name_is_split_at_its_last_dot(stem: Seq<char>, ext: Seq<char>)
    requires
        stem.len() > 0,
        !ext.contains('.'),
        !(stem == seq!['.'] && ext.len() == 0),
    ensures
        stem_of(stem + seq!['.'] + ext) == stem,
        extension_of(stem + seq!['.'] + ext) == Some(ext),
{
    let name = stem + seq!['.'] + ext;
    let at = stem.len() as int;
    assert forall|k: int| at < k < name.len() implies name[k] != '.' by {
        assert(name[k] == ext[k - at - 1]);
    }
    lemma_last_dot_is(name, at);
    if name == seq!['.', '.'] {
        assert(name.len() == 2);
        assert(stem =~= seq!['.']);
        assert(ext.len() == 0);
    }
    assert(name.take(at) =~= stem);
    assert(name.skip(at + 1) =~= ext);
}

/// A name without a dot, or with none but its first character, has no extension and is its own
/// stem; so is the name of the parent directory.
pub proof fn law_name_without_a_dot_is_its_stem(name: Seq<char>)
    requires
        name == seq!['.', '.'] || forall|k: int| 1 <= k < name.len() ==> name[k] != '.',
    ensures
        extension_of(name) is None,
        stem_of(name) == name,
{
    lemma_last_dot(name);
}

/// Text that is no placeholder is kept, character by character, and an empty pattern gives an
/// empty name. A brace is kept too where neither placeholder starts with it.
pub proof fn law_other_text_is_kept(c: char, rest: Seq<char>, stem: Seq<char>, ext: Seq<char>)
    requires
        c != '{' || (!(rest.len() >= 5 && rest.take(5) == seq!['s', 't', 'e', 'm', '}']) && !(
        rest.len() >= 4 && rest.take(4) == seq!['e', 'x', 't', '}'])),
    ensures
        expanded(Seq::empty(), stem, ext) == Seq::<char>::empty(),
        expanded(seq![c] + rest, stem, ext) == seq![c] + expanded(rest, stem, ext),
{
    let pattern = seq![c] + rest;
    assert(pattern.skip(1) =~= rest);
    assert(!begins_with(pattern, stem_mark())) by {
        if begins_with(pattern, stem_mark()) {
            assert(pattern.take(6)[0] == stem_mark()[0]);
            assert(rest.take(5) =~= pattern.take(6).skip(1));
            assert(stem_mark().skip(1) =~= seq!['s', 't', 'e', 'm', '}']);
        }
    }
    assert(!begins_with(pattern, ext_mark())) by {
        if begins_with(pattern, ext_mark()) {
            assert(pattern.take(5)[0] == ext_mark()[0]);
            assert(rest.take(4) =~= pattern.take(5).skip(1));
            assert(ext_mark().skip(1) =~= seq!['e', 'x', 't', '}']);
        }
    }
}

/// A placeholder is replaced wherever it stands: text before it, in which no brace opens, is
/// kept, and what follows is filled in by itself.
pub proof fn law_placeholder_is_replaced_anywhere(
    text: Seq<char>,
    rest: Seq<char>,
    stem: Seq<char>,
    ext: Seq<char>,
)
    requires
        !text.contains('{'),
    ensures
        expanded(text + seq!['{', 's', 't', 'e', 'm', '}'] + rest, stem, ext) == text + stem
            + expanded(rest, stem, ext),
        expanded(text + seq!['{', 'e', 'x', 't', '}'] + rest, stem, ext) == text + ext + expanded(
            rest,
            stem,
            ext,
        ),
    decreases text.len(),
{
    let first = seq!['{', 's', 't', 'e', 'm', '}'];
    let second = seq!['{', 'e', 'x', 't', '}'];
    assert(stem_mark() =~= first);
    assert(ext_mark() =~= second);
    if text.len() == 0 {
        law_leading_placeholder(rest, stem, ext);
        assert(text + first + rest =~= first + rest);
        assert(text + second + rest =~= second + rest);
        assert(text + stem + expanded(rest, stem, ext) =~= stem + expanded(rest, stem, ext));
        assert(text + ext + expanded(rest, stem, ext) =~= ext + expanded(rest, stem, ext));
    } else {
        let c = text[0];
        let tail = text.skip(1);
        assert(c != '{') by {
            assert(text.contains(text[0]));
        }
        assert forall|k: int| 0 <= k < tail.len() implies tail[k] != '{' by {
            assert(text.contains(text[k + 1]));
        }
        law_placeholder_is_replaced_anywhere(tail, rest, stem, ext);
        law_other_text_is_kept(c, tail + first + rest, stem, ext);
        law_other_text_is_kept(c, tail + second + rest, stem, ext);
        assert(seq![c] + (tail + first + rest) =~= text + first + rest);
        assert(seq![c] + (tail + second + rest) =~= text + second + rest);
        assert(seq![c] + (tail + stem + expanded(rest, stem, ext)) =~= text + stem + expanded(
            rest,
            stem,
            ext,
        ));
        assert(seq![c] + (tail + ext + expanded(rest, stem, ext)) =~= text + ext + expanded(
            rest,
            stem,
            ext,
        ));
    }
}

/// The cropped result next to one whose stem has no extension of its own is marked as such.
pub proof fn law_cropped_name_is_marked(stem: Seq<char>)
    requires
        forall|k: int| 1 <= k < stem.len() ==> stem[k] != '.',
    ensures
        cropped_name_of(stem) == stem + "_cropped.png"@,
{
    reveal_strlit("_cropped");
    reveal_strlit(".png");
    reveal_strlit("_cropped.png");
    let marked = stem + "_cropped"@;
    assert forall|k: int| 1 <= k < marked.len() implies marked[k] != '.' by {
        if k >= stem.len() {
            assert(marked[k] == "_cropped"@[k - stem.len()]);
        }
    }
    law_name_without_a_dot_is_its_stem(marked);
    assert(marked + ".png"@ =~= stem + "_cropped.png"@);
}

/// Where a stem has an extension of its own, the mark is taken for a part of it and replaced
/// together with it.
pub proof fn law_cropped_name_replaces_an_extension(front: Seq<char>, back: Seq<char>)
    requires
        front.len() > 0,
        !back.contains('.'),
    ensures
        cropped_name_of(front + seq!['.'] + back) == front + ".png"@,
{
    reveal_strlit("_cropped");
    let ext = back + "_cropped"@;
    assert forall|k: int| 0 <= k < ext.len() implies ext[k] != '.' by {
        if k < back.len() {
            assert(back.contains(back[k]));
        } else {
            assert(ext[k] == "_cropped"@[k - back.len()]);
        }
    }
    law_name_is_split_at_its_last_dot(front, ext);
    assert(front + seq!['.'] + back + "_cropped"@ =~= front + seq!['.'] + ext);
}

} // verus!
