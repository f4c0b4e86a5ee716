//! File names inside Windows paths: the last component of a path, its stem
//! and its extension. Both `\` and `/` separate components, separators and
//! `.` components at the end do not count, and a drive such as `C:` in
//! front is no part of a name.

use vstd::prelude::*;
use vstd::string::StrSliceExecFns;

use crate::text::chars_of;

verus! {

/// `c` separates the components of a path.
pub open spec fn is_separator(c: char) -> bool {
    c == '\\' || c == '/'
}

/// `c` is a letter that can name a drive.
pub open spec fn is_drive_letter(c: char) -> bool {
    65 <= c as u32 <= 90 || 97 <= c as u32 <= 122
}

/// The path starts with a drive: a letter and a colon.
pub open spec fn has_drive(path: Seq<char>) -> bool {
    path.len() >= 2 && is_drive_letter(path[0]) && path[1] == ':'
}

/// The length of `path` without the separators and the `.` components at
/// its end.
pub open spec fn trimmed_len(path: Seq<char>) -> int
    decreases path.len(),
{
    if path.len() == 0 {
        0
    } else if is_separator(path.last()) {
        trimmed_len(path.drop_last())
    } else if path.last() == '.' && path.len() >= 2 && is_separator(path[path.len() - 2]) {
        trimmed_len(path.drop_last())
    } else {
        path.len() as int
    }
}

/// Where the last component of `path` starts: behind its last separator, or
/// at the front where it has none.
pub open spec fn last_component_start(path: Seq<char>) -> int
    decreases path.len(),
{
    if path.len() == 0 {
        0
    } else if is_separator(path.last()) {
        path.len() as int
    } else {
        last_component_start(path.drop_last())
    }
}

/// Where the name of the file in `path` starts: at its last component, and
/// behind the drive where the path is a drive and a name only.
pub open spec fn name_start(path: Seq<char>) -> int {
    let kept = path.take(trimmed_len(path));
    if last_component_start(kept) == 0 && has_drive(kept) {
        2
    } else {
        last_component_start(kept)
    }
}

/// The index of the last `.` in `name`, or -1 where it has none.
pub open spec fn last_dot(name: Seq<char>) -> int
    decreases name.len(),
{
    if name.len() == 0 {
        -1
    } else if name.last() == '.' {
        name.len() - 1
    } else {
        last_dot(name.drop_last())
    }
}

/// The name of the file that `path` ends in: its last component. A path
/// without components names no file, and neither do `.` and `..` as the
/// last component.
pub open spec fn file_name_of(path: Seq<char>) -> Option<Seq<char>> {
    let name = path.subrange(name_start(path), trimmed_len(path));
    if name.len() == 0 || name == seq!['.'] || name == seq!['.', '.'] {
        None
    } else {
        Some(name)
    }
}

/// The extension of the file that `path` ends in: what follows the last `.`
/// of its name. A name without a `.`, or with its only `.` in front, has none.
pub open spec fn extension_of(path: Seq<char>) -> Option<Seq<char>> {
    match file_name_of(path) {
        None => None,
        Some(name) => if last_dot(name) <= 0 {
            None
        } else {
            Some(name.subrange(last_dot(name) + 1, name.len() as int))
        },
    }
}

/// The stem of the file that `path` ends in: its name without the extension
/// and the `.` before it.
pub open spec fn file_stem_of(path: Seq<char>) -> Option<Seq<char>> {
    match file_name_of(path) {
        None => None,
        Some(name) => if last_dot(name) <= 0 {
            Some(name)
        } else {
            Some(name.subrange(0, last_dot(name)))
        },
    }
}

/// What is left of a path without its end is no longer than the path.
proof fn lemma_trimmed_len(path: Seq<char>)
    ensures
        0 <= trimmed_len(path) <= path.len(),
    decreases path.len(),
{
    if path.len() > 0 {
        lemma_trimmed_len(path.drop_last());
    }
}

/// The last component starts behind a separator or at the front, and holds
/// no separator.
proof fn lemma_last_component(path: Seq<char>)
    ensures
        0 <= last_component_start(path) <= path.len(),
        last_component_start(path) > 0 ==> is_separator(path[last_component_start(path) - 1]),
        forall|i: int| last_component_start(path) <= i < path.len() ==> !is_separator(path[i]),
    decreases path.len(),
{
    if path.len() > 0 && !is_separator(path.last()) {
        lemma_last_component(path.drop_last());
        assert forall|i: int| last_component_start(path) <= i < path.len() implies !is_separator(
            path[i],
        ) by {
            if i < path.len() - 1 {
                assert(path.drop_last()[i] == path[i]);
            }
        }
    }
}

/// The last `.` of a name is a `.`, and none follows it.
pub proof fn lemma_last_dot(name: Seq<char>)
    ensures
        -1 <= last_dot(name) < name.len(),
        last_dot(name) >= 0 ==> name[last_dot(name)] == '.',
        forall|i: int| last_dot(name) < i < name.len() ==> name[i] != '.',
    decreases name.len(),
{
    if name.len() > 0 && name.last() != '.' {
        lemma_last_dot(name.drop_last());
        assert forall|i: int| last_dot(name) < i < name.len() implies name[i] != '.' by {
            if i < name.len() - 1 {
                assert(name.drop_last()[i] == name[i]);
            }
        }
    }
}

/// The file name is a part of the path, is not empty and holds no
/// separator.
pub proof fn lemma_file_name_in_path(path: Seq<char>)
    requires
        file_name_of(path) is Some,
    ensures
        ({
            let name = file_name_of(path)->0;
            &&& 0 <= name_start(path) < trimmed_len(path) <= path.len()
            &&& name == path.subrange(name_start(path), trimmed_len(path))
            &&& forall|i: int| 0 <= i < name.len() ==> !is_separator(name[i])
        }),
{
    lemma_trimmed_len(path);
    let kept = path.take(trimmed_len(path));
    lemma_last_component(kept);
    let name = path.subrange(name_start(path), trimmed_len(path));
    assert forall|i: int| 0 <= i < name.len() implies !is_separator(name[i]) by {
        assert(name[i] == kept[name_start(path) + i]);
    }
}

/// A file with an extension has a stem, and the stem is not empty.
pub proof fn lemma_extension_implies_stem(path: Seq<char>)
    requires
        extension_of(path) is Some,
    ensures
        file_stem_of(path) is Some,
        file_stem_of(path)->0.len() > 0,
{
    lemma_last_dot(file_name_of(path)->0);
}

/// The bounds of the file name in `path`, and the index in the path of the
/// `.` that starts its extension.
struct NameBounds {
    start: usize,
    end: usize,
    dot: Option<usize>,
}

/// Whether `c` separates the components of a path.
fn separates(c: char) -> (yes: bool)
    ensures
        yes == is_separator(c),
{
    c == '\\' || c == '/'
}

/// Whether `c` is a letter that can name a drive.
fn names_drive(c: char) -> (yes: bool)
    ensures
        yes == is_drive_letter(c),
{
    let code: u32 = c as u32;
    (65 <= code && code <= 90) || (97 <= code && code <= 122)
}

/// Finds the file name in a path and the `.` before its extension.
fn name_bounds(path: &Vec<char>) -> (bounds: Option<NameBounds>)
    ensures
        match bounds {
            None => file_name_of(path@) is None,
            Some(b) => {
                let name = path@.subrange(b.start as int, b.end as int);
                &&& b.start <= b.end <= path@.len()
                &&& file_name_of(path@) == Some(name)
                &&& match b.dot {
                    None => last_dot(name) <= 0,
                    Some(d) => b.start < d < b.end && d - b.start == last_dot(name),
                }
            },
        },
{
    let mut end: usize = path.len();
    assert(path@.take(end as int) =~= path@);
    while end > 0 && (separates(path[end - 1]) || (path[end - 1] == '.' && end >= 2 && separates(
        path[end - 2],
    )))
        invariant
            end <= path@.len(),
            trimmed_len(path@) == trimmed_len(path@.take(end as int)),
        decreases end,
    {
        assert(path@.take(end as int).drop_last() =~= path@.take(end - 1));
        end -= 1;
    }
    assert(trimmed_len(path@) == end) by {
        let rest = path@.take(end as int);
        if end > 0 {
            assert(rest.last() == path@[end - 1]);
            if end >= 2 {
                assert(rest[rest.len() - 2] == path@[end - 2]);
            }
        }
    }
    let ghost kept = path@.take(end as int);
    let mut start: usize = end;
    assert(kept.take(end as int) =~= kept);
    while start > 0 && !separates(path[start - 1])
        invariant
            start <= end <= path@.len(),
            kept == path@.take(end as int),
            last_component_start(kept) == last_component_start(kept.take(start as int)),
        decreases start,
    {
        assert(kept.take(start as int).drop_last() =~= kept.take(start - 1));
        assert(kept.take(start as int).last() == path@[start - 1]);
        start -= 1;
    }
    assert(last_component_start(kept) == start) by {
        if start > 0 {
            assert(kept.take(start as int).last() == path@[start - 1]);
        }
    }
    if start == 0 && end >= 2 && names_drive(path[0]) && path[1] == ':' {
        assert(kept[0] == path@[0] && kept[1] == path@[1]);
        start = 2;
    } else {
        proof {
            if end >= 2 {
                assert(kept[0] == path@[0] && kept[1] == path@[1]);
            }
        }
    }
    assert(name_start(path@) == start);
    let ghost name = path@.subrange(start as int, end as int);
    if start == end {
        return None;
    }
    if end - start == 1 && path[start] == '.' {
        assert(name =~= seq!['.']);
        return None;
    }
    if end - start == 2 && path[start] == '.' && path[start + 1] == '.' {
        assert(name =~= seq!['.', '.']);
        return None;
    }
    assert(name != seq!['.']) by {
        if name == seq!['.'] {
            assert(name.len() == 1 && name[0] == '.');
        }
    }
    assert(name != seq!['.', '.']) by {
        if name == seq!['.', '.'] {
            assert(name.len() == 2 && name[0] == '.' && name[1] == '.');
        }
    }
    let mut dot: usize = end;
    assert(name.take(end - start) =~= name);
    while dot > start && path[dot - 1] != '.'
        invariant
            start <= dot <= end <= path@.len(),
            name == path@.subrange(start as int, end as int),
            last_dot(name) == last_dot(name.take(dot - start)),
        decreases dot,
    {
        assert(name.take(dot - start).drop_last() =~= name.take(dot - start - 1));
        dot -= 1;
    }
    if dot <= start + 1 {
        Some(NameBounds { start, end, dot: None })
    } else {
        Some(NameBounds { start, end, dot: Some(dot - 1) })
    }
}

/// The name of the file that `path` ends in.
pub fn file_name(path: &str) -> (name: Option<String>)
    ensures
        name.deep_view() == file_name_of(path@),
{
    let chars = chars_of(path);
    match name_bounds(&chars) {
        None => None,
        Some(b) => Some(path.substring_char(b.start, b.end).to_owned()),
    }
}

/// The extension of the file that `path` ends in.
pub fn extension(path: &str) -> (ext: Option<String>)
    ensures
        ext.deep_view() == extension_of(path@),
{
    let chars = chars_of(path);
    match name_bounds(&chars) {
        None => None,
        Some(b) => match b.dot {
            None => None,
            Some(d) => {
                proof {
                    let name = path@.subrange(b.start as int, b.end as int);
                    assert(name.subrange(d - b.start + 1, name.len() as int) =~= path@.subrange(
                        d + 1,
                        b.end as int,
                    ));
                }
                Some(path.substring_char(d + 1, b.end).to_owned())
            },
        },
    }
}

/// The stem of the file that `path` ends in.
pub fn file_stem(path: &str) -> (stem: Option<String>)
    ensures
        stem.deep_view() == file_stem_of(path@),
{
    let chars = chars_of(path);
    match name_bounds(&chars) {
        None => None,
        Some(b) => match b.dot {
            None => Some(path.substring_char(b.start, b.end).to_owned()),
            Some(d) => {
                proof {
                    let name = path@.subrange(b.start as int, b.end as int);
                    assert(name.subrange(0, d - b.start) =~= path@.subrange(
                        b.start as int,
                        d as int,
                    ));
                }
                Some(path.substring_char(b.start, d).to_owned())
            },
        },
    }
}

/// Whether the file that `path` ends in has the extension `wanted`, letter
/// for letter.
pub fn has_extension(path: &str, wanted: &str) -> (found: bool)
    ensures
        found == (extension_of(path@) == Some(wanted@)),
{
    match extension(path) {
        None => false,
        Some(ext) => ext == wanted.to_owned(),
    }
}

} // verus!
