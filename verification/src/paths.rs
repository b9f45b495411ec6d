//! File names: the parts of a path and the extension of a name.
use vstd::prelude::*;
use vstd::string::StringExecFns;

use crate::text;

verus! {

/// Whether a part of a path between two separators names something.
pub open spec fn names_something(part: Seq<char>) -> bool {
    part.len() > 0 && part != "."@
}

/// The last of the parts that names something, if it is not the parent.
pub open spec fn last_name(parts: Seq<Seq<char>>) -> Option<Seq<char>>
    decreases parts.len(),
{
    if parts.len() == 0 {
        None
    } else if names_something(parts.last()) {
        if parts.last() == ".."@ {
            None
        } else {
            Some(parts.last())
        }
    } else {
        last_name(parts.drop_last())
    }
}

/// The file name at the end of a path whose separator is `/`.
pub open spec fn file_name(path: Seq<char>) -> Option<Seq<char>> {
    last_name(text::split_on(path, '/'))
}

/// The place of the last full stop of a name, or -1.
pub open spec fn last_stop(name: Seq<char>) -> int
    decreases name.len(),
{
    if name.len() == 0 {
        -1
    } else if name.last() == '.' {
        name.len() - 1
    } else {
        last_stop(name.drop_last())
    }
}

/// What follows the last full stop of a name that does not begin with it.
pub open spec fn extension(name: Seq<char>) -> Option<Seq<char>> {
    if last_stop(name) > 0 {
        Some(name.skip(last_stop(name) + 1))
    } else {
        None
    }
}

/// A name with its extension, if any, replaced by another; an empty one takes
/// the full stop away too.
pub open spec fn renamed(name: Seq<char>, other: Seq<char>) -> Seq<char> {
    let stem = if last_stop(name) > 0 {
        name.take(last_stop(name))
    } else {
        name
    };
    if other.len() == 0 {
        stem
    } else {
        stem + "."@ + other
    }
}

/// The parts of a path up to its file name, with the extension of that name
/// replaced; nothing where the path has no file name.
pub open spec fn renamed_parts(parts: Seq<Seq<char>>, other: Seq<char>) -> Option<Seq<Seq<char>>>
    decreases parts.len(),
{
    if parts.len() == 0 {
        None
    } else if names_something(parts.last()) {
        if parts.last() == ".."@ {
            None
        } else {
            Some(parts.drop_last().push(renamed(parts.last(), other)))
        }
    } else {
        renamed_parts(parts.drop_last(), other)
    }
}

/// A path with the extension of its file name replaced; a path without a file
/// name stays as it is.
pub open spec fn with_extension(path: Seq<char>, other: Seq<char>) -> Seq<char> {
    match renamed_parts(text::split_on(path, '/'), other) {
        Some(parts) => text::join(parts, "/"@),
        None => path,
    }
}

proof fn lemma_last_stop(name: Seq<char>, from: int)
    requires
        0 <= from <= name.len(),
        forall|i: int| from <= i < name.len() ==> name[i] != '.',
    ensures
        last_stop(name) == last_stop(name.take(from)),
        -1 <= last_stop(name) < name.len(),
        last_stop(name) >= 0 ==> name[last_stop(name)] == '.',
    decreases name.len(),
{
    if name.len() == from {
        assert(name.take(from) =~= name);
        if name.len() > 0 && name.last() != '.' {
            lemma_last_stop(name.drop_last(), from - 1);
        }
    } else {
        assert(name.last() != '.');
        assert(name.drop_last().take(from) =~= name.take(from));
        lemma_last_stop(name.drop_last(), from);
    }
}

/// The place of the last full stop, if there is one.
fn find_last_stop(v: &Vec<char>) -> (r: Option<usize>)
    ensures
        match r {
            Some(i) => i == last_stop(v@) && i < v@.len(),
            None => last_stop(v@) == -1,
        },
{
    let mut i: usize = v.len();
    while i > 0
        invariant
            i <= v@.len(),
            forall|j: int| i <= j < v@.len() ==> v@[j] != '.',
        decreases i,
    {
        if v[i - 1] == '.' {
            proof {
                lemma_last_stop(v@, i as int);
                assert(v@.take(i as int).last() == '.');
            }
            return Some(i - 1);
        }
        i -= 1;
    }
    proof {
        lemma_last_stop(v@, 0);
    }
    None
}

/// The file name at the end of a path whose separator is `/`.
pub fn file_name_of(path: &str) -> (r: Option<String>)
    ensures
        crate::json::maybe_text(r) == file_name(path@),
{
    let parts = text::split(path, '/');
    let ghost all = text::texts(parts@);
    let mut i: usize = parts.len();
    assert(all.take(i as int) =~= all);
    while i > 0
        invariant
            all == text::texts(parts@),
            i <= parts@.len(),
            file_name(path@) == last_name(all.take(i as int)),
        decreases i,
    {
        let part = &parts[i - 1];
        assert(all.take(i as int).last() == part@);
        assert(all.take(i as int).drop_last() =~= all.take(i - 1));
        if !part.as_str().is_empty() && !text::same(part.as_str(), ".") {
            if text::same(part.as_str(), "..") {
                return None;
            }
            return Some(part.clone());
        }
        i -= 1;
    }
    None
}

/// What follows the last full stop of a name that does not begin with it.
pub fn extension_of(name: &str) -> (r: Option<String>)
    ensures
        crate::json::maybe_text(r) == extension(name@),
{
    let v = text::chars_of(name);
    let len = v.len();
    match find_last_stop(&v) {
        Some(i) => if i > 0 {
            assert(v@.subrange(i + 1, len as int) =~= v@.skip(i + 1));
            Some(text::string_of(&v, i + 1, len))
        } else {
            None
        },
        None => None,
    }
}

fn rename(name: &str, other: &str) -> (r: String)
    ensures
        r@ == renamed(name@, other@),
{
    let v = text::chars_of(name);
    let mut r = match find_last_stop(&v) {
        Some(i) => if i > 0 {
            assert(v@.subrange(0, i as int) =~= v@.take(i as int));
            text::string_of(&v, 0, i)
        } else {
            name.to_string()
        },
        None => name.to_string(),
    };
    if !other.is_empty() {
        r.append(".");
        r.append(other);
    }
    r
}

/// A path with the extension of its file name replaced; a path without a file
/// name stays as it is.
pub fn replace_extension(path: &str, other: &str) -> (r: String)
    ensures
        r@ == with_extension(path@, other@),
{
    let mut parts = text::split(path, '/');
    let ghost all = text::texts(parts@);
    assert(all.take(parts@.len() as int) =~= all);
    while parts.len() > 0
        invariant
            all == text::split_on(path@, '/'),
            parts@.len() <= all.len(),
            text::texts(parts@) == all.take(parts@.len() as int),
            renamed_parts(all, other@) == renamed_parts(all.take(parts@.len() as int), other@),
        decreases parts@.len(),
    {
        let ghost k = parts@.len() as int;
        let ghost before = parts@;
        let last = match parts.pop() {
            Some(part) => part,
            None => {
                return path.to_string();
            },
        };
        proof {
            assert(all.take(k).last() == text::texts(before)[k - 1]);
            assert(all.take(k).drop_last() =~= all.take(k - 1));
            assert(text::texts(parts@) =~= all.take(k - 1));
        }
        if !last.as_str().is_empty() && !text::same(last.as_str(), ".") {
            if text::same(last.as_str(), "..") {
                return path.to_string();
            }
            parts.push(rename(last.as_str(), other));
            assert(text::texts(parts@) =~= all.take(k - 1).push(renamed(last@, other@)));
            return text::joined(&parts, "/");
        }
    }
    path.to_string()
}

/// A name by itself, without a separator, is a path of one part.
pub proof fn lemma_plain_name(name: Seq<char>, other: Seq<char>)
    requires
        !name.contains('/'),
        names_something(name),
        name != ".."@,
    ensures
        file_name(name) == Some(name),
        with_extension(name, other) == renamed(name, other),
{
    text::lemma_split_none(name, '/');
    let parts = text::split_on(name, '/');
    assert(parts.last() == name);
    assert(parts.drop_last().push(renamed(name, other)) =~= seq![renamed(name, other)]);
}

proof fn lemma_renamed_differs(name: Seq<char>, other: Seq<char>)
    requires
        other.contains('.'),
    ensures
        renamed(name, other) != name,
{
    reveal_strlit(".");
    let k = last_stop(name);
    lemma_after_last_stop(name);
    if k > 0 && renamed(name, other) == name {
        let i = choose|i: int| 0 <= i < other.len() && other[i] == '.';
        assert(renamed(name, other)[k + 1 + i] == '.');
        assert(name[k + 1 + i] == '.');
    }
}

/// Where the file name of a path is: the path is a front, the name and a rest,
/// which is empty or begins with a separator, and the new path is the front and
/// the new name.
proof fn lemma_renamed_parts(parts: Seq<Seq<char>>, other: Seq<char>) -> (r: (
    Seq<char>,
    Seq<char>,
    Seq<char>,
))
    requires
        renamed_parts(parts, other) is Some,
        forall|i: int| 0 <= i < parts.len() ==> !(#[trigger] parts[i]).contains('/'),
    ensures
        text::join(parts, "/"@) == r.0 + r.1 + r.2,
        text::join(renamed_parts(parts, other)->0, "/"@) == r.0 + renamed(r.1, other),
        r.2.len() == 0 || r.2[0] == '/',
        !r.1.contains('/'),
    decreases parts.len(),
{
    reveal_strlit("/");
    let front = parts.drop_last();
    let last = parts[parts.len() - 1];
    assert(last == parts.last());
    let empty = Seq::<char>::empty();
    if names_something(last) {
        let new = front.push(renamed(last, other));
        assert(new.drop_last() =~= front);
        assert(new.last() == renamed(last, other));
        if front.len() == 0 {
            assert(text::join(parts, "/"@) =~= empty + last + empty);
            assert(text::join(new, "/"@) =~= empty + renamed(last, other));
            (empty, last, empty)
        } else {
            let head = text::join(front, "/"@) + "/"@;
            assert(text::join(parts, "/"@) =~= head + last + empty);
            assert(text::join(new, "/"@) =~= head + renamed(last, other));
            (head, last, empty)
        }
    } else {
        assert forall|i: int| 0 <= i < front.len() implies !(#[trigger] front[i]).contains(
            '/',
        ) by {
            assert(front[i] == parts[i]);
        }
        let (a, b, c) = lemma_renamed_parts(front, other);
        let rest = c + "/"@ + last;
        assert(text::join(parts, "/"@) =~= a + b + rest);
        assert(c.len() > 0 ==> rest[0] == c[0]);
        (a, b, rest)
    }
}

/// An extension of two parts always gives another path, so that a temporary file
/// does not stand in the way of the file itself.
pub proof fn law_temporary_name_differs(path: Seq<char>, other: Seq<char>)
    requires
        file_name(path) is Some,
        other.contains('.'),
        !other.contains('/'),
    ensures
        with_extension(path, other) != path,
{
    reveal_strlit(".");
    let parts = text::split_on(path, '/');
    text::lemma_split_pieces(path, '/');
    text::lemma_split_join(path, '/');
    reveal_strlit("/");
    assert("/"@ =~= seq!['/']);
    lemma_some_name(parts, other);
    let (a, b, c) = lemma_renamed_parts(parts, other);
    lemma_renamed_differs(b, other);
    let new = renamed(b, other);
    assert(path == a + b + c);
    if a + new == path {
        if c.len() == 0 {
            assert((a + new).skip(a.len() as int) =~= new);
            assert(path.skip(a.len() as int) =~= b);
        } else {
            let at = a.len() + b.len();
            assert(path[at as int] == c[0]);
            assert(new[b.len() as int] == '/');
            lemma_renamed_chars(b, other);
        }
    }
}

proof fn lemma_renamed_chars(name: Seq<char>, other: Seq<char>)
    requires
        !name.contains('/'),
        !other.contains('/'),
    ensures
        !renamed(name, other).contains('/'),
{
    reveal_strlit(".");
    lemma_after_last_stop(name);
    let new = renamed(name, other);
    let stem = if last_stop(name) > 0 {
        name.take(last_stop(name))
    } else {
        name
    };
    if new.contains('/') {
        let i = choose|i: int| 0 <= i < new.len() && new[i] == '/';
        if i < stem.len() {
            assert(name[i] == '/');
        } else if i > stem.len() {
            assert(other[i - stem.len() - 1] == '/');
        }
    }
}

proof fn lemma_some_name(parts: Seq<Seq<char>>, other: Seq<char>)
    ensures
        last_name(parts) is Some <==> renamed_parts(parts, other) is Some,
    decreases parts.len(),
{
    if parts.len() > 0 && !names_something(parts.last()) {
        lemma_some_name(parts.drop_last(), other);
    }
}

proof fn lemma_after_last_stop(name: Seq<char>)
    ensures
        -1 <= last_stop(name) < name.len(),
        forall|i: int| last_stop(name) < i < name.len() ==> #[trigger] name[i] != '.',
    decreases name.len(),
{
    if name.len() > 0 && name.last() != '.' {
        let front = name.drop_last();
        lemma_after_last_stop(front);
        assert forall|i: int| last_stop(name) < i < name.len() implies #[trigger] name[i]
            != '.' by {
            if i < front.len() {
                assert(front[i] == name[i]);
            }
        }
    }
}

// ---------------------------------------------------------------------------
// Laws of names.
// ---------------------------------------------------------------------------

/// Whether a text can be the name of a file.
pub open spec fn is_name(name: Seq<char>) -> bool {
    name.len() > 0 && name != "."@ && name != ".."@ && !name.contains('/')
}

/// The file name of a path is what stands behind the last separator; separators at
/// the end do not matter.
pub proof fn law_file_name(dir: Seq<char>, name: Seq<char>)
    requires
        is_name(name),
    ensures
        file_name(name) == Some(name),
        file_name(dir + "/"@ + name) == Some(name),
        file_name(dir + "/"@) == file_name(dir),
{
    reveal_strlit("/");
    assert("/"@ =~= seq!['/']);
    text::lemma_split_none(name, '/');
    text::law_split_at_a_separator(dir, '/', name);
    let all = text::split_on(dir, '/') + seq![name];
    assert(all.last() == name);
    assert(seq![name].last() == name);
    let empty = Seq::<char>::empty();
    text::law_split_at_a_separator(dir, '/', empty);
    assert(dir + seq!['/'] + empty =~= dir + seq!['/']);
    let more = text::split_on(dir, '/') + seq![empty];
    assert(more.last() == empty);
    assert(more.drop_last() =~= text::split_on(dir, '/'));
}

proof fn lemma_stop_at(stem: Seq<char>, ext: Seq<char>)
    requires
        !ext.contains('.'),
    ensures
        last_stop(stem + "."@ + ext) == stem.len(),
{
    reveal_strlit(".");
    let name = stem + "."@ + ext;
    lemma_after_last_stop(name);
    assert(name[stem.len() as int] == '.');
    let k = last_stop(name);
    lemma_last_stop(name, name.len() as int);
    if k > stem.len() {
        assert(name[k] == '.');
        assert(ext[k - stem.len() - 1] == '.');
        assert(ext.contains('.'));
    }
}

/// The extension of a name is what stands behind its last full stop. A name without
/// one has no extension, nor has one that only begins with it.
pub proof fn law_extension(stem: Seq<char>, ext: Seq<char>)
    requires
        !ext.contains('.'),
    ensures
        stem.len() > 0 ==> extension(stem + "."@ + ext) == Some(ext),
        extension("."@ + ext) is None,
        extension(ext) is None,
{
    reveal_strlit(".");
    lemma_stop_at(stem, ext);
    assert((stem + "."@ + ext).skip(stem.len() as int + 1) =~= ext);
    let empty = Seq::<char>::empty();
    lemma_stop_at(empty, ext);
    assert(empty + "."@ + ext =~= "."@ + ext);
    lemma_last_stop(ext, ext.len() as int);
    if last_stop(ext) >= 0 {
        assert(ext[last_stop(ext)] == '.');
        assert(ext.contains('.'));
    }
}

/// A new extension takes the place of the old one, or is added where there is none.
/// The directory stays, whatever full stops it holds.
pub proof fn law_new_extension(dir: Seq<char>, stem: Seq<char>, ext: Seq<char>, other: Seq<char>)
    requires
        is_name(stem + "."@ + ext),
        is_name(stem),
        !ext.contains('.'),
        other.len() > 0,
    ensures
        with_extension(stem + "."@ + ext, other) == stem + "."@ + other,
        with_extension(dir + "/"@ + (stem + "."@ + ext), other) == dir + "/"@ + (stem + "."@
            + other),
        !stem.contains('.') ==> with_extension(stem, other) == stem + "."@ + other,
        !stem.contains('.') ==> with_extension(dir + "/"@ + stem, other) == dir + "/"@ + (stem
            + "."@ + other),
{
    let name = stem + "."@ + ext;
    lemma_stop_at(stem, ext);
    assert(name.take(stem.len() as int) =~= stem);
    assert(renamed(name, other) == stem + "."@ + other);
    lemma_plain_name(name, other);
    lemma_in_directory(dir, name, other);
    if !stem.contains('.') {
        lemma_last_stop(stem, stem.len() as int);
        if last_stop(stem) >= 0 {
            assert(stem[last_stop(stem)] == '.');
        }
        lemma_plain_name(stem, other);
        lemma_in_directory(dir, stem, other);
    }
}

proof fn lemma_in_directory(dir: Seq<char>, name: Seq<char>, other: Seq<char>)
    requires
        is_name(name),
    ensures
        with_extension(dir + "/"@ + name, other) == dir + "/"@ + renamed(name, other),
{
    reveal_strlit("/");
    assert("/"@ =~= seq!['/']);
    text::lemma_split_none(name, '/');
    text::law_split_at_a_separator(dir, '/', name);
    text::lemma_split_join(dir, '/');
    let front = text::split_on(dir, '/');
    let all = front + seq![name];
    assert(all.last() == name);
    assert(all.drop_last() =~= front);
    let new = renamed(name, other);
    assert(front.push(new) =~= front + seq![new]);
    text::lemma_split_nonempty(dir, '/');
    text::law_join_of_two_lists(front, seq![new], "/"@);
    text::law_join_of_two_lists(seq![new], front, "/"@);
}

} // verus!
