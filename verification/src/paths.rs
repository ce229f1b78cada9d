//! Paths as text. How a path is read depends on the machine, so that its parts are
//! asked from the standard library; what they are is stated of paths that are read
//! alike everywhere.

use vstd::prelude::*;
use vstd::string::*;

verus! {

/// Whether a path is read alike on every machine, with slashes between its
/// components: it holds no backslash and no colon, and does not begin with two
/// slashes.
pub open spec fn is_plain_path(path: Seq<char>) -> bool {
    &&& !path.contains('\\')
    &&& !path.contains(':')
    &&& !(path.len() >= 2 && path[0] == '/' && path[1] == '/')
}

/// Where the text behind the last slash begins.
pub open spec fn after_last_slash(path: Seq<char>) -> int {
    match path.index_of_last('/') {
        Some(i) => i + 1,
        None => 0,
    }
}

/// The text behind the last slash.
pub open spec fn last_part(path: Seq<char>) -> Seq<char> {
    path.skip(after_last_slash(path))
}

/// Whether a part between slashes does not count: it is empty, or `.`.
pub open spec fn is_void(part: Seq<char>) -> bool {
    part.len() == 0 || part == "."@
}

/// The last part of a path that counts.
pub open spec fn last_component(path: Seq<char>) -> Option<Seq<char>>
    decreases path.len(),
{
    let start = after_last_slash(path);
    if !is_void(last_part(path)) {
        Some(last_part(path))
    } else if start <= 0 {
        None
    } else {
        proof {
            path.index_of_last_ensures('/');
        }
        last_component(path.take(start - 1))
    }
}

/// The name of the file that a plain path names: its last component, unless that
/// is `..`.
pub open spec fn file_name(path: Seq<char>) -> Option<Seq<char>> {
    match last_component(path) {
        Some(name) => if name == ".."@ {
            None
        } else {
            Some(name)
        },
        None => None,
    }
}

/// The directory that a plain path names, where what stands before the last slash
/// names it as it is.
pub open spec fn directory(path: Seq<char>) -> Option<Seq<char>> {
    let start = after_last_slash(path);
    let before = path.take(start - 1);
    if is_void(last_part(path)) || last_part(path) == ".."@ {
        None
    } else if start == 0 {
        Some(Seq::empty())
    } else if start == 1 {
        Some("/"@)
    } else if is_void(last_part(before)) {
        None
    } else {
        Some(before)
    }
}

/// `std::path::Path::file_name`, as text: the last component of the path. Repeated
/// slashes and `.` do not count, and there is no name where the path ends in `..`.
/// How other paths than plain ones are read depends on the machine.
#[verifier::external_body]
pub(crate) fn path_file_name(path: &str) -> (r: Option<String>)
    ensures
        is_plain_path(path@) ==> match r {
            Some(name) => file_name(path@) == Some(name@),
            None => file_name(path@) is None,
        },
{
    match std::path::Path::new(path).file_name() {
        Some(name) => Some(name.to_string_lossy().into_owned()),
        None => None,
    }
}

/// `std::path::Path::parent`, as text: the path without its last component. How
/// repeated slashes and `.` are left out of it is not stated, and how other paths
/// than plain ones are read depends on the machine.
#[verifier::external_body]
pub(crate) fn path_parent(path: &str) -> (r: Option<String>)
    ensures
        is_plain_path(path@) ==> match r {
            Some(dir) => directory(path@) is None || directory(path@) == Some(dir@),
            None => directory(path@) is None,
        },
{
    match std::path::Path::new(path).parent() {
        Some(dir) => Some(dir.to_string_lossy().into_owned()),
        None => None,
    }
}

/// Whether a text is one component of a path on every machine.
pub open spec fn is_component(name: Seq<char>) -> bool {
    &&& is_plain_path(name)
    &&& !name.contains('/')
    &&& !is_void(name)
    &&& name != ".."@
}

/// `base` with one more component `name`, behind a separator where none is there.
pub open spec fn joined_path(base: Seq<char>, name: Seq<char>, separator: char) -> Seq<char> {
    if base.len() == 0 || base.last() == '/' {
        base + name
    } else {
        base.push(separator) + name
    }
}

/// Whether a path is made of a base and one more component: it ends in that, and
/// on a plain base it is the base, a separator and the component. The separator is
/// the machine's.
pub open spec fn extends_path(path: Seq<char>, base: Seq<char>, name: Seq<char>) -> bool {
    &&& path.len() >= name.len()
    &&& path.skip(path.len() - name.len()) == name
    &&& is_plain_path(base) ==> path == joined_path(base, name, '/') || path == joined_path(
        base,
        name,
        '\\',
    )
}

/// `std::path::Path::join`, as text: the path with one more component.
#[verifier::external_body]
pub(crate) fn path_join(base: &str, name: &str) -> (r: String)
    ensures
        is_component(name@) ==> extends_path(r@, base@, name@),
{
    std::path::Path::new(base).join(name).to_string_lossy().into_owned()
}

proof fn lemma_last_part(base: Seq<char>, name: Seq<char>)
    requires
        !name.contains('/'),
    ensures
        after_last_slash(base.push('/') + name) == base.len() + 1,
        last_part(base.push('/') + name) == name,
        after_last_slash(name) == 0,
        last_part(name) == name,
{
    let s = base.push('/') + name;
    assert(s[base.len() as int] == '/');
    s.index_of_last_ensures('/');
    let i = s.index_of_last('/')->0;
    if i > base.len() {
        assert(name[i - base.len() - 1] == '/');
    }
    assert(last_part(s) =~= name);
    name.index_of_last_ensures('/');
    assert(last_part(name) =~= name);
}

/// A component that is joined to a path is the name of the file that the new path names,
/// and what it was joined to is the directory.
pub proof fn joined_component_is_the_file_name(base: Seq<char>, name: Seq<char>)
    requires
        is_component(name),
    ensures
        file_name(joined_path(base, name, '/')) == Some(name),
        base.len() == 0 ==> directory(joined_path(base, name, '/')) == Some(base),
        base.len() > 0 && base.last() != '/' && !is_void(last_part(base)) ==> directory(
            joined_path(base, name, '/'),
        ) == Some(base),
        directory("/"@ + name) == Some("/"@),
{
    reveal_strlit("/");
    let none = Seq::<char>::empty();
    lemma_last_part(none, name);
    assert("/"@ + name =~= none.push('/') + name);
    let path = joined_path(base, name, '/');
    if base.len() == 0 {
        assert(path =~= name);
    } else if base.last() == '/' {
        lemma_last_part(base.drop_last(), name);
        assert(base.drop_last().push('/') =~= base);
    } else {
        lemma_last_part(base, name);
        assert(path.take(base.len() as int) =~= base);
    }
}

} // verus!
