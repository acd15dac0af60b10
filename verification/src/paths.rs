//! Paths of files, written with `/` between their parts.

use vstd::prelude::*;

use crate::text;

verus! {

/// A path without what does not count at its end: slashes, and parts that are a mere
/// dot.
pub open spec fn bare(path: Seq<char>) -> Seq<char>
    decreases path.len(),
{
    if path.len() > 1 && path.last() == '/' {
        bare(path.drop_last())
    } else if path.len() > 1 && path.last() == '.' && path[path.len() - 2] == '/' {
        bare(path.drop_last())
    } else {
        path
    }
}

/// The position behind the last slash.
pub open spec fn name_start(path: Seq<char>) -> nat
    decreases path.len(),
{
    if path.len() == 0 || path.last() == '/' {
        path.len()
    } else {
        name_start(path.drop_last())
    }
}

/// Whether a path names nothing below the root or the current directory.
pub open spec fn rootlike(path: Seq<char>) -> bool {
    bare(path).len() == 0 || bare(path) == seq!['/']
}

/// The last part of a path.
pub open spec fn last_part(path: Seq<char>) -> Seq<char> {
    bare(path).skip(name_start(bare(path)) as int)
}

/// The name of the file that a path leads to.
pub open spec fn file_name(path: Seq<char>) -> Option<Seq<char>> {
    let name = last_part(path);
    if rootlike(path) || name == seq!['.'] || name == seq!['.', '.'] {
        None
    } else {
        Some(name)
    }
}

/// The directory that a path is in. The root has none.
pub open spec fn parent(path: Seq<char>) -> Option<Seq<char>> {
    if rootlike(path) {
        None
    } else {
        Some(bare(bare(path).take(name_start(bare(path)) as int)))
    }
}

/// The path of a file called `name` in a directory.
pub open spec fn joined(directory: Seq<char>, name: Seq<char>) -> Seq<char> {
    if directory.len() == 0 {
        name
    } else if directory.last() == '/' {
        directory + name
    } else {
        directory + seq!['/'] + name
    }
}

/// The length of `chars[..to]` without what does not count at its end.
fn bare_len(chars: &Vec<char>, to: usize) -> (r: usize)
    requires
        to <= chars@.len(),
    ensures
        r <= to,
        chars@.take(r as int) == bare(chars@.take(to as int)),
{
    let mut n: usize = to;
    while n > 1 && (chars[n - 1] == '/' || (chars[n - 1] == '.' && chars[n - 2] == '/'))
        invariant
            n <= to <= chars@.len(),
            bare(chars@.take(n as int)) == bare(chars@.take(to as int)),
        decreases n,
    {
        assert(chars@.take(n as int).drop_last() =~= chars@.take(n - 1));
        n -= 1;
    }
    n
}

/// The position behind the last slash of `chars[..to]`.
fn name_start_of(chars: &Vec<char>, to: usize) -> (r: usize)
    requires
        to <= chars@.len(),
    ensures
        r <= to,
        r == name_start(chars@.take(to as int)),
{
    let mut n: usize = to;
    while n > 0 && chars[n - 1] != '/'
        invariant
            n <= to <= chars@.len(),
            name_start(chars@.take(n as int)) == name_start(chars@.take(to as int)),
        decreases n,
    {
        assert(chars@.take(n as int).drop_last() =~= chars@.take(n - 1));
        n -= 1;
    }
    n
}

/// The name of the file that a path leads to.
pub fn file_name_of(path: &str) -> (r: Option<String>)
    ensures
        match r {
            Some(n) => file_name(path@) == Some(n@),
            None => file_name(path@) is None,
        },
{
    let chars = text::chars_of(path);
    let n = bare_len(&chars, chars.len());
    assert(chars@.take(chars@.len() as int) =~= path@);
    let ghost b = bare(path@);
    assert(b == chars@.take(n as int));
    if n == 0 || (n == 1 && chars[0] == '/') {
        assert(n == 1 ==> b =~= seq!['/']);
        return None;
    }
    assert(b != seq!['/']) by {
        if b == seq!['/'] {
            assert(b[0] == '/');
        }
    }
    let start = name_start_of(&chars, n);
    let ghost name = last_part(path@);
    assert(name =~= chars@.subrange(start as int, n as int));
    if n - start == 1 && chars[start] == '.' {
        assert(name =~= seq!['.']);
        return None;
    }
    if n - start == 2 && chars[start] == '.' && chars[start + 1] == '.' {
        assert(name =~= seq!['.', '.']);
        return None;
    }
    assert(name != seq!['.']) by {
        if name == seq!['.'] {
            assert(name[0] == '.' && name.len() == 1);
        }
    }
    assert(name != seq!['.', '.']) by {
        if name == seq!['.', '.'] {
            assert(name[0] == '.' && name[1] == '.' && name.len() == 2);
        }
    }
    Some(text::slice(&chars, start, n))
}

/// The directory that a path is in. The root has none.
pub fn parent_of(path: &str) -> (r: Option<String>)
    ensures
        match r {
            Some(p) => parent(path@) == Some(p@),
            None => parent(path@) is None,
        },
{
    let chars = text::chars_of(path);
    let n = bare_len(&chars, chars.len());
    assert(chars@.take(chars@.len() as int) =~= path@);
    let ghost b = bare(path@);
    assert(b == chars@.take(n as int));
    if n == 0 || (n == 1 && chars[0] == '/') {
        assert(n == 1 ==> b =~= seq!['/']);
        return None;
    }
    assert(b != seq!['/']) by {
        if b == seq!['/'] {
            assert(b.len() == 1 && b[0] == '/');
            assert(chars@[0] == b[0]);
        }
    }
    let start = name_start_of(&chars, n);
    assert(b.take(start as int) =~= chars@.take(start as int));
    let end = bare_len(&chars, start);
    let r = text::slice(&chars, 0, end);
    assert(r@ =~= chars@.take(end as int));
    Some(r)
}

/// The path of a file called `name` in a directory.
pub fn join(directory: &str, name: &str) -> (r: String)
    ensures
        r@ == joined(directory@, name@),
{
    let chars = text::chars_of(directory);
    let n = chars.len();
    let mut r = directory.to_owned();
    if n > 0 && chars[n - 1] != '/' {
        r.push('/');
    }
    r.push_str(name);
    assert(r@ =~= joined(directory@, name@));
    r
}

/// The name of a file has no slash.
pub proof fn lemma_file_name_has_no_slash(path: Seq<char>)
    ensures
        file_name(path) matches Some(name) ==> forall|i: int|
            0 <= i < name.len() ==> #[trigger] name[i] != '/',
{
    lemma_no_slash_behind(bare(path));
}

proof fn lemma_no_slash_behind(path: Seq<char>)
    ensures
        name_start(path) <= path.len(),
        forall|i: int| name_start(path) <= i < path.len() ==> #[trigger] path[i] != '/',
    decreases path.len(),
{
    if path.len() > 0 && path.last() != '/' {
        lemma_no_slash_behind(path.drop_last());
        assert forall|i: int| name_start(path) <= i < path.len() implies #[trigger] path[i]
            != '/' by {
            if i < path.len() - 1 {
                assert(path.drop_last()[i] == path[i]);
            }
        }
    }
}

proof fn lemma_bare_is_bare(path: Seq<char>)
    ensures
        bare(bare(path)) == bare(path),
    decreases path.len(),
{
    if path.len() > 1 && (path.last() == '/' || (path.last() == '.' && path[path.len() - 2]
        == '/')) {
        lemma_bare_is_bare(path.drop_last());
    }
}

proof fn lemma_name_starts(directory: Seq<char>, name: Seq<char>)
    requires
        directory.len() == 0 || directory.last() == '/',
        forall|i: int| 0 <= i < name.len() ==> #[trigger] name[i] != '/',
    ensures
        name_start(directory + name) == directory.len(),
    decreases name.len(),
{
    let path = directory + name;
    if name.len() == 0 {
        assert(path =~= directory);
    } else {
        let less = name.drop_last();
        assert(path.drop_last() =~= directory + less);
        assert(path.last() == name[name.len() - 1]);
        assert forall|i: int| 0 <= i < less.len() implies #[trigger] less[i] != '/' by {
            assert(name[i] != '/');
        }
        lemma_name_starts(directory, less);
    }
}

/// A file in a directory has its name and is in that directory.
pub proof fn joined_paths_come_apart(directory: Seq<char>, name: Seq<char>)
    requires
        bare(directory) == directory,
        name.len() > 0,
        name != seq!['.'],
        name != seq!['.', '.'],
        forall|i: int| 0 <= i < name.len() ==> #[trigger] name[i] != '/',
    ensures
        file_name(joined(directory, name)) == Some(name),
        parent(joined(directory, name)) == Some(directory),
{
    let path = joined(directory, name);
    let head = if directory.len() == 0 || directory.last() == '/' {
        directory
    } else {
        directory + seq!['/']
    };
    assert(path =~= head + name);
    lemma_name_starts(head, name);
    assert(path.last() == name[name.len() - 1]);
    if path.len() > 1 && path.last() == '.' && path[path.len() - 2] == '/' {
        if name.len() > 1 {
            assert(path[path.len() - 2] == name[name.len() - 2]);
        }
        assert(name =~= seq!['.']);
    }
    assert(bare(path) == path);
    assert(path.skip(head.len() as int) =~= name);
    assert(path.take(head.len() as int) =~= head);
    if path == seq!['/'] {
        assert(path[0] == '/');
    }
    if directory.len() > 0 && directory.last() != '/' {
        assert(head.drop_last() =~= directory);
    } else if directory.len() > 1 {
        lemma_bare_shrinks(directory.drop_last());
    }
    assert(bare(head) == directory);
}

proof fn lemma_bare_shrinks(path: Seq<char>)
    ensures
        bare(path).len() <= path.len(),
    decreases path.len(),
{
    if path.len() > 1 && (path.last() == '/' || (path.last() == '.' && path[path.len() - 2]
        == '/')) {
        lemma_bare_shrinks(path.drop_last());
    }
}

/// A file that is put beside another is in the same directory, under its own name.
pub proof fn files_beside_each_other_share_the_directory(path: Seq<char>, name: Seq<char>)
    requires
        parent(path) is Some,
        name.len() > 0,
        name != seq!['.'],
        name != seq!['.', '.'],
        forall|i: int| 0 <= i < name.len() ==> #[trigger] name[i] != '/',
    ensures
        parent(joined(parent(path)->0, name)) == parent(path),
        file_name(joined(parent(path)->0, name)) == Some(name),
{
    lemma_bare_is_bare(bare(path).take(name_start(bare(path)) as int));
    joined_paths_come_apart(parent(path)->0, name);
}

} // verus!
