//! Which format a file is in, by its name.

use vstd::prelude::*;

use crate::text::chars_of;

verus! {

/// A path without the slashes, and the dots that stand for a directory itself, at its end.
pub open spec fn trimmed(path: Seq<char>) -> Seq<char>
    decreases path.len(),
{
    if path.len() >= 1 && path.last() == '/' {
        trimmed(path.drop_last())
    } else if path.len() >= 2 && path.last() == '.' && path[path.len() - 2] == '/' {
        trimmed(path.drop_last())
    } else {
        path
    }
}

/// The file name that a path ends in has the extension `sg`: it ends in `.sg`, and something
/// stands before that.
pub open spec fn names_sg(path: Seq<char>) -> bool {
    let p = trimmed(path);
    let n = p.len() as int;
    &&& n >= 4
    &&& p[n - 1] == 'g'
    &&& p[n - 2] == 's'
    &&& p[n - 3] == '.'
    &&& p[n - 4] != '/'
}

/// Whether the file name has the extension `sg`.
pub fn is_sg(path: &str) -> (sg: bool)
    ensures
        sg == names_sg(path@),
{
    let p = chars_of(path);
    let mut n: usize = p.len();
    assert(p@.take(n as int) =~= p@);
    while n >= 1 && (p[n - 1] == '/' || (n >= 2 && p[n - 1] == '.' && p[n - 2] == '/'))
        invariant
            n <= p@.len(),
            trimmed(p@.take(n as int)) == trimmed(path@),
        decreases n,
    {
        assert(p@.take(n as int).drop_last() =~= p@.take(n - 1));
        n = n - 1;
    }
    assert(trimmed(path@) == p@.take(n as int));
    n >= 4 && p[n - 1] == 'g' && p[n - 2] == 's' && p[n - 3] == '.' && p[n - 4] != '/'
}

/// A name with something before `.sg` names such a file, wherever it lies.
pub proof fn stem_and_extension_name_sg(stem: Seq<char>)
    requires
        stem.len() > 0,
        stem.last() != '/',
    ensures
        names_sg(stem + seq!['.', 's', 'g']),
{
    let path = stem + seq!['.', 's', 'g'];
    assert(path.last() == 'g');
    assert(path[path.len() - 4] == stem.last());
}

/// A path that does not end in a slash or a dot names such a file only where it ends in `.sg`
/// and something other than a slash stands before that.
pub proof fn other_paths_do_not_name_sg(path: Seq<char>)
    requires
        path.len() > 0,
        path.last() != '/',
        path.last() != '.',
        path.len() < 4 || path.skip(path.len() - 3) != seq!['.', 's', 'g'] || path[path.len() - 4]
            == '/',
    ensures
        !names_sg(path),
{
    if names_sg(path) {
        assert(path.skip(path.len() - 3) =~= seq!['.', 's', 'g']);
    }
}

/// Slashes at the end, and a slash with a dot, change nothing.
pub proof fn ends_of_paths_change_nothing(path: Seq<char>)
    ensures
        names_sg(path.push('/')) == names_sg(path),
        names_sg(path.push('/').push('.')) == names_sg(path),
{
    let one = path.push('/');
    let two = one.push('.');
    assert(one.drop_last() =~= path);
    assert(two.drop_last() =~= one);
    assert(two[two.len() - 2] == '/');
    assert(trimmed(one) == trimmed(path));
    assert(trimmed(two) == trimmed(one));
}


/// A dot at the end that does not stand for a directory leaves no extension `sg`, and a path
/// with nothing in it has none.
pub proof fn dot_at_end_names_no_sg(path: Seq<char>)
    requires
        path.len() > 0 ==> path.last() != '/',
    ensures
        !names_sg(path.push('.')),
        !names_sg(Seq::<char>::empty()),
{
    let dotted = path.push('.');
    assert(trimmed(dotted) == dotted);
}

} // verus!
