//! Member paths, split at `/` into components, and the predicates on them
//! that packing and extraction rely on. Components are the pieces between
//! `/` separators. A path that holds a `\` or starts with a drive letter
//! is read differently from one system to the next, so it is never plain
//! and is always taken to escape.

use vstd::prelude::*;
use vstd::std_specs::iter::IteratorSpec;

verus! {

/// The components of `p`: the pieces between its `/` separators, empty
/// pieces included. A path with `n` separators has `n + 1` components.
pub open spec fn components(p: Seq<char>) -> Seq<Seq<char>>
    decreases p.len(),
{
    if p.len() == 0 {
        seq![Seq::<char>::empty()]
    } else {
        let before = components(p.drop_last());
        if p.last() == '/' {
            before.push(Seq::<char>::empty())
        } else {
            before.drop_last().push(before.last().push(p.last()))
        }
    }
}

/// The component `..`, which names the parent directory.
pub open spec fn parent_component() -> Seq<char> {
    seq!['.', '.']
}

/// The component `.`, which names the current directory.
pub open spec fn current_component() -> Seq<char> {
    seq!['.']
}

/// `p` starts at the file system's root.
pub open spec fn is_absolute(p: Seq<char>) -> bool {
    p.len() > 0 && p[0] == '/'
}

/// Some component of `p` is `..`.
pub open spec fn has_parent_component(p: Seq<char>) -> bool {
    exists|k: int| 0 <= k < components(p).len() && #[trigger] components(p)[k] == parent_component()
}

/// Some component of `p` is `.`.
pub open spec fn has_current_component(p: Seq<char>) -> bool {
    exists|k: int|
        0 <= k < components(p).len() && #[trigger] components(p)[k] == current_component()
}

/// Some component of `p` is empty: `p` is empty, starts or ends with `/`,
/// or holds `//`.
pub open spec fn has_empty_component(p: Seq<char>) -> bool {
    exists|k: int| 0 <= k < components(p).len() && (#[trigger] components(p)[k]).len() == 0
}

/// Some character of `p` is `c`.
pub open spec fn has_char(p: Seq<char>, c: char) -> bool {
    exists|i: int| 0 <= i < p.len() && #[trigger] p[i] == c
}

/// Some character of `p` is NUL.
pub open spec fn has_nul(p: Seq<char>) -> bool {
    has_char(p, '\0')
}

/// Some character of `p` is `\`, which separates components on some
/// systems.
pub open spec fn has_backslash(p: Seq<char>) -> bool {
    has_char(p, '\\')
}

/// `c` is one of the letters `a` to `z` or `A` to `Z`.
pub open spec fn is_letter(c: char) -> bool {
    ('a' <= c && c <= 'z') || ('A' <= c && c <= 'Z')
}

/// `p` starts with a letter and a colon, which names a drive on some
/// systems.
pub open spec fn has_drive_prefix(p: Seq<char>) -> bool {
    p.len() >= 2 && is_letter(p[0]) && p[1] == ':'
}

/// Writing to `p` below a directory may leave that directory, on one
/// system or another: `p` is absolute, climbs with `..`, holds a `\` or
/// starts with a drive letter.
pub open spec fn escapes(p: Seq<char>) -> bool {
    is_absolute(p) || has_parent_component(p) || has_backslash(p) || has_drive_prefix(p)
}

/// `p` is a relative path in its plainest spelling: every component is a
/// name (not empty, not `.`, not `..`), no character is NUL or `\`, and `p`
/// does not start with a drive letter. A container stores such a path
/// letter for letter, on every system.
pub open spec fn plain_path(p: Seq<char>) -> bool {
    &&& !has_empty_component(p)
    &&& !has_current_component(p)
    &&& !has_parent_component(p)
    &&& !has_nul(p)
    &&& !has_backslash(p)
    &&& !has_drive_prefix(p)
}

/// A character is in a path with one more character where it is in the
/// path or is that character.
proof fn lemma_has_char_push(p: Seq<char>, last: char, c: char)
    ensures
        has_char(p.push(last), c) == (has_char(p, c) || last == c),
{
    let q = p.push(last);
    if has_char(p, c) {
        let i = choose|i: int| 0 <= i < p.len() && p[i] == c;
        assert(q[i] == c);
    }
    if last == c {
        assert(q[q.len() - 1] == c);
    }
    if has_char(q, c) {
        let i = choose|i: int| 0 <= i < q.len() && q[i] == c;
        if i < p.len() {
            assert(p[i] == c);
        }
    }
}

/// What one pass over a path finds in it.
#[derive(Clone, Copy, Debug, PartialEq, Eq)]
pub struct PathShape {
    pub absolute: bool,
    pub parent: bool,
    pub current: bool,
    pub empty: bool,
    pub nul: bool,
    pub backslash: bool,
    pub drive: bool,
}

/// A plain path is never empty and never absolute.
pub proof fn lemma_plain_path_is_relative(p: Seq<char>)
    requires
        plain_path(p),
    ensures
        p.len() > 0,
        !escapes(p),
{
    lemma_components_nonempty(p);
    if p.len() == 0 {
        assert(components(p)[0].len() == 0);
    } else {
        lemma_first_component(p);
        if p[0] == '/' {
            assert(components(p)[0].len() == 0);
        }
    }
}

/// A path has at least one component.
pub proof fn lemma_components_nonempty(p: Seq<char>)
    ensures
        components(p).len() >= 1,
    decreases p.len(),
{
    if p.len() > 0 {
        lemma_components_nonempty(p.drop_last());
    }
}

/// The first component of a path that starts with `/` is empty.
proof fn lemma_first_component(p: Seq<char>)
    requires
        p.len() > 0,
    ensures
        components(p).len() >= 1,
        p[0] == '/' ==> components(p)[0].len() == 0,
    decreases p.len(),
{
    lemma_components_nonempty(p);
    let q = p.drop_last();
    lemma_components_nonempty(q);
    if q.len() > 0 {
        lemma_first_component(q);
        assert(q[0] == p[0]);
        if p.last() != '/' && components(q).len() == 1 {
            // q holds no separator, so the path does not start with one
            lemma_single_component(q);
        }
    }
}

/// A path with one component holds no separator, and the component is the
/// path itself.
pub proof fn lemma_single_component(p: Seq<char>)
    ensures
        components(p).len() == 1 <==> (forall|i: int| 0 <= i < p.len() ==> p[i] != '/'),
        components(p).len() == 1 ==> components(p)[0] == p,
    decreases p.len(),
{
    lemma_components_nonempty(p);
    if p.len() == 0 {
        assert(components(p)[0] =~= p);
    } else {
        let q = p.drop_last();
        lemma_single_component(q);
        lemma_components_nonempty(q);
        if p.last() == '/' {
            assert(p[p.len() - 1] == '/');
        } else {
            if components(q).len() == 1 {
                assert forall|i: int| 0 <= i < p.len() implies p[i] != '/' by {
                    if i < q.len() {
                        assert(q[i] == p[i]);
                    }
                }
                assert(components(p)[0] =~= p);
            } else {
                let i = choose|i: int| 0 <= i < q.len() && q[i] == '/';
                assert(p[i] == '/');
            }
        }
    }
}

/// Reads `path` once and reports what it holds.
pub fn path_shape(path: &str) -> (shape: PathShape)
    ensures
        shape.absolute == is_absolute(path@),
        shape.parent == has_parent_component(path@),
        shape.current == has_current_component(path@),
        shape.empty == has_empty_component(path@),
        shape.nul == has_nul(path@),
        shape.backslash == has_backslash(path@),
        shape.drive == has_drive_prefix(path@),
{
    let mut absolute = false;
    let mut parent = false;
    let mut current = false;
    let mut empty = false;
    let mut nul = false;
    let mut backslash = false;
    let mut drive = false;
    // whether the first character is a letter
    let mut letter = false;
    // the component being read: how many characters (counted up to 3), and
    // whether all are dots
    let mut len: u8 = 0;
    let mut dots = true;
    let mut first = true;
    let mut second = false;
    let ghost mut seen: Seq<char> = Seq::empty();

    proof {
        lemma_components_nonempty(seen);
    }
    for c in it: path.chars()
        invariant
            it.seq() == path@,
            seen == path@.take(it.index() as int),
            first == (seen.len() == 0),
            second == (seen.len() == 1),
            absolute == is_absolute(seen),
            nul == has_nul(seen),
            backslash == has_backslash(seen),
            drive == has_drive_prefix(seen),
            letter == (seen.len() >= 1 && is_letter(seen[0])),
            components(seen).len() >= 1,
            len <= 3,
            len < 3 ==> len == components(seen).last().len(),
            len == 3 ==> components(seen).last().len() >= 3,
            dots == (forall|i: int|
                0 <= i < components(seen).last().len() ==> components(seen).last()[i] == '.'),
            parent == (exists|k: int|
                0 <= k < components(seen).len() - 1 && #[trigger] components(seen)[k]
                    == parent_component()),
            current == (exists|k: int|
                0 <= k < components(seen).len() - 1 && #[trigger] components(seen)[k]
                    == current_component()),
            empty == (exists|k: int|
                0 <= k < components(seen).len() - 1 && (#[trigger] components(seen)[k]).len()
                    == 0),
    {
        let ghost old_seen = seen;
        let ghost old_comps = components(old_seen);
        proof {
            seen = old_seen.push(c);
            assert(seen =~= path@.take(it.index() + 1));
            assert(seen.drop_last() =~= old_seen);
            assert(seen.last() == c);
            lemma_has_char_push(old_seen, c, '\0');
            lemma_has_char_push(old_seen, c, '\\');
            if old_seen.len() > 0 {
                assert(seen[0] == old_seen[0]);
            }
            if old_seen.len() > 1 {
                assert(seen[1] == old_seen[1]);
            }
        }
        if first {
            absolute = c == '/';
            letter = ('a' <= c && c <= 'z') || ('A' <= c && c <= 'Z');
        } else if second {
            drive = letter && c == ':';
        }
        second = first;
        first = false;
        if c == '\0' {
            nul = true;
        }
        if c == '\\' {
            backslash = true;
        }
        if c == '/' {
            let ghost last = old_comps.last();
            if len == 0 {
                empty = true;
            }
            if dots && len == 1 {
                current = true;
            }
            if dots && len == 2 {
                parent = true;
            }
            proof {
                let comps = components(seen);
                assert(comps == old_comps.push(Seq::<char>::empty()));
                assert(comps.last().len() == 0);
                assert forall|k: int| 0 <= k < comps.len() - 1 implies comps[k]
                    == old_comps[k] by {}
                assert(comps.len() - 1 == old_comps.len());
                assert(comps[old_comps.len() - 1] == last);
                lemma_dots(last);
            }
            len = 0;
            dots = true;
        } else {
            proof {
                let comps = components(seen);
                assert(comps == old_comps.drop_last().push(old_comps.last().push(c)));
                assert(comps.len() == old_comps.len());
                assert forall|k: int| 0 <= k < comps.len() - 1 implies comps[k]
                    == old_comps[k] by {}
                assert(comps.last() == old_comps.last().push(c));
                let old_last = old_comps.last();
                if !dots {
                    let i = choose|i: int| 0 <= i < old_last.len() && old_last[i] != '.';
                    assert(comps.last()[i] == old_last[i]);
                }
                assert(comps.last()[old_last.len() as int] == c);
                assert forall|i: int| 0 <= i < old_last.len() implies comps.last()[i]
                    == old_last[i] by {}
            }
            if len < 3 {
                len = len + 1;
            }
            if c != '.' {
                dots = false;
            }
        }
    }
    proof {
        assert(seen =~= path@);
        lemma_dots(components(path@).last());
    }
    let last_parent = dots && len == 2;
    let last_current = dots && len == 1;
    let last_empty = len == 0;
    PathShape {
        absolute,
        parent: parent || last_parent,
        current: current || last_current,
        empty: empty || last_empty,
        nul,
        backslash,
        drive,
    }
}

/// A component made of dots is `.` when it has one character and `..` when
/// it has two; a component that holds another character is neither.
proof fn lemma_dots(c: Seq<char>)
    ensures
        c == current_component() <==> (c.len() == 1 && forall|i: int|
            0 <= i < c.len() ==> c[i] == '.'),
        c == parent_component() <==> (c.len() == 2 && forall|i: int|
            0 <= i < c.len() ==> c[i] == '.'),
{
    if c.len() == 1 && (forall|i: int| 0 <= i < c.len() ==> c[i] == '.') {
        assert(c =~= current_component());
    }
    if c.len() == 2 && (forall|i: int| 0 <= i < c.len() ==> c[i] == '.') {
        assert(c =~= parent_component());
    }
    if c == current_component() {
        assert(c.len() == 1);
    }
    if c == parent_component() {
        assert(c.len() == 2);
    }
}

/// Whether extraction must refuse `path`: it is absolute, holds a `..`
/// component or a `\`, or starts with a drive letter.
pub fn path_escapes(path: &str) -> (r: bool)
    ensures
        r == escapes(path@),
{
    let shape = path_shape(path);
    shape.absolute || shape.parent || shape.backslash || shape.drive
}

/// Whether `path` is a plain relative path.
pub fn is_plain_path(path: &str) -> (r: bool)
    ensures
        r == plain_path(path@),
{
    let shape = path_shape(path);
    !shape.empty && !shape.current && !shape.parent && !shape.nul && !shape.backslash
        && !shape.drive
}

} // verus!
