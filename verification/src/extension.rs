//! The extension of a file name, and the rule that marks a name as text-like.

use vstd::prelude::*;

verus! {

/// The lower-case form of an ASCII capital; any other character is itself.
pub open spec fn ascii_lower(c: char) -> char {
    if 'A' <= c && c <= 'Z' {
        ((c as int) + 32) as char
    } else {
        c
    }
}

/// `s` with every ASCII capital replaced by its lower-case form.
pub open spec fn lowercase(s: Seq<char>) -> Seq<char> {
    Seq::new(s.len(), |i: int| ascii_lower(s[i]))
}

/// Position of the last `.` in `name`, if it holds one.
pub open spec fn last_dot(name: Seq<char>) -> Option<int>
    decreases name.len(),
{
    if name.len() == 0 {
        None
    } else if name.last() == '.' {
        Some(name.len() - 1)
    } else {
        last_dot(name.drop_last())
    }
}

/// The extension of a file name: what follows its last `.`, wherever in the
/// name that `.` stands. Only a name without a `.` has no extension.
pub open spec fn extension(name: Seq<char>) -> Option<Seq<char>> {
    match last_dot(name) {
        Some(dot) => Some(name.skip(dot + 1)),
        None => None,
    }
}

/// Whether `ext`, compared without regard to ASCII case, is one of `md`,
/// `markdown` and `txt`.
pub open spec fn is_text_like(ext: Seq<char>) -> bool {
    let lower = lowercase(ext);
    ||| lower == seq!['m', 'd']
    ||| lower == seq!['m', 'a', 'r', 'k', 'd', 'o', 'w', 'n']
    ||| lower == seq!['t', 'x', 't']
}

/// Whether a file of this name is listed as a text file.
pub open spec fn has_text_extension(name: Seq<char>) -> bool {
    match extension(name) {
        Some(ext) => is_text_like(ext),
        None => false,
    }
}

/// Lower-cases an ASCII capital and leaves any other character as it is.
fn to_lower(c: char) -> (lower: char)
    ensures
        lower == ascii_lower(c),
{
    if 'A' <= c && c <= 'Z' {
        ((c as u8) + 32) as char
    } else {
        c
    }
}

/// What a single pass over a name has to remember: whether a `.` was met,
/// and the characters that follow the last `.`.
spec fn scanned(seen: Seq<char>, dotted: bool, tail: Seq<char>) -> bool {
    match last_dot(seen) {
        Some(dot) => dotted && tail == seen.skip(dot + 1),
        None => !dotted && tail == seen,
    }
}

/// Reading one more character keeps what the pass remembers up to date.
proof fn lemma_scan_step(seen: Seq<char>, dotted: bool, tail: Seq<char>, c: char)
    requires
        scanned(seen, dotted, tail),
    ensures
        c == '.' ==> scanned(seen.push(c), true, Seq::empty()),
        c != '.' ==> scanned(seen.push(c), dotted, tail.push(c)),
{
    let next = seen.push(c);
    assert(next.drop_last() == seen);
    if c == '.' {
        assert(next.skip(next.len() as int) == Seq::<char>::empty());
    } else {
        match last_dot(seen) {
            Some(dot) => {
                lemma_last_dot(seen);
                assert(next.skip(dot + 1) == seen.skip(dot + 1).push(c));
            },
            None => {},
        }
    }
}

/// `last_dot` names a `.` that no other `.` follows, and names none only
/// where the name holds none.
pub proof fn lemma_last_dot(name: Seq<char>)
    ensures
        match last_dot(name) {
            Some(dot) => {
                &&& 0 <= dot < name.len()
                &&& name[dot] == '.'
                &&& forall|j: int| dot < j < name.len() ==> name[j] != '.'
            },
            None => forall|j: int| 0 <= j < name.len() ==> name[j] != '.',
        },
    decreases name.len(),
{
    if name.len() > 0 && name.last() != '.' {
        let front = name.drop_last();
        lemma_last_dot(front);
        assert forall|j: int| 0 <= j < front.len() implies front[j] == name[j] by {}
    }
}

/// A name made of a stem, a `.` and an extension without a `.` has that
/// extension; the stem may be empty.
pub proof fn lemma_extension_of_joined(stem: Seq<char>, ext: Seq<char>)
    requires
        forall|j: int| 0 <= j < ext.len() ==> ext[j] != '.',
    ensures
        extension(stem + seq!['.'] + ext) == Some(ext),
{
    let name = stem + seq!['.'] + ext;
    lemma_last_dot(name);
    assert(name[stem.len() as int] == '.');
    assert forall|j: int| stem.len() < j < name.len() implies name[j] != '.' by {}
}

/// Lower-casing a name moves no `.`.
proof fn lemma_last_dot_lowercase(name: Seq<char>)
    ensures
        last_dot(lowercase(name)) == last_dot(name),
    decreases name.len(),
{
    if name.len() > 0 {
        assert(lowercase(name).drop_last() == lowercase(name.drop_last()));
        lemma_last_dot_lowercase(name.drop_last());
    }
}

/// The rule does not look at the case of ASCII letters: two names that
/// differ in nothing else are both text files or neither is.
pub proof fn lemma_case_is_ignored(a: Seq<char>, b: Seq<char>)
    requires
        lowercase(a) == lowercase(b),
    ensures
        has_text_extension(a) == has_text_extension(b),
{
    lemma_last_dot_lowercase(a);
    lemma_last_dot_lowercase(b);
    match last_dot(a) {
        Some(dot) => {
            lemma_last_dot(a);
            assert(lowercase(a.skip(dot + 1)) == lowercase(a).skip(dot + 1));
            assert(lowercase(b.skip(dot + 1)) == lowercase(b).skip(dot + 1));
        },
        None => {},
    }
}

/// Compares an extension with the three that mark a text file.
fn is_listed_extension(ext: &Vec<char>) -> (text: bool)
    ensures
        text == is_text_like(ext@),
{
    let n = ext.len();
    let ghost lower = lowercase(ext@);
    let ghost md = seq!['m', 'd'];
    let ghost markdown = seq!['m', 'a', 'r', 'k', 'd', 'o', 'w', 'n'];
    let ghost txt = seq!['t', 'x', 't'];
    assert(md.len() == 2 && md[0] == 'm' && md[1] == 'd');
    assert(txt.len() == 3 && txt[0] == 't' && txt[1] == 'x' && txt[2] == 't');
    assert(markdown.len() == 8 && markdown[0] == 'm' && markdown[1] == 'a' && markdown[2] == 'r'
        && markdown[3] == 'k' && markdown[4] == 'd' && markdown[5] == 'o' && markdown[6] == 'w'
        && markdown[7] == 'n');
    if n == 2 {
        let text = to_lower(ext[0]) == 'm' && to_lower(ext[1]) == 'd';
        assert(text == (lower =~= md));
        text
    } else if n == 3 {
        let text = to_lower(ext[0]) == 't' && to_lower(ext[1]) == 'x' && to_lower(ext[2]) == 't';
        assert(text == (lower =~= txt));
        text
    } else if n == 8 {
        let text = to_lower(ext[0]) == 'm' && to_lower(ext[1]) == 'a' && to_lower(ext[2]) == 'r'
            && to_lower(ext[3]) == 'k' && to_lower(ext[4]) == 'd' && to_lower(ext[5]) == 'o'
            && to_lower(ext[6]) == 'w' && to_lower(ext[7]) == 'n';
        assert(text == (lower =~= markdown));
        text
    } else {
        false
    }
}

/// Tells whether a file name marks a text file: its extension, compared
/// without regard to ASCII case, is `md`, `markdown` or `txt`.
///
/// `name` is the last component of a path, not a whole path.
pub fn is_text_extension(name: &str) -> (text: bool)
    ensures
        text == has_text_extension(name@),
{
    let mut dotted = false;
    let mut tail: Vec<char> = Vec::new();
    assert(name@.take(0) == Seq::<char>::empty());
    for c in it: name.chars()
        invariant
            it.seq() == name@,
            scanned(name@.take(it.index()), dotted, tail@),
    {
        proof {
            lemma_scan_step(name@.take(it.index()), dotted, tail@, c);
            assert(name@.take(it.index() + 1) == name@.take(it.index()).push(c));
        }
        if c == '.' {
            dotted = true;
            tail.clear();
        } else {
            tail.push(c);
        }
    }
    assert(name@.take(name@.len() as int) == name@);
    dotted && is_listed_extension(&tail)
}

} // verus!
