//! Path-name arithmetic over plain strings.
//!
//! The reader decides formats and titles from a path's final name, with the
//! POSIX reading of `std::path::Path`: `/` separates components, empty and
//! `.` components vanish, and a lone `..` has no file name. Separator-set
//! splitting is shared with archive keys and relative book references.
use vstd::prelude::*;

use crate::strings::push_char;

verus! {

/// Splits `s` at every character accepted by `sep`, keeping empty pieces:
/// the pieces `str::split` yields for a character-set pattern.
pub open spec fn split_on(s: Seq<char>, sep: spec_fn(char) -> bool) -> Seq<Seq<char>>
    decreases s.len(),
{
    if s.len() == 0 {
        seq![Seq::<char>::empty()]
    } else {
        let init = split_on(s.drop_last(), sep);
        if sep(s.last()) {
            init.push(Seq::<char>::empty())
        } else {
            init.update(init.len() - 1, init.last().push(s.last()))
        }
    }
}

pub proof fn lemma_split_nonempty(s: Seq<char>, sep: spec_fn(char) -> bool)
    ensures
        split_on(s, sep).len() >= 1,
    decreases s.len(),
{
    if s.len() > 0 {
        lemma_split_nonempty(s.drop_last(), sep);
    }
}

/// The views of a vector of strings.
pub open spec fn views(v: Seq<String>) -> Seq<Seq<char>> {
    v.map_values(|x: String| x@)
}

/// Whether `c` is one of the two separators `a` and `b`.
pub open spec fn is_either(a: char, b: char) -> spec_fn(char) -> bool {
    |c: char| c == a || c == b
}

/// Splits `s` at every `a` or `b`, as `str::split([a, b])` does.
pub fn split_either(s: &str, a: char, b: char) -> (pieces: Vec<String>)
    ensures
        views(pieces@) == split_on(s@, is_either(a, b)),
{
    let mut pieces: Vec<String> = Vec::new();
    let mut current = String::new();
    let ghost sep = is_either(a, b);
    for ch in it: s.chars()
        invariant
            it.seq() == s@,
            sep == is_either(a, b),
            views(pieces@).push(current@) == split_on(s@.take(it.index() as int), sep),
    {
        let ghost i = it.index() as int;
        let ghost before = views(pieces@);
        let ghost before_current = current@;
        proof {
            assert(s@.take(i + 1).drop_last() =~= s@.take(i));
            assert(s@.take(i + 1).last() == ch);
            lemma_split_nonempty(s@.take(i), sep);
        }
        if ch == a || ch == b {
            let done = current;
            pieces.push(done);
            current = String::new();
            proof {
                assert(views(pieces@) =~= before.push(before_current));
                assert(views(pieces@).push(current@) =~= split_on(s@.take(i + 1), sep));
            }
        } else {
            push_char(&mut current, ch);
            proof {
                assert(views(pieces@) =~= before);
                assert(views(pieces@).push(current@) =~= split_on(s@.take(i + 1), sep));
            }
        }
    }
    proof {
        assert(s@.take(s@.len() as int) =~= s@);
    }
    pieces.push(current);
    pieces
}

/// The last piece that names something: not empty and not `.`.
pub open spec fn last_named(pieces: Seq<Seq<char>>) -> Option<Seq<char>>
    decreases pieces.len(),
{
    if pieces.len() == 0 {
        None
    } else if pieces.last().len() > 0 && pieces.last() != seq!['.'] {
        Some(pieces.last())
    } else {
        last_named(pieces.drop_last())
    }
}

/// The final component of a POSIX path, as `Path::file_name` reports it.
pub open spec fn spec_file_name(path: Seq<char>) -> Option<Seq<char>> {
    match last_named(split_on(path, is_either('/', '/'))) {
        Some(name) => if name == seq!['.', '.'] {
            None
        } else {
            Some(name)
        },
        None => None,
    }
}

/// Index of the last `.` in `name`, or -1 when it has none.
pub open spec fn last_dot(name: Seq<char>) -> int
    decreases name.len(),
{
    if name.len() == 0 {
        -1
    } else if name.last() == '.' {
        name.len() - 1
    } else {
        last_dot(name.drop_last())
    }
}

pub proof fn lemma_last_dot(name: Seq<char>)
    ensures
        -1 <= last_dot(name) < name.len(),
        last_dot(name) >= 0 ==> name[last_dot(name)] == '.',
        forall|i: int| last_dot(name) < i < name.len() ==> name[i] != '.',
    decreases name.len(),
{
    if name.len() > 0 && name.last() != '.' {
        let init = name.drop_last();
        lemma_last_dot(init);
        assert forall|i: int| last_dot(name) < i < name.len() implies name[i] != '.' by {
            if i < name.len() - 1 {
                assert(name[i] == init[i]);
            }
        }
    }
}

/// The extension of a file name, as `Path::extension` reports it: the text
/// after the last dot, unless that dot opens the name.
pub open spec fn name_extension(name: Seq<char>) -> Option<Seq<char>> {
    if last_dot(name) <= 0 {
        None
    } else {
        Some(name.subrange(last_dot(name) + 1, name.len() as int))
    }
}

/// The stem of a file name, as `Path::file_stem` reports it.
pub open spec fn name_stem(name: Seq<char>) -> Seq<char> {
    if last_dot(name) <= 0 {
        name
    } else {
        name.subrange(0, last_dot(name))
    }
}

/// The extension of a POSIX path.
pub open spec fn spec_extension(path: Seq<char>) -> Option<Seq<char>> {
    match spec_file_name(path) {
        Some(name) => name_extension(name),
        None => None,
    }
}

/// The file stem of a POSIX path.
pub open spec fn spec_file_stem(path: Seq<char>) -> Option<Seq<char>> {
    match spec_file_name(path) {
        Some(name) => Some(name_stem(name)),
        None => None,
    }
}

/// ASCII lowercase of one character.
pub open spec fn lower_char(c: char) -> char {
    if 'A' <= c && c <= 'Z' {
        ((c as u32 + 32) as u8) as char
    } else {
        c
    }
}

/// ASCII lowercase of a text, as `str::to_ascii_lowercase` gives it.
pub open spec fn ascii_lower(s: Seq<char>) -> Seq<char> {
    s.map_values(|c: char| lower_char(c))
}

/// The characters of `s`, in order.
pub fn chars_of(s: &str) -> (v: Vec<char>)
    ensures
        v@ == s@,
{
    let mut v: Vec<char> = Vec::new();
    for ch in it: s.chars()
        invariant
            it.seq() == s@,
            v@ == s@.take(it.index() as int),
    {
        v.push(ch);
        proof {
            assert(v@ =~= s@.take(it.index() as int + 1));
        }
    }
    proof {
        assert(s@.take(s@.len() as int) =~= s@);
    }
    v
}

/// The text of `v[start..end]`.
pub fn text_of(v: &Vec<char>, start: usize, end: usize) -> (s: String)
    requires
        start <= end <= v@.len(),
    ensures
        s@ == v@.subrange(start as int, end as int),
{
    let mut s = String::new();
    let mut i = start;
    while i < end
        invariant
            start <= i <= end <= v@.len(),
            s@ == v@.subrange(start as int, i as int),
        decreases end - i,
    {
        push_char(&mut s, v[i]);
        i = i + 1;
        assert(s@ =~= v@.subrange(start as int, i as int));
    }
    s
}

/// ASCII lowercase copy of `s`.
pub fn to_ascii_lower(s: &str) -> (l: String)
    ensures
        l@ == ascii_lower(s@),
{
    let mut l = String::new();
    for ch in it: s.chars()
        invariant
            it.seq() == s@,
            l@ == ascii_lower(s@.take(it.index() as int)),
    {
        let c = if 'A' <= ch && ch <= 'Z' {
            let code: u8 = (ch as u8) + 32;
            code as char
        } else {
            ch
        };
        push_char(&mut l, c);
        proof {
            assert(ascii_lower(s@.take(it.index() as int + 1)) =~= ascii_lower(
                s@.take(it.index() as int),
            ).push(lower_char(ch)));
        }
    }
    proof {
        assert(s@.take(s@.len() as int) =~= s@);
    }
    l
}

/// The final component of a POSIX path, as `Path::file_name` reports it.
pub fn file_name(path: &str) -> (name: Option<String>)
    ensures
        match name {
            Some(n) => spec_file_name(path@) == Some(n@),
            None => spec_file_name(path@) is None,
        },
{
    let pieces = split_either(path, '/', '/');
    let ghost all = views(pieces@);
    let mut k = pieces.len();
    assert(all.take(k as int) =~= all);
    while k > 0
        invariant
            k <= pieces@.len(),
            all == views(pieces@),
            all == split_on(path@, is_either('/', '/')),
            last_named(all) == last_named(all.take(k as int)),
        decreases k,
    {
        let piece = &pieces[k - 1];
        proof {
            assert(all.take(k as int).last() == piece@);
            assert(all.take(k as int).drop_last() =~= all.take(k - 1));
        }
        let text = chars_of(piece.as_str());
        if text.len() > 0 && !(text.len() == 1 && text[0] == '.') {
            proof {
                assert(piece@ != seq!['.'] ) by {
                    if piece@ == seq!['.'] {
                        assert(text@.len() == 1 && text@[0] == '.');
                    }
                }
            }
            assert(piece@.len() > 0);
            assert(last_named(all.take(k as int)) == Some(piece@));
            if text.len() == 2 && text[0] == '.' && text[1] == '.' {
                assert(piece@ =~= seq!['.', '.']);
                return None;
            }
            assert(piece@ != seq!['.', '.']);
            return Some(piece.clone());
        }
        proof {
            if text@.len() == 1 {
                assert(piece@ =~= seq!['.']);
            }
        }
        k = k - 1;
    }
    assert(all.take(0) =~= Seq::<Seq<char>>::empty());
    None
}

/// Index of the last `.` in `v`, or `None` when it has none.
fn last_dot_in(v: &Vec<char>) -> (d: Option<usize>)
    ensures
        match d {
            Some(i) => i == last_dot(v@),
            None => last_dot(v@) == -1,
        },
{
    let mut k = v.len();
    assert(v@.take(k as int) =~= v@);
    while k > 0
        invariant
            k <= v@.len(),
            last_dot(v@) == last_dot(v@.take(k as int)),
        decreases k,
    {
        proof {
            assert(v@.take(k as int).drop_last() =~= v@.take(k - 1));
        }
        if v[k - 1] == '.' {
            return Some(k - 1);
        }
        k = k - 1;
    }
    assert(v@.take(0) =~= Seq::<char>::empty());
    None
}

/// The extension of a POSIX path, as `Path::extension` reports it.
pub fn extension(path: &str) -> (ext: Option<String>)
    ensures
        match ext {
            Some(e) => spec_extension(path@) == Some(e@),
            None => spec_extension(path@) is None,
        },
{
    match file_name(path) {
        Some(name) => {
            let v = chars_of(name.as_str());
            proof {
                lemma_last_dot(v@);
            }
            match last_dot_in(&v) {
                Some(d) => {
                    if d == 0 {
                        None
                    } else {
                        assert(d < v.len());
                        Some(text_of(&v, d + 1, v.len()))
                    }
                },
                None => None,
            }
        },
        None => None,
    }
}

/// The file stem of a POSIX path, as `Path::file_stem` reports it.
pub fn file_stem(path: &str) -> (stem: Option<String>)
    ensures
        match stem {
            Some(s) => spec_file_stem(path@) == Some(s@),
            None => spec_file_stem(path@) is None,
        },
{
    match file_name(path) {
        Some(name) => {
            let v = chars_of(name.as_str());
            proof {
                lemma_last_dot(v@);
            }
            match last_dot_in(&v) {
                Some(d) => {
                    if d == 0 {
                        Some(name)
                    } else {
                        Some(text_of(&v, 0, d))
                    }
                },
                None => Some(name),
            }
        },
        None => None,
    }
}

} // verus!
