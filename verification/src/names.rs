//! File-name arithmetic on character sequences: the file name of a path
//! (everything after the last separator), and its stem / extension split
//! at the last dot.
//!
//! The split follows the usual platform convention: the extension is what
//! follows the last dot of the file name, except that a dot in the leading
//! position marks a hidden file, not an empty stem, and yields no extension.
use vstd::prelude::*;

verus! {

/// Index of the last occurrence of `c` in `s`, or `-1` when `s` has none.
pub open spec fn last_index(s: Seq<char>, c: char) -> int
    decreases s.len(),
{
    if s.len() == 0 {
        -1
    } else if s.last() == c {
        s.len() - 1
    } else {
        last_index(s.drop_last(), c)
    }
}

/// The file name of `path`: the characters after the last occurrence of the
/// separator `sep`, or all of `path` when it holds no separator.
pub open spec fn file_name_in(path: Seq<char>, sep: char) -> Seq<char> {
    path.skip(last_index(path, sep) + 1)
}

/// The stem of a file name: what precedes the last dot, or the whole name
/// when there is no dot, or when the only split point is the leading
/// position.
pub open spec fn stem_of(n: Seq<char>) -> Seq<char> {
    let j = last_index(n, '.');
    if j <= 0 {
        n
    } else {
        n.take(j)
    }
}

/// The extension of a file name: what follows the last dot, or nothing when
/// there is no dot past the leading position.
pub open spec fn ext_of(n: Seq<char>) -> Option<Seq<char>> {
    let j = last_index(n, '.');
    if j <= 0 {
        None
    } else {
        Some(n.skip(j + 1))
    }
}

/// How `last_index` grows as the sequence is scanned left to right: the
/// last occurrence over one more character is that character's position if
/// it matches, and is unchanged otherwise.
pub proof fn lemma_last_index_extend(s: Seq<char>, c: char, i: int)
    requires
        0 <= i < s.len(),
    ensures
        last_index(s.take(i + 1), c) == if s[i] == c {
            i
        } else {
            last_index(s.take(i), c)
        },
{
    assert(s.take(i + 1).drop_last() =~= s.take(i));
    assert(s.take(i + 1).last() == s[i]);
}

/// Finds the last occurrence of `c` among the characters of `s`.
pub fn find_last(s: &str, c: char) -> (r: Option<usize>)
    ensures
        match r {
            Some(j) => last_index(s@, c) == j as int && (j as int) < s@.len(),
            None => last_index(s@, c) == -1,
        },
{
    let n: usize = s.unicode_len();
    let mut best: Option<usize> = None;
    let mut i: usize = 0;
    while i < n
        invariant
            0 <= i <= n,
            n == s@.len(),
            match best {
                Some(j) => j < i && last_index(s@.take(i as int), c) == j as int,
                None => last_index(s@.take(i as int), c) == -1,
            },
        decreases n - i,
    {
        proof {
            lemma_last_index_extend(s@, c, i as int);
        }
        if s.get_char(i) == c {
            best = Some(i);
        }
        i = i + 1;
    }
    proof {
        assert(s@.take(n as int) =~= s@);
    }
    best
}

/// Whether two string slices hold the same characters.
pub fn str_eq(a: &str, b: &str) -> (r: bool)
    ensures
        r == (a@ == b@),
{
    let na: usize = a.unicode_len();
    let nb: usize = b.unicode_len();
    if na != nb {
        return false;
    }
    let mut i: usize = 0;
    while i < na
        invariant
            0 <= i <= na,
            na == a@.len(),
            na == b@.len(),
            forall|k: int| 0 <= k < i ==> a@[k] == b@[k],
        decreases na - i,
    {
        if a.get_char(i) != b.get_char(i) {
            return false;
        }
        i = i + 1;
    }
    proof {
        assert(a@ =~= b@);
    }
    true
}

} // verus!
