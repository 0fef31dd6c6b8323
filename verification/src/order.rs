//! Case-insensitive lexicographic ordering of names.
//!
//! A name's sort key is the sequence of code points of its lowercased form;
//! names are compared by their keys, point for point. Lowercasing is full
//! Unicode lowercasing, done by the standard library and named here as
//! `lower_of`. The comparison relation is total and transitive, which is
//! what a sort needs.
use vstd::prelude::*;

verus! {

/// What `str::to_lowercase` returns for a string with these characters.
pub uninterp spec fn lower_of(s: Seq<char>) -> Seq<char>;

/// Relies on str::to_lowercase: the Unicode lowercase of the string, a
/// function of its characters alone.
#[verifier::external_body]
fn lowercase(s: &str) -> (r: String)
    ensures
        r@ == lower_of(s@),
{
    s.to_lowercase()
}

/// The code points of a character sequence.
pub open spec fn code_points(s: Seq<char>) -> Seq<int> {
    s.map_values(|c: char| c as int)
}

/// The sort key of a name: the code points of its lowercased form.
pub open spec fn lower_key(s: Seq<char>) -> Seq<int> {
    code_points(lower_of(s))
}

/// Lexicographic order on code-point sequences: `a` comes no later than `b`.
pub open spec fn lex_le(a: Seq<int>, b: Seq<int>) -> bool
    decreases a.len(),
{
    if a.len() == 0 {
        true
    } else if b.len() == 0 {
        false
    } else if a[0] != b[0] {
        a[0] < b[0]
    } else {
        lex_le(a.drop_first(), b.drop_first())
    }
}

/// `lex_le` is total: of any two keys, one comes no later than the other.
pub proof fn lemma_lex_le_total(a: Seq<int>, b: Seq<int>)
    ensures
        lex_le(a, b) || lex_le(b, a),
    decreases a.len(),
{
    if a.len() > 0 && b.len() > 0 && a[0] == b[0] {
        lemma_lex_le_total(a.drop_first(), b.drop_first());
    }
}

/// `lex_le` is transitive.
pub proof fn lemma_lex_le_trans(a: Seq<int>, b: Seq<int>, c: Seq<int>)
    requires
        lex_le(a, b),
        lex_le(b, c),
    ensures
        lex_le(a, c),
    decreases a.len(),
{
    if a.len() > 0 && b.len() > 0 && c.len() > 0 && a[0] == b[0] && b[0] == c[0] {
        lemma_lex_le_trans(a.drop_first(), b.drop_first(), c.drop_first());
    }
}

/// Comparing keys that agree on a common prefix reduces to comparing what
/// follows the prefix.
pub proof fn lemma_lex_le_common_prefix(a: Seq<int>, b: Seq<int>, i: int)
    requires
        0 <= i <= a.len(),
        i <= b.len(),
        forall|k: int| 0 <= k < i ==> a[k] == b[k],
    ensures
        lex_le(a, b) == lex_le(a.skip(i), b.skip(i)),
    decreases i,
{
    if i > 0 {
        assert(a.len() > 0 && b.len() > 0 && a[0] == b[0]);
        lemma_lex_le_common_prefix(a.drop_first(), b.drop_first(), i - 1);
        assert(a.drop_first().skip(i - 1) =~= a.skip(i));
        assert(b.drop_first().skip(i - 1) =~= b.skip(i));
    } else {
        assert(a.skip(0) =~= a);
        assert(b.skip(0) =~= b);
    }
}

/// Whether `a`'s code points come no later than `b`'s, lexicographically.
fn code_le(a: &str, b: &str) -> (r: bool)
    ensures
        r == lex_le(code_points(a@), code_points(b@)),
{
    let na: usize = a.unicode_len();
    let nb: usize = b.unicode_len();
    let mut i: usize = 0;
    loop
        invariant
            0 <= i <= na,
            i <= nb,
            na == a@.len(),
            nb == b@.len(),
            forall|k: int| 0 <= k < i ==> code_points(a@)[k] == code_points(b@)[k],
        decreases na - i,
    {
        proof {
            lemma_lex_le_common_prefix(code_points(a@), code_points(b@), i as int);
        }
        if i >= na {
            proof {
                assert(code_points(a@).skip(i as int).len() == 0);
            }
            return true;
        }
        if i >= nb {
            proof {
                assert(code_points(b@).skip(i as int).len() == 0);
                assert(code_points(a@).skip(i as int).len() > 0);
            }
            return false;
        }
        let ca: u32 = a.get_char(i) as u32;
        let cb: u32 = b.get_char(i) as u32;
        if ca != cb {
            proof {
                assert(code_points(a@).skip(i as int)[0] == code_points(a@)[i as int]);
                assert(code_points(b@).skip(i as int)[0] == code_points(b@)[i as int]);
            }
            return ca < cb;
        }
        i = i + 1;
    }
}

/// Whether `a` comes no later than `b` under the case-insensitive order:
/// both names are lowercased and their code points compared.
pub fn name_le(a: &str, b: &str) -> (r: bool)
    ensures
        r == lex_le(lower_key(a@), lower_key(b@)),
{
    let la = lowercase(a);
    let lb = lowercase(b);
    code_le(la.as_str(), lb.as_str())
}

} // verus!
