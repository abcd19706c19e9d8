//! A deterministic total order on paths: components are compared
//! lexicographically, character by character on scalar values, and paths are
//! compared lexicographically over their component lists.

use vstd::prelude::*;

verus! {

use vstd::utf8::char_u32_cast;

/// Lexicographic order on character sequences: `a` sorts at or before `b`.
pub open spec fn chars_le(a: Seq<char>, b: Seq<char>) -> bool
    decreases a.len(),
{
    if a.len() == 0 {
        true
    } else if b.len() == 0 {
        false
    } else if (a[0] as u32) < (b[0] as u32) {
        true
    } else if (b[0] as u32) < (a[0] as u32) {
        false
    } else {
        chars_le(a.skip(1), b.skip(1))
    }
}

/// Lexicographic order on paths: shared leading components are passed over,
/// the first differing component decides, and an ancestor sorts before its
/// descendants.
pub open spec fn path_le(a: Seq<Seq<char>>, b: Seq<Seq<char>>) -> bool
    decreases a.len(),
{
    if a.len() == 0 {
        true
    } else if b.len() == 0 {
        false
    } else if a[0] == b[0] {
        path_le(a.skip(1), b.skip(1))
    } else {
        chars_le(a[0], b[0])
    }
}

/// Any two character sequences are comparable.
pub proof fn lemma_chars_le_total(a: Seq<char>, b: Seq<char>)
    ensures
        chars_le(a, b) || chars_le(b, a),
    decreases a.len(),
{
    if a.len() == 0 || b.len() == 0 {
    } else if (a[0] as u32) < (b[0] as u32) || (b[0] as u32) < (a[0] as u32) {
    } else {
        lemma_chars_le_total(a.skip(1), b.skip(1));
    }
}

/// Two character sequences that sort at or before each other are equal.
pub proof fn lemma_chars_le_antisymmetric(a: Seq<char>, b: Seq<char>)
    requires
        chars_le(a, b),
        chars_le(b, a),
    ensures
        a == b,
    decreases a.len(),
{
    if a.len() == 0 {
        assert(b.len() == 0);
        assert(a =~= b);
    } else {
        assert((a[0] as u32) == (b[0] as u32));
        char_u32_cast(a[0], a[0] as u32);
        char_u32_cast(b[0], b[0] as u32);
        assert(a[0] == b[0]);
        lemma_chars_le_antisymmetric(a.skip(1), b.skip(1));
        assert(a =~= seq![a[0]] + a.skip(1));
        assert(b =~= seq![b[0]] + b.skip(1));
    }
}

/// The order on character sequences is transitive.
pub proof fn lemma_chars_le_transitive(a: Seq<char>, b: Seq<char>, c: Seq<char>)
    requires
        chars_le(a, b),
        chars_le(b, c),
    ensures
        chars_le(a, c),
    decreases a.len(),
{
    if a.len() == 0 || b.len() == 0 || c.len() == 0 {
    } else if (a[0] as u32) < (c[0] as u32) {
    } else {
        assert((a[0] as u32) <= (b[0] as u32) && (b[0] as u32) <= (c[0] as u32));
        lemma_chars_le_transitive(a.skip(1), b.skip(1), c.skip(1));
    }
}

/// Any two paths are comparable.
pub proof fn lemma_path_le_total(a: Seq<Seq<char>>, b: Seq<Seq<char>>)
    ensures
        path_le(a, b) || path_le(b, a),
    decreases a.len(),
{
    if a.len() == 0 || b.len() == 0 {
    } else if a[0] == b[0] {
        lemma_path_le_total(a.skip(1), b.skip(1));
    } else {
        lemma_chars_le_total(a[0], b[0]);
        if chars_le(a[0], b[0]) && chars_le(b[0], a[0]) {
            lemma_chars_le_antisymmetric(a[0], b[0]);
        }
    }
}

/// Two paths that sort at or before each other are equal.
pub proof fn lemma_path_le_antisymmetric(a: Seq<Seq<char>>, b: Seq<Seq<char>>)
    requires
        path_le(a, b),
        path_le(b, a),
    ensures
        a == b,
    decreases a.len(),
{
    if a.len() == 0 {
        assert(b.len() == 0);
        assert(a =~= b);
    } else if a[0] == b[0] {
        lemma_path_le_antisymmetric(a.skip(1), b.skip(1));
        assert(a =~= seq![a[0]] + a.skip(1));
        assert(b =~= seq![b[0]] + b.skip(1));
    } else {
        lemma_chars_le_antisymmetric(a[0], b[0]);
    }
}

/// The order on paths is transitive.
pub proof fn lemma_path_le_transitive(a: Seq<Seq<char>>, b: Seq<Seq<char>>, c: Seq<Seq<char>>)
    requires
        path_le(a, b),
        path_le(b, c),
    ensures
        path_le(a, c),
    decreases a.len(),
{
    if a.len() == 0 || b.len() == 0 || c.len() == 0 {
    } else if a[0] == b[0] && b[0] == c[0] {
        lemma_path_le_transitive(a.skip(1), b.skip(1), c.skip(1));
    } else if a[0] == b[0] {
        // the b/c comparison decides, and a[0] == b[0]
    } else if b[0] == c[0] {
        // the a/b comparison decides, and b[0] == c[0]
    } else {
        lemma_chars_le_transitive(a[0], b[0], c[0]);
        if a[0] == c[0] {
            // then chars_le both ways between b[0] and a[0]: they are equal
            lemma_chars_le_total(a[0], b[0]);
            if chars_le(b[0], a[0]) {
                lemma_chars_le_antisymmetric(a[0], b[0]);
            }
        }
    }
}

/// Compare two component names lexicographically by scalar value.
fn component_le(a: &String, b: &String) -> (r: bool)
    ensures
        r == chars_le(a@, b@),
{
    let a_len = a.as_str().unicode_len();
    let b_len = b.as_str().unicode_len();
    let mut i: usize = 0;
    proof {
        assert(a@.skip(0) =~= a@);
        assert(b@.skip(0) =~= b@);
    }
    loop
        invariant
            i <= a_len,
            i <= b_len,
            a_len == a@.len(),
            b_len == b@.len(),
            chars_le(a@, b@) == chars_le(a@.skip(i as int), b@.skip(i as int)),
        decreases a_len - i,
    {
        if i == a_len {
            return true;
        }
        if i == b_len {
            return false;
        }
        let ca = a.as_str().get_char(i);
        let cb = b.as_str().get_char(i);
        if (ca as u32) < (cb as u32) {
            return true;
        }
        if (cb as u32) < (ca as u32) {
            return false;
        }
        proof {
            assert(a@.skip(i as int).skip(1) =~= a@.skip(i as int + 1));
            assert(b@.skip(i as int).skip(1) =~= b@.skip(i as int + 1));
        }
        i += 1;
    }
}

/// Compare two paths in the deterministic order used for reporting and
/// directory creation.
pub fn fs_path_le(a: &crate::path::FsPath, b: &crate::path::FsPath) -> (r: bool)
    ensures
        r == path_le(a@, b@),
{
    let a_len = a.depth();
    let b_len = b.depth();
    let mut i: usize = 0;
    proof {
        assert(a@.skip(0) =~= a@);
        assert(b@.skip(0) =~= b@);
    }
    loop
        invariant
            i <= a_len,
            i <= b_len,
            a_len == a@.len(),
            b_len == b@.len(),
            path_le(a@, b@) == path_le(a@.skip(i as int), b@.skip(i as int)),
        decreases a_len - i,
    {
        if i == a_len {
            return true;
        }
        if i == b_len {
            return false;
        }
        let ca = a.component(i);
        let cb = b.component(i);
        if *ca == *cb {
            proof {
                assert(a@.skip(i as int).skip(1) =~= a@.skip(i as int + 1));
                assert(b@.skip(i as int).skip(1) =~= b@.skip(i as int + 1));
            }
            i += 1;
        } else {
            proof {
                assert(a@.skip(i as int)[0] != b@.skip(i as int)[0]);
            }
            return component_le(ca, cb);
        }
    }
}

} // verus!
