//! Ordering and joining of filesystem paths, modelled as character sequences.
//!
//! Reports and content-indexed lookups need a deterministic order on paths.
//! Paths are compared lexicographically on their `/`-separated component
//! sequence; this is realized character by character, with the separator
//! ranking below every other character.

use vstd::prelude::*;

verus! {

/// The rank of a character for path comparison: the path separator sorts
/// below every other character, so that comparing character by character
/// agrees with comparing the `/`-separated component sequences.
pub open spec fn char_key(c: char) -> int {
    if c == '/' {
        -1
    } else {
        c as int
    }
}

/// Strict component-wise lexicographic order on paths.
pub open spec fn path_lt(a: Seq<char>, b: Seq<char>) -> bool
    decreases a.len(),
{
    if b.len() == 0 {
        false
    } else if a.len() == 0 {
        true
    } else if a[0] == b[0] {
        path_lt(a.skip(1), b.skip(1))
    } else {
        char_key(a[0]) < char_key(b[0])
    }
}

/// Reflexive component-wise lexicographic order on paths.
pub open spec fn path_le(a: Seq<char>, b: Seq<char>) -> bool {
    path_lt(a, b) || a == b
}

/// Distinct characters have distinct ranks.
proof fn lemma_char_key_injective(c: char, d: char)
    requires
        char_key(c) == char_key(d),
    ensures
        c == d,
{
}

/// Two paths with equal heads and equal tails are equal.
proof fn lemma_head_tail_eq(a: Seq<char>, b: Seq<char>)
    requires
        a.len() > 0,
        b.len() > 0,
        a[0] == b[0],
        a.skip(1) == b.skip(1),
    ensures
        a == b,
{
    assert(a.skip(1).len() == a.len() - 1);
    assert(b.skip(1).len() == b.len() - 1);
    assert forall|j: int| 0 <= j < a.len() implies a[j] == b[j] by {
        if j > 0 {
            vstd::seq_lib::lemma_seq_skip_index(a, 1, j - 1);
            vstd::seq_lib::lemma_seq_skip_index(b, 1, j - 1);
        }
    }
    assert(a =~= b);
}

/// Exactly one of `path_lt(a, b)`, `a == b`, `path_lt(b, a)` holds.
pub proof fn lemma_path_lt_trichotomy(a: Seq<char>, b: Seq<char>)
    ensures
        path_lt(a, b) || a == b || path_lt(b, a),
        path_lt(a, b) ==> a != b && !path_lt(b, a),
        a == b ==> !path_lt(a, b),
    decreases a.len(),
{
    if a.len() == 0 && b.len() == 0 {
        assert(a =~= b);
    } else if a.len() == 0 || b.len() == 0 {
    } else if a[0] == b[0] {
        lemma_path_lt_trichotomy(a.skip(1), b.skip(1));
        if a.skip(1) == b.skip(1) {
            lemma_head_tail_eq(a, b);
        }
        if a == b {
            assert(a.skip(1) =~= b.skip(1));
        }
    } else {
        if char_key(a[0]) == char_key(b[0]) {
            lemma_char_key_injective(a[0], b[0]);
        }
        if a == b {
            assert(a[0] == b[0]);
        }
    }
}

/// The order on paths is transitive.
pub proof fn lemma_path_lt_transitive(a: Seq<char>, b: Seq<char>, c: Seq<char>)
    requires
        path_lt(a, b),
        path_lt(b, c),
    ensures
        path_lt(a, c),
    decreases a.len(),
{
    if b.len() == 0 || c.len() == 0 {
    } else if a.len() == 0 {
    } else {
        if a[0] == b[0] && b[0] == c[0] {
            lemma_path_lt_transitive(a.skip(1), b.skip(1), c.skip(1));
        }
    }
}

/// `path_le` is a total order: the facts sorting and minimum-picking need.
pub proof fn lemma_path_le_total(a: Seq<char>, b: Seq<char>)
    ensures
        path_le(a, b) || path_le(b, a),
        path_le(a, b) && path_le(b, a) ==> a == b,
{
    lemma_path_lt_trichotomy(a, b);
}

/// `path_le` is transitive.
pub proof fn lemma_path_le_transitive(a: Seq<char>, b: Seq<char>, c: Seq<char>)
    requires
        path_le(a, b),
        path_le(b, c),
    ensures
        path_le(a, c),
{
    if path_lt(a, b) && path_lt(b, c) {
        lemma_path_lt_transitive(a, b, c);
    }
}

/// Comparing two paths that agree on their first `i` characters comes down
/// to comparing what follows.
proof fn lemma_path_skip(a: Seq<char>, b: Seq<char>, i: int)
    requires
        0 <= i <= a.len(),
        i <= b.len(),
        forall|j: int| 0 <= j < i ==> a[j] == b[j],
    ensures
        path_lt(a, b) == path_lt(a.skip(i), b.skip(i)),
        (a == b) == (a.skip(i) == b.skip(i)),
    decreases i,
{
    if i == 0 {
        assert(a.skip(0) =~= a);
        assert(b.skip(0) =~= b);
    } else {
        lemma_path_skip(a, b, i - 1);
        let sa = a.skip(i - 1);
        let sb = b.skip(i - 1);
        assert(sa[0] == a[i - 1]);
        assert(sb[0] == b[i - 1]);
        assert(sa.skip(1) =~= a.skip(i));
        assert(sb.skip(1) =~= b.skip(i));
        if a.skip(i) == b.skip(i) {
            lemma_head_tail_eq(sa, sb);
        }
        if sa == sb {
            assert(a.skip(i) =~= b.skip(i));
        }
    }
}

/// Compares two paths in component-wise lexicographic order.
pub fn path_le_exec(a: &str, b: &str) -> (r: bool)
    ensures
        r == path_le(a@, b@),
{
    let a_len = a.unicode_len();
    let b_len = b.unicode_len();
    let mut i: usize = 0;
    loop
        invariant
            i <= a_len,
            i <= b_len,
            a_len == a@.len(),
            b_len == b@.len(),
            forall|j: int| 0 <= j < i ==> a@[j] == b@[j],
        decreases a_len - i,
    {
        proof {
            lemma_path_skip(a@, b@, i as int);
        }
        if i == a_len {
            proof {
                assert(a@.skip(i as int).len() == 0);
                if b_len == i {
                    assert(a@.skip(i as int) =~= b@.skip(i as int));
                }
            }
            return true;
        }
        if i == b_len {
            return false;
        }
        let ca = a.get_char(i);
        let cb = b.get_char(i);
        if ca == cb {
            i = i + 1;
        } else {
            proof {
                let sa = a@.skip(i as int);
                let sb = b@.skip(i as int);
                assert(sa[0] == a@[i as int]);
                assert(sb[0] == b@[i as int]);
                assert(sa[0] != sb[0]);
                assert(sa != sb);
                assert(path_lt(sa, sb) == (char_key(sa[0]) < char_key(sb[0])));
            }
            let ka: u32 = if ca == '/' { 0 } else { ca as u32 + 1 };
            let kb: u32 = if cb == '/' { 0 } else { cb as u32 + 1 };
            return ka < kb;
        }
    }
}

/// Resolves a path against a base directory: an absolute path stands as it
/// is; a relative one is appended to the base with a separator between.
pub open spec fn spec_join_path(base: Seq<char>, p: Seq<char>) -> Seq<char> {
    if p.len() > 0 && p[0] == '/' {
        p
    } else if base.len() == 0 {
        p
    } else if base[base.len() - 1] == '/' {
        base + p
    } else {
        base + seq!['/'] + p
    }
}

/// Resolves `p` against the base directory `base`.
pub fn join_path(base: &str, p: &str) -> (r: String)
    ensures
        r@ == spec_join_path(base@, p@),
{
    let p_len = p.unicode_len();
    if p_len > 0 && p.get_char(0) == '/' {
        return p.to_owned();
    }
    let base_len = base.unicode_len();
    if base_len == 0 {
        return p.to_owned();
    }
    let mut r = base.to_owned();
    if base.get_char(base_len - 1) != '/' {
        r.append("/");
        proof {
            reveal_strlit("/");
            assert(r@ =~= base@ + seq!['/']);
        }
    }
    r.append(p);
    proof {
        if base@[base@.len() - 1] != '/' {
            assert(r@ =~= base@ + seq!['/'] + p@);
        }
    }
    r
}

} // verus!
