//! The order in which outside cross references are listed: by name (no name
//! first, then names in lexicographic order of their characters, which for
//! UTF-8 text is the order of their bytes), then by address.
use vstd::prelude::*;

use crate::segofs::{spec_key, SegOfs};

verus! {

/// Lexicographic order of character sequences.
pub open spec fn chars_lt(a: Seq<char>, b: Seq<char>) -> bool
    decreases a.len(),
{
    if a.len() == 0 {
        b.len() > 0
    } else if b.len() == 0 {
        false
    } else if a[0] != b[0] {
        a[0] < b[0]
    } else {
        chars_lt(a.drop_first(), b.drop_first())
    }
}

pub proof fn lemma_chars_lt_irrefl(a: Seq<char>)
    ensures
        !chars_lt(a, a),
    decreases a.len(),
{
    if a.len() > 0 {
        lemma_chars_lt_irrefl(a.drop_first());
    }
}

pub proof fn lemma_chars_lt_trans(a: Seq<char>, b: Seq<char>, c: Seq<char>)
    requires
        chars_lt(a, b),
        chars_lt(b, c),
    ensures
        chars_lt(a, c),
    decreases a.len(),
{
    if a.len() > 0 && b.len() > 0 && c.len() > 0 {
        if a[0] == b[0] && b[0] == c[0] {
            lemma_chars_lt_trans(a.drop_first(), b.drop_first(), c.drop_first());
        }
    }
}

pub proof fn lemma_chars_lt_total(a: Seq<char>, b: Seq<char>)
    ensures
        chars_lt(a, b) || chars_lt(b, a) || a == b,
    decreases a.len(),
{
    if a.len() > 0 && b.len() > 0 {
        if a[0] == b[0] {
            lemma_chars_lt_total(a.drop_first(), b.drop_first());
            if a.drop_first() == b.drop_first() {
                assert(a =~= seq![a[0]] + a.drop_first());
                assert(b =~= seq![b[0]] + b.drop_first());
            }
        }
    } else if a.len() == 0 && b.len() == 0 {
        assert(a =~= b);
    }
}

/// Order of optional names: no name first.
pub open spec fn name_lt(a: Option<Seq<char>>, b: Option<Seq<char>>) -> bool {
    match (a, b) {
        (None, Some(_)) => true,
        (Some(x), Some(y)) => chars_lt(x, y),
        _ => false,
    }
}

/// Order of outside references `(name, address)`.
pub open spec fn ext_lt(a: (Option<Seq<char>>, SegOfs), b: (Option<Seq<char>>, SegOfs)) -> bool {
    name_lt(a.0, b.0) || (a.0 == b.0 && spec_key(a.1) < spec_key(b.1))
}

pub proof fn lemma_ext_lt_irrefl(a: (Option<Seq<char>>, SegOfs))
    ensures
        !ext_lt(a, a),
{
    if let Some(x) = a.0 {
        lemma_chars_lt_irrefl(x);
    }
}

pub proof fn lemma_ext_lt_trans(
    a: (Option<Seq<char>>, SegOfs),
    b: (Option<Seq<char>>, SegOfs),
    c: (Option<Seq<char>>, SegOfs),
)
    requires
        ext_lt(a, b),
        ext_lt(b, c),
    ensures
        ext_lt(a, c),
{
    match (a.0, b.0, c.0) {
        (Some(x), Some(y), Some(z)) => {
            if chars_lt(x, y) && chars_lt(y, z) {
                lemma_chars_lt_trans(x, y, z);
            }
        },
        _ => {},
    }
}

pub proof fn lemma_ext_lt_total(a: (Option<Seq<char>>, SegOfs), b: (Option<Seq<char>>, SegOfs))
    ensures
        ext_lt(a, b) || ext_lt(b, a) || a == b,
{
    match (a.0, b.0) {
        (Some(x), Some(y)) => {
            lemma_chars_lt_total(x, y);
        },
        _ => {},
    }
    if a.0 == b.0 && spec_key(a.1) == spec_key(b.1) {
        assert(a.1 == b.1);
    }
}

/// Compares two character sequences: -1, 0 or 1.
pub fn chars_compare(a: &[char], b: &[char]) -> (r: i8)
    ensures
        r == -1 <==> chars_lt(a@, b@),
        r == 1 <==> chars_lt(b@, a@),
        r == 0 <==> a@ == b@,
{
    let mut i: usize = 0;
    while i < a.len() && i < b.len()
        invariant
            i <= a.len(),
            i <= b.len(),
            forall|k: int| 0 <= k < i ==> a@[k] == b@[k],
        decreases a.len() - i,
    {
        if a[i] != b[i] {
            proof {
                lemma_chars_lt_prefix(a@, b@, i as int);
            }
            if a[i] < b[i] {
                return -1;
            } else {
                return 1;
            }
        }
        i += 1;
    }
    proof {
        lemma_chars_lt_prefix(a@, b@, i as int);
        lemma_chars_lt_irrefl(a@);
    }
    if a.len() == b.len() {
        assert(a@ =~= b@);
        0
    } else if a.len() < b.len() {
        -1
    } else {
        1
    }
}

/// With a common prefix of length `i`, the order is decided after it.
proof fn lemma_chars_lt_prefix(a: Seq<char>, b: Seq<char>, i: int)
    requires
        0 <= i <= a.len(),
        i <= b.len(),
        forall|k: int| 0 <= k < i ==> a[k] == b[k],
    ensures
        chars_lt(a, b) == chars_lt(a.skip(i), b.skip(i)),
        chars_lt(b, a) == chars_lt(b.skip(i), a.skip(i)),
    decreases i,
{
    if i > 0 {
        lemma_chars_lt_prefix(a.drop_first(), b.drop_first(), i - 1);
        assert(a.drop_first().skip(i - 1) =~= a.skip(i));
        assert(b.drop_first().skip(i - 1) =~= b.skip(i));
    } else {
        assert(a.skip(0) =~= a);
        assert(b.skip(0) =~= b);
    }
}

} // verus!
