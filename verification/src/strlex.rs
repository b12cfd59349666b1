//! Lexicographic order on sequence-id strings.
//!
//! The venue tags snapshots and diffs with opaque sequence ids that are
//! totally ordered but not necessarily numeric. They are compared
//! lexicographically by code point, the same order used to keep the diff
//! buffer sorted.

use vstd::prelude::*;

verus! {

/// Strict lexicographic order on character sequences, by code point.
pub open spec fn lex_lt(a: Seq<char>, b: Seq<char>) -> bool
    decreases a.len(),
{
    if b.len() == 0 {
        false
    } else if a.len() == 0 {
        true
    } else if (a[0] as u32) < (b[0] as u32) {
        true
    } else if (a[0] as u32) > (b[0] as u32) {
        false
    } else {
        lex_lt(a.drop_first(), b.drop_first())
    }
}

/// The order is total: two sequences are ordered one way, the other way, or
/// equal, and never more than one of the three.
pub proof fn lemma_lex_trichotomy(a: Seq<char>, b: Seq<char>)
    ensures
        lex_lt(a, b) || lex_lt(b, a) || a == b,
        lex_lt(a, b) ==> !lex_lt(b, a) && a != b,
        lex_lt(b, a) ==> !lex_lt(a, b) && b != a,
    decreases a.len(),
{
    if b.len() == 0 || a.len() == 0 {
        if a.len() == b.len() {
            assert(a =~= b);
        }
    } else if (a[0] as u32) == (b[0] as u32) {
        vstd::utf8::char_u32_cast(a[0], a[0] as u32);
        vstd::utf8::char_u32_cast(b[0], b[0] as u32);
        assert(a[0] == b[0]);
        lemma_lex_trichotomy(a.drop_first(), b.drop_first());
        if a.drop_first() == b.drop_first() {
            assert(a =~= b) by {
                assert(forall|i: int| 1 <= i < a.len() ==> a[i] == a.drop_first()[i - 1]);
                assert(forall|i: int| 1 <= i < b.len() ==> b[i] == b.drop_first()[i - 1]);
            }
        }
    }
}

pub proof fn lemma_lex_transitive(a: Seq<char>, b: Seq<char>, c: Seq<char>)
    requires
        lex_lt(a, b),
        lex_lt(b, c),
    ensures
        lex_lt(a, c),
    decreases a.len(),
{
    if a.len() > 0 && b.len() > 0 && c.len() > 0 && (a[0] as u32) == (b[0] as u32) && (b[0] as u32)
        == (c[0] as u32) {
        lemma_lex_transitive(a.drop_first(), b.drop_first(), c.drop_first());
    }
}

/// Compare two strings in the lexicographic sequence-id order.
pub fn str_lt(a: &str, b: &str) -> (r: bool)
    ensures
        r == lex_lt(a@, b@),
{
    let na = a.unicode_len();
    let nb = b.unicode_len();
    proof {
        assert(a@.subrange(0, na as int) =~= a@);
        assert(b@.subrange(0, nb as int) =~= b@);
    }
    let mut i: usize = 0;
    loop
        invariant
            na == a@.len(),
            nb == b@.len(),
            i <= na,
            i <= nb,
            lex_lt(a@, b@) == lex_lt(
                a@.subrange(i as int, na as int),
                b@.subrange(i as int, nb as int),
            ),
            forall|j: int| 0 <= j < i ==> a@[j] == b@[j],
        ensures
            lex_lt(a@, b@) == if i < nb {
                i >= na || (a@[i as int] as u32) < (b@[i as int] as u32)
            } else {
                false
            },
        decreases na - i,
    {
        let ghost ta = a@.subrange(i as int, na as int);
        let ghost tb = b@.subrange(i as int, nb as int);
        if i >= nb {
            proof {
                assert(tb.len() == 0);
            }
            break;
        }
        if i >= na {
            proof {
                assert(ta.len() == 0 && tb.len() > 0);
            }
            break;
        }
        let ca = a.get_char(i) as u32;
        let cb = b.get_char(i) as u32;
        proof {
            assert(ta[0] == a@[i as int]);
            assert(tb[0] == b@[i as int]);
        }
        if ca < cb {
            break;
        }
        if ca > cb {
            break;
        }
        proof {
            assert(ta.drop_first() =~= a@.subrange(i + 1, na as int));
            assert(tb.drop_first() =~= b@.subrange(i + 1, nb as int));
        }
        i += 1;
    }
    if i < nb {
        if i >= na {
            true
        } else {
            (a.get_char(i) as u32) < (b.get_char(i) as u32)
        }
    } else {
        false
    }
}

/// Whether two strings hold the same characters.
pub fn str_eq(a: &str, b: &str) -> (r: bool)
    ensures
        r == (a@ == b@),
{
    let lt = str_lt(a, b);
    let gt = str_lt(b, a);
    proof {
        lemma_lex_trichotomy(a@, b@);
    }
    !lt && !gt
}

} // verus!
