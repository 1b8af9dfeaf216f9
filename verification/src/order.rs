//! Lexicographic order on strings, by Unicode code point.
//!
//! The store index and the version-vector entries are kept sorted by this
//! order, and `get_range` ranges are interpreted with it.

use vstd::prelude::*;

verus! {

/// Strict lexicographic order on character sequences, comparing code points.
pub open spec fn str_lt(a: Seq<char>, b: Seq<char>) -> bool
    decreases a.len(),
{
    if b.len() == 0 {
        false
    } else if a.len() == 0 {
        true
    } else if (a[0] as u32) < (b[0] as u32) {
        true
    } else if a[0] == b[0] {
        str_lt(a.drop_first(), b.drop_first())
    } else {
        false
    }
}

/// Reflexive closure of `str_lt`.
pub open spec fn str_le(a: Seq<char>, b: Seq<char>) -> bool {
    str_lt(a, b) || a == b
}

/// Result of a three-way string comparison.
#[derive(Debug, Clone, Copy, PartialEq, Eq, Structural)]
pub enum StrOrd {
    Lt,
    Eq,
    Gt,
}

/// Exactly one of `a < b`, `a == b`, `b < a` holds.
pub proof fn lemma_str_trichotomy(a: Seq<char>, b: Seq<char>)
    ensures
        str_lt(a, b) || a == b || str_lt(b, a),
        str_lt(a, b) ==> a != b && !str_lt(b, a),
        a == b ==> !str_lt(a, b) && !str_lt(b, a),
    decreases a.len(),
{
    if a.len() == 0 || b.len() == 0 {
        if a.len() == 0 && b.len() == 0 {
            assert(a =~= b);
        }
    } else {
        lemma_str_trichotomy(a.drop_first(), b.drop_first());
        if a[0] == b[0] {
            if a.drop_first() == b.drop_first() {
                assert(a.len() == b.len());
                assert forall|j: int| 0 <= j < a.len() implies a[j] == b[j] by {
                    if j > 0 {
                        assert(a.drop_first()[j - 1] == a[j]);
                        assert(b.drop_first()[j - 1] == b[j]);
                    }
                }
                assert(a =~= b);
            }
            if a == b {
                assert(a.drop_first() =~= b.drop_first());
            }
        } else {
            assert((a[0] as u32) != (b[0] as u32)) by {
                if (a[0] as u32) == (b[0] as u32) {
                    vstd::utf8::char_u32_cast(a[0], a[0] as u32);
                    vstd::utf8::char_u32_cast(b[0], a[0] as u32);
                }
            }
            assert(a != b);
        }
    }
}

/// `str_lt` is transitive.
pub proof fn lemma_str_lt_transitive(a: Seq<char>, b: Seq<char>, c: Seq<char>)
    requires
        str_lt(a, b),
        str_lt(b, c),
    ensures
        str_lt(a, c),
    decreases a.len(),
{
    if a.len() == 0 {
        assert(c.len() > 0);
    } else if b.len() == 0 {
        assert(false);
    } else {
        if a[0] == b[0] && b[0] == c[0] {
            lemma_str_lt_transitive(a.drop_first(), b.drop_first(), c.drop_first());
        }
    }
}

/// Equal prefixes decide nothing; the first differing position decides.
proof fn lemma_str_lt_from_diff(a: Seq<char>, b: Seq<char>, i: int)
    requires
        0 <= i <= a.len(),
        0 <= i < b.len(),
        a.take(i) == b.take(i),
        i < a.len() ==> (a[i] as u32) < (b[i] as u32),
    ensures
        str_lt(a, b),
    decreases i,
{
    if i == 0 {
        if a.len() == 0 {
        } else {
            assert((a[0] as u32) < (b[0] as u32));
        }
    } else {
        assert(a.take(i)[0] == b.take(i)[0]);
        assert(a.take(i)[0] == a[0]);
        assert(b.take(i)[0] == b[0]);
        assert(a[0] == b[0]);
        assert(a.drop_first().take(i - 1) =~= b.drop_first().take(i - 1)) by {
            assert forall|j: int| 0 <= j < i - 1 implies a.drop_first()[j] == b.drop_first()[j] by {
                assert(a.take(i)[j + 1] == b.take(i)[j + 1]);
                assert(a.take(i)[j + 1] == a[j + 1]);
                assert(b.take(i)[j + 1] == b[j + 1]);
                assert(a.drop_first()[j] == a[j + 1]);
                assert(b.drop_first()[j] == b[j + 1]);
            }
        }
        if i - 1 < a.drop_first().len() && i - 1 < b.drop_first().len() {
            assert(a.drop_first()[i - 1] == a[i]);
            assert(b.drop_first()[i - 1] == b[i]);
        }
        lemma_str_lt_from_diff(a.drop_first(), b.drop_first(), i - 1);
    }
}

/// Three-way comparison of two strings in the `str_lt` order.
pub fn str_compare(a: &str, b: &str) -> (o: StrOrd)
    ensures
        o == StrOrd::Lt <==> str_lt(a@, b@),
        o == StrOrd::Eq <==> a@ == b@,
        o == StrOrd::Gt <==> str_lt(b@, a@),
{
    let a_len = a.unicode_len();
    let b_len = b.unicode_len();
    let mut i: usize = 0;
    loop
        invariant
            i <= a_len,
            i <= b_len,
            a_len == a@.len(),
            b_len == b@.len(),
            a@.take(i as int) == b@.take(i as int),
        decreases a_len - i,
    {
        if i == a_len || i == b_len {
            if a_len == b_len {
                proof {
                    lemma_str_trichotomy(a@, b@);
                    assert(forall|j: int|
                        0 <= j < i ==> a@.take(i as int)[j] == #[trigger] a@[j]);
                    assert(forall|j: int|
                        0 <= j < i ==> b@.take(i as int)[j] == #[trigger] b@[j]);
                    assert(a@ =~= b@);
                }
                return StrOrd::Eq;
            } else if a_len < b_len {
                proof {
                    lemma_str_trichotomy(a@, b@);
                    lemma_str_lt_from_diff(a@, b@, i as int);
                }
                return StrOrd::Lt;
            } else {
                proof {
                    lemma_str_trichotomy(b@, a@);
                    lemma_str_lt_from_diff(b@, a@, i as int);
                }
                return StrOrd::Gt;
            }
        }
        let ca = a.get_char(i);
        let cb = b.get_char(i);
        if (ca as u32) < (cb as u32) {
            proof {
                lemma_str_trichotomy(a@, b@);
                lemma_str_lt_from_diff(a@, b@, i as int);
            }
            return StrOrd::Lt;
        } else if (cb as u32) < (ca as u32) {
            proof {
                lemma_str_trichotomy(b@, a@);
                lemma_str_lt_from_diff(b@, a@, i as int);
            }
            return StrOrd::Gt;
        } else {
            proof {
                assert(ca == cb) by {
                    vstd::utf8::char_u32_cast(ca, ca as u32);
                    vstd::utf8::char_u32_cast(cb, ca as u32);
                }
                assert(a@.take(i + 1) =~= b@.take(i + 1)) by {
                    assert(forall|j: int|
                        0 <= j < i ==> a@.take(i + 1)[j] == #[trigger] a@.take(i as int)[j]);
                    assert(forall|j: int|
                        0 <= j < i ==> b@.take(i + 1)[j] == #[trigger] b@.take(i as int)[j]);
                }
            }
            i = i + 1;
        }
    }
}

} // verus!
