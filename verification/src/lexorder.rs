use vstd::prelude::*;

verus! {

// Lexicographic order on byte strings: the order of nodes inside a pack
// index. Nodes all have one width, so this is also their big-endian numeric
// order.

pub open spec fn lex_lt(a: Seq<u8>, b: Seq<u8>) -> bool
    decreases a.len(),
{
    if b.len() == 0 {
        false
    } else if a.len() == 0 {
        true
    } else if a[0] < b[0] {
        true
    } else if a[0] > b[0] {
        false
    } else {
        lex_lt(a.drop_first(), b.drop_first())
    }
}

pub proof fn lemma_lex_irreflexive(a: Seq<u8>)
    ensures
        !lex_lt(a, a),
    decreases a.len(),
{
    if a.len() > 0 {
        lemma_lex_irreflexive(a.drop_first());
    }
}

pub proof fn lemma_lex_neq(a: Seq<u8>, b: Seq<u8>)
    requires
        lex_lt(a, b),
    ensures
        a != b,
{
    if a == b {
        lemma_lex_irreflexive(a);
    }
}

pub proof fn lemma_lex_trans(a: Seq<u8>, b: Seq<u8>, c: Seq<u8>)
    requires
        lex_lt(a, b),
        lex_lt(b, c),
    ensures
        lex_lt(a, c),
    decreases a.len() + b.len() + c.len(),
{
    if a.len() > 0 && b.len() > 0 && c.len() > 0 {
        if a[0] == b[0] && b[0] == c[0] {
            lemma_lex_trans(a.drop_first(), b.drop_first(), c.drop_first());
        }
    }
}

/// Equal-length byte strings are totally ordered: one of the three holds.
pub proof fn lemma_lex_total(a: Seq<u8>, b: Seq<u8>)
    requires
        a.len() == b.len(),
    ensures
        lex_lt(a, b) || lex_lt(b, a) || a == b,
    decreases a.len(),
{
    if a.len() > 0 {
        if a[0] == b[0] {
            lemma_lex_total(a.drop_first(), b.drop_first());
            if a.drop_first() == b.drop_first() {
                assert forall|i: int| 0 <= i < a.len() implies a[i] == #[trigger] b[i] by {
                    if i > 0 {
                        assert(a.drop_first()[i - 1] == b.drop_first()[i - 1]);
                    }
                }
                assert(a =~= b);
            }
        }
    }
}

/// Three-way comparison of two byte strings of equal length.
/// Returns 0 on equality, 1 when `a` is the smaller, 2 when `b` is.
pub fn lex_cmp(a: &Vec<u8>, b: &Vec<u8>) -> (r: u8)
    requires
        a@.len() == b@.len(),
    ensures
        r == 0 ==> a@ == b@,
        r == 1 ==> lex_lt(a@, b@),
        r == 2 ==> lex_lt(b@, a@),
        r == 0 || r == 1 || r == 2,
{
    let n = a.len();
    let mut i: usize = 0;
    while i < n
        invariant
            i <= n,
            n == a@.len(),
            n == b@.len(),
            a@.subrange(0, i as int) == b@.subrange(0, i as int),
        decreases n - i,
    {
        if a[i] < b[i] {
            proof {
                lemma_lex_prefix_diff(a@, b@, i as int);
            }
            return 1;
        }
        if a[i] > b[i] {
            proof {
                lemma_lex_prefix_diff(b@, a@, i as int);
            }
            return 2;
        }
        i = i + 1;
        proof {
            assert(a@.subrange(0, i as int) =~= b@.subrange(0, i as int));
        }
    }
    proof {
        assert(a@.subrange(0, n as int) =~= a@);
        assert(b@.subrange(0, n as int) =~= b@);
    }
    0
}

/// Any two byte strings are totally ordered.
pub proof fn lemma_lex_total_any(a: Seq<u8>, b: Seq<u8>)
    ensures
        lex_lt(a, b) || lex_lt(b, a) || a == b,
    decreases a.len() + b.len(),
{
    if a.len() > 0 && b.len() > 0 {
        if a[0] == b[0] {
            lemma_lex_total_any(a.drop_first(), b.drop_first());
            if a.drop_first() == b.drop_first() {
                assert(a.drop_first().len() == b.drop_first().len());
                assert(a.len() == b.len());
                assert forall|i: int| 0 <= i < a.len() implies a[i] == #[trigger] b[i] by {
                    if i > 0 {
                        assert(a.drop_first()[i - 1] == b.drop_first()[i - 1]);
                    }
                }
                assert(a =~= b);
            }
        }
    } else if a.len() == 0 && b.len() == 0 {
        assert(a =~= b);
    }
}

/// A proper prefix sorts before what it opens.
pub proof fn lemma_lex_proper_prefix(a: Seq<u8>, b: Seq<u8>)
    requires
        a.len() < b.len(),
        a == b.subrange(0, a.len() as int),
    ensures
        lex_lt(a, b),
    decreases a.len(),
{
    if a.len() > 0 {
        assert(a[0] == b[0]) by {
            assert(b.subrange(0, a.len() as int)[0] == b[0]);
        }
        assert(a.drop_first() =~= b.drop_first().subrange(0, a.len() - 1)) by {
            assert forall|j: int| 0 <= j < a.len() - 1 implies #[trigger] a.drop_first()[j]
                == b.drop_first().subrange(0, a.len() - 1)[j] by {
                assert(a.drop_first()[j] == a[j + 1]);
                assert(b.subrange(0, a.len() as int)[j + 1] == b[j + 1]);
                assert(b.drop_first().subrange(0, a.len() - 1)[j] == b[j + 1]);
            }
        }
        lemma_lex_proper_prefix(a.drop_first(), b.drop_first());
    }
}

/// Three-way comparison of any two byte strings.
/// Returns 0 on equality, 1 when `a` is the smaller, 2 when `b` is.
pub fn lex_cmp_general(a: &Vec<u8>, b: &Vec<u8>) -> (r: u8)
    ensures
        r == 0 ==> a@ == b@,
        r == 1 ==> lex_lt(a@, b@),
        r == 2 ==> lex_lt(b@, a@),
        r == 0 || r == 1 || r == 2,
{
    let n = if a.len() < b.len() {
        a.len()
    } else {
        b.len()
    };
    let mut i: usize = 0;
    while i < n
        invariant
            i <= n,
            n <= a@.len(),
            n <= b@.len(),
            n == if a@.len() < b@.len() {
                a@.len()
            } else {
                b@.len()
            },
            a@.subrange(0, i as int) == b@.subrange(0, i as int),
        decreases n - i,
    {
        if a[i] < b[i] {
            proof {
                lemma_lex_prefix_diff(a@, b@, i as int);
            }
            return 1;
        }
        if a[i] > b[i] {
            proof {
                lemma_lex_prefix_diff(b@, a@, i as int);
            }
            return 2;
        }
        i = i + 1;
        proof {
            assert(a@.subrange(0, i as int) =~= b@.subrange(0, i as int));
        }
    }
    if a.len() < b.len() {
        proof {
            assert(a@.subrange(0, n as int) =~= a@);
            lemma_lex_proper_prefix(a@, b@);
        }
        return 1;
    }
    if b.len() < a.len() {
        proof {
            assert(b@.subrange(0, n as int) =~= b@);
            lemma_lex_proper_prefix(b@, a@);
        }
        return 2;
    }
    proof {
        assert(a@.subrange(0, n as int) =~= a@);
        assert(b@.subrange(0, n as int) =~= b@);
    }
    0
}

/// When the first `i` bytes agree and byte `i` of `a` is smaller, `a` sorts
/// first.
pub proof fn lemma_lex_prefix_diff(a: Seq<u8>, b: Seq<u8>, i: int)
    requires
        0 <= i < a.len(),
        i < b.len(),
        a.subrange(0, i) == b.subrange(0, i),
        a[i] < b[i],
    ensures
        lex_lt(a, b),
    decreases i,
{
    if i == 0 {
        assert(a[0] < b[0]);
    } else {
        assert(a[0] == b[0]) by {
            assert(a.subrange(0, i)[0] == a[0]);
            assert(b.subrange(0, i)[0] == b[0]);
        }
        assert(a.drop_first().subrange(0, i - 1) =~= b.drop_first().subrange(0, i - 1)) by {
            assert forall|j: int| 0 <= j < i - 1 implies #[trigger] a.drop_first().subrange(
                0,
                i - 1,
            )[j] == b.drop_first().subrange(0, i - 1)[j] by {
                assert(a.drop_first().subrange(0, i - 1)[j] == a[j + 1]);
                assert(b.drop_first().subrange(0, i - 1)[j] == b[j + 1]);
                assert(a.subrange(0, i)[j + 1] == a[j + 1]);
                assert(b.subrange(0, i)[j + 1] == b[j + 1]);
            }
        }
        assert(a.drop_first()[i - 1] == a[i] && b.drop_first()[i - 1] == b[i]);
        lemma_lex_prefix_diff(a.drop_first(), b.drop_first(), i - 1);
    }
}

} // verus!
