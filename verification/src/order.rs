//! Lexicographic order on character sequences and on (path, identifier)
//! pairs, with the verified sort that makes a scan's output deterministic.

use vstd::prelude::*;
use vstd::relations::{sorted_by, total_ordering};
use vstd::seq_lib::group_to_multiset_ensures;
use vstd::string::StrSliceExecFns;

verus! {

/// Lexicographic "less than or equal" on character sequences, ordering
/// characters by code point. On UTF-8 strings this coincides with the byte
/// order that the standard library's string comparison uses.
pub open spec fn chars_le(a: Seq<char>, b: Seq<char>) -> bool
    decreases a.len(),
{
    if a.len() == 0 {
        true
    } else if b.len() == 0 {
        false
    } else if a[0] == b[0] {
        chars_le(a.drop_first(), b.drop_first())
    } else {
        (a[0] as int) < (b[0] as int)
    }
}

/// Order on (path, identifier) pairs: by path first, then by identifier.
pub open spec fn pair_le(x: (Seq<char>, Seq<char>), y: (Seq<char>, Seq<char>)) -> bool {
    if x.0 == y.0 {
        chars_le(x.1, y.1)
    } else {
        chars_le(x.0, y.0)
    }
}

/// The pair order as a first-class relation, for `sort_by` and `sorted_by`.
pub open spec fn pair_le_ff() -> spec_fn(
    (Seq<char>, Seq<char>),
    (Seq<char>, Seq<char>),
) -> bool {
    |x: (Seq<char>, Seq<char>), y: (Seq<char>, Seq<char>)| pair_le(x, y)
}

pub proof fn lemma_chars_le_refl(a: Seq<char>)
    ensures
        chars_le(a, a),
    decreases a.len(),
{
    if a.len() > 0 {
        lemma_chars_le_refl(a.drop_first());
    }
}

pub proof fn lemma_chars_le_connected(a: Seq<char>, b: Seq<char>)
    ensures
        chars_le(a, b) || chars_le(b, a),
    decreases a.len(),
{
    if a.len() == 0 {
        assert(chars_le(a, b));
    } else if b.len() == 0 {
        assert(chars_le(b, a));
    } else if a[0] == b[0] {
        lemma_chars_le_connected(a.drop_first(), b.drop_first());
        assert(chars_le(a, b) == chars_le(a.drop_first(), b.drop_first()));
        assert(chars_le(b, a) == chars_le(b.drop_first(), a.drop_first()));
    } else {
        assert(a[0] as int != b[0] as int);
        if (a[0] as int) < (b[0] as int) {
            assert(chars_le(a, b));
        } else {
            assert((b[0] as int) < (a[0] as int));
            assert(chars_le(b, a));
        }
    }
}

pub proof fn lemma_chars_le_antisym(a: Seq<char>, b: Seq<char>)
    requires
        chars_le(a, b),
        chars_le(b, a),
    ensures
        a == b,
    decreases a.len(),
{
    if a.len() == 0 {
        assert(b.len() == 0);
        assert(a =~= b);
    } else {
        assert(b.len() > 0);
        assert(a[0] == b[0]);
        lemma_chars_le_antisym(a.drop_first(), b.drop_first());
        assert(a.drop_first().len() == b.drop_first().len());
        assert(a.len() == b.len());
        assert forall|i: int| 0 <= i < a.len() implies a[i] == b[i] by {
            if i > 0 {
                assert(a.drop_first()[i - 1] == b.drop_first()[i - 1]);
                assert(a.drop_first()[i - 1] == a[i]);
                assert(b.drop_first()[i - 1] == b[i]);
            }
        }
        assert(a =~= b);
    }
}

pub proof fn lemma_chars_le_trans(a: Seq<char>, b: Seq<char>, c: Seq<char>)
    requires
        chars_le(a, b),
        chars_le(b, c),
    ensures
        chars_le(a, c),
    decreases a.len(),
{
    if a.len() == 0 || b.len() == 0 || c.len() == 0 {
    } else if a[0] == b[0] && b[0] == c[0] {
        lemma_chars_le_trans(a.drop_first(), b.drop_first(), c.drop_first());
    }
}

pub proof fn lemma_pair_le_refl(x: (Seq<char>, Seq<char>))
    ensures
        pair_le(x, x),
{
    lemma_chars_le_refl(x.1);
}

pub proof fn lemma_pair_le_connected(x: (Seq<char>, Seq<char>), y: (Seq<char>, Seq<char>))
    ensures
        pair_le(x, y) || pair_le(y, x),
{
    if x.0 == y.0 {
        lemma_chars_le_connected(x.1, y.1);
    } else {
        lemma_chars_le_connected(x.0, y.0);
    }
}

pub proof fn lemma_pair_le_antisym(x: (Seq<char>, Seq<char>), y: (Seq<char>, Seq<char>))
    requires
        pair_le(x, y),
        pair_le(y, x),
    ensures
        x == y,
{
    if x.0 == y.0 {
        lemma_chars_le_antisym(x.1, y.1);
    } else {
        lemma_chars_le_antisym(x.0, y.0);
    }
}

pub proof fn lemma_pair_le_trans(
    x: (Seq<char>, Seq<char>),
    y: (Seq<char>, Seq<char>),
    z: (Seq<char>, Seq<char>),
)
    requires
        pair_le(x, y),
        pair_le(y, z),
    ensures
        pair_le(x, z),
{
    if x.0 == y.0 && y.0 == z.0 {
        lemma_chars_le_trans(x.1, y.1, z.1);
    } else if x.0 == y.0 {
    } else if y.0 == z.0 {
    } else {
        lemma_chars_le_trans(x.0, y.0, z.0);
        if x.0 == z.0 {
            lemma_chars_le_refl(y.0);
            lemma_chars_le_antisym(x.0, y.0);
        }
    }
}

/// The pair order is a total order, as `sort_by` and `lemma_sorted_unique`
/// need it to be.
pub proof fn lemma_pair_le_total_ordering()
    ensures
        total_ordering(pair_le_ff()),
{
    let leq = pair_le_ff();
    assert forall|x: (Seq<char>, Seq<char>)| #[trigger] leq(x, x) by {
        lemma_pair_le_refl(x);
    }
    assert forall|x: (Seq<char>, Seq<char>), y: (Seq<char>, Seq<char>)|
        #[trigger] leq(x, y) && #[trigger] leq(y, x) implies x == y by {
        lemma_pair_le_antisym(x, y);
    }
    assert forall|x: (Seq<char>, Seq<char>), y: (Seq<char>, Seq<char>), z: (Seq<char>, Seq<char>)|
        #[trigger] leq(x, y) && #[trigger] leq(y, z) implies leq(x, z) by {
        lemma_pair_le_trans(x, y, z);
    }
    assert forall|x: (Seq<char>, Seq<char>), y: (Seq<char>, Seq<char>)|
        #[trigger] leq(x, y) || #[trigger] leq(y, x) by {
        lemma_pair_le_connected(x, y);
    }
}

/// Equality of two string slices, decided character by character.
pub fn str_eq(a: &str, b: &str) -> (r: bool)
    ensures
        r == (a@ == b@),
{
    let la = a.unicode_len();
    let lb = b.unicode_len();
    if la != lb {
        return false;
    }
    let mut i: usize = 0;
    while i < la
        invariant
            0 <= i <= la,
            la == a@.len(),
            la == b@.len(),
            forall|j: int| 0 <= j < i ==> a@[j] == b@[j],
        decreases la - i,
    {
        if a.get_char(i) != b.get_char(i) {
            return false;
        }
        i = i + 1;
    }
    proof {
        assert(a@ =~= b@);
    }
    true
}

/// `chars_le` on the suffixes after an equal prefix is `chars_le` on the whole.
proof fn lemma_chars_le_skip(a: Seq<char>, b: Seq<char>, i: int)
    requires
        0 <= i <= a.len(),
        i <= b.len(),
        forall|j: int| 0 <= j < i ==> a[j] == b[j],
    ensures
        chars_le(a, b) == chars_le(a.skip(i), b.skip(i)),
    decreases i,
{
    if i > 0 {
        assert(a.len() > 0 && b.len() > 0 && a[0] == b[0]);
        lemma_chars_le_skip(a.drop_first(), b.drop_first(), i - 1);
        assert(a.drop_first().skip(i - 1) =~= a.skip(i));
        assert(b.drop_first().skip(i - 1) =~= b.skip(i));
    } else {
        assert(a.skip(0) =~= a);
        assert(b.skip(0) =~= b);
    }
}

/// Lexicographic comparison of two string slices.
pub fn chars_le_exec(a: &str, b: &str) -> (r: bool)
    ensures
        r == chars_le(a@, b@),
{
    let la = a.unicode_len();
    let lb = b.unicode_len();
    let mut i: usize = 0;
    while i < la && i < lb
        invariant
            0 <= i <= la,
            0 <= i <= lb,
            la == a@.len(),
            lb == b@.len(),
            forall|j: int| 0 <= j < i ==> a@[j] == b@[j],
        decreases la - i,
    {
        let ca = a.get_char(i);
        let cb = b.get_char(i);
        if ca != cb {
            proof {
                lemma_chars_le_skip(a@, b@, i as int);
                assert((ca as u32) as int == ca as int);
                assert((cb as u32) as int == cb as int);
            }
            return (ca as u32) < (cb as u32);
        }
        i = i + 1;
    }
    proof {
        lemma_chars_le_skip(a@, b@, i as int);
    }
    la <= lb
}

/// The view of a list of (path, identifier) pairs.
pub open spec fn pairs_view(s: Seq<(String, String)>) -> Seq<(Seq<char>, Seq<char>)> {
    s.map_values(|p: (String, String)| (p.0@, p.1@))
}

/// Comparison of two owned (path, identifier) pairs under `pair_le`.
pub fn pair_le_exec(x: &(String, String), y: &(String, String)) -> (r: bool)
    ensures
        r == pair_le((x.0@, x.1@), (y.0@, y.1@)),
{
    if str_eq(x.0.as_str(), y.0.as_str()) {
        chars_le_exec(x.1.as_str(), y.1.as_str())
    } else {
        chars_le_exec(x.0.as_str(), y.0.as_str())
    }
}

/// Sorts the pairs under `pair_le`, keeping exactly the same pairs.
pub fn sort_pairs(v: Vec<(String, String)>) -> (r: Vec<(String, String)>)
    ensures
        pairs_view(r@).to_multiset() == pairs_view(v@).to_multiset(),
        sorted_by(pairs_view(r@), pair_le_ff()),
{
    broadcast use group_to_multiset_ensures;

    let mut src = v;
    let mut out: Vec<(String, String)> = Vec::new();
    let ghost all = pairs_view(src@);
    while src.len() > 0
        invariant
            pairs_view(out@).to_multiset().add(pairs_view(src@).to_multiset())
                == all.to_multiset(),
            forall|i: int, j: int|
                0 <= i < j < out@.len() ==> pair_le(
                    #[trigger] pairs_view(out@)[i],
                    #[trigger] pairs_view(out@)[j],
                ),
            forall|i: int, j: int|
                0 <= i < out@.len() && 0 <= j < src@.len() ==> pair_le(
                    #[trigger] pairs_view(out@)[i],
                    #[trigger] pairs_view(src@)[j],
                ),
        decreases src@.len(),
    {
        let mut m: usize = 0;
        let mut k: usize = 1;
        proof {
            lemma_pair_le_refl(pairs_view(src@)[0]);
        }
        while k < src.len()
            invariant
                0 <= m < src@.len(),
                1 <= k <= src@.len(),
                forall|t: int|
                    0 <= t < k ==> pair_le(
                        pairs_view(src@)[m as int],
                        #[trigger] pairs_view(src@)[t],
                    ),
            decreases src@.len() - k,
        {
            if pair_le_exec(&src[k], &src[m]) {
                proof {
                    assert forall|t: int| 0 <= t < k + 1 implies pair_le(
                        pairs_view(src@)[k as int],
                        #[trigger] pairs_view(src@)[t],
                    ) by {
                        if t < k {
                            lemma_pair_le_trans(
                                pairs_view(src@)[k as int],
                                pairs_view(src@)[m as int],
                                pairs_view(src@)[t],
                            );
                        } else {
                            lemma_pair_le_refl(pairs_view(src@)[k as int]);
                        }
                    }
                }
                m = k;
            } else {
                proof {
                    lemma_pair_le_connected(
                        pairs_view(src@)[m as int],
                        pairs_view(src@)[k as int],
                    );
                }
            }
            k = k + 1;
        }
        let ghost old_src = src@;
        let ghost old_out = out@;
        let x = src.remove(m);
        out.push(x);
        proof {
            broadcast use vstd::multiset::group_multiset_axioms;

            assert(pairs_view(old_src)[m as int] == (x.0@, x.1@));
            assert(pairs_view(src@) =~= pairs_view(old_src).remove(m as int));
            assert(pairs_view(out@) =~= pairs_view(old_out).push((x.0@, x.1@)));
            vstd::seq_lib::to_multiset_remove(pairs_view(old_src), m as int);
            vstd::seq_lib::to_multiset_build(pairs_view(old_out), (x.0@, x.1@));
            vstd::seq_lib::to_multiset_contains(pairs_view(old_src), (x.0@, x.1@));
            assert(pairs_view(old_src).contains((x.0@, x.1@)));
            assert(pairs_view(out@).to_multiset().add(pairs_view(src@).to_multiset())
                =~= all.to_multiset());
            assert forall|i: int, j: int|
                0 <= i < out@.len() && 0 <= j < src@.len() implies pair_le(
                #[trigger] pairs_view(out@)[i],
                #[trigger] pairs_view(src@)[j],
            ) by {
                let jj = if j < m { j } else { j + 1 };
                assert(pairs_view(src@)[j] == pairs_view(old_src)[jj]);
                if i < out@.len() - 1 {
                    assert(pair_le(pairs_view(old_out)[i], pairs_view(old_src)[jj]));
                } else {
                    assert(pair_le(pairs_view(old_src)[m as int], pairs_view(old_src)[jj]));
                }
            }
        }
    }
    proof {
        broadcast use vstd::multiset::group_multiset_axioms;

        vstd::seq_lib::to_multiset_len(pairs_view(src@));
        vstd::multiset::lemma_multiset_empty_len(pairs_view(src@).to_multiset());
        assert(pairs_view(out@).to_multiset().add(pairs_view(src@).to_multiset())
            =~= pairs_view(out@).to_multiset());
        assert(sorted_by(pairs_view(out@), pair_le_ff()));
    }
    out
}

} // verus!
