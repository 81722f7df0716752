//! A strict order on character sequences and binary search over sorted keys.
use vstd::prelude::*;

verus! {

/// Lexicographic order by code point, comparing from index `i` on.
pub open spec fn lt_from(a: Seq<char>, b: Seq<char>, i: int) -> bool
    decreases a.len() - i,
{
    if i < 0 || i >= a.len() {
        0 <= i < b.len()
    } else if i >= b.len() {
        false
    } else if a[i] != b[i] {
        a[i] < b[i]
    } else {
        lt_from(a, b, i + 1)
    }
}

/// `a` sorts strictly before `b`.
pub open spec fn key_lt(a: Seq<char>, b: Seq<char>) -> bool {
    lt_from(a, b, 0)
}

/// Every key sorts strictly before every later key.
pub open spec fn sorted(ks: Seq<Seq<char>>) -> bool {
    forall|i: int, j: int| 0 <= i < j < ks.len() ==> key_lt(#[trigger] ks[i], #[trigger] ks[j])
}

/// The keys held in a vector of character vectors.
pub open spec fn views(ks: Seq<Vec<char>>) -> Seq<Seq<char>> {
    ks.map_values(|k: Vec<char>| k@)
}

proof fn lemma_lt_from_trans(a: Seq<char>, b: Seq<char>, c: Seq<char>, i: int)
    requires
        0 <= i,
        lt_from(a, b, i),
        lt_from(b, c, i),
    ensures
        lt_from(a, c, i),
    decreases a.len() - i,
{
    if i < a.len() && i < b.len() && i < c.len() && a[i] == b[i] && b[i] == c[i] {
        lemma_lt_from_trans(a, b, c, i + 1);
    }
}

pub proof fn lemma_key_lt_trans(a: Seq<char>, b: Seq<char>, c: Seq<char>)
    requires
        key_lt(a, b),
        key_lt(b, c),
    ensures
        key_lt(a, c),
{
    lemma_lt_from_trans(a, b, c, 0);
}

proof fn lemma_lt_from_irrefl(a: Seq<char>, i: int)
    requires
        0 <= i,
    ensures
        !lt_from(a, a, i),
    decreases a.len() - i,
{
    if i < a.len() {
        lemma_lt_from_irrefl(a, i + 1);
    }
}

pub proof fn lemma_key_lt_irrefl(a: Seq<char>)
    ensures
        !key_lt(a, a),
{
    lemma_lt_from_irrefl(a, 0);
}

/// Compares two keys: negative, zero or positive as `a` sorts before, equals or sorts after `b`.
pub fn compare_keys(a: &Vec<char>, b: &Vec<char>) -> (r: i8)
    ensures
        r < 0 <==> key_lt(a@, b@),
        r == 0 <==> a@ == b@,
        r > 0 <==> key_lt(b@, a@),
{
    let mut i: usize = 0;
    while i < a.len() && i < b.len() && a[i] == b[i]
        invariant
            i <= a.len(),
            i <= b.len(),
            forall|j: int| 0 <= j < i ==> a@[j] == b@[j],
            key_lt(a@, b@) == lt_from(a@, b@, i as int),
            key_lt(b@, a@) == lt_from(b@, a@, i as int),
        decreases a.len() - i,
    {
        i = i + 1;
    }
    proof {
        lemma_key_lt_irrefl(a@);
    }
    if i < a.len() && i < b.len() {
        if a[i] < b[i] {
            -1
        } else {
            1
        }
    } else if i < b.len() {
        -1
    } else if i < a.len() {
        1
    } else {
        assert(a@ =~= b@);
        0
    }
}

/// Where `x` stands among sorted keys: `(true, p)` where `ks[p]` equals it, else
/// `(false, p)` where inserting it at `p` keeps the keys sorted.
pub fn search(ks: &Vec<Vec<char>>, x: &Vec<char>) -> (r: (bool, usize))
    requires
        sorted(views(ks@)),
    ensures
        r.1 <= ks.len(),
        r.0 ==> r.1 < ks.len() && ks@[r.1 as int]@ == x@,
        !r.0 ==> forall|j: int| 0 <= j < r.1 ==> key_lt(#[trigger] ks@[j]@, x@),
        !r.0 ==> forall|j: int| r.1 <= j < ks.len() ==> key_lt(x@, #[trigger] ks@[j]@),
        r.0 <==> exists|j: int| 0 <= j < ks.len() && #[trigger] ks@[j]@ == x@,
{
    let mut lo: usize = 0;
    let mut hi: usize = ks.len();
    while lo < hi
        invariant
            lo <= hi <= ks.len(),
            sorted(views(ks@)),
            forall|j: int| 0 <= j < lo ==> key_lt(#[trigger] ks@[j]@, x@),
            forall|j: int| hi <= j < ks.len() ==> key_lt(x@, #[trigger] ks@[j]@),
        decreases hi - lo,
    {
        let mid: usize = lo + (hi - lo) / 2;
        let c = compare_keys(&ks[mid], x);
        if c == 0 {
            proof {
                lemma_key_lt_irrefl(x@);
            }
            return (true, mid);
        } else if c < 0 {
            assert forall|j: int| 0 <= j <= mid implies key_lt(#[trigger] ks@[j]@, x@) by {
                if j < mid {
                    assert(key_lt(views(ks@)[j], views(ks@)[mid as int]));
                    lemma_key_lt_trans(ks@[j]@, ks@[mid as int]@, x@);
                }
            }
            lo = mid + 1;
        } else {
            assert forall|j: int| mid <= j < ks.len() implies key_lt(x@, #[trigger] ks@[j]@) by {
                if j > mid {
                    assert(key_lt(views(ks@)[mid as int], views(ks@)[j]));
                    lemma_key_lt_trans(x@, ks@[mid as int]@, ks@[j]@);
                }
            }
            hi = mid;
        }
    }
    proof {
        assert forall|j: int| 0 <= j < ks.len() implies #[trigger] ks@[j]@ != x@ by {
            lemma_key_lt_irrefl(x@);
        }
    }
    (false, lo)
}

/// Inserting a key at the place `search` reports keeps the keys sorted.
pub proof fn lemma_insert_sorted(ks: Seq<Vec<char>>, p: int, x: Vec<char>)
    requires
        sorted(views(ks)),
        0 <= p <= ks.len(),
        forall|j: int| 0 <= j < p ==> key_lt(#[trigger] ks[j]@, x@),
        forall|j: int| p <= j < ks.len() ==> key_lt(x@, #[trigger] ks[j]@),
    ensures
        sorted(views(ks.insert(p, x))),
{
    let n = ks.insert(p, x);
    assert forall|i: int, j: int| 0 <= i < j < views(n).len() implies key_lt(
        #[trigger] views(n)[i],
        #[trigger] views(n)[j],
    ) by {
        if j < p {
            assert(key_lt(views(ks)[i], views(ks)[j]));
        } else if j == p {
        } else if i < p {
            assert(key_lt(views(ks)[i], views(ks)[j - 1]));
        } else if i == p {
        } else {
            assert(key_lt(views(ks)[i - 1], views(ks)[j - 1]));
        }
    }
}

} // verus!
