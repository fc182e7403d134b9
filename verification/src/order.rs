//! Total orders on the values the contract keeps sorted, and the binary
//! search that looks values up in sorted vectors.

use vstd::prelude::*;

verus! {

broadcast use vstd::array::group_array_axioms;

/// The outcome of comparing two values.
#[derive(Clone, Copy, Debug, PartialEq, Eq, Structural)]
pub enum Cmp {
    Less,
    Equal,
    Greater,
}

/// A strict total order with an executable comparison.
pub trait Ordered: Sized + Copy {
    spec fn precedes(self, other: Self) -> bool;

    proof fn lemma_irreflexive(a: Self)
        ensures
            !a.precedes(a),
    ;

    proof fn lemma_transitive(a: Self, b: Self, c: Self)
        requires
            a.precedes(b),
            b.precedes(c),
        ensures
            a.precedes(c),
    ;

    proof fn lemma_total(a: Self, b: Self)
        ensures
            a.precedes(b) || b.precedes(a) || a == b,
    ;

    fn compare(&self, other: &Self) -> (c: Cmp)
        ensures
            (c is Less) == self.precedes(*other),
            (c is Equal) == (*self == *other),
            (c is Greater) == other.precedes(*self),
    ;
}

/// `k` is the first position at which `a` and `b` differ.
pub open spec fn first_difference(a: Seq<u8>, b: Seq<u8>, k: int) -> bool {
    &&& 0 <= k < a.len()
    &&& k < b.len()
    &&& a[k] != b[k]
    &&& forall|j: int| 0 <= j < k ==> a[j] == b[j]
}

/// Lexicographic order on byte strings of one length.
pub open spec fn bytes_precede(a: Seq<u8>, b: Seq<u8>) -> bool {
    exists|k: int| #[trigger] first_difference(a, b, k) && a[k] < b[k]
}

pub proof fn lemma_bytes_irreflexive(a: Seq<u8>)
    ensures
        !bytes_precede(a, a),
{
}

pub proof fn lemma_bytes_transitive(a: Seq<u8>, b: Seq<u8>, c: Seq<u8>)
    requires
        a.len() == b.len(),
        b.len() == c.len(),
        bytes_precede(a, b),
        bytes_precede(b, c),
    ensures
        bytes_precede(a, c),
{
    let k1 = choose|k: int| #[trigger] first_difference(a, b, k) && a[k] < b[k];
    let k2 = choose|k: int| #[trigger] first_difference(b, c, k) && b[k] < c[k];
    if k1 < k2 {
        assert(first_difference(a, c, k1));
    } else if k2 < k1 {
        assert(first_difference(a, c, k2));
    } else {
        assert(first_difference(a, c, k1));
    }
}

/// Two byte strings of one length either are equal or differ first somewhere.
pub proof fn lemma_bytes_first_difference(a: Seq<u8>, b: Seq<u8>, i: int)
    requires
        a.len() == b.len(),
        0 <= i <= a.len(),
        forall|j: int| 0 <= j < i ==> a[j] == b[j],
    ensures
        a == b || exists|k: int| #[trigger] first_difference(a, b, k),
    decreases a.len() - i,
{
    if i == a.len() {
        assert(a =~= b);
    } else if a[i] != b[i] {
        assert(first_difference(a, b, i));
    } else {
        lemma_bytes_first_difference(a, b, i + 1);
    }
}

pub proof fn lemma_bytes_total(a: Seq<u8>, b: Seq<u8>)
    requires
        a.len() == b.len(),
    ensures
        bytes_precede(a, b) || bytes_precede(b, a) || a == b,
{
    lemma_bytes_first_difference(a, b, 0);
    if a != b {
        let k = choose|k: int| #[trigger] first_difference(a, b, k);
        assert(first_difference(b, a, k));
    }
}

/// Compares two 32-byte strings lexicographically.
pub fn compare_bytes32(a: &[u8; 32], b: &[u8; 32]) -> (c: Cmp)
    ensures
        (c is Less) == bytes_precede(a@, b@),
        (c is Equal) == (*a == *b),
        (c is Greater) == bytes_precede(b@, a@),
{
    let mut i: usize = 0;
    while i < 32
        invariant
            0 <= i <= 32,
            a@.len() == 32,
            b@.len() == 32,
            forall|j: int| 0 <= j < i ==> a@[j] == b@[j],
        decreases 32 - i,
    {
        if a[i] != b[i] {
            proof {
                assert(first_difference(a@, b@, i as int));
                assert(first_difference(b@, a@, i as int));
                lemma_bytes_irreflexive(a@);
                if bytes_precede(a@, b@) && bytes_precede(b@, a@) {
                    lemma_bytes_transitive(a@, b@, a@);
                }
            }
            if a[i] < b[i] {
                return Cmp::Less;
            } else {
                return Cmp::Greater;
            }
        }
        i = i + 1;
    }
    proof {
        assert(a@ =~= b@);
        assert(*a =~= *b);
        lemma_bytes_irreflexive(a@);
    }
    Cmp::Equal
}

impl Ordered for u32 {
    open spec fn precedes(self, other: Self) -> bool {
        self < other
    }

    proof fn lemma_irreflexive(a: Self) {
    }

    proof fn lemma_transitive(a: Self, b: Self, c: Self) {
    }

    proof fn lemma_total(a: Self, b: Self) {
    }

    fn compare(&self, other: &Self) -> (c: Cmp) {
        if *self < *other {
            Cmp::Less
        } else if *self == *other {
            Cmp::Equal
        } else {
            Cmp::Greater
        }
    }
}

/// `s` is in strictly increasing order.
pub open spec fn strictly_sorted<T: Ordered>(s: Seq<T>) -> bool {
    forall|i: int, j: int| 0 <= i < j < s.len() ==> (#[trigger] s[i]).precedes(#[trigger] s[j])
}

/// The binary search of the contract host on `s[left..right]`: probe the
/// middle, go right past a smaller probe, left before a larger one, and stop
/// at an equal one. `Err` carries the position where the search ended.
pub open spec fn search_from<T: Ordered>(s: Seq<T>, x: T, left: int, right: int) -> Result<
    int,
    int,
>
    decreases right - left,
{
    if 0 <= left < right <= s.len() {
        let mid = left + (right - left) / 2;
        if s[mid].precedes(x) {
            search_from(s, x, mid + 1, right)
        } else if x.precedes(s[mid]) {
            search_from(s, x, left, mid)
        } else {
            Ok(mid)
        }
    } else {
        Err(left)
    }
}

pub open spec fn search<T: Ordered>(s: Seq<T>, x: T) -> Result<int, int> {
    search_from(s, x, 0, s.len() as int)
}

/// On a strictly sorted sequence the search finds `x` exactly where it is,
/// and otherwise ends where `x` would be inserted.
pub proof fn lemma_search_from_sorted<T: Ordered>(s: Seq<T>, x: T, left: int, right: int)
    requires
        strictly_sorted(s),
        0 <= left <= right <= s.len(),
        forall|j: int| 0 <= j < left ==> (#[trigger] s[j]).precedes(x),
        forall|j: int| right <= j < s.len() ==> x.precedes(#[trigger] s[j]),
    ensures
        match search_from(s, x, left, right) {
            Ok(i) => 0 <= i < s.len() && s[i] == x,
            Err(i) => 0 <= i <= s.len() && (forall|j: int| 0 <= j < i ==> (#[trigger] s[j]).precedes(
                x)) && (forall|j: int| i <= j < s.len() ==> x.precedes(#[trigger] s[j])),
        },
    decreases right - left,
{
    if left < right {
        let mid = left + (right - left) / 2;
        if s[mid].precedes(x) {
            assert forall|j: int| 0 <= j < mid + 1 implies (#[trigger] s[j]).precedes(x) by {
                if left <= j < mid {
                    T::lemma_transitive(s[j], s[mid], x);
                }
            }
            lemma_search_from_sorted(s, x, mid + 1, right);
        } else if x.precedes(s[mid]) {
            assert forall|j: int| mid <= j < s.len() implies x.precedes(#[trigger] s[j]) by {
                if mid < j < right {
                    T::lemma_transitive(x, s[mid], s[j]);
                }
            }
            lemma_search_from_sorted(s, x, left, mid);
        } else {
            T::lemma_total(s[mid], x);
        }
    }
}

pub proof fn lemma_search_sorted<T: Ordered>(s: Seq<T>, x: T)
    requires
        strictly_sorted(s),
    ensures
        match search(s, x) {
            Ok(i) => 0 <= i < s.len() && s[i] == x,
            Err(i) => 0 <= i <= s.len() && !s.contains(x) && (forall|j: int|
                0 <= j < i ==> (#[trigger] s[j]).precedes(x)) && (forall|j: int|
                i <= j < s.len() ==> x.precedes(#[trigger] s[j])),
        },
{
    lemma_search_from_sorted(s, x, 0, s.len() as int);
    if let Err(i) = search(s, x) {
        if s.contains(x) {
            let j = choose|j: int| 0 <= j < s.len() && s[j] == x;
            T::lemma_irreflexive(x);
            if j < i {
                assert(s[j].precedes(x));
            } else {
                assert(x.precedes(s[j]));
            }
        }
    }
}

/// The binary search of the contract host on a vector: `Ok` with the index
/// of an element equal to `x`, or `Err` with the position where the search
/// ended.
pub fn binary_search<T: Ordered>(v: &Vec<T>, x: &T) -> (r: Result<usize, usize>)
    ensures
        match r {
            Ok(i) => search(v@, *x) == Ok::<int, int>(i as int) && i < v@.len(),
            Err(i) => search(v@, *x) == Err::<int, int>(i as int) && i <= v@.len(),
        },
{
    let mut left: usize = 0;
    let mut right: usize = v.len();
    while left < right
        invariant
            0 <= left <= right <= v.len(),
            search(v@, *x) == search_from(v@, *x, left as int, right as int),
        decreases right - left,
    {
        let size = right - left;
        let mid = left + size / 2;
        match v[mid].compare(x) {
            Cmp::Less => {
                left = mid + 1;
            },
            Cmp::Greater => {
                proof {
                    T::lemma_irreflexive(*x);
                    if v@[mid as int].precedes(*x) {
                        T::lemma_transitive(*x, v@[mid as int], *x);
                    }
                }
                right = mid;
            },
            Cmp::Equal => {
                proof {
                    T::lemma_irreflexive(*x);
                }
                return Ok(mid);
            },
        }
    }
    Err(left)
}

/// Inserting `x` where a search of a strictly sorted sequence ended keeps
/// it strictly sorted.
pub proof fn lemma_insert_sorted<T: Ordered>(s: Seq<T>, x: T, i: int)
    requires
        strictly_sorted(s),
        0 <= i <= s.len(),
        forall|j: int| 0 <= j < i ==> (#[trigger] s[j]).precedes(x),
        forall|j: int| i <= j < s.len() ==> x.precedes(#[trigger] s[j]),
    ensures
        strictly_sorted(s.insert(i, x)),
{
    let t = s.insert(i, x);
    assert forall|a: int, b: int| 0 <= a < b < t.len() implies (#[trigger] t[a]).precedes(
        #[trigger] t[b],
    ) by {
        if a < i && b == i {
        } else if a == i {
        } else if a < i && b > i {
            assert(t[b] == s[b - 1]);
        } else if a > i {
            assert(t[a] == s[a - 1] && t[b] == s[b - 1]);
        }
    }
}

/// Removing an element keeps a sequence strictly sorted.
pub proof fn lemma_remove_sorted<T: Ordered>(s: Seq<T>, i: int)
    requires
        strictly_sorted(s),
        0 <= i < s.len(),
    ensures
        strictly_sorted(s.remove(i)),
{
    let t = s.remove(i);
    assert forall|a: int, b: int| 0 <= a < b < t.len() implies (#[trigger] t[a]).precedes(
        #[trigger] t[b],
    ) by {
        if b < i {
        } else if a < i {
            assert(t[b] == s[b + 1]);
        } else {
            assert(t[a] == s[a + 1] && t[b] == s[b + 1]);
        }
    }
}

} // verus!
