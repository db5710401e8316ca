//! A stable merge sort of positions by keys that are sequences of `u64`,
//! ordered first by length and then lexicographically.
use vstd::prelude::*;

verus! {

/// `a` and `b` agree on every position below `k`.
pub open spec fn agree_below(a: Seq<u64>, b: Seq<u64>, k: int) -> bool {
    forall|m: int| 0 <= m < k ==> a[m] == b[m]
}

/// `k` is the first position where `a` and `b` differ, and there `a` is less.
pub open spec fn first_less_at(a: Seq<u64>, b: Seq<u64>, k: int) -> bool {
    &&& 0 <= k < a.len()
    &&& k < b.len()
    &&& agree_below(a, b, k)
    &&& a[k] < b[k]
}

/// The order of sort keys: a shorter key comes first; keys of one length are
/// compared lexicographically.
pub open spec fn shortlex_lt(a: Seq<u64>, b: Seq<u64>) -> bool {
    ||| a.len() < b.len()
    ||| (a.len() == b.len() && exists|k: int| #[trigger] first_less_at(a, b, k))
}

/// Position `i` goes before position `j`: its key is less, or the keys are
/// equal and `i` came first.
pub open spec fn goes_before(keys: Seq<Seq<u64>>, i: int, j: int) -> bool {
    ||| shortlex_lt(keys[i], keys[j])
    ||| (keys[i] == keys[j] && i < j)
}

/// Every position of `s` goes before every later one.
pub open spec fn strictly_sorted(keys: Seq<Seq<u64>>, s: Seq<usize>) -> bool {
    forall|a: int, b: int|
        0 <= a < b < s.len() ==> goes_before(keys, #[trigger] s[a] as int, #[trigger] s[b] as int)
}

/// `s` holds exactly the positions `lo..hi`.
pub open spec fn holds_range(s: Seq<usize>, lo: int, hi: int) -> bool {
    &&& s.len() == hi - lo
    &&& forall|x: usize| s.contains(x) <==> lo <= x < hi
}

proof fn lemma_first_diff(a: Seq<u64>, b: Seq<u64>, k: int)
    requires
        a.len() == b.len(),
        0 <= k <= a.len(),
        agree_below(a, b, k),
        !(a =~= b),
    ensures
        exists|m: int| first_less_at(a, b, m) || first_less_at(b, a, m),
    decreases a.len() - k,
{
    if k == a.len() {
        assert(a =~= b);
    } else if a[k] != b[k] {
        if a[k] < b[k] {
            assert(first_less_at(a, b, k));
        } else {
            assert(first_less_at(b, a, k));
        }
    } else {
        lemma_first_diff(a, b, k + 1);
    }
}

/// The key order is total: of two different keys, one is less.
pub proof fn lemma_shortlex_total(a: Seq<u64>, b: Seq<u64>)
    requires
        a != b,
    ensures
        shortlex_lt(a, b) || shortlex_lt(b, a),
{
    if a.len() == b.len() {
        lemma_first_diff(a, b, 0);
        let m = choose|m: int| first_less_at(a, b, m) || first_less_at(b, a, m);
        if first_less_at(a, b, m) {
            assert(shortlex_lt(a, b));
        } else {
            assert(shortlex_lt(b, a));
        }
    }
}

/// The key order is asymmetric.
pub proof fn lemma_shortlex_asym(a: Seq<u64>, b: Seq<u64>)
    requires
        shortlex_lt(a, b),
    ensures
        !shortlex_lt(b, a),
        a != b,
{
    if a.len() == b.len() {
        let k1 = choose|k: int| #[trigger] first_less_at(a, b, k);
        if exists|k: int| #[trigger] first_less_at(b, a, k) {
            let k2 = choose|k: int| #[trigger] first_less_at(b, a, k);
            if k1 < k2 {
                assert(b[k1] == a[k1]);
            } else if k2 < k1 {
                assert(a[k2] == b[k2]);
            }
        }
        assert(a[k1] != b[k1]);
    }
}

/// The key order is transitive.
pub proof fn lemma_shortlex_trans(a: Seq<u64>, b: Seq<u64>, c: Seq<u64>)
    requires
        shortlex_lt(a, b),
        shortlex_lt(b, c),
    ensures
        shortlex_lt(a, c),
{
    if a.len() == b.len() && b.len() == c.len() {
        let k1 = choose|k: int| #[trigger] first_less_at(a, b, k);
        let k2 = choose|k: int| #[trigger] first_less_at(b, c, k);
        let k = if k1 < k2 {
            k1
        } else {
            k2
        };
        assert(first_less_at(a, c, k));
    }
}

/// `goes_before` is a strict total order on positions.
pub proof fn lemma_goes_before_order(keys: Seq<Seq<u64>>, i: int, j: int, l: int)
    ensures
        i != j ==> goes_before(keys, i, j) || goes_before(keys, j, i),
        goes_before(keys, i, j) ==> !goes_before(keys, j, i),
        goes_before(keys, i, j) && goes_before(keys, j, l) ==> goes_before(keys, i, l),
{
    if i != j && keys[i] != keys[j] {
        lemma_shortlex_total(keys[i], keys[j]);
    }
    if shortlex_lt(keys[i], keys[j]) {
        lemma_shortlex_asym(keys[i], keys[j]);
    }
    if shortlex_lt(keys[j], keys[i]) {
        lemma_shortlex_asym(keys[j], keys[i]);
    }
    if goes_before(keys, i, j) && goes_before(keys, j, l) {
        if shortlex_lt(keys[i], keys[j]) && shortlex_lt(keys[j], keys[l]) {
            lemma_shortlex_trans(keys[i], keys[j], keys[l]);
        }
    }
}

/// Compares two keys: -1 if `a` is less, 0 if equal, 1 if greater.
pub fn shortlex_compare(a: &[u64], b: &[u64]) -> (r: i8)
    ensures
        r == -1 <==> shortlex_lt(a@, b@),
        r == 0 <==> a@ == b@,
        r == 1 <==> shortlex_lt(b@, a@),
{
    if a.len() < b.len() {
        proof {
            lemma_shortlex_asym(a@, b@);
        }
        return -1;
    }
    if b.len() < a.len() {
        proof {
            lemma_shortlex_asym(b@, a@);
        }
        return 1;
    }
    let n = a.len();
    let mut i: usize = 0;
    while i < n
        invariant
            n == a@.len(),
            n == b@.len(),
            i <= n,
            agree_below(a@, b@, i as int),
        decreases n - i,
    {
        if a[i] < b[i] {
            assert(first_less_at(a@, b@, i as int));
            proof {
                lemma_shortlex_asym(a@, b@);
            }
            return -1;
        }
        if b[i] < a[i] {
            assert(first_less_at(b@, a@, i as int));
            proof {
                lemma_shortlex_asym(b@, a@);
            }
            return 1;
        }
        i += 1;
    }
    assert(a@ =~= b@);
    proof {
        if exists|k: int| #[trigger] first_less_at(a@, b@, k) {
            let k = choose|k: int| #[trigger] first_less_at(a@, b@, k);
            assert(a@[k] == b@[k]);
        }
        if exists|k: int| #[trigger] first_less_at(b@, a@, k) {
            let k = choose|k: int| #[trigger] first_less_at(b@, a@, k);
            assert(a@[k] == b@[k]);
        }
    }
    0
}

/// The keys as sequences.
pub open spec fn key_seq(keys: Seq<Vec<u64>>) -> Seq<Seq<u64>> {
    keys.map_values(|k: Vec<u64>| k@)
}

/// Whether position `i` goes before position `j`.
fn before(keys: &Vec<Vec<u64>>, i: usize, j: usize) -> (r: bool)
    requires
        i < keys.len(),
        j < keys.len(),
    ensures
        r == goes_before(key_seq(keys@), i as int, j as int),
{
    let c = shortlex_compare(keys[i].as_slice(), keys[j].as_slice());
    c == -1 || (c == 0 && i < j)
}

proof fn lemma_contains_push(s: Seq<usize>, x: usize)
    ensures
        forall|y: usize| #[trigger] s.push(x).contains(y) <==> (s.contains(y) || y == x),
{
    assert forall|y: usize| #[trigger] s.push(x).contains(y) <==> (s.contains(y) || y == x) by {
        if s.contains(y) {
            let k = choose|k: int| 0 <= k < s.len() && s[k] == y;
            assert(s.push(x)[k] == y);
        }
        if y == x {
            assert(s.push(x)[s.len() as int] == y);
        }
        if s.push(x).contains(y) {
            let k = choose|k: int| 0 <= k < s.len() + 1 && s.push(x)[k] == y;
            if k < s.len() {
                assert(s[k] == y);
            }
        }
    }
}

/// Merges two sorted runs into one.
fn merge(keys: &Vec<Vec<u64>>, a: Vec<usize>, b: Vec<usize>) -> (r: Vec<usize>)
    requires
        forall|k: int| 0 <= k < a.len() ==> a@[k] < keys.len(),
        forall|k: int| 0 <= k < b.len() ==> b@[k] < keys.len(),
        strictly_sorted(key_seq(keys@), a@),
        strictly_sorted(key_seq(keys@), b@),
        forall|x: usize| a@.contains(x) ==> !b@.contains(x),
    ensures
        r.len() == a.len() + b.len(),
        forall|x: usize| r@.contains(x) <==> (a@.contains(x) || b@.contains(x)),
        strictly_sorted(key_seq(keys@), r@),
{
    let ghost ks = key_seq(keys@);
    let mut r: Vec<usize> = Vec::new();
    let mut i: usize = 0;
    let mut j: usize = 0;
    while i < a.len() || j < b.len()
        invariant
            ks == key_seq(keys@),
            forall|k: int| 0 <= k < a.len() ==> a@[k] < keys.len(),
            forall|k: int| 0 <= k < b.len() ==> b@[k] < keys.len(),
            strictly_sorted(ks, a@),
            strictly_sorted(ks, b@),
            forall|x: usize| a@.contains(x) ==> !b@.contains(x),
            i <= a.len(),
            j <= b.len(),
            r.len() == i + j,
            forall|x: usize|
                r@.contains(x) <==> (a@.subrange(0, i as int).contains(x) || b@.subrange(
                    0,
                    j as int,
                ).contains(x)),
            strictly_sorted(ks, r@),
            forall|k: int, m: int|
                0 <= k < r.len() && i <= m < a.len() ==> goes_before(ks, #[trigger] r@[k] as int, #[trigger] a@[m] as int),
            forall|k: int, m: int|
                0 <= k < r.len() && j <= m < b.len() ==> goes_before(ks, #[trigger] r@[k] as int, #[trigger] b@[m] as int),
        decreases a.len() + b.len() - i - j,
    {
        let take_a = if i < a.len() && j < b.len() {
            before(keys, a[i], b[j])
        } else {
            i < a.len()
        };
        let ghost old_r = r@;
        if take_a {
            let x = a[i];
            proof {
                assert forall|m: int| j <= m < b.len() implies goes_before(ks, x as int, #[trigger] b@[m] as int) by {
                    lemma_goes_before_order(ks, x as int, b@[j as int] as int, b@[m] as int);
                    if m != j {
                        assert(goes_before(ks, b@[j as int] as int, b@[m] as int));
                    }
                }
                assert forall|m: int| i < m < a.len() implies goes_before(ks, x as int, #[trigger] a@[m] as int) by {
                    assert(goes_before(ks, a@[i as int] as int, a@[m] as int));
                }
            }
            r.push(x);
            i += 1;
            proof {
                assert(a@.subrange(0, i as int) =~= a@.subrange(0, i - 1).push(x));
                lemma_contains_push(old_r, x);
                lemma_contains_push(a@.subrange(0, i - 1), x);
            }
        } else {
            let x = b[j];
            proof {
                if i < a.len() {
                    lemma_goes_before_order(ks, a@[i as int] as int, x as int, 0);
                    assert(a@[i as int] != x) by {
                        assert(a@.contains(a@[i as int]));
                        assert(b@.contains(x));
                    }
                }
                assert forall|m: int| i <= m < a.len() implies goes_before(ks, x as int, #[trigger] a@[m] as int) by {
                    lemma_goes_before_order(ks, x as int, a@[i as int] as int, a@[m] as int);
                    if m != i {
                        assert(goes_before(ks, a@[i as int] as int, a@[m] as int));
                    }
                }
                assert forall|m: int| j < m < b.len() implies goes_before(ks, x as int, #[trigger] b@[m] as int) by {
                    assert(goes_before(ks, b@[j as int] as int, b@[m] as int));
                }
            }
            r.push(x);
            j += 1;
            proof {
                assert(b@.subrange(0, j as int) =~= b@.subrange(0, j - 1).push(x));
                lemma_contains_push(old_r, x);
                lemma_contains_push(b@.subrange(0, j - 1), x);
            }
        }
    }
    assert(a@.subrange(0, i as int) =~= a@);
    assert(b@.subrange(0, j as int) =~= b@);
    r
}

fn sort_range(keys: &Vec<Vec<u64>>, lo: usize, hi: usize) -> (r: Vec<usize>)
    requires
        lo <= hi <= keys.len(),
    ensures
        holds_range(r@, lo as int, hi as int),
        strictly_sorted(key_seq(keys@), r@),
        forall|k: int| 0 <= k < r.len() ==> r@[k] < keys.len(),
    decreases hi - lo,
{
    if hi - lo <= 1 {
        let mut r: Vec<usize> = Vec::new();
        if hi - lo == 1 {
            r.push(lo);
        }
        proof {
            assert forall|x: usize| r@.contains(x) <==> lo <= x < hi by {
                if lo <= x < hi {
                    assert(r@[0] == x);
                }
            }
        }
        return r;
    }
    let mid = lo + (hi - lo) / 2;
    let a = sort_range(keys, lo, mid);
    let b = sort_range(keys, mid, hi);
    let r = merge(keys, a, b);
    proof {
        assert forall|k: int| 0 <= k < r.len() implies r@[k] < keys.len() by {
            assert(r@.contains(r@[k]));
        }
    }
    r
}

/// A strictly sorted sequence holds no position twice.
pub proof fn lemma_strictly_sorted_distinct(keys: Seq<Seq<u64>>, s: Seq<usize>)
    requires
        strictly_sorted(keys, s),
    ensures
        s.no_duplicates(),
{
    assert forall|a: int, b: int| 0 <= a < s.len() && 0 <= b < s.len() && a != b implies s[a] != s[b] by {
        let x = s[a] as int;
        if shortlex_lt(keys[x], keys[x]) {
            lemma_shortlex_asym(keys[x], keys[x]);
        }
        if a < b {
            assert(goes_before(keys, s[a] as int, s[b] as int));
        } else {
            assert(goes_before(keys, s[b] as int, s[a] as int));
        }
    }
}

/// The positions `0..keys.len()` in the order of their keys; positions with
/// equal keys keep their order.
pub fn sort_positions(keys: &Vec<Vec<u64>>) -> (r: Vec<usize>)
    ensures
        holds_range(r@, 0, keys.len() as int),
        strictly_sorted(key_seq(keys@), r@),
        r@.no_duplicates(),
{
    let r = sort_range(keys, 0, keys.len());
    proof {
        lemma_strictly_sorted_distinct(key_seq(keys@), r@);
    }
    r
}

} // verus!
