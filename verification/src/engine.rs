use vstd::prelude::*;
use vstd::multiset::Multiset;

verus! {

broadcast use vstd::std_specs::vec::group_vec_axioms;

/// The size threshold below which a range is sorted by insertion alone.
pub const MIN_MERGE: usize = 32;

/// An ordering relation for the sort engine: a relation over models that
/// holds one way or the other between any two models, decided on values by
/// `le`. Transitivity is not demanded of the relation itself; where it holds
/// on the values being sorted, the engine promises a sorted result.
pub trait TotalLe<T: View>: Sized {
    /// The relation, over models.
    spec fn leq(&self, a: T::V, b: T::V) -> bool;

    /// The relation holds one way or the other between any two models.
    proof fn lemma_connected(&self, a: T::V, b: T::V)
        ensures
            self.leq(a, b) || self.leq(b, a),
    ;

    /// Decides the relation on two values.
    fn le(&self, a: &T, b: &T) -> (r: bool)
        ensures
            r == self.leq(a@, b@),
    ;

    /// An observably equal copy of a value.
    fn dup(&self, a: &T) -> (r: T)
        ensures
            r@ == a@,
    ;
}

/// The models of the elements of a sequence.
pub open spec fn views_of<T: View>(s: Seq<T>) -> Seq<T::V> {
    s.map_values(|x: T| x@)
}

/// The multiset of models of the elements of a sequence.
pub open spec fn vmul<T: View>(s: Seq<T>) -> Multiset<T::V> {
    views_of(s).to_multiset()
}

/// The multiset of models of the elements of `s` at positions `[a, b)`.
pub open spec fn vmsub<T: View>(s: Seq<T>, a: int, b: int) -> Multiset<T::V> {
    vmul(s.subrange(a, b))
}

/// The relation `leq` is transitive on the models of the multiset `m`.
pub open spec fn trans_on<V>(m: Multiset<V>, leq: spec_fn(V, V) -> bool) -> bool {
    forall|x: V, y: V, z: V|
        m.contains(x) && m.contains(y) && m.contains(z) && #[trigger] leq(x, y) && #[trigger] leq(
            y,
            z,
        ) ==> leq(x, z)
}

/// The models of `s` at positions `[a, b)` stand in the relation of `c`,
/// position by position.
pub open spec fn sorted_range<T: View, C: TotalLe<T>>(c: C, s: Seq<T>, a: int, b: int) -> bool {
    forall|p: int, q: int|
        a <= p < q < b && 0 <= p && q < s.len() ==> #[trigger] c.leq(s[p]@, s[q]@)
}

/// The run length computed from `n`: `n` is halved until it drops below the
/// threshold, and one is added if any discarded bit was set.
pub open spec fn min_run_spec(n: int, r: int) -> int
    decreases n,
    when n >= 0
{
    if n < 32 {
        n + r
    } else {
        min_run_spec(n / 2, if n % 2 == 1 {
            1
        } else {
            r
        })
    }
}

pub proof fn lemma_min_run_bounds(n: int, r: int)
    requires
        n >= 1,
        0 <= r <= 1,
    ensures
        1 <= min_run_spec(n, r),
        min_run_spec(n, r) <= n + r,
    decreases n,
{
    if n >= 32 {
        lemma_min_run_bounds(n / 2, if n % 2 == 1 {
            1
        } else {
            r
        });
    }
}

/// The minimum run length for an input of size `n`: `n` itself below the
/// threshold, otherwise the halving rule of `min_run_spec`.
pub fn minimum_run_length(n: usize) -> (r: usize)
    ensures
        r as int == min_run_spec(n as int, 0),
        n < 32 ==> r == n,
        n >= 1 ==> 1 <= r <= n,
{
    let mut m: usize = n;
    let mut rem: usize = 0;
    while m >= MIN_MERGE
        invariant
            min_run_spec(m as int, rem as int) == min_run_spec(n as int, 0),
            rem <= 1,
            m <= n,
        decreases m,
    {
        if m % 2 == 1 {
            rem = 1;
        }
        m = m / 2;
    }
    proof {
        if n >= 1 {
            lemma_min_run_bounds(n as int, 0);
        }
    }
    m + rem
}

/// The relation of an ordering, as a function over models.
pub open spec fn rel_of<T: View, C: TotalLe<T>>(c: C) -> spec_fn(T::V, T::V) -> bool {
    |a: T::V, b: T::V| c.leq(a, b)
}

pub proof fn lemma_vmsub_contains<T: View>(s: Seq<T>, a: int, b: int, k: int)
    requires
        0 <= a <= k < b <= s.len(),
    ensures
        vmsub(s, a, b).contains(s[k]@),
{
    broadcast use vstd::seq_lib::group_to_multiset_ensures;

    let sub = s.subrange(a, b);
    let vs = views_of(sub);
    assert(vs[k - a] == s[k]@);
    assert(vs.contains(s[k]@));
}

pub proof fn lemma_views_split<T: View>(s: Seq<T>, a: int, b: int, c: int)
    requires
        0 <= a <= b <= c <= s.len(),
    ensures
        views_of(s.subrange(a, c)) == views_of(s.subrange(a, b)) + views_of(s.subrange(b, c)),
{
    assert(views_of(s.subrange(a, c)) =~= views_of(s.subrange(a, b)) + views_of(
        s.subrange(b, c),
    ));
}

pub proof fn lemma_vmsub_split<T: View>(s: Seq<T>, a: int, b: int, c: int)
    requires
        0 <= a <= b <= c <= s.len(),
    ensures
        vmsub(s, a, c) == vmsub(s, a, b).add(vmsub(s, b, c)),
{
    lemma_views_split(s, a, b, c);
    vstd::seq_lib::lemma_multiset_commutative(views_of(s.subrange(a, b)), views_of(s.subrange(b, c)));
}

pub proof fn lemma_vmul_swap<T: View>(s: Seq<T>, a: int, b: int)
    requires
        0 <= a < b < s.len(),
    ensures
        vmul(s.update(a, s[b]).update(b, s[a])) == vmul(s),
{
    broadcast use vstd::seq_lib::group_to_multiset_ensures;
    broadcast use vstd::multiset::group_multiset_axioms;

    let s1 = s.update(a, s[b]);
    let s2 = s1.update(b, s[a]);
    assert(views_of(s1) =~= views_of(s).update(a, s[b]@));
    assert(views_of(s2) =~= views_of(s1).update(b, s[a]@));
    let m0 = views_of(s).to_multiset();
    let va = s[a]@;
    let vb = s[b]@;
    assert(views_of(s)[a] == va && views_of(s)[b] == vb);
    assert(views_of(s1).to_multiset() == m0.remove(va).insert(vb));
    assert(views_of(s1)[b] == vb);
    assert(views_of(s2).to_multiset() == m0.remove(va).insert(vb).remove(vb).insert(va));
    assert(m0.contains(va));
    assert(m0.remove(va).insert(vb).remove(vb).insert(va) =~= m0);
}

pub proof fn lemma_vmsub_swap<T: View>(s: Seq<T>, lo: int, hi: int, a: int, b: int)
    requires
        0 <= lo <= a < b < hi <= s.len(),
    ensures
        vmsub(s.update(a, s[b]).update(b, s[a]), lo, hi) == vmsub(s, lo, hi),
{
    let sub = s.subrange(lo, hi);
    assert(s.update(a, s[b]).update(b, s[a]).subrange(lo, hi) =~= sub.update(a - lo, sub[b - lo]).update(
        b - lo,
        sub[a - lo],
    ));
    lemma_vmul_swap(sub, a - lo, b - lo);
}

/// Exchanges the elements at positions `a` and `b`.
fn swap_in_vec<T>(arr: &mut Vec<T>, a: usize, b: usize)
    requires
        a < b < old(arr).len(),
    ensures
        final(arr)@ == old(arr)@.update(a as int, old(arr)@[b as int]).update(
            b as int,
            old(arr)@[a as int],
        ),
{
    let vb = arr.remove(b);
    let va = arr.remove(a);
    arr.insert(a, vb);
    arr.insert(b, va);
    proof {
        assert(final(arr)@ =~= old(arr)@.update(a as int, old(arr)@[b as int]).update(
            b as int,
            old(arr)@[a as int],
        ));
    }
}

/// Sorts the positions `[left, right]` in place by insertion, moving each
/// element left past every strictly greater one. The multiset of models in
/// the range is kept, everything outside it is untouched, and where the
/// relation is transitive on the range the range comes out sorted.
pub fn insertion_sort<T: View, C: TotalLe<T>>(ord: &C, arr: &mut Vec<T>, left: usize, right: usize)
    requires
        left <= right < old(arr).len(),
    ensures
        final(arr)@.len() == old(arr)@.len(),
        forall|k: int|
            0 <= k < old(arr)@.len() && !(left <= k <= right) ==> final(arr)@[k] == old(arr)@[k],
        vmsub(final(arr)@, left as int, right + 1) == vmsub(old(arr)@, left as int, right + 1),
        trans_on(vmsub(old(arr)@, left as int, right + 1), rel_of(*ord)) ==> sorted_range(
            *ord,
            final(arr)@,
            left as int,
            right + 1,
        ),
{
    let ghost m0 = vmsub(old(arr)@, left as int, right + 1);
    let ghost hyp = trans_on(m0, rel_of(*ord));
    let mut i: usize = left + 1;
    while i <= right
        invariant
            left <= right < arr.len(),
            arr@.len() == old(arr)@.len(),
            left + 1 <= i <= right + 1,
            forall|k: int|
                0 <= k < arr@.len() && !(left <= k < i) ==> arr@[k] == old(arr)@[k],
            vmsub(arr@, left as int, right + 1) == m0,
            hyp == trans_on(m0, rel_of(*ord)),
            m0 == vmsub(old(arr)@, left as int, right + 1),
            hyp ==> sorted_range(*ord, arr@, left as int, i as int),
        decreases right + 1 - i,
    {
        let ghost pre = arr@;
        let ghost key_v = pre[i as int]@;
        let mut j: usize = i;
        loop
            invariant
                left <= j <= i <= right < arr.len(),
                arr@.len() == pre.len(),
                forall|k: int| 0 <= k < arr@.len() && !(j <= k <= i) ==> arr@[k] == pre[k],
                arr@[j as int]@ == key_v,
                forall|k: int| j < k <= i ==> arr@[k]@ == pre[k - 1]@,
                vmsub(arr@, left as int, right + 1) == m0,
                hyp == trans_on(m0, rel_of(*ord)),
                m0 == vmsub(old(arr)@, left as int, right + 1),
                hyp ==> forall|k: int| j < k <= i ==> !ord.leq(#[trigger] arr@[k]@, key_v),
                hyp ==> sorted_range(*ord, pre, left as int, i as int),
            ensures
                left <= j <= i,
                arr@.len() == pre.len(),
                forall|k: int| 0 <= k < arr@.len() && !(j <= k <= i) ==> arr@[k] == pre[k],
                arr@[j as int]@ == key_v,
                forall|k: int| j < k <= i ==> arr@[k]@ == pre[k - 1]@,
                vmsub(arr@, left as int, right + 1) == m0,
                hyp ==> forall|k: int| j < k <= i ==> !ord.leq(#[trigger] arr@[k]@, key_v),
                j == left || ord.leq(arr@[j - 1]@, key_v),
            decreases j,
        {
            if j == left {
                break;
            }
            if ord.le(&arr[j - 1], &arr[j]) {
                break;
            }
            let ghost before = arr@;
            swap_in_vec(arr, j - 1, j);
            proof {
                lemma_vmsub_swap(before, left as int, right + 1, j - 1, j as int);
            }
            j -= 1;
        }
        proof {
            if hyp {
                // The prefix up to and including the inserted element is sorted.
                assert forall|p: int, q: int|
                    left <= p < q < i + 1 && 0 <= p && q < arr@.len() implies ord.leq(
                    arr@[p]@,
                    arr@[q]@,
                ) by {
                    if q < j {
                        assert(ord.leq(pre[p]@, pre[q]@));
                    } else if q == j {
                        // p < j <= i, so j > left and the exit test gives the bound.
                        assert(ord.leq(arr@[j - 1]@, key_v));
                        if p < j - 1 {
                            assert(ord.leq(pre[p]@, pre[j - 1]@));
                            lemma_vmsub_contains(arr@, left as int, right + 1, p);
                            lemma_vmsub_contains(arr@, left as int, right + 1, j - 1);
                            lemma_vmsub_contains(arr@, left as int, right + 1, j as int);
                            assert(rel_of(*ord)(arr@[p]@, arr@[(j - 1) as int]@));
                            assert(rel_of(*ord)(arr@[(j - 1) as int]@, arr@[j as int]@));
                            assert(rel_of(*ord)(arr@[p]@, arr@[j as int]@));
                        }
                    } else if p == j {
                        assert(!ord.leq(arr@[q]@, key_v));
                        ord.lemma_connected(arr@[q]@, key_v);
                    } else if p < j {
                        // p < j < q <= i: arr[p] == pre[p], arr[q] == pre[q-1], p < q - 1.
                        assert(ord.leq(pre[p]@, pre[q - 1]@));
                    } else {
                        // j < p < q <= i
                        assert(ord.leq(pre[p - 1]@, pre[q - 1]@));
                    }
                }
            }
        }
        i += 1;
    }
}

proof fn lemma_written_push<T: View>(prev: Seq<T>, cur: Seq<T>, left: int, k: int, v: T)
    requires
        0 <= left <= k < cur.len(),
        prev.len() == cur.len(),
        cur == prev.update(k, v),
    ensures
        vmsub(cur, left, k + 1) == vmsub(prev, left, k).insert(v@),
{
    broadcast use vstd::seq_lib::group_to_multiset_ensures;

    assert(cur.subrange(left, k + 1) =~= prev.subrange(left, k).push(v));
    assert(views_of(cur.subrange(left, k + 1)) =~= views_of(prev.subrange(left, k)).push(v@));
}

proof fn lemma_prefix_push<T: View>(buf: Seq<T>, i: int)
    requires
        0 <= i < buf.len(),
    ensures
        vmul(buf.subrange(0, i + 1)) == vmul(buf.subrange(0, i)).insert(buf[i]@),
{
    broadcast use vstd::seq_lib::group_to_multiset_ensures;

    assert(buf.subrange(0, i + 1) =~= buf.subrange(0, i).push(buf[i]));
    assert(views_of(buf.subrange(0, i + 1)) =~= views_of(buf.subrange(0, i)).push(buf[i]@));
}

proof fn lemma_insert_add<V>(a: Multiset<V>, b: Multiset<V>, x: V)
    ensures
        a.insert(x).add(b) == a.add(b).insert(x),
        a.add(b.insert(x)) == a.add(b).insert(x),
{
    broadcast use vstd::multiset::group_multiset_axioms;

    assert(a.insert(x).add(b) =~= a.add(b).insert(x));
    assert(a.add(b.insert(x)) =~= a.add(b).insert(x));
}

/// Merges the two adjacent sorted runs at positions `[left, mid]` and
/// `[mid + 1, right]` into one, copying both runs out and interleaving them
/// back, taking the left element when it is no greater. The multiset of
/// models in the range is kept, everything outside it is untouched, and
/// where the relation is transitive on the range and both runs were sorted,
/// the whole range comes out sorted.
pub fn merge_runs<T: View, C: TotalLe<T>>(ord: &C, arr: &mut Vec<T>, left: usize, mid: usize, right: usize)
    requires
        left <= mid < right < old(arr).len(),
    ensures
        final(arr)@.len() == old(arr)@.len(),
        forall|k: int|
            0 <= k < old(arr)@.len() && !(left <= k <= right) ==> final(arr)@[k] == old(arr)@[k],
        vmsub(final(arr)@, left as int, right + 1) == vmsub(old(arr)@, left as int, right + 1),
        (trans_on(vmsub(old(arr)@, left as int, right + 1), rel_of(*ord)) && sorted_range(
            *ord,
            old(arr)@,
            left as int,
            mid + 1,
        ) && sorted_range(*ord, old(arr)@, mid + 1, right + 1)) ==> sorted_range(
            *ord,
            final(arr)@,
            left as int,
            right + 1,
        ),
{
    broadcast use vstd::seq_lib::group_to_multiset_ensures;

    let ghost m0 = vmsub(old(arr)@, left as int, right + 1);
    let ghost hyp = trans_on(m0, rel_of(*ord)) && sorted_range(
        *ord,
        old(arr)@,
        left as int,
        mid + 1,
    ) && sorted_range(*ord, old(arr)@, mid + 1, right + 1);

    let mut lbuf: Vec<T> = Vec::new();
    let mut p: usize = left;
    while p <= mid
        invariant
            left <= p <= mid + 1,
            left <= mid < right < arr.len(),
            arr@ == old(arr)@,
            lbuf@.len() == p - left,
            forall|q: int| 0 <= q < lbuf@.len() ==> (#[trigger] lbuf@[q]@) == arr@[left + q]@,
        decreases mid + 1 - p,
    {
        lbuf.push(ord.dup(&arr[p]));
        p += 1;
    }
    let mut rbuf: Vec<T> = Vec::new();
    let mut p: usize = mid + 1;
    while p <= right
        invariant
            mid + 1 <= p <= right + 1,
            left <= mid < right < arr.len(),
            arr@ == old(arr)@,
            rbuf@.len() == p - (mid + 1),
            forall|q: int| 0 <= q < rbuf@.len() ==> (#[trigger] rbuf@[q]@) == arr@[mid + 1 + q]@,
        decreases right + 1 - p,
    {
        rbuf.push(ord.dup(&arr[p]));
        p += 1;
    }
    let nl: usize = lbuf.len();
    let nr: usize = rbuf.len();
    proof {
        assert forall|q: int| 0 <= q < nl implies m0.contains(#[trigger] lbuf@[q]@) by {
            lemma_vmsub_contains(old(arr)@, left as int, right + 1, left + q);
        }
        assert forall|q: int| 0 <= q < nr implies m0.contains(#[trigger] rbuf@[q]@) by {
            lemma_vmsub_contains(old(arr)@, left as int, right + 1, mid + 1 + q);
        }
        assert(arr@.subrange(left as int, left as int) =~= Seq::<T>::empty());
        assert(lbuf@.subrange(0, 0) =~= Seq::<T>::empty());
        assert(rbuf@.subrange(0, 0) =~= Seq::<T>::empty());
        assert(views_of(Seq::<T>::empty()) =~= Seq::<T::V>::empty());
        Seq::<T::V>::empty().to_multiset_ensures();
        assert(vmul(Seq::<T>::empty()) =~= Multiset::<T::V>::empty());
        assert(Multiset::<T::V>::empty().add(Multiset::<T::V>::empty()) =~= Multiset::<T::V>::empty());
    }
    let mut i: usize = 0;
    let mut j: usize = 0;
    let mut k: usize = left;
    while i < nl && j < nr
        invariant
            nl == lbuf@.len() && nl == mid + 1 - left,
            nr == rbuf@.len() && nr == right - mid,
            left <= mid < right < arr.len(),
            arr@.len() == old(arr)@.len(),
            i <= nl,
            j <= nr,
            k == left + i + j,
            forall|q: int| 0 <= q < nl ==> (#[trigger] lbuf@[q]@) == old(arr)@[left + q]@,
            forall|q: int| 0 <= q < nr ==> (#[trigger] rbuf@[q]@) == old(arr)@[mid + 1 + q]@,
            forall|q: int| 0 <= q < nl ==> m0.contains(#[trigger] lbuf@[q]@),
            forall|q: int| 0 <= q < nr ==> m0.contains(#[trigger] rbuf@[q]@),
            forall|q: int|
                0 <= q < arr@.len() && !(left <= q <= right) ==> arr@[q] == old(arr)@[q],
            vmsub(arr@, left as int, k as int) == vmul(lbuf@.subrange(0, i as int)).add(
                vmul(rbuf@.subrange(0, j as int)),
            ),
            m0 == vmsub(old(arr)@, left as int, right + 1),
            hyp == (trans_on(m0, rel_of(*ord)) && sorted_range(
                *ord,
                old(arr)@,
                left as int,
                mid + 1,
            ) && sorted_range(*ord, old(arr)@, mid + 1, right + 1)),
            forall|q: int| left <= q < k ==> m0.contains(#[trigger] arr@[q]@),
            hyp ==> sorted_range(*ord, arr@, left as int, k as int),
            hyp && i < nl ==> (forall|q: int| left <= q < k ==> ord.leq(#[trigger] arr@[q]@, lbuf@[i as int]@)),
            hyp && j < nr ==> (forall|q: int| left <= q < k ==> ord.leq(#[trigger] arr@[q]@, rbuf@[j as int]@)),
        decreases nl + nr - i - j,
    {
        let ghost prev = arr@;
        if ord.le(&lbuf[i], &rbuf[j]) {
            let v = ord.dup(&lbuf[i]);
            arr.set(k, v);
            proof {
                lemma_written_push(prev, arr@, left as int, k as int, v);
                lemma_prefix_push(lbuf@, i as int);
                lemma_insert_add(
                    vmul(lbuf@.subrange(0, i as int)),
                    vmul(rbuf@.subrange(0, j as int)),
                    lbuf@[i as int]@,
                );
                if hyp {
                    if i + 1 < nl {
                        assert forall|q: int| left <= q < k + 1 implies ord.leq(
                            #[trigger] arr@[q]@,
                            lbuf@[i + 1]@,
                        ) by {
                            assert(ord.leq(lbuf@[i as int]@, lbuf@[i + 1]@));
                            if q < k {
                                assert(ord.leq(arr@[q]@, lbuf@[i as int]@));
                                assert(rel_of(*ord)(arr@[q]@, lbuf@[i as int]@));
                                assert(rel_of(*ord)(lbuf@[i as int]@, lbuf@[i + 1]@));
                                assert(rel_of(*ord)(arr@[q]@, lbuf@[i + 1]@));
                            }
                        }
                    }
                }
            }
            i += 1;
        } else {
            let v = ord.dup(&rbuf[j]);
            arr.set(k, v);
            proof {
                ord.lemma_connected(lbuf@[i as int]@, rbuf@[j as int]@);
                lemma_written_push(prev, arr@, left as int, k as int, v);
                lemma_prefix_push(rbuf@, j as int);
                lemma_insert_add(
                    vmul(lbuf@.subrange(0, i as int)),
                    vmul(rbuf@.subrange(0, j as int)),
                    rbuf@[j as int]@,
                );
                if hyp {
                    if j + 1 < nr {
                        assert forall|q: int| left <= q < k + 1 implies ord.leq(
                            #[trigger] arr@[q]@,
                            rbuf@[j + 1]@,
                        ) by {
                            assert(ord.leq(rbuf@[j as int]@, rbuf@[j + 1]@));
                            if q < k {
                                assert(ord.leq(arr@[q]@, rbuf@[j as int]@));
                                assert(rel_of(*ord)(arr@[q]@, rbuf@[j as int]@));
                                assert(rel_of(*ord)(rbuf@[j as int]@, rbuf@[j + 1]@));
                                assert(rel_of(*ord)(arr@[q]@, rbuf@[j + 1]@));
                            }
                        }
                    }
                }
            }
            j += 1;
        }
        k += 1;
    }
    while i < nl
        invariant
            nl == lbuf@.len() && nl == mid + 1 - left,
            nr == rbuf@.len() && nr == right - mid,
            left <= mid < right < arr.len(),
            arr@.len() == old(arr)@.len(),
            i <= nl,
            i == nl || j == nr,
            j <= nr,
            k == left + i + j,
            forall|q: int| 0 <= q < nl ==> (#[trigger] lbuf@[q]@) == old(arr)@[left + q]@,
            forall|q: int| 0 <= q < nl ==> m0.contains(#[trigger] lbuf@[q]@),
            forall|q: int|
                0 <= q < arr@.len() && !(left <= q <= right) ==> arr@[q] == old(arr)@[q],
            vmsub(arr@, left as int, k as int) == vmul(lbuf@.subrange(0, i as int)).add(
                vmul(rbuf@.subrange(0, j as int)),
            ),
            m0 == vmsub(old(arr)@, left as int, right + 1),
            hyp == (trans_on(m0, rel_of(*ord)) && sorted_range(
                *ord,
                old(arr)@,
                left as int,
                mid + 1,
            ) && sorted_range(*ord, old(arr)@, mid + 1, right + 1)),
            forall|q: int| left <= q < k ==> m0.contains(#[trigger] arr@[q]@),
            hyp ==> sorted_range(*ord, arr@, left as int, k as int),
            hyp && i < nl ==> (forall|q: int| left <= q < k ==> ord.leq(#[trigger] arr@[q]@, lbuf@[i as int]@)),
            hyp && j < nr ==> (forall|q: int| left <= q < k ==> ord.leq(#[trigger] arr@[q]@, rbuf@[j as int]@)),
            forall|q: int| 0 <= q < nr ==> (#[trigger] rbuf@[q]@) == old(arr)@[mid + 1 + q]@,
            forall|q: int| 0 <= q < nr ==> m0.contains(#[trigger] rbuf@[q]@),
        decreases nl - i,
    {
        let ghost prev = arr@;
        let v = ord.dup(&lbuf[i]);
        arr.set(k, v);
        proof {
            lemma_written_push(prev, arr@, left as int, k as int, v);
            lemma_prefix_push(lbuf@, i as int);
            lemma_insert_add(
                vmul(lbuf@.subrange(0, i as int)),
                vmul(rbuf@.subrange(0, j as int)),
                lbuf@[i as int]@,
            );
            if hyp {
                if i + 1 < nl {
                    assert forall|q: int| left <= q < k + 1 implies ord.leq(
                        #[trigger] arr@[q]@,
                        lbuf@[i + 1]@,
                    ) by {
                        assert(ord.leq(lbuf@[i as int]@, lbuf@[i + 1]@));
                        if q < k {
                            assert(ord.leq(arr@[q]@, lbuf@[i as int]@));
                            assert(rel_of(*ord)(arr@[q]@, lbuf@[i as int]@));
                            assert(rel_of(*ord)(lbuf@[i as int]@, lbuf@[i + 1]@));
                            assert(rel_of(*ord)(arr@[q]@, lbuf@[i + 1]@));
                        }
                    }
                }
            }
        }
        i += 1;
        k += 1;
    }
    while j < nr
        invariant
            nl == lbuf@.len() && nl == mid + 1 - left,
            nr == rbuf@.len() && nr == right - mid,
            left <= mid < right < arr.len(),
            arr@.len() == old(arr)@.len(),
            i == nl,
            j <= nr,
            k == left + i + j,
            forall|q: int| 0 <= q < nr ==> (#[trigger] rbuf@[q]@) == old(arr)@[mid + 1 + q]@,
            forall|q: int| 0 <= q < nr ==> m0.contains(#[trigger] rbuf@[q]@),
            forall|q: int|
                0 <= q < arr@.len() && !(left <= q <= right) ==> arr@[q] == old(arr)@[q],
            vmsub(arr@, left as int, k as int) == vmul(lbuf@.subrange(0, i as int)).add(
                vmul(rbuf@.subrange(0, j as int)),
            ),
            m0 == vmsub(old(arr)@, left as int, right + 1),
            hyp == (trans_on(m0, rel_of(*ord)) && sorted_range(
                *ord,
                old(arr)@,
                left as int,
                mid + 1,
            ) && sorted_range(*ord, old(arr)@, mid + 1, right + 1)),
            forall|q: int| left <= q < k ==> m0.contains(#[trigger] arr@[q]@),
            hyp ==> sorted_range(*ord, arr@, left as int, k as int),
            hyp && j < nr ==> (forall|q: int| left <= q < k ==> ord.leq(#[trigger] arr@[q]@, rbuf@[j as int]@)),
        decreases nr - j,
    {
        let ghost prev = arr@;
        let v = ord.dup(&rbuf[j]);
        arr.set(k, v);
        proof {
            lemma_written_push(prev, arr@, left as int, k as int, v);
            lemma_prefix_push(rbuf@, j as int);
            lemma_insert_add(
                vmul(lbuf@.subrange(0, i as int)),
                vmul(rbuf@.subrange(0, j as int)),
                rbuf@[j as int]@,
            );
            if hyp {
                if j + 1 < nr {
                    assert forall|q: int| left <= q < k + 1 implies ord.leq(
                        #[trigger] arr@[q]@,
                        rbuf@[j + 1]@,
                    ) by {
                        assert(ord.leq(rbuf@[j as int]@, rbuf@[j + 1]@));
                        if q < k {
                            assert(ord.leq(arr@[q]@, rbuf@[j as int]@));
                            assert(rel_of(*ord)(arr@[q]@, rbuf@[j as int]@));
                            assert(rel_of(*ord)(rbuf@[j as int]@, rbuf@[j + 1]@));
                            assert(rel_of(*ord)(arr@[q]@, rbuf@[j + 1]@));
                        }
                    }
                }
            }
        }
        j += 1;
        k += 1;
    }
    proof {
        assert(lbuf@.subrange(0, nl as int) =~= lbuf@);
        assert(rbuf@.subrange(0, nr as int) =~= rbuf@);
        assert(views_of(lbuf@) =~= views_of(old(arr)@.subrange(left as int, mid + 1)));
        assert(views_of(rbuf@) =~= views_of(old(arr)@.subrange(mid + 1, right + 1)));
        lemma_vmsub_split(old(arr)@, left as int, mid + 1, right + 1);
    }
}

pub proof fn lemma_vmul_is_full_vmsub<T: View>(s: Seq<T>)
    ensures
        vmul(s) == vmsub(s, 0, s.len() as int),
{
    assert(s.subrange(0, s.len() as int) =~= s);
}

pub proof fn lemma_vmul_contains<T: View>(s: Seq<T>, k: int)
    requires
        0 <= k < s.len(),
    ensures
        vmul(s).contains(s[k]@),
{
    lemma_vmul_is_full_vmsub(s);
    lemma_vmsub_contains(s, 0, s.len() as int, k);
}

/// Transitivity on the whole sequence gives transitivity on any subrange.
pub proof fn lemma_trans_on_subrange<T: View>(s: Seq<T>, a: int, b: int, leq: spec_fn(T::V, T::V) -> bool)
    requires
        trans_on(vmul(s), leq),
        0 <= a <= b <= s.len(),
    ensures
        trans_on(vmsub(s, a, b), leq),
{
    broadcast use vstd::seq_lib::group_to_multiset_ensures;

    assert forall|x: T::V| vmsub(s, a, b).contains(x) implies vmul(s).contains(x) by {
        let vs = views_of(s.subrange(a, b));
        assert(vs.contains(x));
        let q = choose|q: int| 0 <= q < vs.len() && vs[q] == x;
        assert(s[a + q]@ == x);
        lemma_vmul_contains(s, a + q);
    }
}

/// Two sequences equal outside a range, with equal multisets of models
/// inside it, have equal multisets of models overall.
pub proof fn lemma_vmul_splice<T: View>(s1: Seq<T>, s2: Seq<T>, a: int, b: int)
    requires
        s1.len() == s2.len(),
        0 <= a <= b <= s1.len(),
        forall|k: int| 0 <= k < s1.len() && !(a <= k < b) ==> s2[k] == s1[k],
        vmsub(s2, a, b) == vmsub(s1, a, b),
    ensures
        vmul(s2) == vmul(s1),
{
    let n = s1.len() as int;
    lemma_vmul_is_full_vmsub(s1);
    lemma_vmul_is_full_vmsub(s2);
    lemma_vmsub_split(s1, 0, a, n);
    lemma_vmsub_split(s1, a, b, n);
    lemma_vmsub_split(s2, 0, a, n);
    lemma_vmsub_split(s2, a, b, n);
    assert(s2.subrange(0, a) =~= s1.subrange(0, a));
    assert(s2.subrange(b, n) =~= s1.subrange(b, n));
}

/// Every two positions of the same aligned block of the given size stand in
/// the relation, position by position.
pub open spec fn blocks_sorted<T: View, C: TotalLe<T>>(c: C, s: Seq<T>, size: int) -> bool {
    forall|p: int, q: int|
        0 <= p < q < s.len() && p / size == q / size ==> #[trigger] c.leq(s[p]@, s[q]@)
}

proof fn lemma_same_block(b: int, size: int, p: int)
    requires
        size >= 1,
        b % size == 0,
        0 <= b <= p < b + size,
    ensures
        p / size == b / size,
{
    assert(p / size == b / size) by (nonlinear_arith)
        requires
            size >= 1,
            b % size == 0,
            0 <= b <= p < b + size,
    ;
}

proof fn lemma_block_floor(b: int, size: int, p: int)
    requires
        size >= 1,
        b % size == 0,
        0 <= b,
        0 <= p,
        p / size == b / size,
    ensures
        p >= b,
{
    assert(p >= b) by (nonlinear_arith)
        requires
            size >= 1,
            b % size == 0,
            0 <= b,
            0 <= p,
            p / size == b / size,
    ;
}

proof fn lemma_half_align(left: int, size: int)
    requires
        size >= 1,
        left >= 0,
        left % (2 * size) == 0,
    ensures
        left % size == 0,
{
    let span = 2 * size;
    vstd::arithmetic::div_mod::lemma_fundamental_div_mod(left, span);
    let t = left / span;
    assert(left == span * t);
    assert(span * t == (2 * t) * size) by (nonlinear_arith)
        requires
            span == 2 * size,
    ;
    vstd::arithmetic::div_mod::lemma_mod_multiples_basic(2 * t, size);
}

proof fn lemma_step_align(b: int, size: int)
    requires
        size >= 1,
        b >= 0,
        b % size == 0,
    ensures
        (b + size) % size == 0,
{
    vstd::arithmetic::div_mod::lemma_fundamental_div_mod(b, size);
    let t = b / size;
    assert(b + size == (t + 1) * size) by (nonlinear_arith)
        requires
            b == size * t,
    ;
    vstd::arithmetic::div_mod::lemma_mod_multiples_basic(t + 1, size);
}

/// Sorts the whole vector: insertion-sorts runs of the minimum run length,
/// then merges adjacent runs of doubling size. The multiset of models is
/// kept, and where the relation is transitive on the input the result is
/// sorted.
pub fn stable_sort<T: View, C: TotalLe<T>>(ord: &C, arr: &mut Vec<T>)
    requires
        old(arr).len() <= usize::MAX / 3,
    ensures
        final(arr)@.len() == old(arr)@.len(),
        vmul(final(arr)@) == vmul(old(arr)@),
        trans_on(vmul(old(arr)@), rel_of(*ord)) ==> sorted_range(
            *ord,
            final(arr)@,
            0,
            final(arr)@.len() as int,
        ),
{
    let n = arr.len();
    if n <= 1 {
        return ;
    }
    let min_run = minimum_run_length(n);
    let ghost m_all = vmul(old(arr)@);
    let ghost hyp = trans_on(m_all, rel_of(*ord));

    let mut start: usize = 0;
    while start < n
        invariant
            n == arr.len(),
            arr@.len() == n,
            2 <= n <= usize::MAX / 3,
            1 <= min_run <= n,
            start % min_run == 0,
            vmul(arr@) == m_all,
            m_all == vmul(old(arr)@),
            hyp == trans_on(m_all, rel_of(*ord)),
            hyp ==> forall|p: int, q: int|
                0 <= p < q < n && q < start && p / (min_run as int) == q / (min_run as int)
                    ==> #[trigger] ord.leq(arr@[p]@, arr@[q]@),
        decreases n + min_run - start,
    {
        let end = if start + min_run - 1 <= n - 1 {
            start + min_run - 1
        } else {
            n - 1
        };
        let ghost before = arr@;
        proof {
            if hyp {
                lemma_trans_on_subrange(before, start as int, end + 1, rel_of(*ord));
            }
        }
        insertion_sort(ord, arr, start, end);
        proof {
            lemma_vmul_splice(before, arr@, start as int, end + 1);
            if hyp {
                assert forall|p: int, q: int|
                    0 <= p < q < end + 1 && p / (min_run as int) == q / (min_run as int) implies #[trigger] ord.leq(
                    arr@[p]@,
                    arr@[q]@,
                ) by {
                    if q < start {
                        assert(arr@[p] == before[p] && arr@[q] == before[q]);
                    } else {
                        // p and q share a block and q lies in the fresh one,
                        // so both lie in [start, end].
                        lemma_same_block(start as int, min_run as int, q);
                        if p < start {
                            lemma_block_floor(start as int, min_run as int, p);
                            assert(false);
                        }
                        assert(sorted_range(*ord, arr@, start as int, end + 1));
                    }
                }
            }
        }
        start = start + min_run;
        proof {
            lemma_step_align(start as int - min_run, min_run as int);
        }
    }
    proof {
        if hyp {
            assert(blocks_sorted(*ord, arr@, min_run as int));
        }
    }

    let mut size: usize = min_run;
    while size < n
        invariant
            n == arr.len(),
            arr@.len() == n,
            2 <= n <= usize::MAX / 3,
            1 <= size,
            vmul(arr@) == m_all,
            m_all == vmul(old(arr)@),
            hyp == trans_on(m_all, rel_of(*ord)),
            hyp ==> blocks_sorted(*ord, arr@, size as int),
        decreases 2 * n - size,
    {
        let span = 2 * size;
        let mut left: usize = 0;
        while left < n
            invariant
                n == arr.len(),
                arr@.len() == n,
                2 <= n <= usize::MAX / 3,
                1 <= size < n,
                span == 2 * size,
                left % span == 0,
                vmul(arr@) == m_all,
                m_all == vmul(old(arr)@),
                hyp == trans_on(m_all, rel_of(*ord)),
                hyp ==> forall|p: int, q: int|
                    0 <= p < q < n && p / (span as int) == q / (span as int) && q < left
                        ==> #[trigger] ord.leq(arr@[p]@, arr@[q]@),
                hyp ==> forall|p: int, q: int|
                    0 <= p < q < n && p / (size as int) == q / (size as int) && left <= p
                        ==> #[trigger] ord.leq(arr@[p]@, arr@[q]@),
            decreases n + span - left,
        {
            let mid = left + size - 1;
            if mid + 1 <= n - 1 {
                let right = if left + span - 1 <= n - 1 {
                    left + span - 1
                } else {
                    n - 1
                };
                let ghost before = arr@;
                proof {
                    if hyp {
                        lemma_trans_on_subrange(before, left as int, right + 1, rel_of(*ord));
                        // Both halves of [left, right] lie in single size-blocks.
                        lemma_half_align(left as int, size as int);
                        assert forall|p: int, q: int|
                            left <= p < q < mid + 1 implies #[trigger] ord.leq(before[p]@, before[q]@) by {
                            lemma_same_block(left as int, size as int, p);
                            lemma_same_block(left as int, size as int, q);
                        }
                        lemma_step_align(left as int, size as int);
                        assert forall|p: int, q: int|
                            mid + 1 <= p < q < right + 1 implies #[trigger] ord.leq(before[p]@, before[q]@) by {
                            lemma_same_block(mid + 1, size as int, p);
                            lemma_same_block(mid + 1, size as int, q);
                        }
                        assert(sorted_range(*ord, before, left as int, mid + 1));
                        assert(sorted_range(*ord, before, mid + 1, right + 1));
                    }
                }
                merge_runs(ord, arr, left, mid, right);
                proof {
                    lemma_vmul_splice(before, arr@, left as int, right + 1);
                    if hyp {
                        assert forall|p: int, q: int|
                            0 <= p < q < n && p / (span as int) == q / (span as int) && q < left + span
                                implies #[trigger] ord.leq(arr@[p]@, arr@[q]@) by {
                            if q < left {
                                assert(arr@[p] == before[p] && arr@[q] == before[q]);
                            } else {
                                lemma_same_block(left as int, span as int, q);
                                if p < left {
                                    lemma_block_floor(left as int, span as int, p);
                                    assert(false);
                                }
                                // Both lie in [left, right]: right + 1 is n or left + span.
                                assert(sorted_range(*ord, arr@, left as int, right + 1));
                            }
                        }
                    }
                }
            } else {
                proof {
                    if hyp {
                        // The tail block is shorter than one run: already sorted.
                        lemma_half_align(left as int, size as int);
                        assert forall|p: int, q: int|
                            0 <= p < q < n && p / (span as int) == q / (span as int) && q < left + span
                                implies #[trigger] ord.leq(arr@[p]@, arr@[q]@) by {
                            if q < left {
                            } else {
                                lemma_same_block(left as int, span as int, q);
                                if p < left {
                                    lemma_block_floor(left as int, span as int, p);
                                    assert(false);
                                }
                                // n <= left + size here, so p and q share a size-block.
                                lemma_same_block(left as int, size as int, p);
                                lemma_same_block(left as int, size as int, q);
                            }
                        }
                    }
                }
            }
            left = left + span;
            proof {
                lemma_step_align(left as int - span, span as int);
            }
        }
        proof {
            if hyp {
                assert forall|p: int, q: int|
                    0 <= p < q < n && p / (span as int) == q / (span as int) implies #[trigger] ord.leq(
                    arr@[p]@,
                    arr@[q]@,
                ) by {}
                assert(blocks_sorted(*ord, arr@, span as int));
            }
        }
        size = span;
    }
    proof {
        if hyp {
            assert forall|p: int, q: int| 0 <= p < q < n implies #[trigger] ord.leq(arr@[p]@, arr@[q]@) by {
                assert(p / (size as int) == 0 && q / (size as int) == 0) by (nonlinear_arith)
                    requires
                        size >= n >= 2,
                        0 <= p < q < n,
                ;
            }
        }
    }
}

} // verus!
