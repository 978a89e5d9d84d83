use vstd::prelude::*;
use crate::compare::Rank;
use crate::compare::compare_values;
use crate::compare::flip;
use crate::compare::lemma_value_rank_flip;
use crate::compare::value_rank;
use crate::engine::TotalLe;
use crate::iteratee::IterModel;
use crate::iteratee::Iteratee;
use crate::iteratee::Order;
use crate::iteratee::apply_model;
use crate::value::ValModel;
use crate::value::Value;
use crate::value::models;

verus! {

broadcast use vstd::std_specs::vec::group_vec_axioms;

/// Comparison of two criteria vectors, position by position: the first
/// position whose values differ decides, reversed where its order directive
/// is descending; orders past the end of the directive list count as
/// ascending; full ties are equal.
pub open spec fn multi_rank(ca: Seq<ValModel>, cb: Seq<ValModel>, ords: Seq<Order>) -> Rank
    decreases ca.len(),
{
    if ca.len() == 0 || cb.len() == 0 {
        Rank::Equal
    } else {
        let c = value_rank(ca[0], cb[0]);
        if c == Rank::Equal {
            multi_rank(
                ca.drop_first(),
                cb.drop_first(),
                if ords.len() > 0 {
                    ords.drop_first()
                } else {
                    ords
                },
            )
        } else if ords.len() > 0 && ords[0] == Order::Descending {
            flip(c)
        } else {
            c
        }
    }
}

/// Comparing the same criteria the other way round flips the outcome.
pub proof fn lemma_multi_rank_flip(ca: Seq<ValModel>, cb: Seq<ValModel>, ords: Seq<Order>)
    ensures
        multi_rank(cb, ca, ords) == flip(multi_rank(ca, cb, ords)),
    decreases ca.len(),
{
    if ca.len() != 0 && cb.len() != 0 {
        lemma_value_rank_flip(ca[0], cb[0]);
        if value_rank(ca[0], cb[0]) == Rank::Equal {
            lemma_multi_rank_flip(
                ca.drop_first(),
                cb.drop_first(),
                if ords.len() > 0 {
                    ords.drop_first()
                } else {
                    ords
                },
            );
        }
    }
}

/// Decides `multi_rank` on two criteria vectors.
pub fn compare_multiple(a: &Vec<Value>, b: &Vec<Value>, ords: &Vec<Order>) -> (r: Rank)
    ensures
        r == multi_rank(models(a@), models(b@), ords@),
{
    let ghost ma = models(a@);
    let ghost mb = models(b@);
    let mut i: usize = 0;
    proof {
        assert(ma.skip(0) =~= ma);
        assert(mb.skip(0) =~= mb);
        assert(ords@.skip(0) =~= ords@);
    }
    while i < a.len() && i < b.len()
        invariant
            i <= a.len(),
            i <= b.len(),
            ma == models(a@),
            mb == models(b@),
            multi_rank(ma, mb, ords@) == multi_rank(
                ma.skip(i as int),
                mb.skip(i as int),
                ords@.skip(if i < ords@.len() {
                    i as int
                } else {
                    ords@.len() as int
                }),
            ),
        decreases a.len() - i,
    {
        let c = compare_values(&a[i], &b[i]);
        proof {
            assert(ma.skip(i as int)[0] == a@[i as int]@);
            assert(mb.skip(i as int)[0] == b@[i as int]@);
        }
        if !(c == Rank::Equal) {
            if i < ords.len() && orders_is_descending(&ords[i]) {
                return flip_rank(c);
            }
            return c;
        }
        proof {
            assert(ma.skip(i as int).drop_first() =~= ma.skip(i + 1));
            assert(mb.skip(i as int).drop_first() =~= mb.skip(i + 1));
            let oi: int = if i < ords@.len() {
                i as int
            } else {
                ords@.len() as int
            };
            if oi < ords@.len() {
                assert(ords@.skip(oi).drop_first() =~= ords@.skip(oi + 1));
            }
        }
        i += 1;
    }
    proof {
        if i >= a@.len() {
            assert(ma.skip(i as int).len() == 0);
        } else {
            assert(mb.skip(i as int).len() == 0);
        }
    }
    Rank::Equal
}

/// Whether the directive is descending.
fn orders_is_descending(o: &Order) -> (r: bool)
    ensures
        r == (*o == Order::Descending),
{
    match o {
        Order::Descending => true,
        Order::Ascending => false,
    }
}

/// The opposite outcome, on values.
fn flip_rank(r: Rank) -> (f: Rank)
    ensures
        f == flip(r),
{
    match r {
        Rank::Less => Rank::Greater,
        Rank::Equal => Rank::Equal,
        Rank::Greater => Rank::Less,
    }
}

/// One record prepared for sorting: the record, its extracted criteria, and
/// its position in the input.
pub struct CriteriaRecord {
    pub value: Value,
    pub criteria: Vec<Value>,
    pub index: usize,
}

/// The mathematical shape of a prepared record.
pub struct CriteriaModel {
    pub value: ValModel,
    pub criteria: Seq<ValModel>,
    pub index: int,
}

impl View for CriteriaRecord {
    type V = CriteriaModel;

    open spec fn view(&self) -> CriteriaModel {
        CriteriaModel {
            value: self.value@,
            criteria: models(self.criteria@),
            index: self.index as int,
        }
    }
}

/// The ordering of prepared records: by criteria under the order directives,
/// full ties broken by original position, which makes the sort stable.
pub struct CriteriaOrder {
    pub orders: Vec<Order>,
}

impl TotalLe<CriteriaRecord> for CriteriaOrder {
    open spec fn leq(&self, a: CriteriaModel, b: CriteriaModel) -> bool {
        multi_rank(a.criteria, b.criteria, self.orders@) == Rank::Less || (multi_rank(
            a.criteria,
            b.criteria,
            self.orders@,
        ) == Rank::Equal && a.index <= b.index)
    }

    proof fn lemma_connected(&self, a: CriteriaModel, b: CriteriaModel) {
        lemma_multi_rank_flip(a.criteria, b.criteria, self.orders@);
    }

    fn le(&self, a: &CriteriaRecord, b: &CriteriaRecord) -> (r: bool) {
        let c = compare_multiple(&a.criteria, &b.criteria, &self.orders);
        match c {
            Rank::Less => true,
            Rank::Greater => false,
            Rank::Equal => a.index <= b.index,
        }
    }

    fn dup(&self, a: &CriteriaRecord) -> (r: CriteriaRecord) {
        let value = a.value.duplicate();
        let mut criteria: Vec<Value> = Vec::new();
        let mut k: usize = 0;
        while k < a.criteria.len()
            invariant
                k <= a.criteria.len(),
                criteria@.len() == k,
                forall|q: int| 0 <= q < k ==> criteria@[q]@ == #[trigger] a.criteria@[q]@,
            decreases a.criteria.len() - k,
        {
            criteria.push(a.criteria[k].duplicate());
            k += 1;
        }
        proof {
            assert(models(criteria@) =~= models(a.criteria@));
        }
        CriteriaRecord { value, criteria, index: a.index }
    }
}

/// The models of a sequence of accessors.
pub open spec fn iter_models(s: Seq<Iteratee>) -> Seq<IterModel> {
    s.map_values(|it: Iteratee| it@)
}

/// The criteria vector of one record: one extracted key per accessor, or
/// the whole record as its own single criterion when none are given.
pub open spec fn criteria_of(v: ValModel, its: Seq<IterModel>) -> Seq<ValModel> {
    if its.len() == 0 {
        seq![v]
    } else {
        Seq::new(its.len(), |k: int| apply_model(its[k], v))
    }
}

/// How two records compare under the given accessors and directives.
pub open spec fn rank_of(a: ValModel, b: ValModel, its: Seq<IterModel>, ords: Seq<Order>) -> Rank {
    multi_rank(criteria_of(a, its), criteria_of(b, its), ords)
}

/// The comparison is transitive among the given records: no chain of two
/// non-greater outcomes ends greater. It holds of records whose compared
/// keys carry values of one type, and can fail where types mix, since
/// mismatched types compare as equal.
pub open spec fn comparable(items: Seq<ValModel>, its: Seq<IterModel>, ords: Seq<Order>) -> bool {
    forall|x: ValModel, y: ValModel, z: ValModel|
        items.contains(x) && items.contains(y) && items.contains(z) && #[trigger] rank_of(
            x,
            y,
            its,
            ords,
        ) != Rank::Greater && #[trigger] rank_of(y, z, its, ords) != Rank::Greater ==> rank_of(
            x,
            z,
            its,
            ords,
        ) != Rank::Greater
}

/// `outp` lists exactly the elements of `inp`, each once, at the positions
/// the permutation gives.
pub open spec fn arranged<A>(inp: Seq<A>, outp: Seq<A>, perm: Seq<int>) -> bool {
    &&& perm.len() == outp.len()
    &&& outp.len() == inp.len()
    &&& forall|k: int| 0 <= k < perm.len() ==> 0 <= #[trigger] perm[k] < inp.len()
    &&& forall|k: int, l: int| 0 <= k < l < perm.len() ==> perm[k] != perm[l]
    &&& forall|k: int| 0 <= k < perm.len() ==> outp[k] == inp[#[trigger] perm[k]]
}

/// The output is ordered by the criteria, and full ties stand in the order
/// the input gave them.
pub open spec fn sorted_stably(outp: Seq<ValModel>, perm: Seq<int>, its: Seq<IterModel>, ords: Seq<Order>) -> bool {
    forall|k: int, l: int|
        0 <= k < l < outp.len() ==> (#[trigger] rank_of(outp[k], outp[l], its, ords) == Rank::Less
            || (rank_of(outp[k], outp[l], its, ords) == Rank::Equal && perm[k] < perm[l]))
}

/// A rearrangement keeps the multiset of elements.
pub proof fn lemma_arrangement_multiset<A>(inp: Seq<A>, outp: Seq<A>, perm: Seq<int>)
    requires
        arranged(inp, outp, perm),
    ensures
        outp.to_multiset() == inp.to_multiset(),
    decreases outp.len(),
{
    broadcast use vstd::seq_lib::group_to_multiset_ensures;
    broadcast use vstd::multiset::group_multiset_axioms;

    let n = outp.len() as int;
    if n == 0 {
        assert(outp =~= inp);
    } else {
        let j = perm[n - 1];
        let v = outp[n - 1];
        let inp2 = inp.remove(j);
        assert(inp2 =~= inp.subrange(0, j) + inp.subrange(j + 1, n));
        assert(inp2.len() == n - 1);
        let outp2 = outp.drop_last();
        let perm2 = Seq::new((n - 1) as nat, |k: int| if perm[k] < j { perm[k] } else { perm[k] - 1 });
        assert forall|k: int| 0 <= k < perm2.len() implies outp2[k] == inp2[#[trigger] perm2[k]] by {
            assert(perm[k] != j);
            if perm[k] < j {
                assert(inp2[perm[k]] == inp[perm[k]]);
            } else {
                assert(inp2[perm[k] - 1] == inp[perm[k]]);
            }
        }
        assert forall|k: int, l: int| 0 <= k < l < perm2.len() implies perm2[k] != perm2[l] by {
            assert(perm[k] != perm[l]);
            assert(perm[k] != j && perm[l] != j);
        }
        lemma_arrangement_multiset(inp2, outp2, perm2);
        assert(outp2 =~= outp.remove(n - 1));
        assert(outp.remove(n - 1).to_multiset() == outp.to_multiset().remove(v));
        assert(inp2.to_multiset() == inp.to_multiset().remove(inp[j]));
        assert(outp.to_multiset().contains(v));
        assert(inp.to_multiset().contains(inp[j]));
        assert(outp.to_multiset().remove(v) == inp.to_multiset().remove(v));
        assert forall|x: A| true implies outp.to_multiset().count(x) == inp.to_multiset().count(
            x,
        ) by {
            if x == v {
                assert(outp.to_multiset().remove(v).count(v) == outp.to_multiset().count(v) - 1);
                assert(inp.to_multiset().remove(v).count(v) == inp.to_multiset().count(v) - 1);
            } else {
                assert(outp.to_multiset().remove(v).count(x) == outp.to_multiset().count(x));
                assert(inp.to_multiset().remove(v).count(x) == inp.to_multiset().count(x));
            }
        }
        assert(outp.to_multiset() =~= inp.to_multiset());
    }
}

/// Where the comparison is transitive among the records, the tie-broken
/// relation is transitive as well.
proof fn lemma_keyed_trans(
    items: Seq<ValModel>,
    its: Seq<IterModel>,
    ords: Seq<Order>,
    x: ValModel,
    ix: int,
    y: ValModel,
    iy: int,
    z: ValModel,
    iz: int,
)
    requires
        comparable(items, its, ords),
        items.contains(x),
        items.contains(y),
        items.contains(z),
        rank_of(x, y, its, ords) == Rank::Less || (rank_of(x, y, its, ords) == Rank::Equal && ix
            <= iy),
        rank_of(y, z, its, ords) == Rank::Less || (rank_of(y, z, its, ords) == Rank::Equal && iy
            <= iz),
    ensures
        rank_of(x, z, its, ords) == Rank::Less || (rank_of(x, z, its, ords) == Rank::Equal && ix
            <= iz),
{
    lemma_multi_rank_flip(criteria_of(x, its), criteria_of(y, its), ords);
    lemma_multi_rank_flip(criteria_of(y, its), criteria_of(z, its), ords);
    lemma_multi_rank_flip(criteria_of(x, its), criteria_of(z, its), ords);
    let rxy = rank_of(x, y, its, ords);
    let ryz = rank_of(y, z, its, ords);
    let rxz = rank_of(x, z, its, ords);
    assert(rxz != Rank::Greater);
    if rxy == Rank::Less && ryz == Rank::Less {
        if rxz == Rank::Equal {
            // z is no greater than x, and x no greater than y, so z would be
            // no greater than y; yet y is strictly less than z.
            assert(rank_of(z, x, its, ords) != Rank::Greater);
            assert(rank_of(x, y, its, ords) != Rank::Greater);
            assert(rank_of(z, y, its, ords) != Rank::Greater);
            assert(rank_of(z, y, its, ords) == Rank::Greater);
        }
    } else if rxy == Rank::Less && ryz == Rank::Equal {
        if rxz == Rank::Equal {
            assert(rank_of(y, z, its, ords) != Rank::Greater);
            assert(rank_of(z, x, its, ords) != Rank::Greater);
            assert(rank_of(y, x, its, ords) != Rank::Greater);
            assert(rank_of(y, x, its, ords) == Rank::Greater);
        }
    } else if rxy == Rank::Equal && ryz == Rank::Less {
        if rxz == Rank::Equal {
            assert(rank_of(z, x, its, ords) != Rank::Greater);
            assert(rank_of(x, y, its, ords) != Rank::Greater);
            assert(rank_of(z, y, its, ords) != Rank::Greater);
            assert(rank_of(z, y, its, ords) == Rank::Greater);
        }
    }
}

/// Orders the records of a sequence by the given accessors, each in its own
/// direction, keeping full ties in input order. A value that is not a
/// sequence yields an empty result. The output is a rearrangement of the
/// input; where the comparison is transitive among the records, it is the
/// stably sorted one.
pub fn order_by(collection: &Value, iteratees: &Vec<Iteratee>, orders: &Vec<Order>) -> (r: Vec<Value>)
    requires
        collection@ matches ValModel::List(items) ==> items.len() <= usize::MAX / 3,
    ensures
        collection@ matches ValModel::List(items) ==> {
            &&& r@.len() == items.len()
            &&& models(r@).to_multiset() == items.to_multiset()
            &&& exists|perm: Seq<int>|
                #[trigger] arranged(items, models(r@), perm) && (comparable(
                    items,
                    iter_models(iteratees@),
                    orders@,
                ) ==> sorted_stably(models(r@), perm, iter_models(iteratees@), orders@))
        },
        !(collection@ is List) ==> r@.len() == 0,
{
    broadcast use crate::value::lemma_model_of_composite;
    broadcast use vstd::seq_lib::group_to_multiset_ensures;

    let items = match collection {
        Value::List(items) => items,
        _ => {
            return Vec::new();
        },
    };
    let ghost inp = models(items@);
    let ghost ims = iter_models(iteratees@);
    let n = items.len();

    // Extracting: one criteria vector per record, tagged with its position.
    let mut records: Vec<CriteriaRecord> = Vec::new();
    let mut i: usize = 0;
    while i < n
        invariant
            n == items@.len(),
            i <= n,
            inp == models(items@),
            ims == iter_models(iteratees@),
            records@.len() == i,
            forall|k: int|
                0 <= k < i ==> (#[trigger] records@[k]@) == (CriteriaModel {
                    value: inp[k],
                    criteria: criteria_of(inp[k], ims),
                    index: k,
                }),
        decreases n - i,
    {
        let mut crit: Vec<Value> = Vec::new();
        if iteratees.len() == 0 {
            crit.push(items[i].duplicate());
            proof {
                assert(models(crit@) =~= seq![inp[i as int]]);
            }
        } else {
            let mut k: usize = 0;
            while k < iteratees.len()
                invariant
                    k <= iteratees@.len(),
                    i < items@.len(),
                    inp == models(items@),
                    ims == iter_models(iteratees@),
                    crit@.len() == k,
                    forall|q: int|
                        0 <= q < k ==> (#[trigger] crit@[q]@) == apply_model(
                            ims[q],
                            inp[i as int],
                        ),
                decreases iteratees@.len() - k,
            {
                crit.push(iteratees[k].apply(&items[i]));
                k += 1;
            }
            proof {
                assert(models(crit@) =~= Seq::new(
                    ims.len(),
                    |q: int| apply_model(ims[q], inp[i as int]),
                ));
            }
        }
        records.push(CriteriaRecord { value: items[i].duplicate(), criteria: crit, index: i });
        i += 1;
    }
    let ghost before = records@;

    let mut ovec: Vec<Order> = Vec::new();
    let mut k: usize = 0;
    while k < orders.len()
        invariant
            k <= orders@.len(),
            ovec@.len() == k,
            forall|q: int| 0 <= q < k ==> #[trigger] ovec@[q] == orders@[q],
        decreases orders@.len() - k,
    {
        ovec.push(orders[k]);
        k += 1;
    }
    proof {
        assert(ovec@ =~= orders@);
    }
    let ctx = CriteriaOrder { orders: ovec };

    proof {
        if comparable(inp, ims, orders@) {
            assert forall|x: CriteriaModel, y: CriteriaModel, z: CriteriaModel|
                crate::engine::vmul(before).contains(x) && crate::engine::vmul(before).contains(y)
                    && crate::engine::vmul(before).contains(z) && #[trigger] crate::engine::rel_of(
                ctx,
            )(x, y) && #[trigger] crate::engine::rel_of(ctx)(y, z) implies crate::engine::rel_of(
                ctx,
            )(x, z) by {
                let vb = crate::engine::views_of(before);
                assert(vb.contains(x) && vb.contains(y) && vb.contains(z));
                let kx = choose|q: int| 0 <= q < vb.len() && vb[q] == x;
                let ky = choose|q: int| 0 <= q < vb.len() && vb[q] == y;
                let kz = choose|q: int| 0 <= q < vb.len() && vb[q] == z;
                assert(x == before[kx]@ && y == before[ky]@ && z == before[kz]@);
                assert(inp.contains(inp[kx]) && inp.contains(inp[ky]) && inp.contains(inp[kz]));
                lemma_keyed_trans(
                    inp,
                    ims,
                    orders@,
                    x.value,
                    x.index,
                    y.value,
                    y.index,
                    z.value,
                    z.index,
                );
            }
            assert(crate::engine::trans_on(
                crate::engine::vmul(before),
                crate::engine::rel_of(ctx),
            ));
        }
    }

    // Sorting.
    crate::engine::stable_sort(&ctx, &mut records);
    let ghost after = records@;

    // Unwrapping: project each record back to its value.
    let mut out: Vec<Value> = Vec::new();
    let mut k: usize = 0;
    while k < records.len()
        invariant
            k <= records@.len(),
            after == records@,
            out@.len() == k,
            forall|q: int| 0 <= q < k ==> (#[trigger] out@[q]@) == after[q]@.value,
        decreases records@.len() - k,
    {
        out.push(records[k].value.duplicate());
        k += 1;
    }

    let ghost perm = Seq::new(after.len(), |q: int| after[q]@.index);
    proof {
        let outm = models(out@);
        let vb = crate::engine::views_of(before);
        let va = crate::engine::views_of(after);
        assert(va.to_multiset() == vb.to_multiset());
        assert forall|q: int| 0 <= q < after.len() implies 0 <= #[trigger] perm[q] < inp.len()
            && after[q]@ == before[perm[q]]@ by {
            crate::engine::lemma_vmul_contains(after, q);
            assert(vb.contains(after[q]@));
            let w = choose|w: int| 0 <= w < vb.len() && vb[w] == after[q]@;
            assert(before[w]@ == after[q]@);
            assert(before[w]@.index == w);
        }
        assert forall|q: int, l: int| 0 <= q < l < perm.len() implies perm[q] != perm[l] by {
            if perm[q] == perm[l] {
                let v = after[q]@;
                assert(after[q]@ == before[perm[q]]@ && after[l]@ == before[perm[l]]@);
                assert(after[l]@ == v);
                assert forall|a: int, b: int|
                    0 <= a < vb.len() && 0 <= b < vb.len() && a != b implies vb[a] != vb[b] by {
                    assert(before[a]@.index == a && before[b]@.index == b);
                }
                assert(vb.no_duplicates());
                vb.lemma_multiset_has_no_duplicates();
                crate::engine::lemma_vmul_contains(after, q);
                assert(vb.to_multiset().contains(v));
                assert(vb.to_multiset().count(v) == 1);
                let va2 = va.remove(l);
                assert(va2.to_multiset() == va.to_multiset().remove(v));
                assert(va2[q] == v);
                assert(va2.contains(v));
                assert(va2.to_multiset().count(v) >= 1);
                assert(va.to_multiset().count(v) >= 2);
            }
        }
        assert(arranged(inp, outm, perm));
        lemma_arrangement_multiset(inp, outm, perm);
        if comparable(inp, ims, orders@) {
            assert forall|q: int, l: int| 0 <= q < l < outm.len() implies (#[trigger] rank_of(
                outm[q],
                outm[l],
                ims,
                orders@,
            ) == Rank::Less || (rank_of(outm[q], outm[l], ims, orders@) == Rank::Equal && perm[q]
                < perm[l])) by {
                assert(crate::engine::sorted_range(ctx, after, 0, after.len() as int));
                assert(ctx.leq(after[q]@, after[l]@));
                assert(0 <= perm[q] < inp.len() && after[q]@ == before[perm[q]]@);
                assert(0 <= perm[l] < inp.len() && after[l]@ == before[perm[l]]@);
                assert(after[q]@.criteria == criteria_of(outm[q], ims));
                assert(after[l]@.criteria == criteria_of(outm[l], ims));
            }
            assert(sorted_stably(outm, perm, ims, orders@));
        }
    }
    out
}

/// The tie-broken relation on tagged records: by criteria first, then by tag.
pub open spec fn keyed_le(a: (ValModel, int), b: (ValModel, int), its: Seq<IterModel>, ords: Seq<Order>) -> bool {
    rank_of(a.0, b.0, its, ords) == Rank::Less || (rank_of(a.0, b.0, its, ords) == Rank::Equal
        && a.1 <= b.1)
}

/// A record ties with itself.
pub proof fn lemma_rank_refl(x: ValModel, its: Seq<IterModel>, ords: Seq<Order>)
    ensures
        rank_of(x, x, its, ords) == Rank::Equal,
{
    lemma_multi_rank_flip(criteria_of(x, its), criteria_of(x, its), ords);
}

/// Two sequences of tagged records with the same multiset, both ordered by
/// the tie-broken relation and with no tag repeated, are the same sequence.
pub proof fn lemma_keyed_sorted_unique(
    a: Seq<(ValModel, int)>,
    b: Seq<(ValModel, int)>,
    its: Seq<IterModel>,
    ords: Seq<Order>,
)
    requires
        a.to_multiset() == b.to_multiset(),
        forall|k: int, l: int| 0 <= k < l < a.len() ==> #[trigger] keyed_le(a[k], a[l], its, ords),
        forall|k: int, l: int| 0 <= k < l < b.len() ==> #[trigger] keyed_le(b[k], b[l], its, ords),
        forall|k: int, l: int| 0 <= k < l < a.len() ==> a[k].1 != a[l].1,
        forall|k: int, l: int| 0 <= k < l < b.len() ==> b[k].1 != b[l].1,
    ensures
        a == b,
    decreases a.len(),
{
    broadcast use vstd::seq_lib::group_to_multiset_ensures;
    broadcast use vstd::multiset::group_multiset_axioms;

    assert(a.to_multiset().len() == a.len());
    assert(b.to_multiset().len() == b.len());
    if a.len() == 0 {
        assert(b.len() == 0);
        assert(a =~= b);
    } else {
        assert(b.len() == a.len());
        assert(a.to_multiset().contains(a[0]));
        assert(b.to_multiset().contains(a[0]));
        assert(b.contains(a[0]));
        let m = choose|m: int| 0 <= m < b.len() && b[m] == a[0];
        assert(b.to_multiset().contains(b[0]));
        assert(a.to_multiset().contains(b[0]));
        assert(a.contains(b[0]));
        let p = choose|p: int| 0 <= p < a.len() && a[p] == b[0];
        lemma_rank_refl(a[0].0, its, ords);
        lemma_rank_refl(b[0].0, its, ords);
        assert(keyed_le(a[0], b[0], its, ords));
        assert(keyed_le(b[0], a[0], its, ords));
        lemma_multi_rank_flip(criteria_of(a[0].0, its), criteria_of(b[0].0, its), ords);
        assert(a[0].1 == b[0].1);
        assert(m == 0);
        assert(a[0] == b[0]);
        let a2 = a.drop_first();
        let b2 = b.drop_first();
        assert(a2 =~= a.remove(0));
        assert(b2 =~= b.remove(0));
        assert(a2.to_multiset() == a.to_multiset().remove(a[0]));
        assert(b2.to_multiset() == b.to_multiset().remove(b[0]));
        lemma_keyed_sorted_unique(a2, b2, its, ords);
        assert forall|k: int| 0 <= k < a.len() implies a[k] == b[k] by {
            if k > 0 {
                assert(a2[k - 1] == b2[k - 1]);
            }
        }
        assert(a =~= b);
    }
}

/// Stability: two records whose criteria fully tie come out in the order
/// the input gave them.
pub proof fn lemma_order_by_stable(
    inp: Seq<ValModel>,
    outp: Seq<ValModel>,
    perm: Seq<int>,
    its: Seq<IterModel>,
    ords: Seq<Order>,
    ki: int,
    kj: int,
)
    requires
        arranged(inp, outp, perm),
        sorted_stably(outp, perm, its, ords),
        0 <= ki < outp.len(),
        0 <= kj < outp.len(),
        ki != kj,
        perm[ki] < perm[kj],
        rank_of(inp[perm[ki]], inp[perm[kj]], its, ords) == Rank::Equal,
    ensures
        ki < kj,
{
    if kj < ki {
        lemma_multi_rank_flip(
            criteria_of(inp[perm[ki]], its),
            criteria_of(inp[perm[kj]], its),
            ords,
        );
        assert(rank_of(outp[kj], outp[ki], its, ords) == Rank::Equal);
        assert(perm[kj] < perm[ki]);
    }
}

/// Transitivity of the comparison carries over to any rearrangement.
pub proof fn lemma_comparable_transfer(
    items1: Seq<ValModel>,
    items2: Seq<ValModel>,
    its: Seq<IterModel>,
    ords: Seq<Order>,
)
    requires
        comparable(items1, its, ords),
        items2.to_multiset() == items1.to_multiset(),
    ensures
        comparable(items2, its, ords),
{
    broadcast use vstd::seq_lib::group_to_multiset_ensures;

    assert forall|x: ValModel| items2.contains(x) implies items1.contains(x) by {
        assert(items2.to_multiset().contains(x));
    }
}

/// Idempotence: ordering a sequence that is already ordered, with full ties
/// in input order, gives the sequence back unchanged.
pub proof fn lemma_order_by_idempotent(
    inp: Seq<ValModel>,
    outp: Seq<ValModel>,
    perm: Seq<int>,
    its: Seq<IterModel>,
    ords: Seq<Order>,
)
    requires
        arranged(inp, outp, perm),
        sorted_stably(outp, perm, its, ords),
        forall|k: int, l: int|
            0 <= k < l < inp.len() ==> #[trigger] rank_of(inp[k], inp[l], its, ords)
                != Rank::Greater,
    ensures
        outp == inp,
{
    let a = Seq::new(outp.len(), |k: int| (outp[k], perm[k]));
    let b = Seq::new(inp.len(), |k: int| (inp[k], k));
    assert forall|k: int| 0 <= k < a.len() implies a[k] == b[perm[k]] by {}
    lemma_arrangement_multiset(b, a, perm);
    assert forall|k: int, l: int| 0 <= k < l < a.len() implies #[trigger] keyed_le(
        a[k],
        a[l],
        its,
        ords,
    ) by {}
    assert forall|k: int, l: int| 0 <= k < l < b.len() implies #[trigger] keyed_le(
        b[k],
        b[l],
        its,
        ords,
    ) by {
        assert(rank_of(inp[k], inp[l], its, ords) != Rank::Greater);
    }
    lemma_keyed_sorted_unique(a, b, its, ords);
    assert forall|k: int| 0 <= k < outp.len() implies outp[k] == inp[k] by {
        assert(a[k] == b[k]);
    }
    assert(outp =~= inp);
}

/// Ordering twice is ordering once: a second pass over an already-ordered
/// result gives it back unchanged, whenever the comparison is transitive on
/// the records.
pub proof fn lemma_order_by_twice(
    inp: Seq<ValModel>,
    mid: Seq<ValModel>,
    outp: Seq<ValModel>,
    perm1: Seq<int>,
    perm2: Seq<int>,
    its: Seq<IterModel>,
    ords: Seq<Order>,
)
    requires
        comparable(inp, its, ords),
        arranged(inp, mid, perm1),
        sorted_stably(mid, perm1, its, ords),
        arranged(mid, outp, perm2),
        comparable(mid, its, ords) ==> sorted_stably(outp, perm2, its, ords),
    ensures
        outp == mid,
{
    lemma_arrangement_multiset(inp, mid, perm1);
    lemma_comparable_transfer(inp, mid, its, ords);
    assert forall|k: int, l: int|
        0 <= k < l < mid.len() implies #[trigger] rank_of(mid[k], mid[l], its, ords)
        != Rank::Greater by {
        assert(rank_of(mid[k], mid[l], its, ords) == Rank::Less || rank_of(
            mid[k],
            mid[l],
            its,
            ords,
        ) == Rank::Equal);
    }
    lemma_order_by_idempotent(mid, outp, perm2, its, ords);
}

} // verus!
