//! Keeping the torrent list in step with the server: a full listing replaces
//! it, a partial listing (the recently active torrents) removes the torrents
//! that the server reports as removed and merges the rows it sends.
use vstd::prelude::*;

verus! {

/// Where a row of the list comes from: the list before the update (by index)
/// or the rows of the update (by index).
#[derive(Clone, Copy)]
pub enum Origin {
    Old(usize),
    New(usize),
}

/// A row of the updated list: the row it was created from and, when a row of
/// the update refreshed it, that row. A refreshed row keeps its name and id
/// and takes every other field from the refreshing row.
#[derive(Clone, Copy)]
pub struct Slot {
    pub origin: Origin,
    pub refreshed_by: Option<usize>,
}

/// The torrent id of a row.
pub open spec fn origin_id(o: Origin, old: Seq<i64>, upd: Seq<i64>) -> i64 {
    match o {
        Origin::Old(i) => old[i as int],
        Origin::New(k) => upd[k as int],
    }
}

pub open spec fn slot_id(s: Slot, old: Seq<i64>, upd: Seq<i64>) -> i64 {
    origin_id(s.origin, old, upd)
}

/// Every index of the slots is in range.
pub open spec fn slots_in_range(l: Seq<Slot>, old_len: int, upd_len: int) -> bool {
    forall|j: int|
        0 <= j < l.len() ==> match (#[trigger] l[j]).origin {
            Origin::Old(i) => i < old_len,
            Origin::New(k) => k < upd_len,
        } && match l[j].refreshed_by {
            Some(k) => k < upd_len,
            None => true,
        }
}

/// `order` lists the indices `0..ids.len()` sorted by id, equal ids in the
/// order of their indices (a stable sort).
pub open spec fn stable_order(order: Seq<usize>, ids: Seq<i64>) -> bool {
    &&& order.len() == ids.len()
    &&& forall|a: int| 0 <= a < order.len() ==> #[trigger] order[a] < ids.len()
    &&& forall|k: usize| k < ids.len() ==> #[trigger] order.contains(k)
    &&& forall|a: int, b: int|
        0 <= a < b < order.len() ==> ids[#[trigger] order[a] as int] < ids[#[trigger] order[b] as int]
            || (ids[order[a] as int] == ids[order[b] as int] && order[a] < order[b])
}

/// The rows of the old list whose ids are not in `removed`, in order.
pub open spec fn kept_rows(old: Seq<i64>, removed: Seq<i64>) -> Seq<Slot>
    decreases old.len(),
{
    if old.len() == 0 {
        seq![]
    } else {
        let prev = kept_rows(old.drop_last(), removed);
        if removed.contains(old.last()) {
            prev
        } else {
            prev.push(Slot { origin: Origin::Old((old.len() - 1) as usize), refreshed_by: None })
        }
    }
}

/// Places update row `k` in the list, scanning from position `i`: it
/// refreshes the first row with its id, or goes before the first row with a
/// larger id, or at the end; the scan resumes at the row placed.
pub open spec fn place(l: Seq<Slot>, i: int, k: usize, old: Seq<i64>, upd: Seq<i64>) -> (Seq<Slot>, int)
    decreases l.len() - i,
{
    if i < 0 || i >= l.len() {
        (l.push(Slot { origin: Origin::New(k), refreshed_by: None }), i)
    } else if slot_id(l[i], old, upd) == upd[k as int] {
        (l.update(i, Slot { origin: l[i].origin, refreshed_by: Some(k) }), i)
    } else if upd[k as int] < slot_id(l[i], old, upd) {
        (l.insert(i, Slot { origin: Origin::New(k), refreshed_by: None }), i)
    } else {
        place(l, i + 1, k, old, upd)
    }
}

/// Places the update rows in the given order, the scan position carrying
/// over from one row to the next.
pub open spec fn place_all(l: Seq<Slot>, i: int, order: Seq<usize>, old: Seq<i64>, upd: Seq<i64>) -> Seq<Slot>
    decreases order.len(),
{
    if order.len() == 0 {
        l
    } else {
        let (l2, i2) = place(l, i, order[0], old, upd);
        place_all(l2, i2, order.drop_first(), old, upd)
    }
}

/// The indices of the update rows sorted by id, stably.
pub fn sort_by_id(ids: &Vec<i64>) -> (order: Vec<usize>)
    ensures
        stable_order(order@, ids@),
{
    let mut order: Vec<usize> = Vec::new();
    let mut k: usize = 0;
    while k < ids.len()
        invariant
            k <= ids.len(),
            order.len() == k,
            forall|a: int| 0 <= a < order.len() ==> #[trigger] order@[a] < k,
            forall|q: usize| q < k ==> #[trigger] order@.contains(q),
            forall|a: int, b: int|
                0 <= a < b < order.len() ==> ids@[#[trigger] order@[a] as int] < ids@[
                    #[trigger] order@[b] as int
                ] || (ids@[order@[a] as int] == ids@[order@[b] as int] && order@[a] < order@[b]),
        decreases ids.len() - k,
    {
        let id = ids[k];
        let mut p: usize = 0;
        while p < order.len() && ids[order[p]] <= id
            invariant
                p <= order.len(),
                order.len() == k,
                k < ids.len(),
                forall|a: int| 0 <= a < order.len() ==> #[trigger] order@[a] < k,
                forall|a: int| 0 <= a < p ==> ids@[#[trigger] order@[a] as int] <= id,
            decreases order.len() - p,
        {
            p = p + 1;
        }
        let ghost old_order = order@;
        order.insert(p, k);
        proof {
            assert forall|q: usize| q < k + 1 implies #[trigger] order@.contains(q) by {
                if q == k {
                    assert(order@[p as int] == q);
                } else {
                    assert(old_order.contains(q));
                    let a = choose|a: int| 0 <= a < old_order.len() && old_order[a] == q;
                    if a < p {
                        assert(order@[a] == q);
                    } else {
                        assert(order@[a + 1] == q);
                    }
                }
            }
            assert forall|a: int, b: int|
                0 <= a < b < order.len() implies ids@[#[trigger] order@[a] as int] < ids@[
                    #[trigger] order@[b] as int
                ] || (ids@[order@[a] as int] == ids@[order@[b] as int] && order@[a] < order@[b]) by {
                if b < p {
                    assert(order@[a] == old_order[a] && order@[b] == old_order[b]);
                } else if b == p {
                    assert(order@[a] == old_order[a]);
                } else if a < p {
                    assert(order@[a] == old_order[a] && order@[b] == old_order[b - 1]);
                    assert(ids@[old_order[p as int] as int] > id);
                } else if a == p {
                    assert(order@[b] == old_order[b - 1]);
                    assert(ids@[old_order[p as int] as int] > id);
                } else {
                    assert(order@[a] == old_order[a - 1] && order@[b] == old_order[b - 1]);
                }
            }
        }
        k = k + 1;
    }
    order
}

/// The order in which a full listing shows its rows: sorted by id, rows
/// with equal ids in the order the server sent them. The server's ids are
/// distinct, and then the ids come out strictly increasing.
pub fn full_listing_order(ids: &Vec<i64>) -> (order: Vec<usize>)
    ensures
        stable_order(order@, ids@),
        distinct_ids(ids@) ==> strictly_increasing(order@.map_values(|k: usize| ids@[k as int])),
{
    let order = sort_by_id(ids);
    proof {
        let s = order@.map_values(|k: usize| ids@[k as int]);
        if distinct_ids(ids@) {
            assert forall|a: int, b: int| 0 <= a < b < s.len() implies #[trigger] s[a] < #[trigger] s[b] by {
                assert(s[a] == ids@[order@[a] as int] && s[b] == ids@[order@[b] as int]);
                if ids@[order@[a] as int] == ids@[order@[b] as int] {
                    assert(order@[a] < order@[b]);
                }
            }
        }
    }
    order
}

fn contains_id(v: &Vec<i64>, id: i64) -> (r: bool)
    ensures
        r == v@.contains(id),
{
    let mut i: usize = 0;
    while i < v.len()
        invariant
            i <= v.len(),
            forall|j: int| 0 <= j < i ==> v@[j] != id,
        decreases v.len() - i,
    {
        if v[i] == id {
            assert(v@[i as int] == id);
            return true;
        }
        i = i + 1;
    }
    false
}

fn id_of(s: &Slot, old: &Vec<i64>, upd: &Vec<i64>) -> (r: i64)
    requires
        match s.origin {
            Origin::Old(i) => i < old.len(),
            Origin::New(k) => k < upd.len(),
        },
    ensures
        r == slot_id(*s, old@, upd@),
{
    match s.origin {
        Origin::Old(i) => old[i],
        Origin::New(k) => upd[k],
    }
}

/// The rows of the list after a partial update: the rows whose ids are in
/// `removed` go, then the update rows, sorted by id, are placed one after
/// the other by `place`.
pub fn partial_update(old: &Vec<i64>, removed: &Vec<i64>, upd: &Vec<i64>) -> (r: Vec<Slot>)
    ensures
        exists|order: Seq<usize>|
            stable_order(order, upd@) && r@ == place_all(kept_rows(old@, removed@), 0, order, old@, upd@),
        slots_in_range(r@, old.len() as int, upd.len() as int),
{
    let mut l: Vec<Slot> = Vec::new();
    let mut i: usize = 0;
    assert(old@.take(0) =~= seq![]);
    while i < old.len()
        invariant
            i <= old.len(),
            l@ == kept_rows(old@.take(i as int), removed@),
            slots_in_range(l@, i as int, 0),
        decreases old.len() - i,
    {
        proof {
            assert(old@.take(i as int + 1).drop_last() =~= old@.take(i as int));
        }
        if !contains_id(removed, old[i]) {
            l.push(Slot { origin: Origin::Old(i), refreshed_by: None });
        }
        i = i + 1;
    }
    assert(old@.take(old.len() as int) =~= old@);
    let ghost l0 = l@;
    let order = sort_by_id(upd);
    let mut t: usize = 0;
    let mut cur: usize = 0;
    assert(order@.skip(0) =~= order@);
    while t < order.len()
        invariant
            t <= order.len(),
            stable_order(order@, upd@),
            slots_in_range(l@, old.len() as int, upd.len() as int),
            cur <= l.len(),
            place_all(l0, 0, order@, old@, upd@) == place_all(l@, cur as int, order@.skip(t as int), old@, upd@),
        decreases order.len() - t,
    {
        let k = order[t];
        let ghost lt = l@;
        let ghost ct = cur as int;
        proof {
            assert(order@.skip(t as int)[0] == k);
            assert(order@.skip(t as int).drop_first() =~= order@.skip(t as int + 1));
        }
        while cur < l.len() && upd[k] > id_of(&l[cur], old, upd)
            invariant
                cur <= l.len(),
                k < upd.len(),
                l@ == lt,
                slots_in_range(l@, old.len() as int, upd.len() as int),
                place(lt, ct, k, old@, upd@) == place(l@, cur as int, k, old@, upd@),
            decreases l.len() - cur,
        {
            cur = cur + 1;
        }
        if cur < l.len() {
            let sid = id_of(&l[cur], old, upd);
            if sid == upd[k] {
                let origin = l[cur].origin;
                l.set(cur, Slot { origin, refreshed_by: Some(k) });
            } else {
                l.insert(cur, Slot { origin: Origin::New(k), refreshed_by: None });
                proof {
                    assert forall|j: int| 0 <= j < l@.len() implies match (#[trigger] l@[j]).origin {
                        Origin::Old(i) => i < old.len(),
                        Origin::New(k) => k < upd.len(),
                    } && match l@[j].refreshed_by {
                        Some(k) => k < upd.len(),
                        None => true,
                    } by {
                        if j > cur {
                            assert(l@[j] == lt[j - 1]);
                        }
                    }
                }
            }
        } else {
            l.push(Slot { origin: Origin::New(k), refreshed_by: None });
        }
        t = t + 1;
    }
    l
}

/// The update row whose fields a row shows, if any.
pub open spec fn fields_from(s: Slot) -> Option<usize> {
    match s.refreshed_by {
        Some(k) => Some(k),
        None => match s.origin {
            Origin::New(k) => Some(k),
            Origin::Old(_) => None,
        },
    }
}

/// The rows are in strictly increasing order of id.
pub open spec fn ids_increasing(l: Seq<Slot>, old: Seq<i64>, upd: Seq<i64>) -> bool {
    forall|a: int, b: int|
        0 <= a < b < l.len() ==> slot_id(#[trigger] l[a], old, upd) < slot_id(#[trigger] l[b], old, upd)
}

/// Some row has the id.
pub open spec fn lists_id(l: Seq<Slot>, old: Seq<i64>, upd: Seq<i64>, id: i64) -> bool {
    exists|j: int| 0 <= j < l.len() && slot_id(#[trigger] l[j], old, upd) == id
}

/// Every row that shows the fields of an update row has that row's id.
pub open spec fn fields_match_ids(l: Seq<Slot>, old: Seq<i64>, upd: Seq<i64>) -> bool {
    forall|j: int|
        0 <= j < l.len() ==> match fields_from(#[trigger] l[j]) {
            Some(k) => upd[k as int] == slot_id(l[j], old, upd),
            None => true,
        }
}

pub open spec fn strictly_increasing(s: Seq<i64>) -> bool {
    forall|a: int, b: int| 0 <= a < b < s.len() ==> #[trigger] s[a] < #[trigger] s[b]
}

pub open spec fn distinct_ids(s: Seq<i64>) -> bool {
    forall|a: int, b: int| 0 <= a < s.len() && 0 <= b < s.len() && a != b ==> #[trigger] s[a] != #[trigger] s[b]
}

proof fn lemma_kept_rows(old: Seq<i64>, removed: Seq<i64>, upd: Seq<i64>)
    requires
        strictly_increasing(old),
        old.len() <= usize::MAX,
    ensures
        ids_increasing(kept_rows(old, removed), old, upd),
        forall|j: int|
            0 <= j < kept_rows(old, removed).len() ==> (#[trigger] kept_rows(old, removed)[j]).refreshed_by
                is None && (match kept_rows(old, removed)[j].origin {
                Origin::Old(o) => o < old.len(),
                Origin::New(_) => false,
            }),
        forall|id: i64|
            lists_id(kept_rows(old, removed), old, upd, id) <==> (old.contains(id) && !removed.contains(id)),
    decreases old.len(),
{
    if old.len() > 0 {
        let init = old.drop_last();
        lemma_kept_rows(init, removed, upd);
        let prev = kept_rows(init, removed);
        assert forall|j: int| 0 <= j < prev.len() implies slot_id(#[trigger] prev[j], init, upd) == slot_id(
            prev[j],
            old,
            upd,
        ) && slot_id(prev[j], old, upd) < old.last() by {
            match prev[j].origin {
                Origin::Old(o) => {
                    assert(init[o as int] == old[o as int]);
                },
                Origin::New(_) => {},
            }
        }
        let cur = kept_rows(old, removed);
        let last = Slot { origin: Origin::Old((old.len() - 1) as usize), refreshed_by: None };
        if removed.contains(old.last()) {
            assert(cur == prev);
        } else {
            assert(cur == prev.push(last));
            assert(slot_id(last, old, upd) == old.last());
        }
        assert forall|id: i64| lists_id(cur, old, upd, id) <==> (old.contains(id) && !removed.contains(id)) by {
            if lists_id(cur, old, upd, id) {
                let j = choose|j: int| 0 <= j < cur.len() && slot_id(#[trigger] cur[j], old, upd) == id;
                if j < prev.len() {
                    assert(cur[j] == prev[j]);
                    assert(lists_id(prev, init, upd, id));
                    let w = choose|w: int| 0 <= w < init.len() && init[w] == id;
                    assert(old[w] == id);
                } else {
                    assert(cur[j] == last);
                    assert(old[old.len() - 1] == id);
                }
            }
            if old.contains(id) && !removed.contains(id) {
                let w = choose|w: int| 0 <= w < old.len() && old[w] == id;
                if w < old.len() - 1 {
                    assert(init[w] == id);
                    assert(init.contains(id));
                    assert(lists_id(prev, init, upd, id));
                    let j = choose|j: int| 0 <= j < prev.len() && slot_id(#[trigger] prev[j], init, upd) == id;
                    assert(cur[j] == prev[j]);
                } else {
                    assert(cur[cur.len() - 1] == last);
                    assert(slot_id(cur[cur.len() - 1], old, upd) == id);
                }
            }
        }
        assert forall|a: int, b: int| 0 <= a < b < cur.len() implies slot_id(#[trigger] cur[a], old, upd) < slot_id(
            #[trigger] cur[b],
            old,
            upd,
        ) by {
            assert(cur[a] == prev[a]);
            if b < prev.len() {
                assert(cur[b] == prev[b]);
                assert(slot_id(prev[a], init, upd) < slot_id(prev[b], init, upd));
            }
        }
    }
}

proof fn lemma_unique_index(l: Seq<Slot>, old: Seq<i64>, upd: Seq<i64>, a: int, b: int)
    requires
        ids_increasing(l, old, upd),
        0 <= a < l.len(),
        0 <= b < l.len(),
        slot_id(l[a], old, upd) == slot_id(l[b], old, upd),
    ensures
        a == b,
{
    if a < b {
        assert(slot_id(l[a], old, upd) < slot_id(l[b], old, upd));
    } else if b < a {
        assert(slot_id(l[b], old, upd) < slot_id(l[a], old, upd));
    }
}

proof fn lemma_place(l: Seq<Slot>, i: int, k: usize, old: Seq<i64>, upd: Seq<i64>)
    requires
        ids_increasing(l, old, upd),
        slots_in_range(l, old.len() as int, upd.len() as int),
        fields_match_ids(l, old, upd),
        k < upd.len(),
        0 <= i <= l.len(),
        forall|j: int| 0 <= j < i ==> slot_id(#[trigger] l[j], old, upd) < upd[k as int],
    ensures
        ({
            let (l2, i2) = place(l, i, k, old, upd);
            &&& ids_increasing(l2, old, upd)
            &&& slots_in_range(l2, old.len() as int, upd.len() as int)
            &&& fields_match_ids(l2, old, upd)
            &&& 0 <= i2 < l2.len()
            &&& slot_id(l2[i2], old, upd) == upd[k as int]
            &&& fields_from(l2[i2]) == Some(k)
            &&& forall|j: int| 0 <= j < i2 ==> slot_id(#[trigger] l2[j], old, upd) < upd[k as int]
            &&& forall|id: i64| lists_id(l2, old, upd, id) <==> (lists_id(l, old, upd, id) || id == upd[k as int])
            &&& forall|j: int|
                0 <= j < l2.len() && slot_id(#[trigger] l2[j], old, upd) != upd[k as int] ==> l.contains(l2[j])
        }),
    decreases l.len() - i,
{
    let (l2, i2) = place(l, i, k, old, upd);
    let fresh = Slot { origin: Origin::New(k), refreshed_by: None };
    if i >= l.len() {
        assert(l2 == l.push(fresh));
        assert forall|id: i64| lists_id(l2, old, upd, id) <==> (lists_id(l, old, upd, id) || id == upd[k as int]) by {
            if lists_id(l, old, upd, id) {
                let j = choose|j: int| 0 <= j < l.len() && slot_id(#[trigger] l[j], old, upd) == id;
                assert(l2[j] == l[j]);
            }
            if id == upd[k as int] {
                assert(slot_id(l2[l.len() as int], old, upd) == id);
            }
            if lists_id(l2, old, upd, id) {
                let j = choose|j: int| 0 <= j < l2.len() && slot_id(#[trigger] l2[j], old, upd) == id;
                if j < l.len() {
                    assert(l2[j] == l[j]);
                }
            }
        }
        assert forall|j: int|
            0 <= j < l2.len() && slot_id(#[trigger] l2[j], old, upd) != upd[k as int] implies l.contains(l2[j]) by {
            assert(l2[j] == l[j]);
        }
        assert forall|a: int, b: int| 0 <= a < b < l2.len() implies slot_id(#[trigger] l2[a], old, upd) < slot_id(
            #[trigger] l2[b],
            old,
            upd,
        ) by {
            assert(l2[a] == l[a]);
            if b < l.len() {
                assert(l2[b] == l[b]);
            }
        }
    } else if slot_id(l[i], old, upd) == upd[k as int] {
        let ns = Slot { origin: l[i].origin, refreshed_by: Some(k) };
        assert(l2 == l.update(i, ns));
        assert(slot_id(ns, old, upd) == slot_id(l[i], old, upd));
        assert forall|j: int| 0 <= j < l2.len() implies slot_id(#[trigger] l2[j], old, upd) == slot_id(l[j], old, upd) by {
        }
        assert forall|id: i64| lists_id(l2, old, upd, id) <==> (lists_id(l, old, upd, id) || id == upd[k as int]) by {
            if lists_id(l, old, upd, id) {
                let j = choose|j: int| 0 <= j < l.len() && slot_id(#[trigger] l[j], old, upd) == id;
                assert(slot_id(l2[j], old, upd) == id);
            }
            if id == upd[k as int] {
                assert(slot_id(l2[i], old, upd) == id);
            }
            if lists_id(l2, old, upd, id) {
                let j = choose|j: int| 0 <= j < l2.len() && slot_id(#[trigger] l2[j], old, upd) == id;
                assert(slot_id(l[j], old, upd) == id);
            }
        }
        assert forall|j: int|
            0 <= j < l2.len() && slot_id(#[trigger] l2[j], old, upd) != upd[k as int] implies l.contains(l2[j]) by {
            assert(j != i);
            assert(l2[j] == l[j]);
        }
        assert forall|a: int, b: int| 0 <= a < b < l2.len() implies slot_id(#[trigger] l2[a], old, upd) < slot_id(
            #[trigger] l2[b],
            old,
            upd,
        ) by {
            assert(slot_id(l2[a], old, upd) == slot_id(l[a], old, upd));
            assert(slot_id(l2[b], old, upd) == slot_id(l[b], old, upd));
        }
    } else if upd[k as int] < slot_id(l[i], old, upd) {
        assert(l2 == l.insert(i, fresh));
        assert forall|j: int| 0 <= j < l2.len() implies #[trigger] l2[j] == (if j < i {
            l[j]
        } else if j == i {
            fresh
        } else {
            l[j - 1]
        }) by {}
        assert forall|id: i64| lists_id(l2, old, upd, id) <==> (lists_id(l, old, upd, id) || id == upd[k as int]) by {
            if lists_id(l, old, upd, id) {
                let j = choose|j: int| 0 <= j < l.len() && slot_id(#[trigger] l[j], old, upd) == id;
                if j < i {
                    assert(l2[j] == l[j]);
                } else {
                    assert(l2[j + 1] == l[j]);
                }
            }
            if id == upd[k as int] {
                assert(slot_id(l2[i], old, upd) == id);
            }
            if lists_id(l2, old, upd, id) {
                let j = choose|j: int| 0 <= j < l2.len() && slot_id(#[trigger] l2[j], old, upd) == id;
                if j < i {
                    assert(l2[j] == l[j]);
                } else if j > i {
                    assert(l2[j] == l[j - 1]);
                }
            }
        }
        assert forall|j: int|
            0 <= j < l2.len() && slot_id(#[trigger] l2[j], old, upd) != upd[k as int] implies l.contains(l2[j]) by {
            if j < i {
                assert(l2[j] == l[j]);
            } else {
                assert(j != i);
                assert(l2[j] == l[j - 1]);
            }
        }
        assert forall|a: int, b: int| 0 <= a < b < l2.len() implies slot_id(#[trigger] l2[a], old, upd) < slot_id(
            #[trigger] l2[b],
            old,
            upd,
        ) by {
            if b < i {
            } else if b == i {
            } else if a < i {
                assert(slot_id(l[a], old, upd) < upd[k as int]);
                if b - 1 > i {
                    assert(slot_id(l[i], old, upd) < slot_id(l[b - 1], old, upd));
                }
            } else if a == i {
                if b - 1 > i {
                    assert(slot_id(l[i], old, upd) < slot_id(l[b - 1], old, upd));
                }
            } else {
                assert(slot_id(l[a - 1], old, upd) < slot_id(l[b - 1], old, upd));
            }
        }
        assert forall|j: int| 0 <= j < l2.len() implies match (#[trigger] l2[j]).origin {
            Origin::Old(o) => o < old.len(),
            Origin::New(q) => q < upd.len(),
        } && match l2[j].refreshed_by {
            Some(q) => q < upd.len(),
            None => true,
        } by {}
        assert forall|j: int| 0 <= j < l2.len() implies match fields_from(#[trigger] l2[j]) {
            Some(q) => upd[q as int] == slot_id(l2[j], old, upd),
            None => true,
        } by {}
    } else {
        lemma_place(l, i + 1, k, old, upd);
    }
}

proof fn lemma_place_all(l: Seq<Slot>, i: int, rem: Seq<usize>, old: Seq<i64>, upd: Seq<i64>)
    requires
        ids_increasing(l, old, upd),
        slots_in_range(l, old.len() as int, upd.len() as int),
        fields_match_ids(l, old, upd),
        0 <= i <= l.len(),
        forall|a: int| 0 <= a < rem.len() ==> #[trigger] rem[a] < upd.len(),
        forall|a: int, b: int|
            0 <= a < b < rem.len() ==> upd[#[trigger] rem[a] as int] < upd[#[trigger] rem[b] as int],
        rem.len() > 0 ==> forall|j: int| 0 <= j < i ==> slot_id(#[trigger] l[j], old, upd) < upd[rem[0] as int],
    ensures
        ({
            let r = place_all(l, i, rem, old, upd);
            &&& ids_increasing(r, old, upd)
            &&& slots_in_range(r, old.len() as int, upd.len() as int)
            &&& fields_match_ids(r, old, upd)
            &&& forall|id: i64|
                lists_id(r, old, upd, id) <==> (lists_id(l, old, upd, id) || exists|a: int|
                    0 <= a < rem.len() && #[trigger] upd[rem[a] as int] == id)
            &&& forall|a: int|
                #![trigger rem[a]]
                0 <= a < rem.len() ==> exists|j: int|
                    0 <= j < r.len() && slot_id(#[trigger] r[j], old, upd) == upd[rem[a] as int]
                        && fields_from(r[j]) == Some(rem[a])
            &&& forall|j: int|
                #![trigger r[j]]
                0 <= j < r.len() && (forall|a: int| 0 <= a < rem.len() ==> #[trigger] upd[rem[a] as int]
                    != slot_id(r[j], old, upd)) ==> l.contains(r[j])
        }),
    decreases rem.len(),
{
    if rem.len() == 0 {
        let r = place_all(l, i, rem, old, upd);
        assert(r == l);
        assert forall|j: int|
            #![trigger r[j]]
            0 <= j < r.len() implies l.contains(r[j]) by {
            assert(l[j] == r[j]);
        }
    } else {
        let k = rem[0];
        let (l2, i2) = place(l, i, k, old, upd);
        lemma_place(l, i, k, old, upd);
        let rest = rem.drop_first();
        assert forall|a: int| 0 <= a < rest.len() implies #[trigger] rest[a] < upd.len() by {
            assert(rest[a] == rem[a + 1]);
        }
        assert forall|a: int, b: int| 0 <= a < b < rest.len() implies upd[#[trigger] rest[a] as int]
            < upd[#[trigger] rest[b] as int] by {
            assert(rest[a] == rem[a + 1] && rest[b] == rem[b + 1]);
        }
        if rest.len() > 0 {
            assert(rest[0] == rem[1]);
            assert(upd[rem[0] as int] < upd[rem[1] as int]);
        }
        lemma_place_all(l2, i2, rest, old, upd);
        let r = place_all(l, i, rem, old, upd);
        assert(r == place_all(l2, i2, rest, old, upd));
        assert forall|id: i64|
            lists_id(r, old, upd, id) <==> (lists_id(l, old, upd, id) || exists|a: int|
                0 <= a < rem.len() && #[trigger] upd[rem[a] as int] == id) by {
            if exists|a: int| 0 <= a < rest.len() && #[trigger] upd[rest[a] as int] == id {
                let a = choose|a: int| 0 <= a < rest.len() && #[trigger] upd[rest[a] as int] == id;
                assert(rem[a + 1] == rest[a]);
            }
            if exists|a: int| 0 <= a < rem.len() && #[trigger] upd[rem[a] as int] == id {
                let a = choose|a: int| 0 <= a < rem.len() && #[trigger] upd[rem[a] as int] == id;
                if a > 0 {
                    assert(rest[a - 1] == rem[a]);
                }
            }
        }
        assert forall|a: int| #![trigger rem[a]] 0 <= a < rem.len() implies exists|j: int|
            0 <= j < r.len() && slot_id(#[trigger] r[j], old, upd) == upd[rem[a] as int] && fields_from(r[j])
                == Some(rem[a]) by {
            if a > 0 {
                assert(rest[a - 1] == rem[a]);
            } else {
                let x = upd[k as int];
                assert(lists_id(l2, old, upd, x));
                assert(lists_id(r, old, upd, x));
                let j = choose|j: int| 0 <= j < r.len() && slot_id(#[trigger] r[j], old, upd) == x;
                assert forall|b: int| 0 <= b < rest.len() implies #[trigger] upd[rest[b] as int] != slot_id(
                    r[j],
                    old,
                    upd,
                ) by {
                    assert(rest[b] == rem[b + 1]);
                    assert(upd[rem[0] as int] < upd[rem[b + 1] as int]);
                }
                let w = choose|w: int| 0 <= w < l2.len() && #[trigger] l2[w] == r[j];
                lemma_unique_index(l2, old, upd, w, i2);
            }
        }
        assert forall|j: int|
            #![trigger r[j]]
            0 <= j < r.len() && (forall|a: int| 0 <= a < rem.len() ==> #[trigger] upd[rem[a] as int] != slot_id(
                r[j],
                old,
                upd,
            )) implies l.contains(r[j]) by {
            assert forall|b: int| 0 <= b < rest.len() implies #[trigger] upd[rest[b] as int] != slot_id(
                r[j],
                old,
                upd,
            ) by {
                assert(rest[b] == rem[b + 1]);
            }
            let w = choose|w: int| 0 <= w < l2.len() && #[trigger] l2[w] == r[j];
            assert(upd[rem[0] as int] != slot_id(r[j], old, upd));
            assert(slot_id(l2[w], old, upd) != upd[k as int]);
            assert(exists|w2: int| 0 <= w2 < l.len() && l[w2] == l2[w]);
            let w2 = choose|w2: int| 0 <= w2 < l.len() && l[w2] == l2[w];
            assert(l[w2] == r[j]);
        }
    }
}

/// A partial update of a list sorted by id, with distinct ids in the update,
/// leaves the list sorted by id; it lists exactly the ids that were kept or
/// updated; the row of each updated id shows that update's fields; a row
/// that shows no update's fields has an id the update lacks; and a row whose
/// id the update lacks is a row of the old list, untouched, keeping its old
/// fields.
pub proof fn lemma_partial_update_merges(
    old: Seq<i64>,
    removed: Seq<i64>,
    upd: Seq<i64>,
    order: Seq<usize>,
)
    requires
        strictly_increasing(old),
        distinct_ids(upd),
        stable_order(order, upd),
        old.len() <= usize::MAX,
        upd.len() <= usize::MAX,
    ensures
        ({
            let r = place_all(kept_rows(old, removed), 0, order, old, upd);
            &&& ids_increasing(r, old, upd)
            &&& forall|id: i64|
                lists_id(r, old, upd, id) <==> ((old.contains(id) && !removed.contains(id))
                    || upd.contains(id))
            &&& forall|k: int|
                #![trigger upd[k]]
                0 <= k < upd.len() ==> exists|j: int|
                    0 <= j < r.len() && slot_id(#[trigger] r[j], old, upd) == upd[k] && fields_from(r[j])
                        == Some(k as usize)
            &&& forall|j: int|
                0 <= j < r.len() && fields_from(#[trigger] r[j]) is None ==> !upd.contains(
                    slot_id(r[j], old, upd),
                )
            &&& forall|j: int|
                0 <= j < r.len() && !upd.contains(slot_id(#[trigger] r[j], old, upd)) ==> fields_from(r[j])
                    is None && r[j].refreshed_by is None && r[j].origin is Old
        }),
{
    let l = kept_rows(old, removed);
    lemma_kept_rows(old, removed, upd);
    assert forall|a: int, b: int| 0 <= a < b < order.len() implies upd[#[trigger] order[a] as int]
        < upd[#[trigger] order[b] as int] by {
        if upd[order[a] as int] == upd[order[b] as int] {
            assert(order[a] < order[b]);
        }
    }
    assert forall|j: int| 0 <= j < l.len() implies match (#[trigger] l[j]).origin {
        Origin::Old(o) => o < old.len(),
        Origin::New(q) => q < upd.len(),
    } && match l[j].refreshed_by {
        Some(q) => q < upd.len(),
        None => true,
    } by {}
    lemma_place_all(l, 0, order, old, upd);
    let r = place_all(l, 0, order, old, upd);
    assert forall|j: int|
        0 <= j < r.len() && !upd.contains(slot_id(#[trigger] r[j], old, upd)) implies fields_from(r[j]) is None
            && r[j].refreshed_by is None && r[j].origin is Old by {
        if fields_from(r[j]) is Some {
            let k = fields_from(r[j]).unwrap();
            assert(upd[k as int] == slot_id(r[j], old, upd));
            assert(upd.contains(slot_id(r[j], old, upd)));
        }
    }
    assert forall|id: i64| (exists|a: int| 0 <= a < order.len() && #[trigger] upd[order[a] as int] == id)
        <==> upd.contains(id) by {
        if upd.contains(id) {
            let k = choose|k: int| 0 <= k < upd.len() && upd[k] == id;
            assert(order.contains(k as usize));
            let a = choose|a: int| 0 <= a < order.len() && order[a] == k as usize;
            assert(upd[order[a] as int] == id);
        }
    }
    assert forall|k: int| #![trigger upd[k]] 0 <= k < upd.len() implies exists|j: int|
        0 <= j < r.len() && slot_id(#[trigger] r[j], old, upd) == upd[k] && fields_from(r[j]) == Some(
            k as usize,
        ) by {
        assert(order.contains(k as usize));
        let a = choose|a: int| 0 <= a < order.len() && order[a] == k as usize;
        assert(upd[order[a] as int] == upd[k]);
    }
    assert forall|j: int|
        0 <= j < r.len() && fields_from(#[trigger] r[j]) is None implies !upd.contains(slot_id(r[j], old, upd)) by {
        if upd.contains(slot_id(r[j], old, upd)) {
            let k = choose|k: int| 0 <= k < upd.len() && upd[k] == slot_id(r[j], old, upd);
            assert(order.contains(k as usize));
            let a = choose|a: int| 0 <= a < order.len() && order[a] == k as usize;
            let j2 = choose|j2: int|
                0 <= j2 < r.len() && slot_id(#[trigger] r[j2], old, upd) == upd[order[a] as int]
                    && fields_from(r[j2]) == Some(order[a]);
            lemma_unique_index(r, old, upd, j, j2);
        }
    }
}

} // verus!
