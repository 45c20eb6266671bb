use vstd::prelude::*;
use crate::text::{lemma_text_lt_total, lemma_text_lt_transitive, text_less, text_lt};

verus! {

/// Entry `i` comes strictly before entry `j` when ordered by key and then by
/// position: the order of a stable sort.
pub open spec fn stable_before(keys: Seq<(i32, i32)>, i: int, j: int) -> bool {
    ||| keys[i].0 < keys[j].0
    ||| keys[i].0 == keys[j].0 && keys[i].1 < keys[j].1
    ||| keys[i].0 == keys[j].0 && keys[i].1 == keys[j].1 && i < j
}

/// `p` lists the positions of `keys` in the order of a stable ascending sort
/// by key: every position once, each before all later ones.
pub open spec fn is_stable_order(keys: Seq<(i32, i32)>, p: Seq<usize>) -> bool {
    &&& p.len() == keys.len()
    &&& forall|i: int| 0 <= i < p.len() ==> #[trigger] p[i] < keys.len()
    &&& forall|i: int, j: int| 0 <= i < j < p.len() ==> stable_before(keys, #[trigger] p[i] as int, #[trigger] p[j] as int)
}

/// Lexicographic strict order on key pairs.
pub open spec fn pair_lt(a: (i32, i32), b: (i32, i32)) -> bool {
    a.0 < b.0 || (a.0 == b.0 && a.1 < b.1)
}

fn key_lt(a: (i32, i32), b: (i32, i32)) -> (r: bool)
    ensures
        r == pair_lt(a, b),
{
    a.0 < b.0 || (a.0 == b.0 && a.1 < b.1)
}

/// The positions of `keys` in stable ascending order of the keys, compared
/// first by their first and then by their second component.
pub fn stable_order(keys: &Vec<(i32, i32)>) -> (p: Vec<usize>)
    ensures
        is_stable_order(keys@, p@),
{
    let n = keys.len();
    let mut p: Vec<usize> = Vec::new();
    let mut x: usize = 0;
    while x < n
        invariant
            n == keys@.len(),
            x <= n,
            p@.len() == x,
            forall|i: int| 0 <= i < p@.len() ==> #[trigger] p@[i] < x,
            forall|i: int, j: int| 0 <= i < j < p@.len() ==> stable_before(keys@, #[trigger] p@[i] as int, #[trigger] p@[j] as int),
        decreases n - x,
    {
        let kx = keys[x];
        let mut pos: usize = 0;
        while pos < p.len() && !key_lt(kx, keys[p[pos]])
            invariant
                n == keys@.len(),
                x < n,
                kx == keys@[x as int],
                pos <= p@.len(),
                forall|i: int| 0 <= i < p@.len() ==> #[trigger] p@[i] < x,
                forall|i: int| 0 <= i < pos ==> !pair_lt(kx, #[trigger] keys@[p@[i] as int]),
            decreases p@.len() - pos,
        {
            pos = pos + 1;
        }
        let ghost old_p = p@;
        proof {
            assert(pos < old_p.len() ==> pair_lt(kx, keys@[old_p[pos as int] as int]));
        }
        p.insert(pos, x);
        proof {
            assert forall|i: int, j: int| 0 <= i < j < p@.len() implies stable_before(keys@, #[trigger] p@[i] as int, #[trigger] p@[j] as int) by {
                if j < pos {
                    assert(p@[i] == old_p[i] && p@[j] == old_p[j]);
                } else if j == pos {
                    assert(p@[i] == old_p[i]);
                    assert(!pair_lt(kx, keys@[old_p[i] as int]));
                    assert(old_p[i] < x);
                } else if i == pos {
                    assert(p@[j] == old_p[j - 1]);
                    if j - 1 > pos {
                        assert(stable_before(keys@, old_p[pos as int] as int, old_p[j - 1] as int));
                    }
                } else if i < pos {
                    assert(p@[i] == old_p[i] && p@[j] == old_p[j - 1]);
                } else {
                    assert(p@[i] == old_p[i - 1] && p@[j] == old_p[j - 1]);
                }
            }
        }
        x = x + 1;
    }
    p
}

/// `q` lists, in stable ascending key order, exactly the positions whose
/// `keep` flag is set.
pub open spec fn is_sorted_selection(keys: Seq<(i32, i32)>, keep: Seq<bool>, q: Seq<int>) -> bool {
    &&& forall|i: int| 0 <= i < q.len() ==> 0 <= #[trigger] q[i] < keys.len() && keep[q[i]]
    &&& forall|k: int| 0 <= k < keys.len() && keep[k] ==> exists|i: int| 0 <= i < q.len() && #[trigger] q[i] == k
    &&& forall|i: int, j: int| 0 <= i < j < q.len() ==> stable_before(keys, #[trigger] q[i], #[trigger] q[j])
}

/// The kept positions in stable ascending key order (as for a query with
/// `WHERE keep ORDER BY key`, ties left in storage order).
pub open spec fn sorted_selection(keys: Seq<(i32, i32)>, keep: Seq<bool>) -> Seq<int> {
    choose|q: Seq<int>| is_sorted_selection(keys, keep, q)
}

proof fn lemma_stable_before_strict(keys: Seq<(i32, i32)>, a: int, b: int)
    ensures
        !(stable_before(keys, a, b) && stable_before(keys, b, a)),
        !stable_before(keys, a, a),
{
}

/// The stable sorted selection is unique.
pub proof fn lemma_sorted_selection_unique(keys: Seq<(i32, i32)>, keep: Seq<bool>, q1: Seq<int>, q2: Seq<int>)
    requires
        is_sorted_selection(keys, keep, q1),
        is_sorted_selection(keys, keep, q2),
    ensures
        q1 == q2,
{
    assert forall|i: int| 0 <= i < q1.len() && 0 <= i < q2.len() implies q1[i] == q2[i] by {
        lemma_sorted_selection_prefix(keys, keep, q1, q2, i);
    }
    if q1.len() > q2.len() {
        let m = q2.len() as int;
        let a = q1[m];
        let k = choose|k: int| 0 <= k < q2.len() && #[trigger] q2[k] == a;
        lemma_sorted_selection_prefix(keys, keep, q1, q2, k);
        assert(stable_before(keys, q1[k], q1[m]));
        lemma_stable_before_strict(keys, a, a);
    } else if q2.len() > q1.len() {
        let m = q1.len() as int;
        let a = q2[m];
        let k = choose|k: int| 0 <= k < q1.len() && #[trigger] q1[k] == a;
        lemma_sorted_selection_prefix(keys, keep, q1, q2, k);
        assert(stable_before(keys, q2[k], q2[m]));
        lemma_stable_before_strict(keys, a, a);
    }
    assert(q1 =~= q2);
}

proof fn lemma_sorted_selection_prefix(keys: Seq<(i32, i32)>, keep: Seq<bool>, q1: Seq<int>, q2: Seq<int>, i: int)
    requires
        is_sorted_selection(keys, keep, q1),
        is_sorted_selection(keys, keep, q2),
        0 <= i < q1.len(),
        0 <= i < q2.len(),
    ensures
        forall|t: int| 0 <= t <= i ==> q1[t] == q2[t],
    decreases i,
{
    if i > 0 {
        lemma_sorted_selection_prefix(keys, keep, q1, q2, i - 1);
    }
    let a = q1[i];
    let b = q2[i];
    if a != b {
        let k = choose|k: int| 0 <= k < q2.len() && #[trigger] q2[k] == a;
        let l = choose|l: int| 0 <= l < q1.len() && #[trigger] q1[l] == b;
        if k < i {
            assert(q1[k] == a);
            assert(stable_before(keys, q1[k], q1[i]));
            lemma_stable_before_strict(keys, a, a);
        }
        if l < i {
            assert(q2[l] == b);
            assert(stable_before(keys, q2[l], q2[i]));
            lemma_stable_before_strict(keys, b, b);
        }
        assert(k != i);
        assert(l != i);
        assert(stable_before(keys, b, a));
        assert(stable_before(keys, a, b));
        lemma_stable_before_strict(keys, a, b);
    }
}

/// The kept positions in stable ascending key order.
pub fn select_sorted(keys: &Vec<(i32, i32)>, keep: &Vec<bool>) -> (q: Vec<usize>)
    requires
        keys@.len() == keep@.len(),
    ensures
        q@.len() == sorted_selection(keys@, keep@).len(),
        forall|i: int| 0 <= i < q@.len() ==> #[trigger] q@[i] as int == sorted_selection(keys@, keep@)[i],
        is_sorted_selection(keys@, keep@, sorted_selection(keys@, keep@)),
{
    let n = keys.len();
    let mut sel: Vec<usize> = Vec::new();
    let mut sel_keys: Vec<(i32, i32)> = Vec::new();
    let mut k: usize = 0;
    while k < n
        invariant
            n == keys@.len(),
            n == keep@.len(),
            k <= n,
            sel@.len() == sel_keys@.len(),
            forall|i: int| 0 <= i < sel@.len() ==> #[trigger] sel@[i] < k && keep@[sel@[i] as int]
                && sel_keys@[i] == keys@[sel@[i] as int],
            forall|i: int, j: int| 0 <= i < j < sel@.len() ==> #[trigger] sel@[i] < #[trigger] sel@[j],
            forall|t: int| 0 <= t < k && keep@[t] ==> exists|i: int| 0 <= i < sel@.len() && #[trigger] sel@[i] == t,
        decreases n - k,
    {
        let ghost old_sel = sel@;
        if keep[k] {
            sel.push(k);
            sel_keys.push(keys[k]);
            assert(sel@[sel@.len() - 1] == k);
        }
        assert forall|t: int| 0 <= t < k + 1 && keep@[t] implies exists|i: int| 0 <= i < sel@.len() && #[trigger] sel@[i] == t by {
            if t < k {
                let i = choose|i: int| 0 <= i < old_sel.len() && #[trigger] old_sel[i] == t;
                assert(sel@[i] == t);
            } else {
                assert(sel@[sel@.len() - 1] == k);
            }
        }
        k = k + 1;
    }
    let p = stable_order(&sel_keys);
    let mut q: Vec<usize> = Vec::new();
    let mut i: usize = 0;
    while i < p.len()
        invariant
            is_stable_order(sel_keys@, p@),
            sel@.len() == sel_keys@.len(),
            i <= p@.len(),
            q@.len() == i,
            forall|t: int| 0 <= t < i ==> #[trigger] q@[t] == sel@[p@[t] as int],
        decreases p@.len() - i,
    {
        q.push(sel[p[i]]);
        i = i + 1;
    }
    let ghost qi = q@.map_values(|x: usize| x as int);
    proof {
        assert forall|a: int| 0 <= a < qi.len() implies 0 <= #[trigger] qi[a] < keys@.len() && keep@[qi[a]] by {
            assert(q@[a] == sel@[p@[a] as int]);
        }
        assert forall|t: int| 0 <= t < keys@.len() && keep@[t] implies exists|a: int| 0 <= a < qi.len() && #[trigger] qi[a] == t by {
            let b = choose|b: int| 0 <= b < sel@.len() && #[trigger] sel@[b] == t;
            lemma_stable_order_covers(sel_keys@, p@, b);
            let a = choose|a: int| 0 <= a < p@.len() && #[trigger] p@[a] == b;
            assert(qi[a] == t);
        }
        assert forall|a: int, b: int| 0 <= a < b < qi.len() implies stable_before(keys@, #[trigger] qi[a], #[trigger] qi[b]) by {
            let pa = p@[a] as int;
            let pb = p@[b] as int;
            assert(stable_before(sel_keys@, pa, pb));
            assert(sel_keys@[pa] == keys@[sel@[pa] as int]);
            assert(sel_keys@[pb] == keys@[sel@[pb] as int]);
            if pa < pb {
                assert(sel@[pa] < sel@[pb]);
            } else if pb < pa {
                assert(sel@[pb] < sel@[pa]);
            }
        }
        assert(is_sorted_selection(keys@, keep@, qi));
        lemma_sorted_selection_unique(keys@, keep@, qi, sorted_selection(keys@, keep@));
    }
    q
}

/// `q` with `x` inserted before its first entry that `x` stably precedes.
#[verifier::opaque]
pub open spec fn insert_sorted(keys: Seq<(i32, i32)>, q: Seq<int>, x: int) -> Seq<int>
    decreases q.len(),
{
    if q.len() == 0 {
        seq![x]
    } else if stable_before(keys, x, q[0]) {
        seq![x] + q
    } else {
        seq![q[0]] + insert_sorted(keys, q.drop_first(), x)
    }
}

/// The kept positions below `n`, in stable ascending key order.
pub open spec fn sorted_prefix_selection(keys: Seq<(i32, i32)>, keep: Seq<bool>, n: int) -> Seq<int>
    decreases n,
{
    if n <= 0 {
        Seq::empty()
    } else if keep[n - 1] {
        insert_sorted(keys, sorted_prefix_selection(keys, keep, n - 1), n - 1)
    } else {
        sorted_prefix_selection(keys, keep, n - 1)
    }
}

proof fn lemma_insert_sorted(keys: Seq<(i32, i32)>, q: Seq<int>, x: int)
    requires
        forall|i: int, j: int| 0 <= i < j < q.len() ==> stable_before(keys, #[trigger] q[i], #[trigger] q[j]),
        forall|i: int| 0 <= i < q.len() ==> #[trigger] q[i] != x,
    ensures
        insert_sorted(keys, q, x).len() == q.len() + 1,
        forall|i: int, j: int| 0 <= i < j < insert_sorted(keys, q, x).len()
            ==> stable_before(keys, #[trigger] insert_sorted(keys, q, x)[i], #[trigger] insert_sorted(keys, q, x)[j]),
        forall|i: int| 0 <= i < q.len() ==> exists|j: int| 0 <= j < insert_sorted(keys, q, x).len()
            && #[trigger] insert_sorted(keys, q, x)[j] == #[trigger] q[i],
        exists|j: int| 0 <= j < insert_sorted(keys, q, x).len() && #[trigger] insert_sorted(keys, q, x)[j] == x,
        forall|j: int| 0 <= j < insert_sorted(keys, q, x).len() ==> #[trigger] insert_sorted(keys, q, x)[j] == x
            || exists|i: int| 0 <= i < q.len() && q[i] == insert_sorted(keys, q, x)[j],
    decreases q.len(),
{
    reveal(insert_sorted);
    let r = insert_sorted(keys, q, x);
    if q.len() == 0 {
        assert(r[0] == x);
    } else if stable_before(keys, x, q[0]) {
        assert(r =~= seq![x] + q);
        assert forall|i: int, j: int| 0 <= i < j < r.len() implies stable_before(keys, #[trigger] r[i], #[trigger] r[j]) by {
            if i == 0 {
                if j > 1 {
                    assert(stable_before(keys, q[0], q[j - 1]));
                }
            } else {
                assert(r[i] == q[i - 1] && r[j] == q[j - 1]);
            }
        }
        assert forall|i: int| 0 <= i < q.len() implies exists|j: int| 0 <= j < r.len() && #[trigger] r[j] == #[trigger] q[i] by {
            assert(r[i + 1] == q[i]);
        }
        assert(r[0] == x);
        assert forall|j: int| 0 <= j < r.len() implies #[trigger] r[j] == x || exists|i: int| 0 <= i < q.len() && q[i] == r[j] by {
            if j > 0 {
                assert(q[j - 1] == r[j]);
            }
        }
    } else {
        let t = q.drop_first();
        assert forall|i: int, j: int| 0 <= i < j < t.len() implies stable_before(keys, #[trigger] t[i], #[trigger] t[j]) by {
            assert(t[i] == q[i + 1] && t[j] == q[j + 1]);
        }
        assert forall|i: int| 0 <= i < t.len() implies #[trigger] t[i] != x by {
            assert(t[i] == q[i + 1]);
        }
        lemma_insert_sorted(keys, t, x);
        let rt = insert_sorted(keys, t, x);
        assert(r =~= seq![q[0]] + rt);
        assert(stable_before(keys, q[0], x));
        assert forall|j: int| 0 <= j < rt.len() implies stable_before(keys, q[0], #[trigger] rt[j]) by {
            if rt[j] != x {
                let i = choose|i: int| 0 <= i < t.len() && t[i] == rt[j];
                assert(t[i] == q[i + 1]);
                assert(stable_before(keys, q[0], q[i + 1]));
            }
        }
        assert forall|i: int, j: int| 0 <= i < j < r.len() implies stable_before(keys, #[trigger] r[i], #[trigger] r[j]) by {
            if i == 0 {
                assert(r[j] == rt[j - 1]);
            } else {
                assert(r[i] == rt[i - 1] && r[j] == rt[j - 1]);
            }
        }
        assert forall|i: int| 0 <= i < q.len() implies exists|j: int| 0 <= j < r.len() && #[trigger] r[j] == #[trigger] q[i] by {
            if i == 0 {
                assert(r[0] == q[0]);
            } else {
                assert(t[i - 1] == q[i]);
                let j = choose|j: int| 0 <= j < rt.len() && #[trigger] rt[j] == #[trigger] t[i - 1];
                assert(r[j + 1] == q[i]);
            }
        }
        let jx = choose|j: int| 0 <= j < rt.len() && #[trigger] rt[j] == x;
        assert(r[jx + 1] == x);
        assert forall|j: int| 0 <= j < r.len() implies #[trigger] r[j] == x || exists|i: int| 0 <= i < q.len() && q[i] == r[j] by {
            if j == 0 {
                assert(q[0] == r[0]);
            } else {
                assert(r[j] == rt[j - 1]);
                if rt[j - 1] != x {
                    let i = choose|i: int| 0 <= i < t.len() && t[i] == rt[j - 1];
                    assert(q[i + 1] == r[j]);
                }
            }
        }
    }
}

/// The kept positions below `n` in stable ascending key order.
pub open spec fn prefix_selection_ok(keys: Seq<(i32, i32)>, keep: Seq<bool>, n: int, q: Seq<int>) -> bool {
    &&& forall|i: int| 0 <= i < q.len() ==> 0 <= #[trigger] q[i] < n && keep[q[i]]
    &&& forall|k: int| 0 <= k < n && keep[k] ==> exists|i: int| 0 <= i < q.len() && #[trigger] q[i] == k
    &&& forall|i: int, j: int| 0 <= i < j < q.len() ==> stable_before(keys, #[trigger] q[i], #[trigger] q[j])
}

proof fn lemma_prefix_selection_step(keys: Seq<(i32, i32)>, keep: Seq<bool>, n: int, p: Seq<int>)
    requires
        keys.len() == keep.len(),
        0 < n <= keys.len(),
        keep[n - 1],
        prefix_selection_ok(keys, keep, n - 1, p),
    ensures
        prefix_selection_ok(keys, keep, n, insert_sorted(keys, p, n - 1)),
{
    assert forall|i: int| 0 <= i < p.len() implies #[trigger] p[i] != n - 1 by {
        assert(p[i] < n - 1);
    }
    lemma_insert_sorted(keys, p, n - 1);
    let q = insert_sorted(keys, p, n - 1);
    assert forall|i: int| 0 <= i < q.len() implies 0 <= #[trigger] q[i] < n && keep[q[i]] by {
        if q[i] != n - 1 {
            let t = choose|t: int| 0 <= t < p.len() && p[t] == q[i];
            assert(0 <= p[t] < n - 1 && keep[p[t]]);
        }
    }
    assert forall|k: int| 0 <= k < n && keep[k] implies exists|i: int| 0 <= i < q.len() && #[trigger] q[i] == k by {
        if k < n - 1 {
            let t = choose|t: int| 0 <= t < p.len() && #[trigger] p[t] == k;
            let j = choose|j: int| 0 <= j < q.len() && #[trigger] q[j] == #[trigger] p[t];
            assert(q[j] == k);
        }
    }
}

proof fn lemma_sorted_prefix_selection(keys: Seq<(i32, i32)>, keep: Seq<bool>, n: int)
    requires
        keys.len() == keep.len(),
        0 <= n <= keys.len(),
    ensures
        prefix_selection_ok(keys, keep, n, sorted_prefix_selection(keys, keep, n)),
    decreases n,
{
    if n > 0 {
        lemma_sorted_prefix_selection(keys, keep, n - 1);
        let p = sorted_prefix_selection(keys, keep, n - 1);
        if keep[n - 1] {
            lemma_prefix_selection_step(keys, keep, n, p);
        } else {
            assert forall|k: int| 0 <= k < n && keep[k] implies exists|i: int| 0 <= i < p.len() && #[trigger] p[i] == k by {
                assert(k < n - 1);
            }
        }
    }
}

/// Every selection of positions can be listed in stable ascending key
/// order, so the sorted selection is one.
pub proof fn lemma_sorted_selection_exists(keys: Seq<(i32, i32)>, keep: Seq<bool>)
    requires
        keys.len() == keep.len(),
    ensures
        is_sorted_selection(keys, keep, sorted_selection(keys, keep)),
{
    lemma_sorted_prefix_selection(keys, keep, keys.len() as int);
    assert(is_sorted_selection(keys, keep, sorted_prefix_selection(keys, keep, keys.len() as int)));
}

/// When every entry is kept and the entries already stand in stable key
/// order, the sorted selection lists them as they are.
pub proof fn lemma_sorted_selection_in_order(keys: Seq<(i32, i32)>, keep: Seq<bool>)
    requires
        keys.len() == keep.len(),
        forall|i: int| 0 <= i < keep.len() ==> #[trigger] keep[i],
        forall|i: int, j: int| 0 <= i < j < keys.len() ==> stable_before(keys, i, j),
    ensures
        sorted_selection(keys, keep) == Seq::new(keys.len(), |i: int| i),
{
    let q = Seq::new(keys.len(), |i: int| i);
    assert forall|k: int| 0 <= k < keys.len() && keep[k] implies exists|i: int| 0 <= i < q.len() && #[trigger] q[i] == k by {
        assert(q[k] == k);
    }
    assert forall|i: int, j: int| 0 <= i < j < q.len() implies stable_before(keys, #[trigger] q[i], #[trigger] q[j]) by {
        assert(q[i] == i && q[j] == j);
    }
    assert(is_sorted_selection(keys, keep, q));
    lemma_sorted_selection_exists(keys, keep);
    lemma_sorted_selection_unique(keys, keep, q, sorted_selection(keys, keep));
}

/// Every entry is kept.
pub open spec fn keep_all(n: nat) -> Seq<bool> {
    Seq::new(n, |i: int| true)
}

/// Keeping every entry, the sorted selection lists each position once.
pub proof fn lemma_sorted_selection_all(keys: Seq<(i32, i32)>)
    requires
        is_sorted_selection(keys, keep_all(keys.len()), sorted_selection(keys, keep_all(keys.len()))),
    ensures
        sorted_selection(keys, keep_all(keys.len())).len() == keys.len(),
{
    let keep = keep_all(keys.len());
    let q = sorted_selection(keys, keep);
    let n = keys.len() as int;
    assert forall|i: int, j: int| 0 <= i < q.len() && 0 <= j < q.len() && i != j implies q[i] != q[j] by {
        if i < j {
            assert(stable_before(keys, q[i], q[j]));
        } else {
            assert(stable_before(keys, q[j], q[i]));
        }
        lemma_stable_before_strict(keys, q[i], q[j]);
    }
    assert(q.no_duplicates());
    q.unique_seq_to_set();
    let range = vstd::set_lib::set_int_range(0, n);
    vstd::set_lib::lemma_int_range(0, n);
    assert forall|x: int| q.to_set().contains(x) <==> range.contains(x) by {
        if range.contains(x) {
            assert(keep[x]);
            let i = choose|i: int| 0 <= i < q.len() && #[trigger] q[i] == x;
            assert(q.contains(x));
        }
        if q.to_set().contains(x) {
            let i = choose|i: int| 0 <= i < q.len() && q[i] == x;
            assert(0 <= q[i] < n);
        }
    }
    assert(q.to_set() =~= range);
}

/// A stable order names every position.
proof fn lemma_stable_order_covers(keys: Seq<(i32, i32)>, p: Seq<usize>, b: int)
    requires
        is_stable_order(keys, p),
        0 <= b < keys.len(),
    ensures
        exists|a: int| 0 <= a < p.len() && #[trigger] p[a] == b,
{
    let n = keys.len() as int;
    let pi = p.map_values(|x: usize| x as int);
    assert forall|i: int, j: int| 0 <= i < pi.len() && 0 <= j < pi.len() && i != j implies pi[i] != pi[j] by {
        if i < j {
            assert(stable_before(keys, p[i] as int, p[j] as int));
        } else {
            assert(stable_before(keys, p[j] as int, p[i] as int));
        }
        lemma_stable_before_strict(keys, p[i] as int, p[j] as int);
    }
    assert(pi.no_duplicates());
    pi.unique_seq_to_set();
    if !(exists|a: int| 0 <= a < p.len() && #[trigger] p[a] == b) {
        let range = vstd::set_lib::set_int_range(0, n);
        vstd::set_lib::lemma_int_range(0, n);
        assert forall|x: int| pi.to_set().contains(x) implies range.remove(b).contains(x) by {
            let a = choose|a: int| 0 <= a < pi.len() && pi[a] == x;
            assert(p[a] < keys.len());
        }
        assert(pi.to_set().subset_of(range.remove(b)));
        vstd::set_lib::lemma_len_subset(pi.to_set(), range.remove(b));
        assert(false);
    }
}

/// Entry `i` comes strictly before entry `j` when ordered by descending
/// text, ties in storage order.
pub open spec fn text_desc_before(keys: Seq<Seq<char>>, i: int, j: int) -> bool {
    text_lt(keys[j], keys[i]) || (keys[i] == keys[j] && i < j)
}

/// `p` lists positions of `keys`, as many as there are keys, in strictly
/// descending order of the texts, ties in storage order (so each position
/// comes exactly once).
pub open spec fn is_text_desc_order(keys: Seq<Seq<char>>, p: Seq<int>) -> bool {
    &&& p.len() == keys.len()
    &&& forall|i: int| 0 <= i < p.len() ==> 0 <= #[trigger] p[i] < keys.len()
    &&& forall|i: int, j: int| 0 <= i < j < p.len() ==> text_desc_before(keys, #[trigger] p[i], #[trigger] p[j])
}

/// The positions of `keys` in descending order of the texts, ties in
/// storage order (as for `ORDER BY key DESC`).
pub open spec fn text_desc_order(keys: Seq<Seq<char>>) -> Seq<int> {
    choose|p: Seq<int>| is_text_desc_order(keys, p)
}

proof fn lemma_text_desc_strict(keys: Seq<Seq<char>>, a: int, b: int)
    ensures
        !(text_desc_before(keys, a, b) && text_desc_before(keys, b, a)),
        !text_desc_before(keys, a, a),
{
    lemma_text_lt_total(keys[a], keys[b]);
    lemma_text_lt_total(keys[a], keys[a]);
}

/// A descending text order names every position.
pub proof fn lemma_text_desc_covers(keys: Seq<Seq<char>>, p: Seq<int>, b: int)
    requires
        is_text_desc_order(keys, p),
        0 <= b < keys.len(),
    ensures
        exists|a: int| 0 <= a < p.len() && #[trigger] p[a] == b,
{
    let n = keys.len() as int;
    assert forall|i: int, j: int| 0 <= i < p.len() && 0 <= j < p.len() && i != j implies p[i] != p[j] by {
        if i < j {
            assert(text_desc_before(keys, p[i], p[j]));
        } else {
            assert(text_desc_before(keys, p[j], p[i]));
        }
        lemma_text_desc_strict(keys, p[i], p[j]);
    }
    assert(p.no_duplicates());
    p.unique_seq_to_set();
    if !(exists|a: int| 0 <= a < p.len() && #[trigger] p[a] == b) {
        let range = vstd::set_lib::set_int_range(0, n);
        vstd::set_lib::lemma_int_range(0, n);
        assert forall|x: int| p.to_set().contains(x) implies range.remove(b).contains(x) by {
            let a = choose|a: int| 0 <= a < p.len() && p[a] == x;
            assert(p[a] < keys.len());
        }
        assert(p.to_set().subset_of(range.remove(b)));
        vstd::set_lib::lemma_len_subset(p.to_set(), range.remove(b));
        assert(false);
    }
}

proof fn lemma_text_desc_prefix(keys: Seq<Seq<char>>, q1: Seq<int>, q2: Seq<int>, i: int)
    requires
        is_text_desc_order(keys, q1),
        is_text_desc_order(keys, q2),
        0 <= i < q1.len(),
    ensures
        forall|t: int| 0 <= t <= i ==> q1[t] == q2[t],
    decreases i,
{
    if i > 0 {
        lemma_text_desc_prefix(keys, q1, q2, i - 1);
    }
    let a = q1[i];
    let b = q2[i];
    if a != b {
        lemma_text_desc_covers(keys, q2, a);
        lemma_text_desc_covers(keys, q1, b);
        let k = choose|k: int| 0 <= k < q2.len() && #[trigger] q2[k] == a;
        let l = choose|l: int| 0 <= l < q1.len() && #[trigger] q1[l] == b;
        if k < i {
            assert(q1[k] == a);
            assert(text_desc_before(keys, q1[k], q1[i]));
            lemma_text_desc_strict(keys, a, a);
        }
        if l < i {
            assert(q2[l] == b);
            assert(text_desc_before(keys, q2[l], q2[i]));
            lemma_text_desc_strict(keys, b, b);
        }
        assert(k != i);
        assert(l != i);
        assert(text_desc_before(keys, b, a));
        assert(text_desc_before(keys, a, b));
        lemma_text_desc_strict(keys, a, b);
    }
}

/// The descending text order is unique.
pub proof fn lemma_text_desc_unique(keys: Seq<Seq<char>>, q1: Seq<int>, q2: Seq<int>)
    requires
        is_text_desc_order(keys, q1),
        is_text_desc_order(keys, q2),
    ensures
        q1 == q2,
{
    if q1.len() > 0 {
        lemma_text_desc_prefix(keys, q1, q2, q1.len() - 1);
    }
    assert(q1 =~= q2);
}

/// The positions of `keys` in descending order of the texts, ties in
/// storage order.
pub fn text_desc_positions(keys: &Vec<String>) -> (p: Vec<usize>)
    ensures
        p@.len() == keys@.len(),
        forall|i: int| 0 <= i < p@.len() ==> #[trigger] p@[i] as int == text_desc_order(keys@.map_values(|s: String| s@))[i],
        is_text_desc_order(keys@.map_values(|s: String| s@), text_desc_order(keys@.map_values(|s: String| s@))),
{
    let ghost ks = keys@.map_values(|s: String| s@);
    let n = keys.len();
    let mut p: Vec<usize> = Vec::new();
    let mut x: usize = 0;
    while x < n
        invariant
            n == keys@.len(),
            ks == keys@.map_values(|s: String| s@),
            x <= n,
            p@.len() == x,
            forall|i: int| 0 <= i < p@.len() ==> #[trigger] p@[i] < x,
            forall|i: int, j: int| 0 <= i < j < p@.len() ==> text_desc_before(ks, #[trigger] p@[i] as int, #[trigger] p@[j] as int),
        decreases n - x,
    {
        let kx = keys[x].as_str();
        let mut pos: usize = 0;
        while pos < p.len() && !text_less(keys[p[pos]].as_str(), kx)
            invariant
                n == keys@.len(),
                ks == keys@.map_values(|s: String| s@),
                x < n,
                kx@ == ks[x as int],
                pos <= p@.len(),
                forall|i: int| 0 <= i < p@.len() ==> #[trigger] p@[i] < x,
                forall|i: int| 0 <= i < pos ==> !text_lt(#[trigger] ks[p@[i] as int], kx@),
            decreases p@.len() - pos,
        {
            pos = pos + 1;
        }
        let ghost old_p = p@;
        proof {
            assert(pos < old_p.len() ==> text_lt(ks[old_p[pos as int] as int], kx@));
        }
        p.insert(pos, x);
        proof {
            assert forall|i: int, j: int| 0 <= i < j < p@.len() implies text_desc_before(ks, #[trigger] p@[i] as int, #[trigger] p@[j] as int) by {
                if j < pos {
                    assert(p@[i] == old_p[i] && p@[j] == old_p[j]);
                } else if j == pos {
                    assert(p@[i] == old_p[i]);
                    assert(!text_lt(ks[old_p[i] as int], kx@));
                    lemma_text_lt_total(ks[old_p[i] as int], kx@);
                    assert(old_p[i] < x);
                } else if i == pos {
                    assert(p@[j] == old_p[j - 1]);
                    let a = old_p[pos as int] as int;
                    let b = old_p[j - 1] as int;
                    if j - 1 > pos {
                        assert(text_desc_before(ks, a, b));
                        if text_lt(ks[b], ks[a]) {
                            lemma_text_lt_transitive(ks[b], ks[a], kx@);
                        }
                    }
                } else if i < pos {
                    assert(p@[i] == old_p[i] && p@[j] == old_p[j - 1]);
                } else {
                    assert(p@[i] == old_p[i - 1] && p@[j] == old_p[j - 1]);
                }
            }
        }
        x = x + 1;
    }
    let ghost pi = p@.map_values(|v: usize| v as int);
    proof {
        assert forall|i: int| 0 <= i < pi.len() implies 0 <= #[trigger] pi[i] < ks.len() by {
            assert(pi[i] == p@[i] as int);
        }
        assert forall|i: int, j: int| 0 <= i < j < pi.len() implies text_desc_before(ks, #[trigger] pi[i], #[trigger] pi[j]) by {
            assert(pi[i] == p@[i] as int && pi[j] == p@[j] as int);
        }
        assert(is_text_desc_order(ks, pi));
        lemma_text_desc_unique(ks, pi, text_desc_order(ks));
    }
    p
}

} // verus!
