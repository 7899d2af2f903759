//! Sequences: put together piece by piece, searched for a first smallest
//! element, and sorted.

use vstd::prelude::*;

verus! {

/// `f(0)`, `f(1)`, ..., `f(n - 1)`, one after the other.
pub open spec fn gather<A>(n: int, f: spec_fn(int) -> Seq<A>) -> Seq<A>
    decreases n,
{
    if n <= 0 {
        Seq::empty()
    } else {
        gather(n - 1, f) + f(n - 1)
    }
}

/// Position `k` holds the first of those elements with `ok` whose `key` is
/// smallest.
pub open spec fn is_first_min<A>(
    s: Seq<A>,
    ok: spec_fn(A) -> bool,
    key: spec_fn(A) -> int,
    k: int,
) -> bool {
    &&& 0 <= k < s.len()
    &&& ok(s[k])
    &&& forall|m: int|
        #![trigger s[m]]
        0 <= m < s.len() && ok(s[m]) ==> key(s[k]) <= key(s[m]) && (m < k ==> key(s[k]) < key(
            s[m],
        ))
}

/// The first of those elements with `ok` whose `key` is smallest.
pub open spec fn first_min<A>(
    s: Seq<A>,
    ok: spec_fn(A) -> bool,
    key: spec_fn(A) -> int,
) -> Option<A> {
    if exists|k: int| is_first_min(s, ok, key, k) {
        Some(s[choose|k: int| is_first_min(s, ok, key, k)])
    } else {
        None
    }
}

/// The best position among the first `n`, as a scan from the front keeps it.
pub open spec fn scanned<A>(
    s: Seq<A>,
    n: int,
    ok: spec_fn(A) -> bool,
    key: spec_fn(A) -> int,
    best: Option<usize>,
) -> bool {
    match best {
        Some(k) => is_first_min(s.take(n), ok, key, k as int),
        None => forall|m: int| 0 <= m < n ==> !ok(#[trigger] s[m]),
    }
}

pub proof fn lemma_scan_starts<A>(s: Seq<A>, ok: spec_fn(A) -> bool, key: spec_fn(A) -> int)
    ensures
        scanned(s, 0, ok, key, None),
{
}

/// One step of the scan.
pub proof fn lemma_scan_step<A>(
    s: Seq<A>,
    n: int,
    ok: spec_fn(A) -> bool,
    key: spec_fn(A) -> int,
    best: Option<usize>,
)
    requires
        0 <= n < s.len() <= usize::MAX,
        scanned(s, n, ok, key, best),
    ensures
        scanned(
            s,
            n + 1,
            ok,
            key,
            if ok(s[n]) && (best is None || key(s[n]) < key(s[best->0 as int])) {
                Some(n as usize)
            } else {
                best
            },
        ),
{
    let old_take = s.take(n);
    let new_take = s.take(n + 1);
    assert forall|m: int| 0 <= m < n implies old_take[m] == new_take[m] && #[trigger] new_take[m]
        == s[m] by {}
    assert(new_take[n] == s[n]);
    if best is Some {
        assert(old_take[best->0 as int] == s[best->0 as int]);
        assert forall|m: int| 0 <= m < n && ok(s[m]) implies key(s[best->0 as int]) <= key(
            #[trigger] s[m],
        ) && (m < best->0 ==> key(s[best->0 as int]) < key(s[m])) by {
            assert(old_take[m] == s[m]);
        }
    }
}

/// What a finished scan has found is the first smallest element.
pub proof fn lemma_scan_ends<A>(
    s: Seq<A>,
    ok: spec_fn(A) -> bool,
    key: spec_fn(A) -> int,
    best: Option<usize>,
)
    requires
        scanned(s, s.len() as int, ok, key, best),
    ensures
        match best {
            Some(k) => k < s.len() && first_min(s, ok, key) == Some(s[k as int]),
            None => first_min(s, ok, key) is None,
        },
{
    assert(s.take(s.len() as int) =~= s);
    if best is Some {
        let k = best->0 as int;
        assert(is_first_min(s, ok, key, k));
        lemma_first_min_unique(s, ok, key, k);
    }
}

/// Where some element has `ok`, one of them is the first smallest.
pub proof fn lemma_first_min_exists<A>(
    s: Seq<A>,
    ok: spec_fn(A) -> bool,
    key: spec_fn(A) -> int,
    m: int,
) -> (k: int)
    requires
        0 <= m < s.len(),
        ok(s[m]),
    ensures
        is_first_min(s, ok, key, k),
        first_min(s, ok, key) == Some(s[k]),
    decreases s.len(),
{
    let n = s.len() - 1;
    let front = s.drop_last();
    assert forall|i: int| 0 <= i < n implies front[i] == #[trigger] s[i] by {}
    let k = if exists|i: int| 0 <= i < n && ok(#[trigger] s[i]) {
        let i = choose|i: int| 0 <= i < n && ok(#[trigger] s[i]);
        let best = lemma_first_min_exists(front, ok, key, i);
        assert forall|i: int| 0 <= i < n && ok(s[i]) implies key(s[best]) <= key(#[trigger] s[i])
            && (i < best ==> key(s[best]) < key(s[i])) by {
            assert(front[i] == s[i]);
        }
        if ok(s[n]) && key(s[n]) < key(s[best]) {
            n
        } else {
            best
        }
    } else {
        m
    };
    assert(is_first_min(s, ok, key, k));
    lemma_first_min_unique(s, ok, key, k);
    k
}

/// Where a stricter condition only bounds the key, the first smallest element
/// is the same one or there is none.
pub proof fn lemma_first_min_narrows<A>(
    s: Seq<A>,
    strict: spec_fn(A) -> bool,
    loose: spec_fn(A) -> bool,
    key: spec_fn(A) -> int,
)
    requires
        forall|x: A| #[trigger] strict(x) ==> loose(x),
        forall|x: A, y: A|
            #![trigger strict(x), loose(y)]
            strict(x) && loose(y) && key(y) <= key(x) ==> strict(y),
    ensures
        first_min(s, strict, key) == (match first_min(s, loose, key) {
            Some(x) => if strict(x) {
                Some(x)
            } else {
                None
            },
            None => None,
        }),
{
    if exists|m: int| 0 <= m < s.len() && strict(#[trigger] s[m]) {
        let m = choose|m: int| 0 <= m < s.len() && strict(#[trigger] s[m]);
        let k = lemma_first_min_exists(s, loose, key, m);
        assert(strict(s[k]));
        assert(is_first_min(s, strict, key, k));
        lemma_first_min_unique(s, strict, key, k);
    } else {
        assert(first_min(s, strict, key) is None);
        if first_min(s, loose, key) is Some {
            let k = choose|k: int| is_first_min(s, loose, key, k);
            assert(!strict(s[k]));
        }
    }
}

/// Only one position holds the first smallest element.
pub proof fn lemma_first_min_unique<A>(
    s: Seq<A>,
    ok: spec_fn(A) -> bool,
    key: spec_fn(A) -> int,
    k: int,
)
    requires
        is_first_min(s, ok, key, k),
    ensures
        first_min(s, ok, key) == Some(s[k]),
{
    let c = choose|c: int| is_first_min(s, ok, key, c);
    assert(is_first_min(s, ok, key, c));
    assert(s[c] == s[c] && s[k] == s[k]);
    assert(c == k);
}

/// What is gathered from two lists of pieces, one after the other.
pub proof fn lemma_gather_split<A>(
    n: int,
    m: int,
    whole: spec_fn(int) -> Seq<A>,
    front: spec_fn(int) -> Seq<A>,
    back: spec_fn(int) -> Seq<A>,
)
    requires
        0 <= n,
        0 <= m,
        forall|i: int| 0 <= i < n ==> #[trigger] whole(i) == front(i),
        forall|i: int| 0 <= i < m ==> whole(n + i) == #[trigger] back(i),
    ensures
        gather(n + m, whole) == gather(n, front) + gather(m, back),
    decreases m, n,
{
    if m > 0 {
        lemma_gather_split(n, m - 1, whole, front, back);
        assert(back(m - 1) == whole(n + m - 1));
        assert(gather(n + m, whole) =~= gather(n, front) + gather(m, back));
    } else if n > 0 {
        lemma_gather_split(n - 1, 0, whole, front, back);
        assert(whole(n - 1) == front(n - 1));
        assert(gather(n, whole) =~= gather(n, front) + gather(0, back));
    } else {
        assert(gather(0, whole) =~= gather(0, front) + gather(0, back));
    }
}

/// Pieces that are the same make the same whole.
pub proof fn lemma_gather_same<A>(n: int, f: spec_fn(int) -> Seq<A>, g: spec_fn(int) -> Seq<A>)
    requires
        forall|i: int| 0 <= i < n ==> #[trigger] f(i) == g(i),
    ensures
        gather(n, f) == gather(n, g),
    decreases n,
{
    if n > 0 {
        lemma_gather_same(n - 1, f, g);
        assert(f(n - 1) == g(n - 1));
    }
}

/// Where all pieces but one are empty, that one is the whole.
pub proof fn lemma_gather_one<A>(n: int, f: spec_fn(int) -> Seq<A>, k: int)
    requires
        0 <= k < n,
        forall|i: int| 0 <= i < n && i != k ==> (#[trigger] f(i)).len() == 0,
    ensures
        gather(n, f) == f(k),
    decreases n,
{
    if k == n - 1 {
        lemma_gather_none(n - 1, f);
        assert(gather(n, f) =~= f(k));
    } else {
        lemma_gather_one(n - 1, f, k);
        assert(f(n - 1).len() == 0);
        assert(gather(n, f) =~= f(k));
    }
}

/// Where all pieces are empty, so is the whole.
pub proof fn lemma_gather_none<A>(n: int, f: spec_fn(int) -> Seq<A>)
    requires
        forall|i: int| 0 <= i < n ==> (#[trigger] f(i)).len() == 0,
    ensures
        gather(n, f) == Seq::<A>::empty(),
    decreases n,
{
    if n > 0 {
        lemma_gather_none(n - 1, f);
        assert(f(n - 1).len() == 0);
        assert(gather(n, f) =~= Seq::<A>::empty());
    }
}

/// A whole is filtered piece by piece.
pub proof fn lemma_gather_filter<A>(n: int, f: spec_fn(int) -> Seq<A>, keep: spec_fn(A) -> bool)
    ensures
        gather(n, f).filter(keep) == gather(n, |i: int| f(i).filter(keep)),
    decreases n,
{
    let g = |i: int| f(i).filter(keep);
    if n > 0 {
        lemma_gather_filter(n - 1, f, keep);
        Seq::filter_distributes_over_add(gather(n - 1, f), f(n - 1), keep);
        assert(g(n - 1) == f(n - 1).filter(keep));
    } else {
        reveal(Seq::filter);
    }
}

/// What a filter keeps was there and passes.
pub proof fn lemma_filter_member<A>(s: Seq<A>, keep: spec_fn(A) -> bool, x: A)
    requires
        s.filter(keep).contains(x),
    ensures
        s.contains(x),
        keep(x),
{
    s.lemma_filter_contains_rev(keep, x);
    let k = choose|k: int| 0 <= k < s.filter(keep).len() && s.filter(keep)[k] == x;
    s.lemma_filter_pred(keep, k);
}

/// `a` is what is left of `b` when some elements are taken out.
pub open spec fn is_subsequence<A>(a: Seq<A>, b: Seq<A>) -> bool {
    exists|at: Seq<int>| #[trigger] picks(a, b, at)
}

/// The elements of `a` stand in `b` at the ascending positions `at`.
pub open spec fn picks<A>(a: Seq<A>, b: Seq<A>, at: Seq<int>) -> bool {
    &&& at.len() == a.len()
    &&& forall|i: int| 0 <= i < a.len() ==> 0 <= #[trigger] at[i] < b.len() && a[i] == b[at[i]]
    &&& forall|i: int, j: int|
        #![trigger at[i], at[j]]
        0 <= i < j < a.len() ==> at[i] < at[j]
}

/// What a filter keeps is a subsequence.
pub proof fn lemma_filter_subsequence<A>(s: Seq<A>, keep: spec_fn(A) -> bool)
    ensures
        is_subsequence(s.filter(keep), s),
    decreases s.len(),
{
    reveal(Seq::filter);
    if s.len() == 0 {
        assert(picks(s.filter(keep), s, Seq::empty()));
    } else {
        let front = s.drop_last();
        lemma_filter_subsequence(front, keep);
        let at = choose|at: Seq<int>| #[trigger] picks(front.filter(keep), front, at);
        if keep(s.last()) {
            assert(picks(s.filter(keep), s, at.push(s.len() - 1)));
        } else {
            assert(picks(s.filter(keep), s, at));
        }
    }
}

/// An element is in the whole just when it is in one of the pieces.
pub proof fn lemma_gather_contains<A>(n: int, f: spec_fn(int) -> Seq<A>, x: A)
    ensures
        gather(n, f).contains(x) <==> exists|i: int| 0 <= i < n && (#[trigger] f(i)).contains(x),
    decreases n,
{
    if n > 0 {
        lemma_gather_contains(n - 1, f, x);
        let front = gather(n - 1, f);
        let piece = f(n - 1);
        let whole = gather(n, f);
        if whole.contains(x) {
            let k = choose|k: int| 0 <= k < whole.len() && whole[k] == x;
            if k < front.len() {
                assert(front[k] == x);
            } else {
                assert(piece[k - front.len()] == x);
            }
        }
        if front.contains(x) {
            let k = choose|k: int| 0 <= k < front.len() && front[k] == x;
            assert(whole[k] == x);
        }
        if piece.contains(x) {
            let k = choose|k: int| 0 <= k < piece.len() && piece[k] == x;
            assert(whole[front.len() + k] == x);
        }
    }
}

/// `at` names one source for each element of `found`, and the sources ascend.
pub open spec fn matched<T, A>(
    at: Seq<T>,
    found: Seq<A>,
    ok: spec_fn(T, A) -> bool,
    lt: spec_fn(T, T) -> bool,
) -> bool {
    &&& at.len() == found.len()
    &&& forall|p: int| 0 <= p < at.len() ==> ok(#[trigger] at[p], found[p])
    &&& forall|p: int, q: int| #![trigger at[p], at[q]] 0 <= p < q < at.len() ==> lt(at[p], at[q])
}

/// Sources that are named piece by piece are named for the whole.
pub proof fn lemma_gather_matched<T, A>(
    n: int,
    at: spec_fn(int) -> Seq<T>,
    found: spec_fn(int) -> Seq<A>,
    ok: spec_fn(T, A) -> bool,
    lt: spec_fn(T, T) -> bool,
)
    requires
        forall|i: int| 0 <= i < n ==> matched(#[trigger] at(i), found(i), ok, lt),
        forall|i: int, j: int, x: T, y: T|
            #![trigger at(i).contains(x), at(j).contains(y)]
            0 <= i < j < n && at(i).contains(x) && at(j).contains(y) ==> lt(x, y),
    ensures
        matched(gather(n, at), gather(n, found), ok, lt),
    decreases n,
{
    if n > 0 {
        lemma_gather_matched(n - 1, at, found, ok, lt);
        let front = gather(n - 1, at);
        let piece = at(n - 1);
        let all = gather(n, at);
        let given = gather(n, found);
        assert(matched(piece, found(n - 1), ok, lt));
        assert(all == front + piece);
        assert(given == gather(n - 1, found) + found(n - 1));
        assert forall|p: int| 0 <= p < all.len() implies ok(#[trigger] all[p], given[p]) by {
            if p < front.len() {
                assert(ok(front[p], gather(n - 1, found)[p]));
            } else {
                assert(ok(piece[p - front.len()], found(n - 1)[p - front.len()]));
            }
        }
        assert forall|p: int, q: int|
            #![trigger all[p], all[q]]
            0 <= p < q < all.len() implies lt(all[p], all[q]) by {
            if q < front.len() {
                assert(lt(front[p], front[q]));
            } else if p >= front.len() {
                assert(lt(piece[p - front.len()], piece[q - front.len()]));
            } else {
                let x = front[p];
                let y = piece[q - front.len()];
                assert(front.contains(x));
                lemma_gather_contains(n - 1, at, x);
                let i = choose|i: int| 0 <= i < n - 1 && (#[trigger] at(i)).contains(x);
                assert(at(i).contains(x) && at(n - 1).contains(y));
            }
        }
    }
}

/// `x` put into `s` behind everything that it does not come before.
pub open spec fn insert_sorted<A>(s: Seq<A>, x: A, before: spec_fn(A, A) -> bool) -> Seq<A>
    decreases s.len(),
{
    if s.len() > 0 && before(x, s.last()) {
        insert_sorted(s.drop_last(), x, before).push(s.last())
    } else {
        s.push(x)
    }
}

/// `s` sorted by `before`; elements of which neither comes before the other
/// keep their order.
pub open spec fn sorted<A>(s: Seq<A>, before: spec_fn(A, A) -> bool) -> Seq<A>
    decreases s.len(),
{
    if s.len() == 0 {
        s
    } else {
        insert_sorted(sorted(s.drop_last(), before), s.last(), before)
    }
}

/// Insertion at a given place: before the elements that `x` comes before.
pub proof fn lemma_insert_sorted_at<A>(s: Seq<A>, x: A, before: spec_fn(A, A) -> bool, k: int)
    requires
        0 <= k <= s.len(),
        k > 0 ==> !before(x, s[k - 1]),
        forall|m: int| k <= m < s.len() ==> before(x, #[trigger] s[m]),
    ensures
        insert_sorted(s, x, before) == s.insert(k, x),
    decreases s.len(),
{
    if k < s.len() {
        assert forall|m: int| k <= m < s.drop_last().len() implies before(
            x,
            #[trigger] s.drop_last()[m],
        ) by {
            assert(s.drop_last()[m] == s[m]);
        }
        lemma_insert_sorted_at(s.drop_last(), x, before, k);
        assert(s.insert(k, x) =~= s.drop_last().insert(k, x).push(s.last()));
    } else {
        assert(s.insert(k, x) =~= s.push(x));
    }
}

/// A strict order in which elements may be tied, and ties are transitive.
pub open spec fn is_ranking<A>(before: spec_fn(A, A) -> bool) -> bool {
    &&& forall|a: A, b: A| #[trigger] before(a, b) ==> !before(b, a)
    &&& forall|a: A, b: A, c: A|
        #![trigger before(a, b), before(b, c)]
        !before(a, b) && !before(b, c) ==> !before(a, c)
}

/// No element comes before one that stands in front of it.
pub open spec fn is_sorted<A>(s: Seq<A>, before: spec_fn(A, A) -> bool) -> bool {
    forall|i: int, j: int|
        #![trigger s[i], s[j]]
        0 <= i < j < s.len() ==> !before(s[j], s[i])
}

/// The elements that are tied with `x`.
pub open spec fn tied<A>(x: A, before: spec_fn(A, A) -> bool) -> spec_fn(A) -> bool {
    |y: A| !before(x, y) && !before(y, x)
}

proof fn lemma_insert_sorted<A>(s: Seq<A>, x: A, before: spec_fn(A, A) -> bool)
    requires
        is_ranking(before),
        is_sorted(s, before),
    ensures
        is_sorted(insert_sorted(s, x, before), before),
        insert_sorted(s, x, before).to_multiset() == s.to_multiset().insert(x),
        forall|y: A|
            insert_sorted(s, x, before).filter(#[trigger] tied(y, before)) == s.push(x).filter(
                tied(y, before),
            ),
    decreases s.len(),
{
    broadcast use vstd::seq_lib::group_to_multiset_ensures;

    if s.len() > 0 && before(x, s.last()) {
        let front = s.drop_last();
        let last = s.last();
        let inner = insert_sorted(front, x, before);
        let all = insert_sorted(s, x, before);
        lemma_insert_sorted(front, x, before);
        assert(all == inner.push(last));
        assert(s =~= front.push(last));
        assert(all.to_multiset() =~= s.to_multiset().insert(x));
        assert forall|i: int, j: int|
            #![trigger all[i], all[j]]
            0 <= i < j < all.len() implies !before(all[j], all[i]) by {
            if j == inner.len() {
                assert(inner[i] == all[i]);
                assert(inner.to_multiset().contains(inner[i]));
                if inner[i] != x {
                    assert(front.to_multiset().contains(inner[i]));
                    let m = choose|m: int| 0 <= m < front.len() && front[m] == inner[i];
                    assert(s[m] == inner[i]);
                }
            } else {
                assert(inner[i] == all[i] && inner[j] == all[j]);
            }
        }
        assert forall|y: A|
            all.filter(#[trigger] tied(y, before)) == s.push(x).filter(tied(y, before)) by {
            let t = tied(y, before);
            lemma_filter_push(inner, last, t);
            lemma_filter_push(front, x, t);
            lemma_filter_push(front, last, t);
            lemma_filter_push(s, x, t);
            assert(!(t(x) && t(last))) by {
                if t(x) && t(last) {
                    assert(!before(x, y) && !before(y, last));
                }
            }
        }
    } else {
        let all = s.push(x);
        assert forall|i: int, j: int|
            #![trigger all[i], all[j]]
            0 <= i < j < all.len() implies !before(all[j], all[i]) by {
            if j == s.len() {
                if i < s.len() - 1 {
                    assert(!before(s[s.len() - 1], s[i]));
                    assert(!before(x, s[s.len() - 1]));
                }
            } else {
                assert(s[i] == all[i] && s[j] == all[j]);
            }
        }
    }
}

proof fn lemma_filter_push<A>(s: Seq<A>, x: A, keep: spec_fn(A) -> bool)
    ensures
        s.push(x).filter(keep) == (if keep(x) {
            s.filter(keep).push(x)
        } else {
            s.filter(keep)
        }),
{
    reveal(Seq::filter);
    assert(s.push(x).drop_last() =~= s);
}

/// Sorting puts the same elements in order, and those that are tied stay in
/// the order they had.
pub proof fn law_sorted<A>(s: Seq<A>, before: spec_fn(A, A) -> bool)
    requires
        is_ranking(before),
    ensures
        is_sorted(sorted(s, before), before),
        sorted(s, before).to_multiset() == s.to_multiset(),
        forall|y: A|
            sorted(s, before).filter(#[trigger] tied(y, before)) == s.filter(tied(y, before)),
    decreases s.len(),
{
    broadcast use vstd::seq_lib::group_to_multiset_ensures;

    if s.len() > 0 {
        let front = s.drop_last();
        law_sorted(front, before);
        lemma_insert_sorted(sorted(front, before), s.last(), before);
        assert(s =~= front.push(s.last()));
        assert forall|y: A|
            sorted(s, before).filter(#[trigger] tied(y, before)) == s.filter(tied(y, before)) by {
            let t = tied(y, before);
            lemma_filter_push(sorted(front, before), s.last(), t);
            lemma_filter_push(front, s.last(), t);
            assert(sorted(front, before).filter(t) == front.filter(t));
        }
    }
}

proof fn lemma_sorted_by_ties<A>(a: Seq<A>, b: Seq<A>, before: spec_fn(A, A) -> bool)
    requires
        is_ranking(before),
        is_sorted(a, before),
        is_sorted(b, before),
        forall|y: A| a.filter(#[trigger] tied(y, before)) == b.filter(tied(y, before)),
    ensures
        a == b,
    decreases a.len(),
{
    if a.len() == 0 {
        if b.len() > 0 {
            let t = tied(b[0], before);
            b.lemma_filter_contains(t, 0);
            assert(t(b[0]));
            reveal(Seq::filter);
            assert(a.filter(t).len() == 0);
        }
        assert(a =~= b);
    } else {
        let x = a.last();
        let tx = tied(x, before);
        assert(a =~= a.drop_last().push(x));
        lemma_filter_push(a.drop_last(), x, tx);
        assert(a.filter(tx).contains(x)) by {
            assert(a.filter(tx).last() == x);
        }
        lemma_filter_member(b, tx, x);
        let m = choose|m: int| 0 <= m < b.len() && b[m] == x;
        let y = b.last();
        let ty = tied(y, before);
        assert(b =~= b.drop_last().push(y));
        lemma_filter_push(b.drop_last(), y, ty);
        assert(b.filter(ty).contains(y)) by {
            assert(b.filter(ty).last() == y);
        }
        lemma_filter_member(a, ty, y);
        let k = choose|k: int| 0 <= k < a.len() && a[k] == y;
        assert(!before(y, x)) by {
            if m < b.len() - 1 {
                assert(!before(b[b.len() - 1], b[m]));
            }
        }
        assert(!before(x, y)) by {
            if k < a.len() - 1 {
                assert(!before(a[a.len() - 1], a[k]));
            }
        }
        assert(tx(y));
        lemma_filter_push(b.drop_last(), y, tx);
        assert(a.filter(tx).last() == x && b.filter(tx).last() == y);
        assert(x == y);
        let a1 = a.drop_last();
        let b1 = b.drop_last();
        assert forall|z: A| a1.filter(#[trigger] tied(z, before)) == b1.filter(tied(z, before)) by {
            let t = tied(z, before);
            lemma_filter_push(a1, x, t);
            lemma_filter_push(b1, x, t);
            assert(a.filter(t) == b.filter(t));
            if t(x) {
                assert(a1.filter(t) =~= a.filter(t).drop_last());
                assert(b1.filter(t) =~= b.filter(t).drop_last());
            }
        }
        assert(is_sorted(a1, before));
        assert(is_sorted(b1, before));
        lemma_sorted_by_ties(a1, b1, before);
    }
}

/// Two sequences that hold the same of each group of tied elements, in the
/// same order, are sorted alike and hold the same elements.
pub proof fn lemma_same_ties<A>(a: Seq<A>, b: Seq<A>, before: spec_fn(A, A) -> bool)
    requires
        is_ranking(before),
        forall|y: A| a.filter(#[trigger] tied(y, before)) == b.filter(tied(y, before)),
    ensures
        sorted(a, before) == sorted(b, before),
        a.to_multiset() == b.to_multiset(),
{
    law_sorted(a, before);
    law_sorted(b, before);
    assert forall|y: A|
        sorted(a, before).filter(#[trigger] tied(y, before)) == sorted(b, before).filter(
            tied(y, before),
        ) by {
        assert(a.filter(tied(y, before)) == b.filter(tied(y, before)));
    }
    lemma_sorted_by_ties(sorted(a, before), sorted(b, before), before);
}

/// Sorting the parts of a whole first changes nothing.
pub proof fn lemma_sorted_parts<A>(a: Seq<A>, b: Seq<A>, before: spec_fn(A, A) -> bool)
    requires
        is_ranking(before),
    ensures
        sorted(sorted(a, before) + sorted(b, before), before) == sorted(a + b, before),
{
    let parts = sorted(a, before) + sorted(b, before);
    law_sorted(a, before);
    law_sorted(b, before);
    assert forall|y: A|
        parts.filter(#[trigger] tied(y, before)) == (a + b).filter(tied(y, before)) by {
        let t = tied(y, before);
        Seq::filter_distributes_over_add(sorted(a, before), sorted(b, before), t);
        Seq::filter_distributes_over_add(a, b, t);
        assert(sorted(a, before).filter(t) == a.filter(t));
        assert(sorted(b, before).filter(t) == b.filter(t));
    }
    lemma_same_ties(parts, a + b, before);
}

/// Values that can be sorted by a fixed order.
pub trait Ranked: DeepView + Sized {
    /// The order of the values.
    spec fn before() -> spec_fn(Self::V, Self::V) -> bool;

    /// Whether this value comes before another.
    fn comes_before(&self, other: &Self) -> (yes: bool)
        ensures
            yes == Self::before()(self.deep_view(), other.deep_view()),
    ;
}

/// Sorts by the order of the values; those of which neither comes before the
/// other keep their order.
///
/// Each value is put in from the back, so that values that come almost in
/// order, as log lines do, take little time.
pub fn stable_sort<T: Ranked>(items: Vec<T>) -> (out: Vec<T>)
    ensures
        out.deep_view() == sorted(items.deep_view(), T::before()),
{
    let ghost all = items.deep_view();
    let mut out: Vec<T> = Vec::new();
    assert(all.take(0) =~= Seq::<T::V>::empty());
    for item in it: items
        invariant
            all == items.deep_view(),
            it.seq() == items@,
            out.deep_view() =~= sorted(all.take(it.index()), T::before()),
    {
        let ghost n = it.index();
        let ghost before = out.deep_view();
        let mut k: usize = out.len();
        while k > 0 && item.comes_before(&out[k - 1])
            invariant
                k <= out.len(),
                before == out.deep_view(),
                forall|m: int|
                    k <= m < before.len() ==> T::before()(item.deep_view(), #[trigger] before[m]),
            decreases k,
        {
            assert(before[k - 1] == out[k - 1].deep_view());
            k = k - 1;
        }
        proof {
            if k > 0 {
                assert(before[k - 1] == out[k - 1].deep_view());
            }
            lemma_insert_sorted_at(before, item.deep_view(), T::before(), k as int);
            assert(all.take(n + 1).drop_last() =~= all.take(n));
            assert(all.take(n + 1).last() == item.deep_view());
        }
        out.insert(k, item);
        assert(out.deep_view() =~= before.insert(k as int, item.deep_view()));
    }
    assert(all.take(all.len() as int) =~= all);
    out
}

} // verus!
