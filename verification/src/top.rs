//! The best few of a finite list under a strict total order.

use vstd::prelude::*;

verus! {

/// `lt` is irreflexive, transitive and decides between any two integers.
pub open spec fn strict_total(lt: spec_fn(int, int) -> bool) -> bool {
    &&& forall|a: int| !#[trigger] lt(a, a)
    &&& forall|a: int, b: int, c: int| #[trigger]
        lt(a, b) && #[trigger] lt(b, c) ==> lt(a, c)
    &&& forall|a: int, b: int| a != b ==> #[trigger] lt(a, b) || lt(b, a)
}

/// `sel` lists, first to last under `lt`, the first `want` of those
/// `0..n` that are `ok`, or all of them where there are fewer.
pub open spec fn is_top(
    lt: spec_fn(int, int) -> bool,
    ok: spec_fn(int) -> bool,
    n: nat,
    want: nat,
    sel: Seq<int>,
) -> bool {
    &&& sel.len() <= want
    &&& forall|i: int| 0 <= i < sel.len() ==> 0 <= #[trigger] sel[i] < n && ok(sel[i])
    &&& forall|i: int, j: int|
        0 <= i < j < sel.len() ==> lt(#[trigger] sel[i], #[trigger] sel[j])
    &&& forall|k: int|
        0 <= k < n && #[trigger] ok(k) && !sel.contains(k) ==> sel.len() == want && (want > 0
            ==> lt(sel[want - 1], k))
}

/// The first `want` of `0..n + 1` from those of `0..n`, where `n` is one of
/// them.
pub proof fn lemma_top_insert(
    lt: spec_fn(int, int) -> bool,
    ok: spec_fn(int) -> bool,
    n: nat,
    want: nat,
    sel: Seq<int>,
    pos: int,
    next: Seq<int>,
)
    requires
        strict_total(lt),
        ok(n as int),
        is_top(lt, ok, n, want, sel),
        want > 0,
        0 <= pos <= sel.len(),
        pos < want,
        pos > 0 ==> lt(sel[pos - 1], n as int),
        pos < sel.len() ==> lt(n as int, sel[pos]),
        next == sel.insert(pos, n as int).take(
            if sel.len() < want {
                sel.len() as int + 1
            } else {
                want as int
            },
        ),
    ensures
        is_top(lt, ok, n + 1, want, next),
{
    let m = n as int;
    assert forall|i: int| 0 <= i < sel.len() implies (if i < pos {
        lt(#[trigger] sel[i], m)
    } else {
        lt(m, sel[i])
    }) by {
        if i < pos - 1 {
            assert(lt(sel[i], sel[pos - 1]));
        }
        if i > pos {
            assert(lt(sel[pos], sel[i]));
        }
    }
    assert forall|i: int| 0 <= i < next.len() implies #[trigger] next[i] == (if i < pos {
        sel[i]
    } else if i == pos {
        m
    } else {
        sel[i - 1]
    }) by {}
    assert forall|i: int, j: int| 0 <= i < j < next.len() implies lt(
        #[trigger] next[i],
        #[trigger] next[j],
    ) by {}
    assert forall|k: int|
        0 <= k < n + 1 && #[trigger] ok(k) && !next.contains(k) implies next.len() == want && lt(
        next[want - 1],
        k,
    ) by {
        assert(next[pos] == m);
        if sel.contains(k) {
            let i = sel.index_of(k);
            if i < pos {
                assert(next[i] == k);
            } else if i + 1 < next.len() {
                assert(next[i + 1] == k);
            }
        } else {
            assert(lt(sel[want - 1], k));
            if pos < want - 1 {
                assert(lt(sel[want - 2], sel[want - 1]));
            }
        }
    }
}

/// There is one answer only.
pub proof fn lemma_top_unique(
    lt: spec_fn(int, int) -> bool,
    ok: spec_fn(int) -> bool,
    n: nat,
    want: nat,
    a: Seq<int>,
    b: Seq<int>,
)
    requires
        strict_total(lt),
        is_top(lt, ok, n, want, a),
        is_top(lt, ok, n, want, b),
    ensures
        a == b,
{
    lemma_top_prefix(lt, ok, n, want, a, b, if a.len() < b.len() {
        a.len()
    } else {
        b.len()
    });
    if a.len() < b.len() {
        let k = b[a.len() as int];
        assert(ok(k));
        if a.contains(k) {
            let i = a.index_of(k);
            assert(a.take(a.len() as int)[i] == b.take(a.len() as int)[i]);
            assert(lt(b[i], b[a.len() as int]));
        }
    } else if b.len() < a.len() {
        let k = a[b.len() as int];
        assert(ok(k));
        if b.contains(k) {
            let i = b.index_of(k);
            assert(a.take(b.len() as int)[i] == b.take(b.len() as int)[i]);
            assert(lt(a[i], a[b.len() as int]));
        }
    }
    assert(a =~= a.take(a.len() as int));
    assert(b =~= b.take(b.len() as int));
}

/// What is at position `p` of the answer comes before everything that is
/// usable and not further up.
pub proof fn lemma_top_next(
    lt: spec_fn(int, int) -> bool,
    ok: spec_fn(int) -> bool,
    n: nat,
    want: nat,
    a: Seq<int>,
    p: int,
    k: int,
)
    requires
        strict_total(lt),
        is_top(lt, ok, n, want, a),
        0 <= p < a.len(),
        0 <= k < n,
        ok(k),
        !a.take(p).contains(k),
        k != a[p],
    ensures
        lt(a[p], k),
{
    if a.contains(k) {
        let j = a.index_of(k);
        if j < p {
            assert(a.take(p)[j] == k);
        }
        assert(lt(a[p], a[j]));
    } else if p < want - 1 {
        assert(lt(a[p], a[want - 1]));
    }
}

proof fn lemma_top_prefix(
    lt: spec_fn(int, int) -> bool,
    ok: spec_fn(int) -> bool,
    n: nat,
    want: nat,
    a: Seq<int>,
    b: Seq<int>,
    m: nat,
)
    requires
        strict_total(lt),
        is_top(lt, ok, n, want, a),
        is_top(lt, ok, n, want, b),
        m <= a.len(),
        m <= b.len(),
    ensures
        a.take(m as int) == b.take(m as int),
    decreases m,
{
    if m > 0 {
        let p = m - 1;
        lemma_top_prefix(lt, ok, n, want, a, b, p as nat);
        if a[p] != b[p] {
            assert(!b.take(p).contains(a[p])) by {
                if b.take(p).contains(a[p]) {
                    let i = b.take(p).index_of(a[p]);
                    assert(a.take(p)[i] == a[p]);
                    assert(lt(a[i], a[p]));
                }
            }
            assert(!a.take(p).contains(b[p])) by {
                if a.take(p).contains(b[p]) {
                    let i = a.take(p).index_of(b[p]);
                    assert(b.take(p)[i] == b[p]);
                    assert(lt(b[i], b[p]));
                }
            }
            assert(ok(a[p]) && ok(b[p]));
            lemma_top_next(lt, ok, n, want, a, p, b[p]);
            lemma_top_next(lt, ok, n, want, b, p, a[p]);
        }
        assert(a.take(m as int) =~= a.take(p).push(a[p]));
        assert(b.take(m as int) =~= b.take(p).push(b[p]));
    } else {
        assert(a.take(0) =~= b.take(0));
    }
}

} // verus!
