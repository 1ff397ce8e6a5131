//! Canonical acquisition order for multi-key requests.
//!
//! A request naming several keys is put into one global order (ascending
//! registry slot) before anything is acquired, and released in reverse.
//! Two requests over the same key set therefore acquire in the same
//! order, however the keys were listed, which rules out circular waits.

use vstd::prelude::*;

verus! {

/// Strictly ascending: distinct positions hold increasing values.
pub open spec fn strictly_sorted(s: Seq<usize>) -> bool {
    forall|i: int, j: int| 0 <= i < j < s.len() ==> s[i] < s[j]
}

/// Insert `x` into a strictly sorted vector, keeping it strictly sorted;
/// a value already present is left alone.
fn insert_sorted(r: &mut Vec<usize>, x: usize)
    requires
        strictly_sorted(old(r)@),
        old(r)@.len() < usize::MAX,
    ensures
        strictly_sorted(final(r)@),
        forall|y: usize| final(r)@.contains(y) <==> (old(r)@.contains(y) || y == x),
        final(r)@.len() <= old(r)@.len() + 1,
{
    let mut j: usize = 0;
    while j < r.len() && r[j] < x
        invariant
            j <= r@.len(),
            strictly_sorted(r@),
            *r == *old(r),
            forall|i: int| 0 <= i < j ==> r@[i] < x,
        decreases r@.len() - j,
    {
        j = j + 1;
    }
    if j < r.len() {
        if r[j] == x {
            proof {
                assert(r@.contains(x)) by {
                    assert(r@[j as int] == x);
                }
            }
            return;
        }
    }
    r.insert(j, x);
    proof {
        let olds = old(r)@;
        let news = r@;
        assert forall|i: int, k: int| 0 <= i < k < news.len() implies news[i] < news[k] by {
            if i < j && k < j {
            } else if i < j && k == j {
            } else if i < j && k > j {
                assert(news[k] == olds[k - 1]);
                if k - 1 > j - 1 && j >= 1 {
                    assert(olds[j - 1] < x);
                }
                if k - 1 >= j {
                    assert(olds[j as int] > x || j == olds.len());
                }
            } else if i == j {
                assert(news[k] == olds[k - 1]);
                if k - 1 == j {
                    assert(olds[j as int] != x && !(olds[j as int] < x));
                } else {
                    assert(olds[j as int] > x || j == olds.len());
                    assert(olds[j as int] <= olds[k - 1]);
                }
            } else {
                assert(news[i] == olds[i - 1]);
                assert(news[k] == olds[k - 1]);
            }
        }
        assert forall|y: usize| news.contains(y) implies (olds.contains(y) || y == x) by {
            let wi = choose|wi: int| 0 <= wi < news.len() && news[wi] == y;
            if wi < j {
                assert(olds[wi] == y);
            } else if wi > j {
                assert(olds[wi - 1] == y);
            }
        }
        assert forall|y: usize| (olds.contains(y) || y == x) implies news.contains(y) by {
            if y == x {
                assert(news[j as int] == x);
            } else {
                let wi = choose|wi: int| 0 <= wi < olds.len() && olds[wi] == y;
                if wi < j {
                    assert(news[wi] == y);
                } else {
                    assert(news[wi + 1] == y);
                }
            }
        }
    }
}

/// The canonical acquisition order of a slot list: the same slots,
/// ascending, each once.
pub fn canonical_slots(v: &Vec<usize>) -> (r: Vec<usize>)
    ensures
        strictly_sorted(r@),
        forall|x: usize| r@.contains(x) <==> v@.contains(x),
        r@.len() <= v@.len(),
{
    let mut r: Vec<usize> = Vec::new();
    let mut i: usize = 0;
    while i < v.len()
        invariant
            i <= v@.len(),
            strictly_sorted(r@),
            r@.len() <= i,
            forall|x: usize| r@.contains(x) <==> (exists|k: int| 0 <= k < i && v@[k] == x),
        decreases v@.len() - i,
    {
        let ghost r_before = r@;
        insert_sorted(&mut r, v[i]);
        proof {
            assert forall|x: usize| r@.contains(x)
                implies (exists|k: int| 0 <= k < i + 1 && #[trigger] v@[k] == x) by {
                if r_before.contains(x) {
                    let k = choose|k: int| 0 <= k < i && v@[k] == x;
                    assert(0 <= k < i + 1 && v@[k] == x);
                } else {
                    assert(v@[i as int] == x);
                }
            }
            assert forall|x: usize| (exists|k: int| 0 <= k < i + 1 && #[trigger] v@[k] == x)
                implies r@.contains(x) by {
                let k = choose|k: int| 0 <= k < i + 1 && v@[k] == x;
                if k < i {
                    assert(r_before.contains(x));
                }
            }
        }
        i = i + 1;
    }
    proof {
        assert forall|x: usize| r@.contains(x) implies v@.contains(x) by {
            let k = choose|k: int| 0 <= k < i && v@[k] == x;
            assert(0 <= k < v@.len() && v@[k] == x);
        }
        assert forall|x: usize| v@.contains(x) implies r@.contains(x) by {
            let k = choose|k: int| 0 <= k < v@.len() && v@[k] == x;
            assert(0 <= k < i && v@[k] == x);
        }
    }
    r
}

/// The canonical order is canonical: any two strictly sorted sequences
/// holding the same values are the same sequence. Two multi-key requests
/// over one key set therefore acquire in one and the same order, however
/// each listed its keys.
pub proof fn lemma_canonical_order_unique(a: Seq<usize>, b: Seq<usize>)
    requires
        strictly_sorted(a),
        strictly_sorted(b),
        forall|x: usize| a.contains(x) <==> b.contains(x),
    ensures
        a =~= b,
    decreases a.len(),
{
    if a.len() == 0 {
        if b.len() > 0 {
            assert(b.contains(b[0]));
            assert(a.contains(b[0]));
        }
    } else {
        assert(a.contains(a[0]));
        assert(b.contains(a[0]));
        let jb = choose|jb: int| 0 <= jb < b.len() && b[jb] == a[0];
        assert(b[0] <= b[jb]);
        assert(b.contains(b[0]));
        assert(a.contains(b[0]));
        let ja = choose|ja: int| 0 <= ja < a.len() && a[ja] == b[0];
        assert(a[0] <= a[ja]);
        assert(a[0] == b[0]);
        let ta = a.drop_first();
        let tb = b.drop_first();
        assert forall|x: usize| ta.contains(x) implies tb.contains(x) by {
            let wi = choose|wi: int| 0 <= wi < ta.len() && ta[wi] == x;
            assert(a[wi + 1] == x);
            assert(a[0] < x);
            assert(a.contains(x));
            assert(b.contains(x));
            let wj = choose|wj: int| 0 <= wj < b.len() && b[wj] == x;
            assert(wj > 0);
            assert(tb[wj - 1] == x);
        }
        assert forall|x: usize| tb.contains(x) implies ta.contains(x) by {
            let wi = choose|wi: int| 0 <= wi < tb.len() && tb[wi] == x;
            assert(b[wi + 1] == x);
            assert(b[0] < x);
            assert(b.contains(x));
            assert(a.contains(x));
            let wj = choose|wj: int| 0 <= wj < a.len() && a[wj] == x;
            assert(wj > 0);
            assert(ta[wj - 1] == x);
        }
        assert(strictly_sorted(ta)) by {
            assert forall|i: int, j: int| 0 <= i < j < ta.len() implies ta[i] < ta[j] by {
                assert(a[i + 1] < a[j + 1]);
            }
        }
        assert(strictly_sorted(tb)) by {
            assert forall|i: int, j: int| 0 <= i < j < tb.len() implies tb[i] < tb[j] by {
                assert(b[i + 1] < b[j + 1]);
            }
        }
        lemma_canonical_order_unique(ta, tb);
        assert(a.len() == b.len());
        assert forall|i: int| 0 <= i < a.len() implies a[i] == b[i] by {
            if i > 0 {
                assert(ta[i - 1] == tb[i - 1]);
            }
        }
    }
}

} // verus!
