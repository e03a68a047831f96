//! Diagnostics of the whole front end, and their stable order by line.
use vstd::prelude::*;

use crate::error::Report;

verus! {

/// A diagnostic as the front end returns it: line, code, message.
pub type Diagnostic = (usize, &'static str, String);

/// A diagnostic as plain values.
pub open spec fn diag_view(d: Diagnostic) -> Report {
    (d.0, d.1@, d.2@)
}

/// Diagnostics as plain values.
pub open spec fn diag_views(v: Seq<Diagnostic>) -> Seq<Report> {
    v.map_values(|d: Diagnostic| diag_view(d))
}

/// The diagnostic is on line `k`.
pub open spec fn on_line(k: usize) -> spec_fn(Report) -> bool {
    |r: Report| r.0 == k
}

/// Lines never decrease along `s`.
pub open spec fn sorted_by_line(s: Seq<Report>) -> bool {
    forall|i: int, j: int| 0 <= i <= j < s.len() ==> #[trigger] s[i].0 <= #[trigger] s[j].0
}

/// `out` is `input` sorted by line, where diagnostics on the same line keep
/// their relative order.
pub open spec fn stable_sort_of(out: Seq<Report>, input: Seq<Report>) -> bool {
    &&& sorted_by_line(out)
    &&& forall|k: usize| #[trigger] out.filter(on_line(k)) == input.filter(on_line(k))
}

proof fn lemma_filter_single_false(x: Report, k: usize)
    requires
        x.0 != k,
    ensures
        seq![x].filter(on_line(k)) == Seq::<Report>::empty(),
{
    reveal(Seq::filter);
    assert(seq![x].drop_last() =~= Seq::<Report>::empty());
    assert(Seq::<Report>::empty().filter(on_line(k)) =~= Seq::<Report>::empty());
}

proof fn lemma_filter_single_true(x: Report)
    ensures
        seq![x].filter(on_line(x.0)) == seq![x],
{
    reveal(Seq::filter);
    assert(seq![x].drop_last() =~= Seq::<Report>::empty());
    assert(Seq::<Report>::empty().filter(on_line(x.0)) =~= Seq::<Report>::empty());
    assert(Seq::<Report>::empty().push(x) =~= seq![x]);
}

proof fn lemma_insert_sorted(out: Seq<Report>, j: int, x: Report)
    requires
        sorted_by_line(out),
        0 <= j <= out.len(),
        forall|m: int| j <= m < out.len() ==> #[trigger] out[m].0 > x.0,
        j > 0 ==> out[j - 1].0 <= x.0,
    ensures
        sorted_by_line(out.insert(j, x)),
{
    let new = out.insert(j, x);
    assert forall|i: int, i2: int| 0 <= i <= i2 < new.len() implies #[trigger] new[i].0
        <= #[trigger] new[i2].0 by {
        if i2 < j {
            assert(new[i] == out[i] && new[i2] == out[i2]);
        } else if i2 == j {
            if i < j {
                assert(new[i] == out[i]);
                assert(out[i].0 <= out[j - 1].0);
            }
        } else {
            assert(new[i2] == out[i2 - 1]);
            if i < j {
                assert(new[i] == out[i]);
                assert(out[i].0 <= out[i2 - 1].0);
            } else if i > j {
                assert(new[i] == out[i - 1]);
                assert(out[i - 1].0 <= out[i2 - 1].0);
            }
        }
    }
}

proof fn lemma_insert_filter(out: Seq<Report>, j: int, x: Report, k: usize)
    requires
        0 <= j <= out.len(),
        forall|m: int| j <= m < out.len() ==> #[trigger] out[m].0 > x.0,
    ensures
        out.insert(j, x).filter(on_line(k)) == if x.0 == k {
            out.filter(on_line(k)).push(x)
        } else {
            out.filter(on_line(k))
        },
{
    let p = on_line(k);
    let a = out.take(j);
    let b = out.skip(j);
    let new = out.insert(j, x);
    assert(new =~= (a + seq![x]) + b);
    assert(out =~= a + b);
    Seq::filter_distributes_over_add(a + seq![x], b, p);
    Seq::filter_distributes_over_add(a, seq![x], p);
    Seq::filter_distributes_over_add(a, b, p);
    if x.0 == k {
        assert(b.all(|r: Report| !p(r))) by {
            assert forall|m: int| 0 <= m < b.len() implies !p(#[trigger] b[m]) by {
                assert(b[m] == out[j + m]);
            }
        }
        b.lemma_all_neg_filter_empty(p);
        assert(b.filter(p) =~= Seq::<Report>::empty());
        lemma_filter_single_true(x);
        assert(new.filter(p) =~= a.filter(p).push(x));
        assert(a.filter(p) =~= out.filter(p));
    } else {
        lemma_filter_single_false(x, k);
        assert(new.filter(p) =~= a.filter(p) + b.filter(p));
    }
}

proof fn lemma_insert_step(out: Seq<Report>, inp: Seq<Report>, j: int, x: Report)
    requires
        stable_sort_of(out, inp),
        0 <= j <= out.len(),
        forall|m: int| j <= m < out.len() ==> #[trigger] out[m].0 > x.0,
        j > 0 ==> out[j - 1].0 <= x.0,
    ensures
        stable_sort_of(out.insert(j, x), inp.push(x)),
{
    lemma_insert_sorted(out, j, x);
    assert forall|k: usize| #[trigger] out.insert(j, x).filter(on_line(k)) == inp.push(x).filter(
        on_line(k),
    ) by {
        lemma_insert_filter(out, j, x, k);
        inp.lemma_filter_push(x, on_line(k));
    }
}

proof fn lemma_filter_nonempty(s: Seq<Report>, i: int)
    requires
        0 <= i < s.len(),
    ensures
        s.filter(on_line(s[i].0)).len() > 0,
{
    s.lemma_filter_contains(on_line(s[i].0), i);
}

/// The stable order by line is unique: two sequences that both sort the
/// same diagnostics stably by line are equal.
pub proof fn lemma_stable_sort_unique(a: Seq<Report>, b: Seq<Report>, input: Seq<Report>)
    requires
        stable_sort_of(a, input),
        stable_sort_of(b, input),
    ensures
        a == b,
    decreases a.len() + b.len(),
{
    if a.len() == 0 || b.len() == 0 {
        if a.len() > 0 {
            lemma_filter_nonempty(a, 0);
            reveal(Seq::filter);
            assert(b.filter(on_line(a[0].0)) =~= b);
        } else if b.len() > 0 {
            lemma_filter_nonempty(b, 0);
            reveal(Seq::filter);
            assert(a.filter(on_line(b[0].0)) =~= a);
        }
        assert(a =~= b);
    } else {
        let x = a.last();
        let y = b.last();
        let a1 = a.drop_last();
        let b1 = b.drop_last();
        assert(a =~= a1.push(x));
        assert(b =~= b1.push(y));
        a1.lemma_filter_push(x, on_line(x.0));
        b1.lemma_filter_push(y, on_line(y.0));
        // `b` holds an element on line `x.0`, so its last line is at least `x.0`
        let fx = b.filter(on_line(x.0));
        assert(fx == a.filter(on_line(x.0)));
        assert(fx.len() > 0);
        b.lemma_filter_contains_rev(on_line(x.0), fx[0]);
        let ix = choose|i: int| 0 <= i < b.len() && b[i] == fx[0];
        b.lemma_filter_pred(on_line(x.0), 0);
        assert(b[ix].0 <= b[b.len() - 1].0);
        let fy = a.filter(on_line(y.0));
        assert(fy == b.filter(on_line(y.0)));
        assert(fy.len() > 0);
        a.lemma_filter_contains_rev(on_line(y.0), fy[0]);
        let iy = choose|i: int| 0 <= i < a.len() && a[i] == fy[0];
        a.lemma_filter_pred(on_line(y.0), 0);
        assert(a[iy].0 <= a[a.len() - 1].0);
        assert(x.0 == y.0);
        b1.lemma_filter_push(y, on_line(x.0));
        assert(a.filter(on_line(x.0)).last() == x);
        assert(b.filter(on_line(x.0)).last() == y);
        assert(x == y);
        assert forall|k: usize| #[trigger] a1.filter(on_line(k)) == b1.filter(on_line(k)) by {
            a1.lemma_filter_push(x, on_line(k));
            b1.lemma_filter_push(y, on_line(k));
            assert(a.filter(on_line(k)) == b.filter(on_line(k)));
            if x.0 == k {
                assert(a1.filter(on_line(k)) =~= a.filter(on_line(k)).drop_last());
                assert(b1.filter(on_line(k)) =~= b.filter(on_line(k)).drop_last());
            }
        }
        assert(sorted_by_line(a1)) by {
            assert forall|i: int, j: int| 0 <= i <= j < a1.len() implies #[trigger] a1[i].0
                <= #[trigger] a1[j].0 by {
                assert(a1[i] == a[i] && a1[j] == a[j]);
            }
        }
        assert(sorted_by_line(b1)) by {
            assert forall|i: int, j: int| 0 <= i <= j < b1.len() implies #[trigger] b1[i].0
                <= #[trigger] b1[j].0 by {
                assert(b1[i] == b[i] && b1[j] == b[j]);
            }
        }
        lemma_stable_sort_unique(a1, b1, a1);
    }
}

/// Sorts diagnostics by line; those on the same line keep their relative
/// order.
pub fn sort_by_line(v: Vec<Diagnostic>) -> (r: Vec<Diagnostic>)
    ensures
        r@.len() == v@.len(),
        stable_sort_of(diag_views(r@), diag_views(v@)),
{
    let ghost all = v@;
    let mut out: Vec<Diagnostic> = Vec::new();
    proof {
        reveal(Seq::filter);
        assert(diag_views(out@) =~= Seq::<Report>::empty());
        assert(diag_views(all.take(0)) =~= Seq::<Report>::empty());
    }
    for x in it: v
        invariant
            it.seq() == all,
            0 <= it.index() <= all.len(),
            out@.len() == it.index(),
            stable_sort_of(diag_views(out@), diag_views(all.take(it.index() as int))),
    {
        let ghost k = it.index();
        let mut j = out.len();
        while j > 0 && out[j - 1].0 > x.0
            invariant
                0 <= j <= out@.len(),
                forall|m: int| j <= m < out@.len() ==> #[trigger] out@[m].0 > x.0,
            decreases j,
        {
            j = j - 1;
        }
        let ghost before = out@;
        proof {
            let vs = diag_views(before);
            assert forall|m: int| j <= m < vs.len() implies #[trigger] vs[m].0 > diag_view(x).0 by {
                assert(vs[m] == diag_view(before[m]));
            }
            if j > 0 {
                assert(vs[j - 1] == diag_view(before[j - 1]));
            }
            lemma_insert_step(vs, diag_views(all.take(k as int)), j as int, diag_view(x));
            assert(all.take(k + 1) =~= all.take(k as int).push(x));
            assert(diag_views(all.take(k + 1)) =~= diag_views(all.take(k as int)).push(
                diag_view(x),
            ));
        }
        out.insert(j, x);
        proof {
            assert(diag_views(out@) =~= diag_views(before).insert(j as int, diag_view(x)));
        }
    }
    proof {
        assert(all.take(all.len() as int) =~= all);
    }
    out
}

} // verus!
