//! Timelines counted the other way: by following every path from the start
//! down to the bottom row, one split choice at a time. The multiplicity
//! engine's count agrees with this enumeration on every grid.
use crate::grid::is_splitter;
use crate::splits::splitter_row;
use crate::grid::Grid;
use crate::timelines::{lemma_timelines_len, next_counts, sent, sum_nat, timelines, total_timelines};
use vstd::prelude::*;

verus! {

/// The paths from column `c` of row `r` down to the last of `h` rows: a
/// splitter below sends the path to each neighbouring column inside the
/// row, an empty cell lets it go straight on.
pub open spec fn paths(g: Seq<Seq<u8>>, w: nat, h: nat, r: nat, c: int) -> nat
    decreases h - r,
{
    if r + 1 >= h {
        1
    } else if is_splitter(g[(r + 1) as int][c]) {
        (if c > 0 {
            paths(g, w, h, r + 1, c - 1)
        } else {
            0
        }) + (if c + 1 < w {
            paths(g, w, h, r + 1, c + 1)
        } else {
            0
        })
    } else {
        paths(g, w, h, r + 1, c)
    }
}

/// `f(0) + ... + f(n - 1)`.
pub open spec fn sum_to(f: spec_fn(int) -> int, n: int) -> int
    decreases n,
{
    if n <= 0 {
        0
    } else {
        sum_to(f, n - 1) + f(n - 1)
    }
}

proof fn lemma_sum_ext(f: spec_fn(int) -> int, g: spec_fn(int) -> int, n: int)
    requires
        forall|x: int| 0 <= x < n ==> #[trigger] f(x) == g(x),
    ensures
        sum_to(f, n) == sum_to(g, n),
    decreases n,
{
    if n > 0 {
        lemma_sum_ext(f, g, n - 1);
    }
}

proof fn lemma_sum_add(f: spec_fn(int) -> int, g: spec_fn(int) -> int, n: int)
    ensures
        sum_to(|x: int| f(x) + g(x), n) == sum_to(f, n) + sum_to(g, n),
    decreases n,
{
    if n > 0 {
        lemma_sum_add(f, g, n - 1);
    }
}

/// Dropping the first term moves every other term down by one.
proof fn lemma_sum_shift(f: spec_fn(int) -> int, n: int)
    requires
        n >= 1,
    ensures
        sum_to(f, n) == f(0) + sum_to(|c: int| f(c + 1), n - 1),
    decreases n,
{
    let g = |c: int| f(c + 1);
    if n > 1 {
        lemma_sum_shift(f, n - 1);
        assert(sum_to(g, n - 1) == sum_to(g, n - 2) + g(n - 2));
        assert(sum_to(f, n) == sum_to(f, n - 1) + f(n - 1));
    } else {
        assert(sum_to(f, 1) == sum_to(f, 0) + f(0));
    }
}

proof fn lemma_sum_single(f: spec_fn(int) -> int, s: int, n: int)
    requires
        forall|x: int| 0 <= x < n && x != s ==> #[trigger] f(x) == 0,
        0 <= s < n,
    ensures
        sum_to(f, n) == f(s),
    decreases n,
{
    if n - 1 > s {
        lemma_sum_single(f, s, n - 1);
    } else {
        assert forall|x: int| 0 <= x < n - 1 implies #[trigger] f(x) == 0 by {}
        lemma_sum_zero(f, n - 1);
    }
}

proof fn lemma_sum_zero(f: spec_fn(int) -> int, n: int)
    requires
        forall|x: int| 0 <= x < n ==> #[trigger] f(x) == 0,
    ensures
        sum_to(f, n) == 0,
    decreases n,
{
    if n > 0 {
        lemma_sum_zero(f, n - 1);
    }
}

proof fn lemma_sum_nat(v: Seq<nat>)
    ensures
        sum_nat(v) == sum_to(|c: int| v[c] as int, v.len() as int),
    decreases v.len(),
{
    if v.len() > 0 {
        lemma_sum_nat(v.drop_last());
        lemma_sum_ext(
            |c: int| v.drop_last()[c] as int,
            |c: int| v[c] as int,
            v.len() - 1,
        );
    }
}

/// The timelines of a row, each weighed by the paths that remain from it.
pub open spec fn weighed(v: Seq<nat>, g: Seq<Seq<u8>>, w: nat, h: nat, r: nat) -> int {
    sum_to(|c: int| (v[c] * paths(g, w, h, r, c)) as int, w as int)
}

/// One row on, the weighed sum is the same: what each column sends on,
/// weighed by the paths from where it lands, is its own count times the
/// paths from where it stood.
proof fn lemma_weighed_step(v: Seq<nat>, g: Seq<Seq<u8>>, w: nat, h: nat, r: nat)
    requires
        v.len() == w,
        w >= 1,
        r + 1 < h,
        g[(r + 1) as int].len() == w,
    ensures
        weighed(next_counts(v, splitter_row(g[(r + 1) as int])), g, w, h, r + 1) == weighed(v, g, w, h, r),
{
    let split = splitter_row(g[(r + 1) as int]);
    let nc = next_counts(v, split);
    let wi = w as int;
    let p = |c: int| paths(g, w, h, r + 1, c) as int;
    // What arrives from the left, from straight above, and from the right.
    let a = |x: int| (if x > 0 { sent(v, split, x - 1, x) } else { 0nat }) * p(x);
    let b = |x: int| (sent(v, split, x, x) * p(x)) as int;
    let cc = |x: int| (if x + 1 < wi { sent(v, split, x + 1, x) } else { 0nat }) * p(x);
    // The same, counted at the column that sends.
    let a2 = |c: int| (if c + 1 < wi { sent(v, split, c, c + 1) * p(c + 1) } else { 0 });
    let c2 = |c: int| (if c > 0 { sent(v, split, c, c - 1) * p(c - 1) } else { 0 });
    let lhs = |x: int| (nc[x] * p(x)) as int;
    let ab = |x: int| a(x) + b(x);
    let rhs = |x: int| ab(x) + cc(x);
    assert forall|x: int| 0 <= x < wi implies #[trigger] lhs(x) == rhs(x) by {
        assert(nc[x] * p(x) == a(x) + b(x) + cc(x)) by (nonlinear_arith)
            requires
                nc[x] == (if x > 0 { sent(v, split, x - 1, x) } else { 0nat }) + sent(v, split, x, x)
                    + (if x + 1 < wi { sent(v, split, x + 1, x) } else { 0nat }),
                a(x) == (if x > 0 { sent(v, split, x - 1, x) } else { 0nat }) * p(x),
                b(x) == sent(v, split, x, x) * p(x),
                cc(x) == (if x + 1 < wi { sent(v, split, x + 1, x) } else { 0nat }) * p(x),
        ;
    }
    lemma_sum_ext(lhs, rhs, wi);
    lemma_sum_add(ab, cc, wi);
    lemma_sum_add(a, b, wi);
    lemma_sum_ext(|c: int| (nc[c] * paths(g, w, h, (r + 1) as nat, c)) as int, lhs, wi);
    assert(weighed(nc, g, w, h, r + 1) == sum_to(lhs, wi));
    assert(sum_to(lhs, wi) == sum_to(a, wi) + sum_to(b, wi) + sum_to(cc, wi));
    // From the left: shift down by one.
    lemma_sum_shift(a, wi);
    lemma_sum_ext(|c: int| a(c + 1), a2, wi - 1);
    assert(sum_to(a2, wi) == sum_to(a2, wi - 1));
    assert(sum_to(a, wi) == sum_to(a2, wi));
    // From the right: shift up by one.
    lemma_sum_shift(c2, wi);
    lemma_sum_ext(|c: int| c2(c + 1), cc, wi - 1);
    assert(sum_to(cc, wi) == sum_to(cc, wi - 1) + cc(wi - 1));
    assert(sum_to(cc, wi) == sum_to(c2, wi));
    // Each sending column, all three together.
    let own = |c: int| (v[c] * paths(g, w, h, r, c)) as int;
    let ab2 = |c: int| a2(c) + b(c);
    let all = |c: int| ab2(c) + c2(c);
    assert forall|c: int| 0 <= c < wi implies #[trigger] own(c) == all(c) by {
        let pc = paths(g, w, h, r, c);
        if split[c] {
            assert(pc == (if c > 0 { p(c - 1) } else { 0 }) + (if c + 1 < wi { p(c + 1) } else { 0 }));
            assert(v[c] * pc == a2(c) + b(c) + c2(c)) by (nonlinear_arith)
                requires
                    pc == (if c > 0 { p(c - 1) } else { 0 }) + (if c + 1 < wi { p(c + 1) } else { 0 }),
                    a2(c) == (if c + 1 < wi { v[c] * p(c + 1) } else { 0 }),
                    c2(c) == (if c > 0 { v[c] * p(c - 1) } else { 0 }),
                    b(c) == 0,
            ;
        } else {
            assert(pc == p(c));
        }
    }
    lemma_sum_ext(own, all, wi);
    lemma_sum_add(ab2, c2, wi);
    lemma_sum_add(a2, b, wi);
    assert(weighed(v, g, w, h, r) == sum_to(own, wi));
}

proof fn lemma_weighed_rows(g: Seq<Seq<u8>>, w: nat, h: nat, s: int, t: nat)
    requires
        w >= 1,
        t < h,
        forall|r: int| 0 <= r < h ==> (#[trigger] g[r]).len() == w,
    ensures
        weighed(timelines(g, w, s, t), g, w, h, t) == weighed(timelines(g, w, s, 0), g, w, h, 0),
    decreases t,
{
    if t > 0 {
        lemma_weighed_rows(g, w, h, s, (t - 1) as nat);
        lemma_timelines_len(g, w, s, (t - 1) as nat);
        lemma_weighed_step(timelines(g, w, s, (t - 1) as nat), g, w, h, (t - 1) as nat);
    }
}

/// The multiplicity engine counts exactly the paths from the start to the
/// bottom row, each split choice explored: for every grid and start column.
pub proof fn lemma_timelines_match_paths(grid: &Grid, s: int)
    requires
        grid.wf(),
        0 <= s < grid.width,
    ensures
        total_timelines(grid.cells(), grid.width as nat, s, grid.height()) == paths(
            grid.cells(),
            grid.width as nat,
            grid.height(),
            0,
            s,
        ),
{
    let g = grid.cells();
    let w = grid.width as nat;
    let h = grid.height();
    assert forall|r: int| 0 <= r < h implies (#[trigger] g[r]).len() == w by {
        assert(grid.rows@[r]@ =~= g[r]);
    }
    if h >= 2 {
        let last = (h - 1) as nat;
        lemma_weighed_rows(g, w, h, s, last);
        let v = timelines(g, w, s, last);
        lemma_timelines_len(g, w, s, last);
        lemma_sum_nat(v);
        let fl = |c: int| (v[c] * paths(g, w, h, last, c)) as int;
        let fv = |c: int| v[c] as int;
        assert forall|c: int| 0 <= c < w implies #[trigger] fl(c) == fv(c) by {
            assert(paths(g, w, h, last, c) == 1);
        }
        lemma_sum_ext(fl, fv, w as int);
        assert(sum_nat(v) == weighed(v, g, w, h, last));
        let v0 = timelines(g, w, s, 0);
        let f0 = |c: int| (v0[c] * paths(g, w, h, 0, c)) as int;
        assert forall|x: int| 0 <= x < w && x != s implies #[trigger] f0(x) == 0 by {}
        lemma_sum_single(f0, s, w as int);
        lemma_sum_ext(|c: int| (v0[c] * paths(g, w, h, 0nat, c)) as int, f0, w as int);
        assert(v0[s] == 1);
        assert(f0(s) == paths(g, w, h, 0, s));
        assert(weighed(v0, g, w, h, 0) == paths(g, w, h, 0, s));
    }
}

} // verus!
