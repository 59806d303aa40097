//! Which decoded frames a dump keeps.
//!
//! A dump of `n` frames out of a stream decoded at one frame per call keeps
//! every `r`-th decoded frame (`r` is the frame interval), starting with the
//! first one, until `n` frames are kept.
use vstd::prelude::*;
use vstd::arithmetic::div_mod::{lemma_div_is_ordered, lemma_fundamental_div_mod, lemma_fundamental_div_mod_converse};

verus! {

/// Whether the decoded frame with position `k` (counted from 0) is kept
/// by a dump of `n` frames with frame interval `r`.  With an interval
/// below one only the first decoded frame is kept.
pub open spec fn sampled(n: int, r: int, k: int) -> bool {
    if r >= 1 {
        k % r == 0 && k / r < n
    } else {
        k == 0 && n > 0
    }
}

/// How many of the first `s` decoded frames a dump of `n` frames with
/// frame interval `r` keeps.
pub open spec fn kept_count(n: int, r: int, s: int) -> int {
    if n <= 0 || s <= 0 {
        0
    } else if r >= 1 {
        if (s - 1) / r + 1 < n { (s - 1) / r + 1 } else { n }
    } else {
        1
    }
}

/// How many decoded frames the sampler has counted since it last kept
/// one (all of them while it has kept none).
pub open spec fn since_kept(n: int, r: int, s: int) -> int {
    let k = kept_count(n, r, s);
    if k == 0 { s } else { s - (k - 1) * r }
}

/// The sampler's test on its two counters: the number of frames kept and
/// the number of frames counted since the last one kept.
pub open spec fn sampler_keeps(n: int, r: int, kept: int, since: int) -> bool {
    kept < n && (since == 0 || since == r)
}

proof fn lemma_step_interval(n: int, r: int, s: int)
    requires
        n >= 1,
        r >= 1,
        s >= 1,
    ensures
        sampler_keeps(n, r, kept_count(n, r, s), since_kept(n, r, s)) == sampled(n, r, s),
        kept_count(n, r, s + 1) == kept_count(n, r, s) + (if sampled(n, r, s) { 1int } else { 0int }),
        since_kept(n, r, s + 1) == (if sampled(n, r, s) { 1 } else { since_kept(n, r, s) + 1 }),
        sampled(n, r, s) ==> kept_count(n, r, s) == s / r,
{
    let q = (s - 1) / r;
    let m = (s - 1) % r;
    lemma_fundamental_div_mod(s - 1, r);
    assert(0 <= m < r);
    assert(s - 1 == q * r + m) by (nonlinear_arith)
        requires s - 1 == r * q + m;
    assert(q >= 0) by (nonlinear_arith)
        requires s - 1 >= 0, r >= 1, q == (s - 1) / r;
    if m + 1 == r {
        assert(s == (q + 1) * r + 0) by (nonlinear_arith)
            requires s - 1 == q * r + m, m + 1 == r;
        lemma_fundamental_div_mod_converse(s, r, q + 1, 0);
        assert(s == q * r + m + 1);
        assert(s - (q + 1 - 1) * r == r) by (nonlinear_arith)
            requires s == (q + 1) * r;
        assert(s + 1 - (q + 1) * r == 1) by (nonlinear_arith)
            requires s == (q + 1) * r;
        assert(s - (n - 1) * r == m + 1 + (q - (n - 1)) * r) by (nonlinear_arith)
            requires s == q * r + m + 1;
        assert(s + 1 - (n - 1) * r == m + 2 + (q - (n - 1)) * r) by (nonlinear_arith)
            requires s == q * r + m + 1;
    } else {
        lemma_fundamental_div_mod_converse(s, r, q, m + 1);
        assert(s - q * r == m + 1);
        assert(s + 1 - q * r == m + 2);
        assert(s == q * r + m + 1);
    }
}

/// One decoded frame moves the sampler's counters as the sampler's test
/// says, and the test keeps exactly the frames that `sampled` names.
pub proof fn lemma_sampler_step(n: int, r: int, s: int)
    requires
        n >= 0,
        s >= 0,
    ensures
        sampler_keeps(n, r, kept_count(n, r, s), since_kept(n, r, s)) == sampled(n, r, s),
        kept_count(n, r, s + 1) == kept_count(n, r, s) + (if sampled(n, r, s) { 1int } else { 0int }),
        since_kept(n, r, s + 1) == (if sampled(n, r, s) { 1 } else { since_kept(n, r, s) + 1 }),
{
    if n >= 1 && r >= 1 && s >= 1 {
        lemma_step_interval(n, r, s);
    } else if s == 0 && r >= 1 && n >= 1 {
        assert(0int % r == 0 && 0int / r == 0);
        assert((1int - 1) / r == 0);
    }
}

/// The position at which a kept frame is stored: with an interval of at
/// least one, the decoded frame `k` that is kept goes to slot `k / r`.
pub proof fn lemma_kept_slot(n: int, r: int, k: int)
    requires
        n >= 0,
        r >= 1,
        k >= 0,
        sampled(n, r, k),
    ensures
        kept_count(n, r, k) == k / r,
{
    if n >= 1 && k >= 1 {
        lemma_step_interval(n, r, k);
    } else if k == 0 {
        assert(0int / r == 0);
    }
}

/// A dump never keeps more frames than it was asked for.
pub proof fn lemma_kept_bound(n: int, r: int, s: int)
    requires
        n >= 0,
    ensures
        0 <= kept_count(n, r, s) <= n,
{
    if n >= 1 && r >= 1 && s >= 1 {
        assert((s - 1) / r >= 0) by (nonlinear_arith)
            requires s - 1 >= 0, r >= 1;
    }
}

/// A dump asked for `n` frames of a stream that says it holds `total`
/// frames (`1 <= n <= total`) uses the interval `total / n`; once at least
/// `total` frames were decoded it holds exactly `n` frames.
pub proof fn lemma_dump_complete(n: int, total: int, s: int)
    requires
        1 <= n <= total,
        s >= total,
    ensures
        total / n >= 1,
        kept_count(n, total / n, s) == n,
{
    let r = total / n;
    lemma_fundamental_div_mod(total, n);
    assert(r >= 1) by (nonlinear_arith)
        requires total == n * r + total % n, 0 <= total % n < n, total >= n;
    assert((n - 1) * r <= total - 1) by (nonlinear_arith)
        requires total == n * r + total % n, 0 <= total % n, r >= 1;
    lemma_fundamental_div_mod_converse((n - 1) * r, r, n - 1, 0);
    lemma_div_is_ordered((n - 1) * r, s - 1, r);
}

/// The sampling law in closed form: with an interval `r` of at least one,
/// the kept decoded frames are exactly `0, r, 2r, ..., (n - 1)r`.
pub proof fn lemma_sampled_multiples(n: int, r: int, k: int)
    requires
        r >= 1,
        k >= 0,
    ensures
        sampled(n, r, k) <==> exists|j: int| 0 <= j < n && #[trigger] (j * r) == k,
{
    lemma_fundamental_div_mod(k, r);
    if sampled(n, r, k) {
        let j = k / r;
        assert(k == r * j + 0);
        assert(j * r == k) by (nonlinear_arith)
            requires k == r * j;
        assert(j >= 0) by (nonlinear_arith)
            requires k == r * j, k >= 0, r >= 1;
    }
    if exists|j: int| 0 <= j < n && #[trigger] (j * r) == k {
        let j = choose|j: int| 0 <= j < n && #[trigger] (j * r) == k;
        lemma_fundamental_div_mod_converse(k, r, j, 0);
    }
}

} // verus!
