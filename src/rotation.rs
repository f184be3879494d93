use vstd::prelude::*;
use crate::registry::{cursor_after, pick_index};

verus! {

/// The cursor after `k` selections among `n` workers, starting from `c`.
pub open spec fn cursor_after_n(c: int, n: int, k: nat) -> int
    decreases k,
{
    if k == 0 {
        c
    } else {
        cursor_after(cursor_after_n(c, n, (k - 1) as nat), n)
    }
}

/// The slot handed out by selection number `k` (from 0) among `n` workers,
/// starting from cursor `c`.
pub open spec fn slot_at(c: int, n: int, k: nat) -> int {
    pick_index(cursor_after_n(c, n, k), n)
}

/// The selection, within block `m` of `n` selections, that hands out slot `w`.
pub open spec fn visit(c: int, n: int, w: int, m: int) -> int {
    m * n + (w - pick_index(c, n) + n) % n
}

proof fn lemma_slot_step(c: int, n: int, k: nat)
    requires
        n > 0,
        c >= 0,
    ensures
        slot_at(c, n, k) == (pick_index(c, n) + k) % n,
    decreases k,
{
    if k == 0 {
        vstd::arithmetic::div_mod::lemma_small_mod(pick_index(c, n) as nat, n as nat);
    } else {
        lemma_slot_step(c, n, (k - 1) as nat);
        let prev = cursor_after_n(c, n, (k - 1) as nat);
        let s = slot_at(c, n, (k - 1) as nat);
        assert(cursor_after_n(c, n, k) == s + 1);
        assert(0 <= s < n) by (nonlinear_arith)
            requires
                s == (pick_index(c, n) + (k - 1)) % n,
                n > 0,
        ;
        assert((pick_index(c, n) + k) % n == (s + 1) % n) by (nonlinear_arith)
            requires
                s == (pick_index(c, n) + (k - 1)) % n,
                n > 0,
                k > 0,
                pick_index(c, n) >= 0,
        {
            vstd::arithmetic::div_mod::lemma_add_mod_noop(pick_index(c, n) + (k - 1), 1, n);
            vstd::arithmetic::div_mod::lemma_mod_twice(pick_index(c, n) + (k - 1), n);
        }
        if s + 1 < n {
            vstd::arithmetic::div_mod::lemma_small_mod((s + 1) as nat, n as nat);
        } else {
            assert(s + 1 == n);
            vstd::arithmetic::div_mod::lemma_mod_self_0(n);
        }
    }
}

/// Round-robin fairness. Among `n` workers whose list does not change,
/// selection `k` hands out slot `(p + k) mod n`, where `p` is the slot of the
/// first selection. So within `total` consecutive selections each slot `w`
/// is handed out at least `total as int / n` times: once in each block of `n`, at
/// selection `m * n + (w - p) mod n`.
pub proof fn lemma_round_robin(c: int, n: int, total: nat)
    requires
        n > 0,
        c >= 0,
    ensures
        forall|k: nat| #[trigger] slot_at(c, n, k) == (pick_index(c, n) + k) % n,
        forall|w: int, m: int|
            0 <= w < n && 0 <= m < total as int / n ==> 0 <= #[trigger] visit(c, n, w, m) < total
                && slot_at(c, n, visit(c, n, w, m) as nat) == w,
{
    assert forall|k: nat| #[trigger] slot_at(c, n, k) == (pick_index(c, n) + k) % n by {
        lemma_slot_step(c, n, k);
    }
    assert forall|w: int, m: int| 0 <= w < n && 0 <= m < total as int / n implies 0 <= #[trigger] visit(c, n, w, m) < total
        && slot_at(c, n, visit(c, n, w, m) as nat) == w by {
        lemma_slot_of(c, n, total, w, m);
    }
}

proof fn lemma_slot_of(c: int, n: int, total: nat, w: int, m: int)
    requires
        n > 0,
        c >= 0,
        0 <= w < n,
        0 <= m < total as int / n,
    ensures
        0 <= m * n + (w - pick_index(c, n) + n) % n < total,
        slot_at(c, n, (m * n + (w - pick_index(c, n) + n) % n) as nat) == w,
{
    let p = pick_index(c, n);
    assert(0 <= p < n);
    let d = (w - p + n) % n;
    vstd::arithmetic::div_mod::lemma_mod_bound(w - p + n, n);
    assert(0 <= d < n);
    let q = total as int / n;
    vstd::arithmetic::div_mod::lemma_fundamental_div_mod(total as int, n);
    vstd::arithmetic::div_mod::lemma_mod_bound(total as int, n);
    assert(total as int == n * q + total as int % n);
    assert(m * n + d < total) by (nonlinear_arith)
        requires
            0 <= m < q,
            0 <= d < n,
            n > 0,
            total as int == n * q + total as int % n,
            total as int % n >= 0,
    ;
    assert(m * n + d >= 0) by (nonlinear_arith)
        requires
            m >= 0,
            d >= 0,
            n > 0,
    ;
    let k = m * n + d;
    lemma_slot_step(c, n, k as nat);
    vstd::arithmetic::div_mod::lemma_mod_multiples_vanish(m, p + d, n);
    assert(p + k == m * n + (p + d));
    vstd::arithmetic::div_mod::lemma_add_mod_noop(p, w - p + n, n);
    vstd::arithmetic::div_mod::lemma_small_mod(p as nat, n as nat);
    vstd::arithmetic::div_mod::lemma_mod_add_multiples_vanish(w, n);
    vstd::arithmetic::div_mod::lemma_small_mod(w as nat, n as nat);
    assert((p + d) % n == w);
}

} // verus!
