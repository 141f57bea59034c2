//! Laws of the page's cyclic selection, proved over the page model.
//!
//! These proof functions state what holds of every well-formed page: the
//! selection is always exactly one button, a full cycle of moves returns to
//! the starting state, and rendering follows insertion order.

use vstd::prelude::*;

use crate::engine::{
    btns_of, is_button_v, is_tagged_v, lemma_btns_props, lemma_btns_same, lemma_rank_of,
    lemma_sel_unique, lemma_with_sel_wf, line_of, rank_of, render_of, retag_v, ButtonV, PageV,
    SlotV, WidgetV,
};

verus! {

/// A page with at least one button always has exactly one selected button,
/// whatever sequence of operations built it: the invariant every operation
/// preserves pins the selection down to one slot.
pub proof fn lemma_exactly_one_selected<J>(v: PageV<J>)
    requires
        v.wf(),
        btns_of(v.slots).len() > 0,
    ensures
        exists|i: int| 0 <= i < v.slots.len() && is_tagged_v(#[trigger] v.slots[i].widget),
        forall|i: int, j: int|
            0 <= i < v.slots.len() && 0 <= j < v.slots.len() && is_tagged_v(v.slots[i].widget)
                && is_tagged_v(v.slots[j].widget) ==> i == j,
{
    lemma_btns_props(v.slots);
    let b0 = btns_of(v.slots)[0];
    assert(is_button_v(v.slots[b0].widget));
    if v.index is None {
        assert(!is_button_v(v.slots[b0].widget));
    }
    lemma_sel_unique(v);
    let sp = v.sel_pos();
    assert(v.sel_at(sp));
    assert(is_tagged_v(v.slots[sp].widget));
    assert forall|i: int, j: int|
        0 <= i < v.slots.len() && 0 <= j < v.slots.len() && is_tagged_v(v.slots[i].widget)
            && is_tagged_v(v.slots[j].widget) implies i == j by {
        assert(v.sel_at(i));
        assert(v.sel_at(j));
    }
}

/// Setting the selection flag twice keeps only the last setting.
proof fn lemma_retag_twice<J>(w: WidgetV<J>, a: bool, b: bool)
    ensures
        retag_v(retag_v(w, a), b) == retag_v(w, b),
{
    match w {
        WidgetV::Text(_) => {},
        WidgetV::Button(btn) => {
            assert((ButtonV { tagged: b, ..(ButtonV { tagged: a, ..btn }) }) =~= (ButtonV {
                tagged: b,
                ..btn
            }));
        },
    }
}

/// Setting the selection flag to the value it already has changes nothing.
proof fn lemma_retag_noop<J>(w: WidgetV<J>, b: bool)
    requires
        is_button_v(w) ==> is_tagged_v(w) == b,
    ensures
        retag_v(w, b) == w,
{
    match w {
        WidgetV::Text(_) => {},
        WidgetV::Button(btn) => {
            assert((ButtonV { tagged: b, ..btn }) =~= btn);
        },
    }
}

/// Moving the selection twice keeps only the last move.
proof fn lemma_with_sel_twice<J>(v: PageV<J>, a: int, b: int)
    requires
        0 <= a < v.slots.len(),
        0 <= b < v.slots.len(),
    ensures
        v.with_sel(a).with_sel(b) == v.with_sel(b),
{
    let v2 = v.with_sel(a).with_sel(b);
    let vt = v.with_sel(b);
    assert forall|i: int| 0 <= i < v2.slots.len() implies v2.slots[i] == vt.slots[i] by {
        lemma_retag_twice(v.slots[i].widget, i == a, i == b);
    }
    assert(v2.slots =~= vt.slots);
    assert(v2 =~= vt);
}

/// Re-selecting the button the cursor already points at changes nothing.
proof fn lemma_with_sel_identity<J>(v: PageV<J>)
    requires
        v.wf(),
        v.index is Some,
    ensures
        v.with_sel(v.sel_pos()) == v,
{
    lemma_sel_unique(v);
    let sp = v.sel_pos();
    let v1 = v.with_sel(sp);
    assert forall|i: int| 0 <= i < v1.slots.len() implies v1.slots[i] == v.slots[i] by {
        if i == sp {
            assert(is_tagged_v(v.slots[i].widget));
            lemma_retag_noop(v.slots[i].widget, true);
        } else {
            if is_button_v(v.slots[i].widget) && is_tagged_v(v.slots[i].widget) {
                assert(v.sel_at(i));
            }
            lemma_retag_noop(v.slots[i].widget, false);
        }
    }
    assert(v1.slots =~= v.slots);
    assert(v1 =~= v);
}

/// One step from the button of rank `c` lands on the button of rank
/// `(c + 1) % n`.
proof fn lemma_step_next<J>(v: PageV<J>, c: int)
    requires
        v.wf(),
        v.index is Some,
        0 <= c < btns_of(v.slots).len(),
    ensures
        v.with_sel(btns_of(v.slots)[c]).move_next_v() == v.with_sel(
            btns_of(v.slots)[(c + 1) % (btns_of(v.slots).len() as int)],
        ),
{
    let bs = btns_of(v.slots);
    let n = bs.len() as int;
    lemma_btns_props(v.slots);
    let t = bs[c];
    let v1 = v.with_sel(t);
    lemma_with_sel_wf(v, t);
    assert forall|i: int| 0 <= i < v1.slots.len()
        implies is_button_v(#[trigger] v1.slots[i].widget) <==> is_button_v(v.slots[i].widget) by {
        assert(v1.slots[i].widget == retag_v(v.slots[i].widget, i == t));
    }
    lemma_btns_same(v1.slots, v.slots);
    assert(btns_of(v1.slots) == bs);
    lemma_sel_unique(v1);
    assert(v1.sel_at(t));
    assert(v1.sel_pos() == t);
    lemma_rank_of(v1.slots, t);
    assert(btns_of(v1.slots)[c] == t);
    assert(rank_of(v1.slots, t) == c);
    assert(v1.sel_k() == c);
    let c2 = (c + 1) % n;
    assert(0 <= c2 < n) by (nonlinear_arith)
        requires n > 0 && c2 == (c + 1) % n;
    let t2 = bs[c2];
    assert(0 <= t2 < v.slots.len());
    assert(v1.move_next_v() == v1.with_sel(t2));
    lemma_with_sel_twice(v, t, t2);
}

/// One step back from the button of rank `c` lands on the button of rank
/// `(c - 1 + n) % n`.
proof fn lemma_step_prev<J>(v: PageV<J>, c: int)
    requires
        v.wf(),
        v.index is Some,
        0 <= c < btns_of(v.slots).len(),
    ensures
        v.with_sel(btns_of(v.slots)[c]).move_prev_v() == v.with_sel(
            btns_of(v.slots)[(c - 1 + btns_of(v.slots).len()) % (btns_of(v.slots).len() as int)],
        ),
{
    let bs = btns_of(v.slots);
    let n = bs.len() as int;
    lemma_btns_props(v.slots);
    let t = bs[c];
    let v1 = v.with_sel(t);
    lemma_with_sel_wf(v, t);
    assert forall|i: int| 0 <= i < v1.slots.len()
        implies is_button_v(#[trigger] v1.slots[i].widget) <==> is_button_v(v.slots[i].widget) by {
        assert(v1.slots[i].widget == retag_v(v.slots[i].widget, i == t));
    }
    lemma_btns_same(v1.slots, v.slots);
    assert(btns_of(v1.slots) == bs);
    lemma_sel_unique(v1);
    assert(v1.sel_at(t));
    assert(v1.sel_pos() == t);
    lemma_rank_of(v1.slots, t);
    assert(rank_of(v1.slots, t) == c);
    assert(v1.sel_k() == c);
    let c2 = (c - 1 + n) % n;
    assert(0 <= c2 < n) by (nonlinear_arith)
        requires n > 0 && c2 == (c - 1 + n) % n;
    let t2 = bs[c2];
    assert(0 <= t2 < v.slots.len());
    assert(v1.move_prev_v() == v1.with_sel(t2));
    lemma_with_sel_twice(v, t, t2);
}

/// The page after `n` selection steps towards later buttons.
pub open spec fn iter_next<J>(v: PageV<J>, n: nat) -> PageV<J>
    decreases n,
{
    if n == 0 {
        v
    } else {
        iter_next(v, (n - 1) as nat).move_next_v()
    }
}

/// The page after `n` selection steps towards earlier buttons.
pub open spec fn iter_prev<J>(v: PageV<J>, n: nat) -> PageV<J>
    decreases n,
{
    if n == 0 {
        v
    } else {
        iter_prev(v, (n - 1) as nat).move_prev_v()
    }
}

/// Incrementing before or after reduction modulo `n` is the same.
proof fn lemma_mod_succ(x: int, n: int)
    requires
        n > 0,
    ensures
        (x % n + 1) % n == (x + 1) % n,
{
    assert((x % n + 1) % n == (x + 1) % n) by (nonlinear_arith)
        requires n > 0;
}

/// Decrementing before or after reduction modulo `n` is the same.
proof fn lemma_mod_pred(x: int, n: int)
    requires
        n > 0,
    ensures
        (x % n - 1 + n) % n == (x - 1) % n,
{
    assert((x % n - 1 + n) % n == (x - 1) % n) by (nonlinear_arith)
        requires n > 0;
}

/// After `j` forward steps the selection rests on the button of rank
/// `(k + j) % n`, counted from the starting rank `k`.
proof fn lemma_iter_next_pos<J>(v: PageV<J>, j: nat)
    requires
        v.wf(),
        v.index is Some,
        btns_of(v.slots).len() > 0,
        j >= 1,
    ensures
        iter_next(v, j) == v.with_sel(
            btns_of(v.slots)[(v.sel_k() + j) % (btns_of(v.slots).len() as int)],
        ),
    decreases j,
{
    let bs = btns_of(v.slots);
    let n = bs.len() as int;
    let k0 = v.sel_k();
    lemma_sel_unique(v);
    lemma_rank_of(v.slots, v.sel_pos());
    assert(0 <= k0 < n);
    if j == 1 {
        assert(iter_next(v, 1) == iter_next(v, 0).move_next_v());
        assert(iter_next(v, 0) == v);
        assert(v.move_next_v() == v.with_sel(bs[(k0 + 1) % n]));
    } else {
        lemma_iter_next_pos(v, (j - 1) as nat);
        let c = (k0 + j - 1) % n;
        assert(0 <= c < n) by (nonlinear_arith)
            requires n > 0 && c == (k0 + j - 1) % n;
        lemma_step_next(v, c);
        lemma_mod_succ(k0 + j - 1, n);
        assert((c + 1) % n == (k0 + j) % n);
    }
}

/// After `j` backward steps the selection rests on the button of rank
/// `(k - j) % n`, counted from the starting rank `k`.
proof fn lemma_iter_prev_pos<J>(v: PageV<J>, j: nat)
    requires
        v.wf(),
        v.index is Some,
        btns_of(v.slots).len() > 0,
        j >= 1,
    ensures
        iter_prev(v, j) == v.with_sel(
            btns_of(v.slots)[(v.sel_k() - j) % (btns_of(v.slots).len() as int)],
        ),
    decreases j,
{
    let bs = btns_of(v.slots);
    let n = bs.len() as int;
    let k0 = v.sel_k();
    lemma_sel_unique(v);
    lemma_rank_of(v.slots, v.sel_pos());
    assert(0 <= k0 < n);
    if j == 1 {
        assert(iter_prev(v, 1) == iter_prev(v, 0).move_prev_v());
        assert(iter_prev(v, 0) == v);
        assert(v.move_prev_v() == v.with_sel(bs[(k0 - 1 + n) % n]));
        lemma_mod_pred(k0, n);
        assert(k0 % n == k0) by (nonlinear_arith)
            requires 0 <= k0 < n;
        assert((k0 - 1 + n) % n == (k0 - 1) % n);
    } else {
        lemma_iter_prev_pos(v, (j - 1) as nat);
        let c = (k0 - (j - 1)) % n;
        assert(0 <= c < n) by (nonlinear_arith)
            requires n > 0 && c == (k0 - (j - 1)) % n;
        lemma_step_prev(v, c);
        lemma_mod_pred(k0 - j + 1, n);
        assert((c - 1 + n) % n == (k0 - j) % n);
    }
}

/// Cyclic invariant, forwards: moving the selection to the next button
/// exactly as many times as the page has buttons returns the page to its
/// starting state, selection included.
pub proof fn lemma_move_next_cycles<J>(v: PageV<J>)
    requires
        v.wf(),
        btns_of(v.slots).len() > 0,
    ensures
        iter_next(v, btns_of(v.slots).len()) == v,
{
    let bs = btns_of(v.slots);
    let n = bs.len() as int;
    lemma_btns_props(v.slots);
    if v.index is None {
        assert(is_button_v(v.slots[bs[0]].widget));
        assert(!is_button_v(v.slots[bs[0]].widget));
    }
    lemma_sel_unique(v);
    lemma_rank_of(v.slots, v.sel_pos());
    let k0 = v.sel_k();
    assert(0 <= k0 < n);
    lemma_iter_next_pos(v, bs.len());
    assert((k0 + n) % n == k0) by (nonlinear_arith)
        requires n > 0 && 0 <= k0 < n;
    assert(bs[k0] == v.sel_pos());
    lemma_with_sel_identity(v);
}

/// Cyclic invariant, backwards: moving the selection to the previous
/// button exactly as many times as the page has buttons returns the page
/// to its starting state, selection included.
pub proof fn lemma_move_prev_cycles<J>(v: PageV<J>)
    requires
        v.wf(),
        btns_of(v.slots).len() > 0,
    ensures
        iter_prev(v, btns_of(v.slots).len()) == v,
{
    let bs = btns_of(v.slots);
    let n = bs.len() as int;
    lemma_btns_props(v.slots);
    if v.index is None {
        assert(is_button_v(v.slots[bs[0]].widget));
        assert(!is_button_v(v.slots[bs[0]].widget));
    }
    lemma_sel_unique(v);
    lemma_rank_of(v.slots, v.sel_pos());
    let k0 = v.sel_k();
    assert(0 <= k0 < n);
    lemma_iter_prev_pos(v, bs.len());
    assert((k0 - n) % n == k0) by (nonlinear_arith)
        requires n > 0 && 0 <= k0 < n;
    assert(bs[k0] == v.sel_pos());
    lemma_with_sel_identity(v);
}

/// Render order invariant: appending any widget appends exactly that
/// widget's line, so the rendered lines stand in insertion order whatever
/// mixture of text and buttons was added.
pub proof fn lemma_render_push<J>(slots: Seq<SlotV<WidgetV<J>>>, s: SlotV<WidgetV<J>>)
    ensures
        render_of(slots.push(s)) == render_of(slots) + line_of(s.widget) + "\n"@,
{
    assert(slots.push(s).drop_last() =~= slots);
    assert(slots.push(s).last() == s);
}

} // verus!
