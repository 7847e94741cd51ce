use vstd::prelude::*;

use crate::keys::KeySet;
use crate::renderer::WgpuRenderer;

verus! {

/// Every event names a known window.
pub open spec fn windows_known(windows: Set<u128>, events: Seq<u128>) -> bool {
    forall|i: int| 0 <= i < events.len() ==> windows.contains(#[trigger] events[i])
}

/// The windows whose swap chains are recreated after the last `n` resize
/// events: the events are visited from the latest back, and a window already
/// visited is skipped, so each window is handled once, for its latest event.
pub open spec fn resize_order(events: Seq<u128>, n: int) -> Seq<u128>
    decreases n,
{
    if n <= 0 {
        Seq::empty()
    } else {
        let prev = resize_order(events, n - 1);
        let w = events[events.len() - n];
        if prev.contains(w) {
            prev
        } else {
            prev.push(w)
        }
    }
}

/// The windows acquired for drawing: those of the swap chains whose window
/// is the primary one.
pub open spec fn primary_only(windows: Seq<u128>, primary: u128) -> Seq<u128>
    decreases windows.len(),
{
    if windows.len() == 0 {
        Seq::empty()
    } else {
        let prev = primary_only(windows.drop_last(), primary);
        if windows.last() == primary {
            prev.push(primary)
        } else {
            prev
        }
    }
}

/// No window occurs twice.
pub open spec fn no_duplicates(s: Seq<u128>) -> bool {
    forall|i: int, j: int| 0 <= i < j < s.len() ==> s[i] != s[j]
}

/// The swap chains acquired for the primary window `p` are exactly those of
/// the swap chain windows that are `p`, in their order: every swap chain of
/// the primary window is acquired, and no other.
pub proof fn law_primary_swap_chains_acquired(windows: Seq<u128>, p: u128)
    ensures
        primary_only(windows, p) == windows.filter(|w: u128| w == p),
        windows.contains(p) ==> primary_only(windows, p).contains(p),
        forall|k: int| 0 <= k < primary_only(windows, p).len() ==> #[trigger] primary_only(windows, p)[k] == p,
    decreases windows.len(),
{
    reveal(Seq::filter);
    let f = |w: u128| w == p;
    if windows.len() > 0 {
        law_primary_swap_chains_acquired(windows.drop_last(), p);
        let prev = primary_only(windows.drop_last(), p);
        if windows.contains(p) {
            let k = choose|k: int| 0 <= k < windows.len() && windows[k] == p;
            if k < windows.len() - 1 {
                assert(windows.drop_last()[k] == p);
                assert(windows.drop_last().contains(p));
                let m = choose|m: int| 0 <= m < prev.len() && prev[m] == p;
                assert(primary_only(windows, p)[m] == p);
            } else {
                assert(primary_only(windows, p) == prev.push(p));
                assert(primary_only(windows, p)[prev.len() as int] == p);
            }
        }
        assert forall|k: int| 0 <= k < primary_only(windows, p).len() implies #[trigger] primary_only(
            windows,
            p,
        )[k] == p by {
            if k < prev.len() {
                assert(primary_only(windows, p)[k] == prev[k]);
            }
        }
    } else {
        assert(windows.filter(f) =~= Seq::<u128>::empty());
    }
}

/// Whether every event names a known window (an event for an unknown window
/// is a fault of the caller).
pub fn all_windows_known(windows: &KeySet, events: &Vec<u128>) -> (r: bool)
    ensures
        r == windows_known(windows@, events@),
{
    let mut i: usize = 0;
    while i < events.len()
        invariant
            0 <= i <= events.len(),
            forall|j: int| 0 <= j < i ==> windows@.contains(#[trigger] events@[j]),
        decreases events.len() - i,
    {
        if !windows.contains(events[i]) {
            return false;
        }
        i = i + 1;
    }
    true
}

impl WgpuRenderer {
    /// The windows whose swap chains are created, one per creation event, in order.
    pub fn handle_window_created_events(windows: &KeySet, events: &Vec<u128>) -> (r: Vec<u128>)
        requires
            windows_known(windows@, events@),
        ensures
            r@ == events@,
    {
        let mut out: Vec<u128> = Vec::new();
        let mut i: usize = 0;
        while i < events.len()
            invariant
                0 <= i <= events.len(),
                out@ == events@.take(i as int),
            decreases events.len() - i,
        {
            out.push(events[i]);
            proof {
                assert(out@ =~= events@.take(i as int + 1));
            }
            i = i + 1;
        }
        proof {
            assert(events@.take(events@.len() as int) =~= events@);
        }
        out
    }

    /// The windows whose swap chains are recreated for a batch of resize events:
    /// each resized window once, the window of the latest event first.
    pub fn handle_window_resized_events(windows: &KeySet, events: &Vec<u128>) -> (r: Vec<u128>)
        requires
            windows_known(windows@, events@),
        ensures
            r@ == resize_order(events@, events@.len() as int),
            no_duplicates(r@),
            forall|w: u128| r@.contains(w) <==> events@.contains(w),
    {
        let mut handled = KeySet::new();
        let mut out: Vec<u128> = Vec::new();
        let mut n: usize = 0;
        while n < events.len()
            invariant
                0 <= n <= events.len(),
                out@ == resize_order(events@, n as int),
                forall|w: u128| handled@.contains(w) <==> out@.contains(w),
                no_duplicates(out@),
                forall|w: u128|
                    out@.contains(w) <==> exists|k: int|
                        events@.len() - n <= k < events@.len() && #[trigger] events@[k] == w,
            decreases events.len() - n,
        {
            let w = events[events.len() - 1 - n];
            let ghost prev = out@;
            if !handled.contains(w) {
                out.push(w);
                handled.insert(w);
                proof {
                    assert forall|a: int, b: int| 0 <= a < b < out@.len() implies out@[a] != out@[b] by {
                        if b == out@.len() - 1 {
                            assert(prev[a] == out@[a]);
                            assert(prev.contains(out@[a]));
                        } else {
                            assert(prev[a] == out@[a] && prev[b] == out@[b]);
                        }
                    }
                    assert forall|v: u128| handled@.contains(v) <==> out@.contains(v) by {
                        if out@.contains(v) && v != w {
                            let k = choose|k: int| 0 <= k < out@.len() && out@[k] == v;
                            assert(prev[k] == v);
                        }
                        if prev.contains(v) {
                            let k = choose|k: int| 0 <= k < prev.len() && prev[k] == v;
                            assert(out@[k] == v);
                        }
                        if v == w {
                            assert(out@[prev.len() as int] == v);
                        }
                    }
                }
            }
            proof {
                let idx = events@.len() - 1 - n;
                assert(idx == events@.len() - (n + 1));
                assert forall|v: u128|
                    out@.contains(v) <==> exists|k: int|
                        events@.len() - (n + 1) <= k < events@.len() && #[trigger] events@[k] == v by {
                    if out@.contains(v) {
                        if prev.contains(v) {
                            let k = choose|k: int|
                                events@.len() - n <= k < events@.len() && #[trigger] events@[k] == v;
                            assert(events@[k] == v);
                        } else {
                            let k = choose|k: int| 0 <= k < out@.len() && out@[k] == v;
                            if k < prev.len() {
                                assert(prev[k] == v);
                            }
                            assert(v == w);
                            assert(events@[idx] == v);
                        }
                    }
                    if exists|k: int| events@.len() - (n + 1) <= k < events@.len() && #[trigger] events@[k] == v {
                        let k = choose|k: int|
                            events@.len() - (n + 1) <= k < events@.len() && #[trigger] events@[k] == v;
                        if k == idx {
                            if !prev.contains(v) {
                                assert(out@[prev.len() as int] == v);
                            } else {
                                let m = choose|m: int| 0 <= m < prev.len() && prev[m] == v;
                                assert(out@[m] == v);
                            }
                        } else {
                            assert(prev.contains(v));
                            let m = choose|m: int| 0 <= m < prev.len() && prev[m] == v;
                            assert(out@[m] == v);
                        }
                    }
                }
            }
            n = n + 1;
        }
        proof {
            assert forall|v: u128| out@.contains(v) <==> events@.contains(v) by {
                if out@.contains(v) {
                    let k = choose|k: int| 0 <= k < events@.len() && #[trigger] events@[k] == v;
                    assert(events@[k] == v);
                }
                if events@.contains(v) {
                    let k = choose|k: int| 0 <= k < events@.len() && events@[k] == v;
                    assert(events@[k] == v);
                }
            }
        }
        out
    }

    /// The swap chains from which a frame is acquired: those of the primary
    /// window. Without a primary window there must be no swap chain at all.
    pub fn get_swap_chain_outputs(primary: Option<u128>, swap_chain_windows: &Vec<u128>) -> (r: Vec<u128>)
        requires
            primary is Some || swap_chain_windows@.len() == 0,
        ensures
            r@ == match primary {
                Some(p) => primary_only(swap_chain_windows@, p),
                None => Seq::<u128>::empty(),
            },
    {
        let mut out: Vec<u128> = Vec::new();
        if swap_chain_windows.len() == 0 {
            return out;
        }
        let p = match primary {
            Some(p) => p,
            None => 0,
        };
        let mut i: usize = 0;
        while i < swap_chain_windows.len()
            invariant
                0 <= i <= swap_chain_windows.len(),
                out@ == primary_only(swap_chain_windows@.take(i as int), p),
            decreases swap_chain_windows.len() - i,
        {
            proof {
                assert(swap_chain_windows@.take(i as int + 1).drop_last() =~= swap_chain_windows@.take(
                    i as int,
                ));
            }
            if swap_chain_windows[i] == p {
                out.push(p);
            }
            i = i + 1;
        }
        proof {
            assert(swap_chain_windows@.take(swap_chain_windows@.len() as int) =~= swap_chain_windows@);
        }
        out
    }
}

} // verus!
