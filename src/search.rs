//! Shortest word ladders: A* search over the neighbour graph.
use vstd::prelude::*;
use vstd::set_lib::{lemma_int_range, set_int_range};
use vstd::std_specs::iter::IteratorSpec;

use std::collections::HashSet;

use crate::dict::{hamming, lemma_hamming_one_apart, mismatches, Dict};
use crate::error::Error;
use crate::neighbours::Neighbours;

verus! {

/// `p` is a walk in the graph: consecutive ids are neighbours.
pub open spec fn is_walk(g: &Neighbours, p: Seq<u32>) -> bool {
    &&& p.len() > 0
    &&& forall|i: int| 0 <= i < p.len() - 1 ==> #[trigger] g.spec_neighbours(p[i]).contains(p[i + 1])
}

/// `p` is a walk from `a` to `b`.
pub open spec fn walk_between(g: &Neighbours, p: Seq<u32>, a: u32, b: u32) -> bool {
    &&& is_walk(g, p)
    &&& p[0] == a
    &&& p.last() == b
}

/// Some walk leads from `a` to `b`.
pub open spec fn reachable(g: &Neighbours, a: u32, b: u32) -> bool {
    exists|p: Seq<u32>| #[trigger] walk_between(g, p, a, b)
}

/// No walk from `a` to `b` has fewer ids than `k`.
pub open spec fn no_shorter_walk(g: &Neighbours, a: u32, b: u32, k: int) -> bool {
    forall|q: Seq<u32>| #[trigger] walk_between(g, q, a, b) ==> k <= q.len()
}

/// `a` comes no later than `b` in the search's order: by cost so far plus
/// distance to the goal word, then by that distance alone.
pub open spec fn key_le(gs: Seq<Option<usize>>, h: Seq<usize>, a: u32, b: u32) -> bool {
    let fa = gs[a as int]->Some_0 + h[a as int];
    let fb = gs[b as int]->Some_0 + h[b as int];
    fa < fb || (fa == fb && h[a as int] <= h[b as int])
}

/// `a` and `b` agree below `i` and `a` has the greater character at `i`.
pub open spec fn first_gt(a: Seq<char>, b: Seq<char>, i: int) -> bool {
    &&& 0 <= i < a.len()
    &&& i < b.len()
    &&& a[i] > b[i]
    &&& forall|j: int| 0 <= j < i ==> #[trigger] a[j] == b[j]
}

/// `a` comes after `b` in lexicographic order (for words of one length).
pub open spec fn lex_gt(a: Seq<char>, b: Seq<char>) -> bool {
    exists|i: int| #[trigger] first_gt(a, b, i)
}

/// Of two words of one length, one comes after the other unless they are
/// equal.
proof fn lemma_lex_total(a: Seq<char>, b: Seq<char>, k: int)
    requires
        a.len() == b.len(),
        0 <= k <= a.len(),
        forall|j: int| 0 <= j < k ==> #[trigger] a[j] == b[j],
    ensures
        lex_gt(a, b) || lex_gt(b, a) || a == b,
    decreases a.len() - k,
{
    if k == a.len() {
        assert(a =~= b);
    } else if a[k] == b[k] {
        lemma_lex_total(a, b, k + 1);
    } else if a[k] > b[k] {
        assert(first_gt(a, b, k));
    } else {
        assert(first_gt(b, a, k));
    }
}

/// Lexicographic order is strict.
proof fn lemma_lex_asym(a: Seq<char>, b: Seq<char>)
    requires
        lex_gt(a, b),
    ensures
        !lex_gt(b, a),
        a != b,
{
    let i = choose|i: int| first_gt(a, b, i);
    if lex_gt(b, a) {
        let k = choose|k: int| first_gt(b, a, k);
        if i < k {
            assert(b[i] == a[i]);
        } else if k < i {
            assert(a[k] == b[k]);
        }
    }
}

/// Lexicographic order is transitive.
proof fn lemma_lex_trans(a: Seq<char>, b: Seq<char>, c: Seq<char>)
    requires
        lex_gt(a, b),
        lex_gt(b, c),
    ensures
        lex_gt(a, c),
{
    let i = choose|i: int| first_gt(a, b, i);
    let k = choose|k: int| first_gt(b, c, k);
    if i < k {
        assert(b[i] == c[i]);
        assert(first_gt(a, c, i));
    } else if k < i {
        assert(a[k] == b[k]);
        assert(first_gt(a, c, k));
    } else {
        assert(first_gt(a, c, i));
    }
}

/// `x` comes after `y` in lexicographic order.
fn lex_greater(x: &Vec<char>, y: &Vec<char>) -> (r: bool)
    requires
        x@.len() == y@.len(),
    ensures
        r == lex_gt(x@, y@),
{
    let n = x.len();
    let mut i: usize = 0;
    while i < n
        invariant
            n == x@.len(),
            n == y@.len(),
            i <= n,
            forall|j: int| 0 <= j < i ==> #[trigger] x@[j] == y@[j],
        decreases n - i,
    {
        if x[i] != y[i] {
            proof {
                if x[i as int] > y[i as int] {
                    assert(first_gt(x@, y@, i as int));
                } else {
                    assert(first_gt(y@, x@, i as int));
                    lemma_lex_asym(y@, x@);
                }
            }
            return x[i] > y[i];
        }
        i = i + 1;
    }
    proof {
        assert(x@ =~= y@);
        if lex_gt(x@, y@) {
            lemma_lex_asym(x@, y@);
        }
    }
    false
}

/// `v` is expanded no later than `w`: by cost so far plus distance to the goal
/// word, then by that distance, then the greater word, then the greater id.
pub open spec fn prior(
    gs: Seq<Option<usize>>,
    h: Seq<usize>,
    words: Seq<Seq<char>>,
    v: u32,
    w: u32,
) -> bool {
    let fv = gs[v as int]->Some_0 + h[v as int];
    let fw = gs[w as int]->Some_0 + h[w as int];
    ||| v == w
    ||| fv < fw
    ||| fv == fw && h[v as int] < h[w as int]
    ||| fv == fw && h[v as int] == h[w as int] && lex_gt(words[v as int], words[w as int])
    ||| fv == fw && h[v as int] == h[w as int] && words[v as int] == words[w as int] && v > w
}

/// The expansion order is transitive.
proof fn lemma_prior_trans(
    gs: Seq<Option<usize>>,
    h: Seq<usize>,
    words: Seq<Seq<char>>,
    a: u32,
    b: u32,
    c: u32,
)
    requires
        prior(gs, h, words, a, b),
        prior(gs, h, words, b, c),
    ensures
        prior(gs, h, words, a, c),
{
    let (wa, wb, wc) = (words[a as int], words[b as int], words[c as int]);
    if lex_gt(wa, wb) && lex_gt(wb, wc) {
        lemma_lex_trans(wa, wb, wc);
    }
}

/// Two distinct ids are never each expanded no later than the other.
proof fn lemma_prior_antisym(
    gs: Seq<Option<usize>>,
    h: Seq<usize>,
    words: Seq<Seq<char>>,
    a: u32,
    b: u32,
)
    requires
        prior(gs, h, words, a, b),
        prior(gs, h, words, b, a),
    ensures
        a == b,
{
    let (wa, wb) = (words[a as int], words[b as int]);
    if lex_gt(wa, wb) {
        lemma_lex_asym(wa, wb);
    }
    if lex_gt(wb, wa) {
        lemma_lex_asym(wb, wa);
    }
}

/// Index in `open` of the id to expand next: the least key; among equal keys
/// the greater word, then the greater id, so that the choice does not depend
/// on the order of `open`.
fn select(dict: &Dict, open: &Vec<u32>, gs: &Vec<Option<usize>>, h: &Vec<usize>) -> (r: usize)
    requires
        dict.wf(),
        open@.len() > 0,
        forall|i: int|
            0 <= i < open@.len() ==> {
                &&& (#[trigger] open@[i] as int) < gs@.len()
                &&& open@[i] < h@.len()
                &&& open@[i] < dict@.len()
                &&& gs@[open@[i] as int] is Some
            },
    ensures
        r < open@.len(),
        forall|i: int| 0 <= i < open@.len() ==> #[trigger] key_le(gs@, h@, open@[r as int], open@[i]),
        forall|i: int|
            0 <= i < open@.len() ==> #[trigger] prior(gs@, h@, dict@, open@[r as int], open@[i]),
{
    let mut best: usize = 0;
    let mut i: usize = 1;
    while i < open.len()
        invariant
            dict.wf(),
            0 < open@.len(),
            best < i <= open@.len(),
            forall|i: int|
                0 <= i < open@.len() ==> {
                    &&& (#[trigger] open@[i] as int) < gs@.len()
                    &&& open@[i] < h@.len()
                    &&& open@[i] < dict@.len()
                    &&& gs@[open@[i] as int] is Some
                },
            forall|j: int|
                0 <= j < i ==> #[trigger] prior(gs@, h@, dict@, open@[best as int], open@[j]),
        decreases open@.len() - i,
    {
        let a = open[i];
        let b = open[best];
        let ga = match gs[a as usize] {
            Some(v) => v,
            None => 0,
        };
        let gb = match gs[b as usize] {
            Some(v) => v,
            None => 0,
        };
        let fa = ga as u128 + h[a as usize] as u128;
        let fb = gb as u128 + h[b as usize] as u128;
        let ha = h[a as usize];
        let hb = h[b as usize];
        let ghost (wa, wb) = (dict@[a as int], dict@[b as int]);
        let take = if fa != fb {
            fa < fb
        } else if ha != hb {
            ha < hb
        } else {
            let ca = dict.chars(a);
            let cb = dict.chars(b);
            if lex_greater(&ca, &cb) {
                true
            } else if lex_greater(&cb, &ca) {
                false
            } else {
                proof {
                    lemma_lex_total(wa, wb, 0);
                }
                a > b
            }
        };
        assert(ga == gs@[a as int]->Some_0 && gb == gs@[b as int]->Some_0);
        if take {
            assert(prior(gs@, h@, dict@, a, b));
            assert forall|j: int| 0 <= j < i + 1 implies #[trigger] prior(
                gs@,
                h@,
                dict@,
                a,
                open@[j],
            ) by {
                if j < i {
                    lemma_prior_trans(gs@, h@, dict@, a, b, open@[j]);
                }
            }
            best = i;
        } else {
            assert(prior(gs@, h@, dict@, b, a));
        }
        i = i + 1;
    }
    assert forall|j: int| 0 <= j < open@.len() implies #[trigger] key_le(
        gs@,
        h@,
        open@[best as int],
        open@[j],
    ) by {
        assert(prior(gs@, h@, dict@, open@[best as int], open@[j]));
    }
    best
}

/// Some walk from `a` to `b` has exactly `k` ids.
pub open spec fn has_walk_of_len(g: &Neighbours, a: u32, b: u32, k: int) -> bool {
    exists|p: Seq<u32>| #[trigger] walk_between(g, p, a, b) && p.len() == k
}

/// `v` has been expanded: it has a cost and has left the open set.
pub open spec fn closed(gs: Seq<Option<usize>>, io: Seq<bool>, v: int) -> bool {
    gs[v] is Some && !io[v]
}

/// The search state between two steps. `gs` holds the best known cost of each
/// id, `cf` its predecessor on the best known walk, `io` whether it is in the
/// open set `op`, `h` its distance to the goal word `gw`, and `pending` the ids
/// not yet expanded. While `exp` is `Some(c)`, the neighbours of `c` are being
/// handled.
pub open spec fn search_inv(
    g: &Neighbours,
    words: Seq<Seq<char>>,
    gw: Seq<char>,
    start: u32,
    goal: u32,
    gs: Seq<Option<usize>>,
    cf: Seq<Option<u32>>,
    io: Seq<bool>,
    op: Seq<u32>,
    h: Seq<usize>,
    pending: Set<int>,
    exp: Option<u32>,
) -> bool {
    let n = words.len();
    &&& gs.len() == n
    &&& cf.len() == n
    &&& io.len() == n
    &&& h.len() == n
    &&& start < n
    &&& goal < n
    &&& op.no_duplicates()
    &&& forall|i: int| 0 <= i < op.len() ==> (#[trigger] op[i] as int) < n && io[op[i] as int]
    &&& forall|v: u32| v < n && #[trigger] io[v as int] ==> op.contains(v)
    &&& forall|v: u32|
        v < n && #[trigger] io[v as int] ==> gs[v as int] is Some && h[v as int] == hamming(
            gw,
            words[v as int],
        )
    &&& gs[start as int] == Some(0usize)
    &&& forall|v: u32|
        v < n && #[trigger] gs[v as int] is Some ==> has_walk_of_len(
            g,
            start,
            v,
            gs[v as int]->Some_0 + 1,
        )
    &&& cf[start as int] is None
    &&& forall|v: u32|
        v < n && v != start && #[trigger] gs[v as int] is Some ==> {
            &&& cf[v as int] is Some
            &&& (cf[v as int]->Some_0 as int) < n
            &&& gs[cf[v as int]->Some_0 as int] is Some
            &&& g.spec_neighbours(v).contains(cf[v as int]->Some_0)
            &&& gs[cf[v as int]->Some_0 as int]->Some_0 < gs[v as int]->Some_0
        }
    &&& forall|v: u32|
        v < n && #[trigger] closed(gs, io, v as int) ==> no_shorter_walk(
            g,
            start,
            v,
            gs[v as int]->Some_0 + 1,
        )
    &&& forall|v: u32, w: u32|
        v < n && closed(gs, io, v as int) && exp != Some(v) && #[trigger] g.spec_neighbours(
            v,
        ).contains(w) ==> w < n && gs[w as int] is Some && gs[w as int]->Some_0 <= gs[v as int]->Some_0
            + 1
    &&& gs[goal as int] is Some ==> io[goal as int]
    &&& pending.finite()
    &&& forall|v: int| #[trigger] pending.contains(v) <==> 0 <= v < n && !closed(gs, io, v)
    &&& forall|v: u32|
        v < n && #[trigger] gs[v as int] is Some ==> gs[v as int]->Some_0 <= n - pending.len()
}

/// A walk extended by a neighbour of its last id is a walk.
proof fn lemma_walk_push(g: &Neighbours, p: Seq<u32>, a: u32, b: u32, w: u32)
    requires
        walk_between(g, p, a, b),
        g.spec_neighbours(b).contains(w),
    ensures
        walk_between(g, p.push(w), a, w),
{
    let q = p.push(w);
    assert forall|i: int| 0 <= i < q.len() - 1 implies #[trigger] g.spec_neighbours(q[i]).contains(
        q[i + 1],
    ) by {
        if i < p.len() - 1 {
            assert(q[i] == p[i] && q[i + 1] == p[i + 1]);
            assert(g.spec_neighbours(p[i]).contains(p[i + 1]));
        }
    }
}

/// Along a walk, the distance to the goal word drops by at most one per step.
proof fn lemma_h_along_walk(g: &Neighbours, dict: &Dict, gw: Seq<char>, q: Seq<u32>, i: int)
    requires
        dict.wf(),
        g.is_ladder_graph(dict@),
        gw.len() == dict.spec_word_len(),
        is_walk(g, q),
        q.last() < dict@.len(),
        0 <= i < q.len(),
    ensures
        q[i] < dict@.len(),
        hamming(gw, dict@[q[i] as int]) <= hamming(gw, dict@[q.last() as int]) + (q.len() - 1
            - i),
    decreases q.len() - i,
{
    if i < q.len() - 1 {
        lemma_h_along_walk(g, dict, gw, q, i + 1);
        assert(g.spec_neighbours(q[i]).contains(q[i + 1]));
        lemma_hamming_one_apart(gw, dict@[q[i] as int], dict@[q[i + 1] as int]);
    }
}

/// Walking from the start towards an id that is not expanded, one meets an
/// open id whose cost is at most its position on the walk.
proof fn lemma_frontier(
    g: &Neighbours,
    words: Seq<Seq<char>>,
    gw: Seq<char>,
    start: u32,
    goal: u32,
    gs: Seq<Option<usize>>,
    cf: Seq<Option<u32>>,
    io: Seq<bool>,
    op: Seq<u32>,
    h: Seq<usize>,
    pending: Set<int>,
    q: Seq<u32>,
    c: u32,
    k: int,
) -> (i: int)
    requires
        search_inv(g, words, gw, start, goal, gs, cf, io, op, h, pending, None),
        forall|a: u32, b: u32| #[trigger] g.spec_neighbours(a).contains(b) ==> b < words.len(),
        walk_between(g, q, start, c),
        c < words.len(),
        !closed(gs, io, c as int),
        0 <= k < q.len(),
        q[k] < words.len(),
        gs[q[k] as int] is Some,
        gs[q[k] as int]->Some_0 <= k,
    ensures
        0 <= i < q.len(),
        q[i] < words.len(),
        io[q[i] as int],
        gs[q[i] as int] is Some,
        gs[q[i] as int]->Some_0 <= i,
    decreases q.len() - k,
{
    if io[q[k] as int] {
        k
    } else {
        assert(closed(gs, io, q[k] as int));
        assert(k < q.len() - 1);
        assert(g.spec_neighbours(q[k]).contains(q[k + 1]));
        lemma_frontier(g, words, gw, start, goal, gs, cf, io, op, h, pending, q, c, k + 1)
    }
}

/// The id of least key in the open set has its least cost.
proof fn lemma_selected_optimal(
    g: &Neighbours,
    dict: &Dict,
    gw: Seq<char>,
    start: u32,
    goal: u32,
    gs: Seq<Option<usize>>,
    cf: Seq<Option<u32>>,
    io: Seq<bool>,
    op: Seq<u32>,
    h: Seq<usize>,
    pending: Set<int>,
    c: u32,
)
    requires
        dict.wf(),
        g.is_ladder_graph(dict@),
        gw.len() == dict.spec_word_len(),
        search_inv(g, dict@, gw, start, goal, gs, cf, io, op, h, pending, None),
        c < dict@.len(),
        io[c as int],
        forall|i: int| 0 <= i < op.len() ==> #[trigger] key_le(gs, h, c, op[i]),
    ensures
        no_shorter_walk(g, start, c, gs[c as int]->Some_0 + 1),
{
    assert forall|q: Seq<u32>| #[trigger] walk_between(g, q, start, c) implies gs[c as int]->Some_0
        + 1 <= q.len() by {
        let i = lemma_frontier(g, dict@, gw, start, goal, gs, cf, io, op, h, pending, q, c, 0);
        let v = q[i];
        assert(op.contains(v));
        let j = choose|j: int| 0 <= j < op.len() && op[j] == v;
        assert(key_le(gs, h, c, op[j]));
        lemma_h_along_walk(g, dict, gw, q, i);
    }
}

/// Offers `nb`, a neighbour of the expanded id `c`, the cost `gc + 1`: when
/// that beats its known cost, `c` becomes its predecessor and it (re)joins the
/// open set.
fn relax(
    dict: &Dict,
    g: &Neighbours,
    goal_chars: &Vec<char>,
    start: u32,
    goal: u32,
    gs: &mut Vec<Option<usize>>,
    cf: &mut Vec<Option<u32>>,
    io: &mut Vec<bool>,
    op: &mut Vec<u32>,
    h: &mut Vec<usize>,
    pending: Ghost<Set<int>>,
    c: u32,
    gc: usize,
    nb: u32,
)
    requires
        dict.wf(),
        g.is_ladder_graph(dict@),
        goal < dict@.len(),
        goal_chars@ == dict@[goal as int],
        dict@.len() <= u32::MAX,
        search_inv(
            g,
            dict@,
            goal_chars@,
            start,
            goal,
            old(gs)@,
            old(cf)@,
            old(io)@,
            old(op)@,
            old(h)@,
            pending@,
            Some(c),
        ),
        c < dict@.len(),
        c != goal,
        closed(old(gs)@, old(io)@, c as int),
        old(gs)@[c as int] == Some(gc),
        gc + 1 <= dict@.len() - pending@.len(),
        g.spec_neighbours(c).contains(nb),
    ensures
        search_inv(
            g,
            dict@,
            goal_chars@,
            start,
            goal,
            final(gs)@,
            final(cf)@,
            final(io)@,
            final(op)@,
            final(h)@,
            pending@,
            Some(c),
        ),
        final(gs)@[c as int] == Some(gc),
        closed(final(gs)@, final(io)@, c as int),
        final(gs)@[nb as int] is Some,
        final(gs)@[nb as int]->Some_0 <= gc + 1,
        forall|v: int|
            0 <= v < dict@.len() && #[trigger] old(gs)@[v] is Some ==> final(gs)@[v] is Some
                && final(gs)@[v]->Some_0 <= old(gs)@[v]->Some_0,
        ({
            let better = old(gs)@[nb as int] is None || gc + 1 < old(gs)@[nb as int]->Some_0;
            &&& final(gs)@ == if better {
                old(gs)@.update(nb as int, Some((gc + 1) as usize))
            } else {
                old(gs)@
            }
            &&& final(cf)@ == if better {
                old(cf)@.update(nb as int, Some(c))
            } else {
                old(cf)@
            }
            &&& final(io)@ == if better {
                old(io)@.update(nb as int, true)
            } else {
                old(io)@
            }
            &&& final(h)@ == if better && !old(io)@[nb as int] {
                old(h)@.update(nb as int, hamming(dict@[goal as int], dict@[nb as int]) as usize)
            } else {
                old(h)@
            }
        }),
{
    let ghost words = dict@;
    let ghost gw = goal_chars@;
    let ghost n = words.len();
    assert(nb < n);
    let tentative = gc + 1;
    let better = match gs[nb as usize] {
        None => true,
        Some(known) => tentative < known,
    };
    if !better {
        return;
    }
    let ghost gs0 = gs@;
    let ghost cf0 = cf@;
    let ghost io0 = io@;
    let ghost op0 = op@;
    let ghost h0 = h@;
    proof {
        lemma_improvable(g, dict, gw, start, goal, gs0, cf0, io0, op0, h0, pending@, c, gc, nb);
    }
    gs.set(nb as usize, Some(tentative));
    cf.set(nb as usize, Some(c));
    if !io[nb as usize] {
        let w = dict.chars(nb);
        let hv = mismatches(goal_chars, &w);
        h.set(nb as usize, hv);
        io.set(nb as usize, true);
        op.push(nb);
    }
    proof {
        lemma_relaxed(
            g,
            dict,
            gw,
            start,
            goal,
            gs0,
            cf0,
            io0,
            op0,
            h0,
            gs@,
            cf@,
            io@,
            op@,
            h@,
            pending@,
            c,
            gc,
            nb,
        );
    }
}

/// A neighbour of `c` whose cost `c` can lower is not expanded, is not the
/// start, and gets a walk one longer than that of `c`.
proof fn lemma_improvable(
    g: &Neighbours,
    dict: &Dict,
    gw: Seq<char>,
    start: u32,
    goal: u32,
    gs: Seq<Option<usize>>,
    cf: Seq<Option<u32>>,
    io: Seq<bool>,
    op: Seq<u32>,
    h: Seq<usize>,
    pending: Set<int>,
    c: u32,
    gc: usize,
    nb: u32,
)
    requires
        g.is_ladder_graph(dict@),
        search_inv(g, dict@, gw, start, goal, gs, cf, io, op, h, pending, Some(c)),
        c < dict@.len(),
        gs[c as int] == Some(gc),
        g.spec_neighbours(c).contains(nb),
        gs[nb as int] is None || gc + 1 < gs[nb as int]->Some_0,
    ensures
        nb < dict@.len(),
        !closed(gs, io, nb as int),
        nb != start,
        g.spec_neighbours(nb).contains(c),
        has_walk_of_len(g, start, nb, gc + 2),
        !io[nb as int] ==> !op.contains(nb),
{
    assert(has_walk_of_len(g, start, c, gc + 1));
    let p = choose|p: Seq<u32>| #[trigger] walk_between(g, p, start, c) && p.len() == gc + 1;
    lemma_walk_push(g, p, start, c, nb);
    assert(walk_between(g, p.push(nb), start, nb));
    if closed(gs, io, nb as int) {
        assert(no_shorter_walk(g, start, nb, gs[nb as int]->Some_0 + 1));
    }
    if op.contains(nb) {
        let j = choose|j: int| 0 <= j < op.len() && op[j] == nb;
        assert(io[op[j] as int]);
    }
}

/// The state after `nb` got the cost `gc + 1` through `c`.
#[verifier::spinoff_prover]
#[verifier::rlimit(100)]
proof fn lemma_relaxed(
    g: &Neighbours,
    dict: &Dict,
    gw: Seq<char>,
    start: u32,
    goal: u32,
    gs0: Seq<Option<usize>>,
    cf0: Seq<Option<u32>>,
    io0: Seq<bool>,
    op0: Seq<u32>,
    h0: Seq<usize>,
    gs: Seq<Option<usize>>,
    cf: Seq<Option<u32>>,
    io: Seq<bool>,
    op: Seq<u32>,
    h: Seq<usize>,
    pending: Set<int>,
    c: u32,
    gc: usize,
    nb: u32,
)
    requires
        search_inv(g, dict@, gw, start, goal, gs0, cf0, io0, op0, h0, pending, Some(c)),
        dict@.len() <= u32::MAX,
        c < dict@.len(),
        closed(gs0, io0, c as int),
        gs0[c as int] == Some(gc),
        gc + 1 <= dict@.len() - pending.len(),
        nb < dict@.len(),
        !closed(gs0, io0, nb as int),
        nb != start,
        g.spec_neighbours(nb).contains(c),
        has_walk_of_len(g, start, nb, gc + 2),
        !io0[nb as int] ==> !op0.contains(nb),
        gs0[nb as int] is None || gc + 1 < gs0[nb as int]->Some_0,
        gs == gs0.update(nb as int, Some((gc + 1) as usize)),
        cf == cf0.update(nb as int, Some(c)),
        io0[nb as int] ==> io == io0 && op == op0 && h == h0,
        !io0[nb as int] ==> {
            &&& io == io0.update(nb as int, true)
            &&& op == op0.push(nb)
            &&& h == h0.update(nb as int, hamming(gw, dict@[nb as int]) as usize)
            &&& hamming(gw, dict@[nb as int]) <= usize::MAX
        },
    ensures
        search_inv(g, dict@, gw, start, goal, gs, cf, io, op, h, pending, Some(c)),
        gs[c as int] == Some(gc),
        closed(gs, io, c as int),
        gs[nb as int] is Some,
        gs[nb as int]->Some_0 <= gc + 1,
        forall|v: int|
            0 <= v < dict@.len() && #[trigger] gs0[v] is Some ==> gs[v] is Some && gs[v]->Some_0
                <= gs0[v]->Some_0,
{
    let n = dict@.len();
    let words = dict@;
    assert(io[nb as int]);
    if !io0[nb as int] {
        assert forall|v: u32| v < n && #[trigger] io[v as int] implies op.contains(v) by {
            if v != nb {
                assert(op0.contains(v));
                let j = choose|j: int| 0 <= j < op0.len() && op0[j] == v;
                assert(op[j] == v);
            } else {
                assert(op[op0.len() as int] == v);
            }
        }
        assert forall|i: int, j: int|
            0 <= i < op.len() && 0 <= j < op.len() && i != j implies op[i] != op[j] by {
            if i < op0.len() && j < op0.len() {
                assert(op0[i] != op0[j]);
            } else if i < op0.len() {
                assert(op0[i] != nb);
            } else {
                assert(op0[j] != nb);
            }
        }
        assert forall|i: int| 0 <= i < op.len() implies (#[trigger] op[i] as int) < n
            && io[op[i] as int] by {
            if i < op0.len() {
                assert(op[i] == op0[i]);
            }
        }
    }
    assert forall|v: int| #[trigger] pending.contains(v) <==> 0 <= v < n && !closed(gs, io, v) by {
        if 0 <= v < n && v != nb {
            assert(closed(gs, io, v) == closed(gs0, io0, v));
        }
    }
    assert forall|v: u32|
        v < n && v != start && #[trigger] gs[v as int] is Some implies {
            &&& cf[v as int] is Some
            &&& (cf[v as int]->Some_0 as int) < n
            &&& gs[cf[v as int]->Some_0 as int] is Some
            &&& g.spec_neighbours(v).contains(cf[v as int]->Some_0)
            &&& gs[cf[v as int]->Some_0 as int]->Some_0 < gs[v as int]->Some_0
        } by {
        if v == nb {
            assert(cf[v as int] == Some(c));
            assert(gs[c as int] == Some(gc));
        } else {
            assert(gs0[v as int] is Some);
            assert(cf[v as int] == cf0[v as int]);
            let p = cf0[v as int]->Some_0;
            if p != nb {
                assert(gs[p as int] == gs0[p as int]);
            }
        }
    }
    assert forall|v: u32| v < n && #[trigger] closed(gs, io, v as int) implies no_shorter_walk(
        g,
        start,
        v,
        gs[v as int]->Some_0 + 1,
    ) by {
        assert(closed(gs0, io0, v as int));
    }
    assert forall|v: u32, w: u32|
        v < n && closed(gs, io, v as int) && Some(c) != Some(v)
            && #[trigger] g.spec_neighbours(v).contains(w) implies w < n && gs[w as int] is Some
        && gs[w as int]->Some_0 <= gs[v as int]->Some_0 + 1 by {
        assert(closed(gs0, io0, v as int));
    }
    assert forall|v: u32| v < n && #[trigger] gs[v as int] is Some implies has_walk_of_len(
        g,
        start,
        v,
        gs[v as int]->Some_0 + 1,
    ) by {
        if v != nb {
            assert(gs0[v as int] is Some);
        }
    }
    assert forall|v: u32| v < n && #[trigger] io[v as int] implies gs[v as int] is Some
        && h[v as int] == hamming(gw, words[v as int]) by {
        if v != nb {
            assert(io0[v as int]);
        }
    }
    assert forall|v: u32| v < n && #[trigger] gs[v as int] is Some implies gs[v as int]->Some_0 <= n
        - pending.len() by {
        if v != nb {
            assert(gs0[v as int] is Some);
        }
    }
}

/// Taking the selected id `c` out of the open set starts its expansion.
proof fn search_inv_pop(
    g: &Neighbours,
    dict: &Dict,
    gw: Seq<char>,
    start: u32,
    goal: u32,
    gs: Seq<Option<usize>>,
    cf: Seq<Option<u32>>,
    io0: Seq<bool>,
    io: Seq<bool>,
    op0: Seq<u32>,
    op: Seq<u32>,
    h: Seq<usize>,
    pending0: Set<int>,
    pending: Set<int>,
    c: u32,
    idx: int,
)
    requires
        search_inv(g, dict@, gw, start, goal, gs, cf, io0, op0, h, pending0, None),
        0 <= idx < op0.len(),
        c == op0[idx],
        c != goal,
        io == io0.update(c as int, false),
        op == op0.remove(idx),
        pending == pending0.remove(c as int),
        no_shorter_walk(g, start, c, gs[c as int]->Some_0 + 1),
    ensures
        search_inv(g, dict@, gw, start, goal, gs, cf, io, op, h, pending, Some(c)),
        closed(gs, io, c as int),
        gs[c as int]->Some_0 + 1 <= dict@.len() - pending.len(),
        pending.len() < pending0.len(),
{
    let n = dict@.len();
    assert(io0[c as int]);
    assert(pending0.contains(c as int));
    assert(pending.len() == pending0.len() - 1);
    assert forall|i: int| 0 <= i < op.len() implies (#[trigger] op[i] as int) < n && io[op[i] as int] by {
        let j = if i < idx { i } else { i + 1 };
        assert(op[i] == op0[j]);
        assert(op0[j] != op0[idx]);
    }
    assert forall|v: u32| v < n && #[trigger] io[v as int] implies op.contains(v) by {
        assert(op0.contains(v));
        let j = choose|j: int| 0 <= j < op0.len() && op0[j] == v;
        assert(j != idx);
        if j < idx {
            assert(op[j] == v);
        } else {
            assert(op[j - 1] == v);
        }
    }
    assert forall|i: int, j: int| 0 <= i < op.len() && 0 <= j < op.len() && i != j implies op[i] != op[j] by {
        let a = if i < idx { i } else { i + 1 };
        let b = if j < idx { j } else { j + 1 };
        assert(op0[a] != op0[b]);
    }
    assert forall|v: int| #[trigger] pending.contains(v) <==> 0 <= v < n && !closed(gs, io, v) by {
        if 0 <= v < n && v != c {
            assert(closed(gs, io, v) == closed(gs, io0, v));
        }
    }
    assert forall|v: u32| v < n && #[trigger] closed(gs, io, v as int) implies no_shorter_walk(
        g,
        start,
        v,
        gs[v as int]->Some_0 + 1,
    ) by {
        if v != c {
            assert(closed(gs, io0, v as int));
        }
    }
    assert forall|v: u32, w: u32|
        v < n && closed(gs, io, v as int) && Some(c) != Some(v)
            && #[trigger] g.spec_neighbours(v).contains(w) implies w < n && gs[w as int] is Some
        && gs[w as int]->Some_0 <= gs[v as int]->Some_0 + 1 by {
        assert(closed(gs, io0, v as int));
    }
    assert forall|v: u32| v < n && #[trigger] io[v as int] implies gs[v as int] is Some
        && h[v as int] == hamming(gw, dict@[v as int]) by {
        assert(io0[v as int]);
    }
}

/// Once every neighbour of `c` has a cost at most one above its own, the
/// expansion of `c` is complete.
proof fn search_inv_expanded(
    g: &Neighbours,
    dict: &Dict,
    gw: Seq<char>,
    start: u32,
    goal: u32,
    gs: Seq<Option<usize>>,
    cf: Seq<Option<u32>>,
    io: Seq<bool>,
    op: Seq<u32>,
    h: Seq<usize>,
    pending: Set<int>,
    c: u32,
    gc: usize,
)
    requires
        search_inv(g, dict@, gw, start, goal, gs, cf, io, op, h, pending, Some(c)),
        gs[c as int] == Some(gc),
        g.is_ladder_graph(dict@),
        forall|w: u32| #[trigger] g.spec_neighbours(c).contains(w) ==> gs[w as int] is Some
            && gs[w as int]->Some_0 <= gc + 1,
    ensures
        search_inv(g, dict@, gw, start, goal, gs, cf, io, op, h, pending, None),
{
    let n = dict@.len();
    assert forall|v: u32, w: u32|
        v < n && closed(gs, io, v as int) && None::<u32> != Some(v)
            && #[trigger] g.spec_neighbours(v).contains(w) implies w < n && gs[w as int] is Some
        && gs[w as int]->Some_0 <= gs[v as int]->Some_0 + 1 by {
        if v == c {
            assert(gs[w as int]->Some_0 <= gc + 1);
        } else {
            assert(Some(c) != Some(v));
        }
    }
}

/// Follows the predecessors from `current` back to the start.
fn reconstruct_path(
    g: &Neighbours,
    dict: &Dict,
    gw: Ghost<Seq<char>>,
    start: u32,
    goal: u32,
    gs: &Vec<Option<usize>>,
    cf: &Vec<Option<u32>>,
    io: Ghost<Seq<bool>>,
    op: Ghost<Seq<u32>>,
    h: Ghost<Seq<usize>>,
    pending: Ghost<Set<int>>,
    current: u32,
) -> (path: Vec<u32>)
    requires
        search_inv(g, dict@, gw@, start, goal, gs@, cf@, io@, op@, h@, pending@, None),
        current < dict@.len(),
        gs@[current as int] is Some,
    ensures
        walk_between(g, path@, current, start),
        path@.len() <= gs@[current as int]->Some_0 + 1,
        path@[0] == current,
        forall|i: int|
            0 <= i < path@.len() - 1 ==> (path@[i] as int) < cf@.len() && cf@[path@[i] as int]
                == Some(#[trigger] path@[i + 1]),
        (path@.last() as int) < cf@.len(),
        cf@[path@.last() as int] is None,
{
    let ghost n = dict@.len();
    let mut path: Vec<u32> = Vec::new();
    path.push(current);
    let mut cur = current;
    let mut done = false;
    while !done
        invariant
            search_inv(g, dict@, gw@, start, goal, gs@, cf@, io@, op@, h@, pending@, None),
            n == dict@.len(),
            cur < n,
            gs@[cur as int] is Some,
            walk_between(g, path@, current, cur),
            path@.len() + gs@[cur as int]->Some_0 <= gs@[current as int]->Some_0 + 1,
            done ==> cur == start,
            done ==> cf@[cur as int] is None,
            path@[0] == current,
            path@.last() == cur,
            forall|i: int| 0 <= i < path@.len() ==> (#[trigger] path@[i] as int) < n,
            forall|i: int|
                0 <= i < path@.len() - 1 ==> cf@[path@[i] as int] == Some(#[trigger] path@[i + 1]),
        decreases
            if done {
                0
            } else {
                gs@[cur as int]->Some_0 + 1
            },
    {
        match cf[cur as usize] {
            Some(prev) => {
                proof {
                    lemma_walk_push(g, path@, current, cur, prev);
                }
                let ghost before = path@;
                path.push(prev);
                proof {
                    assert forall|i: int| 0 <= i < path@.len() - 1 implies cf@[path@[i] as int]
                        == Some(#[trigger] path@[i + 1]) by {
                        if i < before.len() - 1 {
                            assert(path@[i] == before[i] && path@[i + 1] == before[i + 1]);
                        } else {
                            assert(path@[i] == cur);
                        }
                    }
                }
                cur = prev;
            },
            None => {
                done = true;
            },
        }
    }
    path
}

/// Reversing a walk of a symmetric graph gives a walk.
proof fn lemma_reverse_walk(g: &Neighbours, dict: &Dict, p: Seq<u32>, a: u32, b: u32)
    requires
        g.is_ladder_graph(dict@),
        walk_between(g, p, a, b),
    ensures
        walk_between(g, p.reverse(), b, a),
{
    let r = p.reverse();
    assert forall|i: int| 0 <= i < r.len() - 1 implies #[trigger] g.spec_neighbours(r[i]).contains(
        r[i + 1],
    ) by {
        let j = p.len() - 2 - i;
        assert(g.spec_neighbours(p[j]).contains(p[j + 1]));
    }
}

/// The state of the search as a value: best known costs, predecessors,
/// open-set membership and the distances to the goal word recorded on entry.
pub struct SearchState {
    pub gs: Seq<Option<usize>>,
    pub cf: Seq<Option<u32>>,
    pub io: Seq<bool>,
    pub h: Seq<usize>,
}

/// Some id below `n` is open.
pub open spec fn has_open(st: SearchState, n: nat) -> bool {
    exists|v: u32| v < n && #[trigger] st.io[v as int]
}

/// `v` is the open id that comes first in the expansion order.
pub open spec fn selected(st: SearchState, words: Seq<Seq<char>>, v: u32) -> bool {
    &&& v < words.len()
    &&& st.io[v as int]
    &&& forall|w: u32| w < words.len() && #[trigger] st.io[w as int] ==> prior(st.gs, st.h, words, v, w)
}

/// The id expanded next.
pub open spec fn pick(st: SearchState, words: Seq<Seq<char>>) -> u32 {
    choose|v: u32| selected(st, words, v)
}

/// Going through `c` gives `v` a lower cost than it has.
pub open spec fn improves(st: SearchState, g: &Neighbours, c: u32, v: u32) -> bool {
    &&& g.spec_neighbours(c).contains(v)
    &&& (st.gs[v as int] is None || st.gs[c as int]->Some_0 + 1 < st.gs[v as int]->Some_0)
}

/// `st` after offering the ids of `s`, neighbours of `c`, the cost of `c` plus
/// one: those it improves take `c` as predecessor and join the open set.
pub open spec fn relaxed(
    st: SearchState,
    g: &Neighbours,
    words: Seq<Seq<char>>,
    goal: u32,
    c: u32,
    s: Set<u32>,
) -> SearchState {
    let n = st.gs.len();
    let t = (st.gs[c as int]->Some_0 + 1) as usize;
    SearchState {
        gs: Seq::new(
            n,
            |v: int|
                if s.contains(v as u32) && improves(st, g, c, v as u32) {
                    Some(t)
                } else {
                    st.gs[v]
                },
        ),
        cf: Seq::new(
            n,
            |v: int|
                if s.contains(v as u32) && improves(st, g, c, v as u32) {
                    Some(c)
                } else {
                    st.cf[v]
                },
        ),
        io: Seq::new(
            n,
            |v: int|
                if s.contains(v as u32) && improves(st, g, c, v as u32) {
                    true
                } else {
                    st.io[v]
                },
        ),
        h: Seq::new(
            n,
            |v: int|
                if s.contains(v as u32) && improves(st, g, c, v as u32) && !st.io[v] {
                    hamming(words[goal as int], words[v]) as usize
                } else {
                    st.h[v]
                },
        ),
    }
}

/// `st` with `c` taken out of the open set.
pub open spec fn popped(st: SearchState, c: u32) -> SearchState {
    SearchState { io: st.io.update(c as int, false), ..st }
}

/// One expansion: the first open id leaves the open set and offers its
/// neighbours its cost plus one.
pub open spec fn step(st: SearchState, g: &Neighbours, words: Seq<Seq<char>>, goal: u32) -> SearchState {
    let c = pick(st, words);
    relaxed(popped(st, c), g, words, goal, c, g.spec_neighbours(c))
}

/// The search is over: nothing is open, or the goal comes first.
pub open spec fn stopped(st: SearchState, words: Seq<Seq<char>>, goal: u32) -> bool {
    !has_open(st, words.len()) || pick(st, words) == goal
}

/// The state after at most `k` expansions, stopping early when the search is
/// over.
pub open spec fn run(st: SearchState, g: &Neighbours, words: Seq<Seq<char>>, goal: u32, k: nat) -> SearchState
    decreases k,
{
    if k == 0 || stopped(st, words, goal) {
        st
    } else {
        run(step(st, g, words, goal), g, words, goal, (k - 1) as nat)
    }
}

/// The state before the first expansion: only `start` is known, at cost zero.
pub open spec fn initial(words: Seq<Seq<char>>, start: u32, goal: u32) -> SearchState {
    let n = words.len();
    SearchState {
        gs: Seq::new(n, |v: int| if v == start { Some(0usize) } else { None }),
        cf: Seq::new(n, |v: int| None),
        io: Seq::new(n, |v: int| v == start),
        h: Seq::new(
            n,
            |v: int|
                if v == start {
                    hamming(words[goal as int], words[start as int]) as usize
                } else {
                    0usize
                },
        ),
    }
}

/// The ids met by following predecessors from `v`, at most `fuel` times.
pub open spec fn chain(cf: Seq<Option<u32>>, v: u32, fuel: nat) -> Seq<u32>
    decreases fuel,
{
    if fuel == 0 {
        seq![v]
    } else {
        match cf[v as int] {
            Some(p) => seq![v] + chain(cf, p, (fuel - 1) as nat),
            None => seq![v],
        }
    }
}

/// The ladder that the search returns, goal first: `None` when the open set
/// runs out first.
pub open spec fn astar_ladder(g: &Neighbours, words: Seq<Seq<char>>, start: u32, goal: u32) -> Option<
    Seq<u32>,
> {
    let fin = run(initial(words, start, goal), g, words, goal, words.len());
    if has_open(fin, words.len()) {
        Some(chain(fin.cf, goal, words.len()))
    } else {
        None
    }
}

/// Running `k + 1` steps is running `k` steps and then one more unless the
/// search is over.
proof fn lemma_run_last(st: SearchState, g: &Neighbours, words: Seq<Seq<char>>, goal: u32, k: nat)
    ensures
        run(st, g, words, goal, k + 1) == if stopped(run(st, g, words, goal, k), words, goal) {
            run(st, g, words, goal, k)
        } else {
            step(run(st, g, words, goal, k), g, words, goal)
        },
    decreases k,
{
    assert(run(st, g, words, goal, k + 1) == if stopped(st, words, goal) {
        st
    } else {
        run(step(st, g, words, goal), g, words, goal, k)
    });
    if k == 0 {
        assert(run(st, g, words, goal, 0) == st);
        assert(run(step(st, g, words, goal), g, words, goal, 0) == step(st, g, words, goal));
    } else if !stopped(st, words, goal) {
        lemma_run_last(step(st, g, words, goal), g, words, goal, (k - 1) as nat);
        assert(run(st, g, words, goal, k) == run(step(st, g, words, goal), g, words, goal, (k - 1) as nat));
    }
}

/// Once the search is over, further steps change nothing.
proof fn lemma_run_stays(st: SearchState, g: &Neighbours, words: Seq<Seq<char>>, goal: u32, k: nat, m: nat)
    requires
        k <= m,
        stopped(run(st, g, words, goal, k), words, goal),
    ensures
        run(st, g, words, goal, m) == run(st, g, words, goal, k),
    decreases m - k,
{
    if k < m {
        lemma_run_last(st, g, words, goal, k);
        lemma_run_stays(st, g, words, goal, k + 1, m);
    }
}

/// A walk that follows the predecessors to an id without one is the chain.
proof fn lemma_chain(cf: Seq<Option<u32>>, p: Seq<u32>, fuel: nat)
    requires
        p.len() > 0,
        p.len() - 1 <= fuel,
        forall|i: int| 0 <= i < p.len() - 1 ==> cf[#[trigger] p[i] as int] == Some(p[i + 1]),
        cf[p.last() as int] is None,
    ensures
        chain(cf, p[0], fuel) == p,
    decreases p.len(),
{
    if p.len() == 1 {
        assert(chain(cf, p[0], fuel) =~= p);
    } else {
        let q = p.drop_first();
        assert(cf[p[0] as int] == Some(p[1]));
        assert forall|i: int| 0 <= i < q.len() - 1 implies cf[#[trigger] q[i] as int] == Some(q[i + 1]) by {
            assert(q[i] == p[i + 1]);
            assert(cf[p[i + 1] as int] == Some(p[i + 2]));
        }
        lemma_chain(cf, q, (fuel - 1) as nat);
        assert(seq![p[0]] + q =~= p);
    }
}

/// Offering nothing changes nothing.
proof fn lemma_relaxed_none(st: SearchState, g: &Neighbours, words: Seq<Seq<char>>, goal: u32, c: u32)
    requires
        st.gs.len() == words.len(),
        st.cf.len() == words.len(),
        st.io.len() == words.len(),
        st.h.len() == words.len(),
    ensures
        relaxed(st, g, words, goal, c, Set::<u32>::empty()) == st,
{
    let r = relaxed(st, g, words, goal, c, Set::<u32>::empty());
    assert(r.gs =~= st.gs);
    assert(r.cf =~= st.cf);
    assert(r.io =~= st.io);
    assert(r.h =~= st.h);
}

/// Offering one more neighbour `nb`, as `relax` does, extends the offered set.
proof fn lemma_relaxed_one(
    st: SearchState,
    g: &Neighbours,
    words: Seq<Seq<char>>,
    goal: u32,
    c: u32,
    s: Set<u32>,
    nb: u32,
    next: SearchState,
)
    requires
        st.gs.len() == words.len(),
        st.cf.len() == words.len(),
        st.io.len() == words.len(),
        st.h.len() == words.len(),
        words.len() <= u32::MAX,
        !s.contains(nb),
        nb < words.len(),
        g.spec_neighbours(c).contains(nb),
        ({
            let cur = relaxed(st, g, words, goal, c, s);
            let gc = st.gs[c as int]->Some_0;
            let better = cur.gs[nb as int] is None || gc + 1 < cur.gs[nb as int]->Some_0;
            &&& next.gs == if better {
                cur.gs.update(nb as int, Some((gc + 1) as usize))
            } else {
                cur.gs
            }
            &&& next.cf == if better {
                cur.cf.update(nb as int, Some(c))
            } else {
                cur.cf
            }
            &&& next.io == if better {
                cur.io.update(nb as int, true)
            } else {
                cur.io
            }
            &&& next.h == if better && !cur.io[nb as int] {
                cur.h.update(nb as int, hamming(words[goal as int], words[nb as int]) as usize)
            } else {
                cur.h
            }
        }),
    ensures
        next == relaxed(st, g, words, goal, c, s.insert(nb)),
{
    let cur = relaxed(st, g, words, goal, c, s);
    let r = relaxed(st, g, words, goal, c, s.insert(nb));
    assert(cur.gs[nb as int] == st.gs[nb as int]);
    assert(cur.io[nb as int] == st.io[nb as int]);
    assert forall|v: int| 0 <= v < words.len() implies (#[trigger] s.insert(nb).contains(v as u32)
        <==> (s.contains(v as u32) || v == nb)) by {}
    assert(next.gs =~= r.gs);
    assert(next.cf =~= r.cf);
    assert(next.io =~= r.io);
    assert(next.h =~= r.h);
}

/// Only one open id comes first.
proof fn lemma_selected_unique(st: SearchState, words: Seq<Seq<char>>, a: u32, b: u32)
    requires
        selected(st, words, a),
        selected(st, words, b),
    ensures
        a == b,
{
    assert(prior(st.gs, st.h, words, a, b));
    assert(prior(st.gs, st.h, words, b, a));
    lemma_prior_antisym(st.gs, st.h, words, a, b);
}

/// The items of a sequence with one more pushed.
proof fn lemma_push_to_set(sq: Seq<u32>, x: u32)
    ensures
        sq.push(x).to_set() == sq.to_set().insert(x),
{
    let p = sq.push(x);
    assert forall|y: u32| #[trigger] p.to_set().contains(y) <==> sq.to_set().insert(x).contains(y) by {
        if p.contains(y) {
            let j = choose|j: int| 0 <= j < p.len() && p[j] == y;
            if j < sq.len() {
                assert(sq[j] == y);
            }
        }
        if sq.contains(y) {
            let j = choose|j: int| 0 <= j < sq.len() && sq[j] == y;
            assert(p[j] == y);
        }
        if y == x {
            assert(p[sq.len() as int] == y);
        }
    }
    assert(p.to_set() =~= sq.to_set().insert(x));
}

/// The id that `select` returns is the one the search expands next.
proof fn lemma_pick(st: SearchState, words: Seq<Seq<char>>, op: Seq<u32>, idx: int)
    requires
        0 <= idx < op.len(),
        op[idx] < words.len(),
        st.io[op[idx] as int],
        forall|v: u32| v < words.len() && #[trigger] st.io[v as int] ==> op.contains(v),
        forall|i: int| 0 <= i < op.len() ==> #[trigger] prior(st.gs, st.h, words, op[idx], op[i]),
    ensures
        selected(st, words, op[idx]),
        pick(st, words) == op[idx],
        has_open(st, words.len()),
{
    let c = op[idx];
    assert forall|w: u32| w < words.len() && #[trigger] st.io[w as int] implies prior(
        st.gs,
        st.h,
        words,
        c,
        w,
    ) by {
        assert(op.contains(w));
        let j = choose|j: int| 0 <= j < op.len() && op[j] == w;
        assert(prior(st.gs, st.h, words, op[idx], op[j]));
    }
    assert(selected(st, words, c));
    lemma_selected_unique(st, words, c, pick(st, words));
}

/// The ladder once the goal comes first in the open set: the predecessors
/// followed back from the goal, a shortest walk to the start.
fn finish(
    g: &Neighbours,
    dict: &Dict,
    gw: Ghost<Seq<char>>,
    start: u32,
    goal: u32,
    gs: &Vec<Option<usize>>,
    cf: &Vec<Option<u32>>,
    io: Ghost<Seq<bool>>,
    op: Ghost<Seq<u32>>,
    h: Ghost<Seq<usize>>,
    pending: Ghost<Set<int>>,
) -> (path: Vec<u32>)
    requires
        dict.wf(),
        g.is_ladder_graph(dict@),
        dict@.len() <= u32::MAX,
        search_inv(g, dict@, gw@, start, goal, gs@, cf@, io@, op@, h@, pending@, None),
        io@[goal as int],
        no_shorter_walk(g, start, goal, gs@[goal as int]->Some_0 + 1),
    ensures
        walk_between(g, path@, goal, start),
        no_shorter_walk(g, start, goal, path@.len() as int),
        reachable(g, start, goal),
        start == goal ==> path@ == seq![start],
        path@ == chain(cf@, goal, dict@.len()),
{
    let path = reconstruct_path(g, dict, gw, start, goal, gs, cf, io, op, h, pending, goal);
    proof {
        lemma_reverse_walk(g, dict, path@, goal, start);
        assert(walk_between(g, path@.reverse(), start, goal));
        assert forall|q: Seq<u32>| #[trigger] walk_between(g, q, start, goal) implies path@.len()
            <= q.len() by {}
        if start == goal {
            assert(walk_between(g, seq![start], start, goal));
            assert(path@ =~= seq![start]);
        }
        lemma_chain(cf@, path@, dict@.len());
    }
    path
}

/// Offers every neighbour of the expanded id `c` the cost `gc + 1`.
#[verifier::spinoff_prover]
#[verifier::rlimit(100)]
fn relax_all(
    dict: &Dict,
    g: &Neighbours,
    goal_chars: &Vec<char>,
    start: u32,
    goal: u32,
    gs: &mut Vec<Option<usize>>,
    cf: &mut Vec<Option<u32>>,
    io: &mut Vec<bool>,
    op: &mut Vec<u32>,
    h: &mut Vec<usize>,
    pend: Ghost<Set<int>>,
    c: u32,
    gc: usize,
    set: &HashSet<u32>,
    before: Ghost<SearchState>,
)
    requires
        dict.wf(),
        g.is_ladder_graph(dict@),
        dict@.len() <= u32::MAX,
        goal < dict@.len(),
        goal_chars@ == dict@[goal as int],
        c < dict@.len(),
        c != goal,
        search_inv(
            g,
            dict@,
            goal_chars@,
            start,
            goal,
            old(gs)@,
            old(cf)@,
            old(io)@,
            old(op)@,
            old(h)@,
            pend@,
            Some(c),
        ),
        closed(old(gs)@, old(io)@, c as int),
        old(gs)@[c as int] == Some(gc),
        before@.gs[c as int] == Some(gc),
        gc + 1 <= dict@.len() - pend@.len(),
        set@ == g.spec_neighbours(c),
        (SearchState { gs: old(gs)@, cf: old(cf)@, io: old(io)@, h: old(h)@ }) == popped(before@, c),
    ensures
        search_inv(
            g,
            dict@,
            goal_chars@,
            start,
            goal,
            final(gs)@,
            final(cf)@,
            final(io)@,
            final(op)@,
            final(h)@,
            pend@,
            Some(c),
        ),
        closed(final(gs)@, final(io)@, c as int),
        final(gs)@[c as int] == Some(gc),
        forall|w: u32| #[trigger] g.spec_neighbours(c).contains(w) ==> final(gs)@[w as int] is Some
            && final(gs)@[w as int]->Some_0 <= gc + 1,
        (SearchState { gs: final(gs)@, cf: final(cf)@, io: final(io)@, h: final(h)@ }) == relaxed(
            popped(before@, c),
            g,
            dict@,
            goal,
            c,
            g.spec_neighbours(c),
        ),
{
    let ghost words = dict@;
    let ghost gw = goal_chars@;
    let ghost n = dict@.len();
    let ghost st0 = before@;
    let ghost st1 = popped(st0, c);
    let ghost pending = pend@;
        let iter = set.iter();
        let ghost elems = iter.remaining();
        assert(elems.unref().to_set() == set@);
        assert(elems.no_duplicates());
        proof {
            lemma_relaxed_none(st1, g, words, goal, c);
            assert(elems.unref().take(0).to_set() =~= Set::<u32>::empty());
        }
        for nb in it: iter
            invariant
                dict.wf(),
                g.is_ladder_graph(dict@),
                words == dict@,
                n == dict@.len(),
                n <= u32::MAX,
                goal < n,
                goal_chars@ == dict@[goal as int],
                gw == goal_chars@,
                c < n,
                c != goal,
                search_inv(g, words, gw, start, goal, gs@, cf@, io@, op@, h@, pending, Some(c)),
                closed(gs@, io@, c as int),
                gs@[c as int] == Some(gc),
                gc + 1 <= n - pending.len(),
                set@ == g.spec_neighbours(c),
                it.seq() == elems,
                elems.unref().to_set() == set@,
                forall|k: int|
                    0 <= k < it.index() ==> #[trigger] gs@[*elems[k] as int] is Some
                        && gs@[*elems[k] as int]->Some_0 <= gc + 1,
                elems.no_duplicates(),
                st1.gs == st0.gs,
                st0.gs[c as int] == Some(gc),
                st1.gs.len() == n,
                st1.cf.len() == n,
                st1.io.len() == n,
                st1.h.len() == n,
                (SearchState { gs: gs@, cf: cf@, io: io@, h: h@ }) == relaxed(
                    st1,
                    g,
                    words,
                    goal,
                    c,
                    elems.unref().take(it.index() as int).to_set(),
                ),
        {
            let ghost gs_before = gs@;
            let ghost at = it.index();
            proof {
                assert forall|j: int| 0 <= j < at implies #[trigger] elems.unref().take(
                    at as int,
                )[j] != *nb by {
                    assert(elems[j] != elems[at as int]);
                }
                assert(!elems.unref().take(at as int).contains(*nb));
            }
            proof {
                assert(nb == it.seq()[at]);
                assert(elems.unref()[at] == *nb);
                assert(elems.unref().to_set().contains(*nb));
            }
            relax(
                dict,
                g,
                goal_chars,
                start,
                goal,
                gs,
                cf,
                io,
                op,
                h,
                Ghost(pending),
                c,
                gc,
                *nb,
            );
            proof {
                lemma_relaxed_one(
                    st1,
                    g,
                    words,
                    goal,
                    c,
                    elems.unref().take(at as int).to_set(),
                    *nb,
                    (SearchState { gs: gs@, cf: cf@, io: io@, h: h@ }),
                );
                assert(elems.unref().take(at + 1) =~= elems.unref().take(at as int).push(*nb));
                lemma_push_to_set(elems.unref().take(at as int), *nb);
                assert forall|k: int| 0 <= k < at + 1 implies #[trigger] gs@[*elems[k] as int] is Some
                        && gs@[*elems[k] as int]->Some_0 <= gc + 1 by {
                    if k < at {
                        assert(elems.unref()[k] == *elems[k]);
                        assert(elems.unref().to_set().contains(elems.unref()[k]));
                        assert(gs_before[*elems[k] as int] is Some);
                    } else {
                        assert(*elems[k] == *nb);
                    }
                }
            }
        }
        proof {
            assert forall|w: u32| #[trigger] g.spec_neighbours(c).contains(w) implies gs@[w as int] is Some
                && gs@[w as int]->Some_0 <= gc + 1 by {
                assert(elems.unref().to_set().contains(w));
                let k = choose|k: int| 0 <= k < elems.len() && elems.unref()[k] == w;
                assert(*elems[k] == w);
            }
            assert(elems.unref().take(elems.len() as int) =~= elems.unref());
        }
}

/// A* finds a shortest ladder from `start` to `goal`. The path is returned
/// goal first, start last. Each step moves to a neighbour; the open set is
/// ordered by cost so far plus the number of positions where the word differs
/// from the goal word, then by that number, then by the greater word and the
/// greater id, so the ladder returned is `astar_ladder`: a function of the
/// neighbour sets and the words alone. Fails with `PathNotFound` when no
/// ladder joins the two words.
#[verifier::spinoff_prover]
#[verifier::rlimit(100)]
pub fn a_star(neighbours: &Neighbours, dict: &Dict, start: u32, goal: u32) -> (r: Result<
    Vec<u32>,
    Error,
>)
    requires
        dict.wf(),
        neighbours.is_ladder_graph(dict@),
        start < dict@.len(),
        goal < dict@.len(),
        dict@.len() <= u32::MAX,
    ensures
        match r {
            Ok(path) => {
                &&& walk_between(neighbours, path@, goal, start)
                &&& no_shorter_walk(neighbours, start, goal, path@.len() as int)
            },
            Err(e) => e == Error::PathNotFound,
        },
        r is Ok <==> reachable(neighbours, start, goal),
        start == goal ==> (r is Ok && r->Ok_0@ == seq![start]),
        match astar_ladder(neighbours, dict@, start, goal) {
            Some(p) => r is Ok && r->Ok_0@ == p,
            None => r is Err,
        },
{
    let n = dict.len();
    let goal_chars = dict.chars(goal);
    let ghost gw = goal_chars@;
    let ghost words = dict@;
    let mut gs: Vec<Option<usize>> = Vec::new();
    let mut cf: Vec<Option<u32>> = Vec::new();
    let mut io: Vec<bool> = Vec::new();
    let mut h: Vec<usize> = Vec::new();
    let mut i: usize = 0;
    while i < n
        invariant
            i <= n,
            gs@.len() == i,
            cf@.len() == i,
            io@.len() == i,
            h@.len() == i,
            forall|j: int| 0 <= j < i ==> #[trigger] gs@[j] is None,
            forall|j: int| 0 <= j < i ==> #[trigger] cf@[j] is None,
            forall|j: int| 0 <= j < i ==> !#[trigger] io@[j],
            forall|j: int| 0 <= j < i ==> #[trigger] h@[j] == 0,
        decreases n - i,
    {
        gs.push(None);
        cf.push(None);
        io.push(false);
        h.push(0);
        i = i + 1;
    }
    gs.set(start as usize, Some(0));
    let start_chars = dict.chars(start);
    let h0 = mismatches(&goal_chars, &start_chars);
    h.set(start as usize, h0);
    io.set(start as usize, true);
    let mut op: Vec<u32> = Vec::new();
    op.push(start);
    let ghost mut pending = set_int_range(0, n as int);
    let ghost init = initial(words, start, goal);
    let ghost mut k: nat = 0;
    proof {
        assert(gs@ =~= init.gs);
        assert(cf@ =~= init.cf);
        assert(io@ =~= init.io);
        assert(h@ =~= init.h);
        assert((SearchState { gs: gs@, cf: cf@, io: io@, h: h@ }) == run(init, neighbours, words, goal, 0));
        lemma_int_range(0, n as int);
        assert forall|v: int| 0 <= v < n && v != start implies gs@[v] is None && cf@[v] is None
            && !io@[v] by {}
        assert(h@[start as int] == hamming(gw, words[start as int]));
        assert(op@.no_duplicates());
        assert forall|v: u32| v < n && #[trigger] io@[v as int] implies gs@[v as int] is Some
            && h@[v as int] == hamming(gw, words[v as int]) by {
            assert(v == start);
        }
        assert forall|v: u32| v < n && #[trigger] closed(gs@, io@, v as int) implies no_shorter_walk(
            neighbours,
            start,
            v,
            gs@[v as int]->Some_0 + 1,
        ) by {
            assert(v == start);
        }
        assert forall|v: u32, w: u32|
            v < n && closed(gs@, io@, v as int) && None::<u32> != Some(v)
                && #[trigger] neighbours.spec_neighbours(v).contains(w) implies w < n && gs@[w as int] is Some
            && gs@[w as int]->Some_0 <= gs@[v as int]->Some_0 + 1 by {
            assert(v == start);
        }
        assert forall|v: u32| v < n && #[trigger] gs@[v as int] is Some implies gs@[v as int]->Some_0
            <= n - pending.len() by {
            assert(v == start);
        }
        assert(gs@[goal as int] is Some ==> io@[goal as int]);
        assert forall|v: u32| v < n && #[trigger] io@[v as int] implies op@.contains(v) by {
            assert(v == start);
            assert(op@[0] == v);
        }
        assert forall|v: u32|
            v < n && v != start && #[trigger] gs@[v as int] is Some implies {
                &&& cf@[v as int] is Some
                &&& (cf@[v as int]->Some_0 as int) < n
                &&& gs@[cf@[v as int]->Some_0 as int] is Some
                &&& neighbours.spec_neighbours(v).contains(cf@[v as int]->Some_0)
                &&& gs@[cf@[v as int]->Some_0 as int]->Some_0 < gs@[v as int]->Some_0
            } by {
            assert(gs@[v as int] is None);
        }
        assert forall|i: int| 0 <= i < op@.len() implies (#[trigger] op@[i] as int) < n
            && io@[op@[i] as int] by {
            assert(op@[i] == start);
        }
        assert(cf@[start as int] is None);
        assert forall|v: u32| v < n && #[trigger] gs@[v as int] is Some implies has_walk_of_len(
            neighbours,
            start,
            v,
            gs@[v as int]->Some_0 + 1,
        ) by {
            assert(v == start);
            assert(walk_between(neighbours, seq![start], start, start));
        }
        assert(walk_between(neighbours, seq![start], start, start));
        assert(has_walk_of_len(neighbours, start, start, 1));
        assert(op@.contains(start)) by {
            assert(op@[0] == start);
        }
        assert forall|v: int| #[trigger] pending.contains(v) <==> 0 <= v < n && !closed(
            gs@,
            io@,
            v,
        ) by {}
    }
    while op.len() > 0
        invariant
            dict.wf(),
            neighbours.is_ladder_graph(dict@),
            words == dict@,
            n == dict@.len(),
            n <= u32::MAX,
            goal < n,
            goal_chars@ == dict@[goal as int],
            gw == goal_chars@,
            search_inv(neighbours, words, gw, start, goal, gs@, cf@, io@, op@, h@, pending, None),
            init == initial(words, start, goal),
            (SearchState { gs: gs@, cf: cf@, io: io@, h: h@ }) == run(init, neighbours, words, goal, k),
            k + pending.len() == n,
        decreases pending.len(),
    {
        let idx = select(dict, &op, &gs, &h);
        let c = op[idx];
        let ghost st0 = (SearchState { gs: gs@, cf: cf@, io: io@, h: h@ });
        proof {
            lemma_selected_optimal(neighbours, dict, gw, start, goal, gs@, cf@, io@, op@, h@, pending, c);
            lemma_pick(st0, words, op@, idx as int);
        }
        if c == goal {
            let path = finish(
                neighbours,
                dict,
                Ghost(gw),
                start,
                goal,
                &gs,
                &cf,
                Ghost(io@),
                Ghost(op@),
                Ghost(h@),
                Ghost(pending),
            );
            proof {
                lemma_run_stays(init, neighbours, words, goal, k, n as nat);
            }
            return Ok(path);
        }
        let gc = match gs[c as usize] {
            Some(v) => v,
            None => 0,
        };
        let ghost op0 = op@;
        let ghost io0 = io@;
        let ghost pending0 = pending;
        op.remove(idx);
        io.set(c as usize, false);
        let ghost st1 = popped(st0, c);
        assert((SearchState { gs: gs@, cf: cf@, io: io@, h: h@ }) == st1);
        proof {
            pending = pending.remove(c as int);
            search_inv_pop(neighbours, dict, gw, start, goal, gs@, cf@, io0, io@, op0, op@, h@, pending0, pending, c, idx as int);
        }
        match neighbours.get(c) {
            Some(set) => {
                relax_all(
                    dict,
                    neighbours,
                    &goal_chars,
                    start,
                    goal,
                    &mut gs,
                    &mut cf,
                    &mut io,
                    &mut op,
                    &mut h,
                    Ghost(pending),
                    c,
                    gc,
                    set,
                    Ghost(st0),
                );
            },
            None => {
                proof {
                    lemma_relaxed_none(st1, neighbours, words, goal, c);
                    assert(neighbours.spec_neighbours(c) =~= Set::<u32>::empty());
                }
            },
        }
        proof {
            assert((SearchState { gs: gs@, cf: cf@, io: io@, h: h@ }) == step(st0, neighbours, words, goal));
            lemma_run_last(init, neighbours, words, goal, k);
            k = k + 1;
        }
        proof {
            search_inv_expanded(neighbours, dict, gw, start, goal, gs@, cf@, io@, op@, h@, pending, c, gc);
        }
    }
    proof {
        let fin = (SearchState { gs: gs@, cf: cf@, io: io@, h: h@ });
        if has_open(fin, n as nat) {
            let v = choose|v: u32| v < n && #[trigger] fin.io[v as int];
            assert(op@.contains(v));
        }
        lemma_run_stays(init, neighbours, words, goal, k, n as nat);
        if reachable(neighbours, start, goal) {
            let q = choose|q: Seq<u32>| #[trigger] walk_between(neighbours, q, start, goal);
            let i = lemma_frontier(neighbours, words, gw, start, goal, gs@, cf@, io@, op@, h@, pending, q, goal, 0);
            assert(op@.contains(q[i]));
        }
    }
    Err(Error::PathNotFound)
}

} // verus!
