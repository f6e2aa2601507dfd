use vstd::prelude::*;
use vstd::set_lib::lemma_len_subset;
use crate::topology::{RelKind, TopoView, Topology};

verus! {

/// The state of the valley-free export policy along a path.
#[derive(Clone, Copy, PartialEq, Eq, Debug, Structural)]
pub enum Direction {
    /// Still climbing: customer-to-provider, peer and provider-to-customer
    /// edges may all be crossed.
    Up,
    /// Past a peer edge or descending: only provider-to-customer edges remain.
    Down,
}

/// The direction after crossing an edge of kind `k` in direction `d`, or
/// `None` where the policy forbids the crossing.
pub open spec fn next_dir(d: Direction, k: RelKind) -> Option<Direction> {
    match d {
        Direction::Up => match k {
            RelKind::CustomerToProvider => Some(Direction::Up),
            _ => Some(Direction::Down),
        },
        Direction::Down => match k {
            RelKind::ProviderToCustomer => Some(Direction::Down),
            _ => None,
        },
    }
}

pub fn step_direction(d: Direction, k: RelKind) -> (r: Option<Direction>)
    ensures
        r == next_dir(d, k),
{
    match d {
        Direction::Up => match k {
            RelKind::CustomerToProvider => Some(Direction::Up),
            _ => Some(Direction::Down),
        },
        Direction::Down => match k {
            RelKind::ProviderToCustomer => Some(Direction::Down),
            _ => None,
        },
    }
}

impl TopoView {
    /// One legal hop from state `p` to state `s`, into a node not in `blocked`.
    pub open spec fn steps_to(self, blocked: Set<u32>, p: (u32, Direction), s: (u32, Direction)) -> bool {
        &&& !blocked.contains(s.0)
        &&& exists|k: RelKind| #[trigger] self.edges.contains((p.0, s.0, k)) && next_dir(p.1, k) == Some(s.1)
    }

    /// Each consecutive pair of states of `w` is a legal hop.
    pub open spec fn is_walk(self, blocked: Set<u32>, w: Seq<(u32, Direction)>) -> bool {
        forall|i: int| 0 <= i < w.len() - 1 ==> #[trigger] self.steps_to(blocked, w[i], w[i + 1])
    }

    /// `w` is a valley-free walk that starts at `src` climbing.
    pub open spec fn walk_from(self, src: u32, blocked: Set<u32>, w: Seq<(u32, Direction)>) -> bool {
        &&& w.len() > 0
        &&& w[0] == (src, Direction::Up)
        &&& self.is_walk(blocked, w)
    }

    /// `v` lies at the end of some valley-free path from `src` that avoids
    /// `blocked` and on which no AS occurs twice.
    pub open spec fn reaches(self, src: u32, blocked: Set<u32>, v: u32) -> bool {
        exists|w: Seq<(u32, Direction)>| #[trigger] self.walk_from(src, blocked, w) && simple(w) && w.last().0 == v
    }

    /// The ASes other than `src` that `src` reaches by a valley-free path
    /// whose nodes after `src` avoid `blocked`.
    pub open spec fn reach_set(self, src: u32, blocked: Set<u32>) -> Set<u32> {
        Set::new(|v: u32| v != src && self.reaches(src, blocked, v))
    }
}

pub open spec fn seen(up: Seq<bool>, down: Seq<bool>, h: int, d: Direction) -> bool {
    match d {
        Direction::Up => up[h],
        Direction::Down => down[h],
    }
}

/// A handle mask that marks exactly the live nodes whose AS number is in `b`.
pub open spec fn mask_of(t: &Topology, mask: Seq<bool>, b: Set<u32>) -> bool {
    &&& mask.len() == t.slots()
    &&& forall|h: int| #[trigger] t.live(h) ==> (mask[h] <==> b.contains(t.asn_at(h)))
}

/// Where the seen states are closed under legal hops, every state of a
/// walk from `src` is seen at the handle of its AS.
proof fn lemma_closed_complete(
    t: &Topology,
    src: int,
    b: Set<u32>,
    mask: Seq<bool>,
    up: Seq<bool>,
    down: Seq<bool>,
    w: Seq<(u32, Direction)>,
    n: int,
)
    requires
        t.wf(),
        t.live(src),
        mask_of(t, mask, b),
        up.len() == t.slots(),
        down.len() == t.slots(),
        up[src],
        forall|h: int, d: Direction| 0 <= h < t.slots() && #[trigger] seen(up, down, h, d) ==> t.live(h),
        forall|h: int, d: Direction, i: int|
            0 <= h < t.slots() && #[trigger] seen(up, down, h, d) && 0 <= i < t.degree(h) && t.live(
                #[trigger] t.link_at(h, i).to as int,
            ) && !mask[t.link_at(h, i).to as int] && next_dir(d, t.link_at(h, i).kind) is Some
                ==> seen(up, down, t.link_at(h, i).to as int, next_dir(d, t.link_at(h, i).kind)->0),
        t@.walk_from(t.asn_at(src), b, w),
        0 <= n < w.len(),
    ensures
        exists|h: int| 0 <= h < t.slots() && t.live(h) && t.asn_at(h) == w[n].0 && #[trigger] seen(up, down, h, w[n].1),
    decreases n,
{
    if n == 0 {
        assert(seen(up, down, src, w[n].1));
        assert(t.asn_at(src) == w[n].0);
        t.lemma_handle_of(src);
    } else {
        let tv = t@;
        lemma_closed_complete(t, src, b, mask, up, down, w, n - 1);
        let p = w[n - 1];
        let s = w[n];
        assert(tv.steps_to(b, w[n - 1], w[n - 1 + 1]));
        let h = choose|h: int| 0 <= h < t.slots() && t.live(h) && t.asn_at(h) == p.0 && #[trigger] seen(up, down, h, p.1);
        let k = choose|k: RelKind| #[trigger] tv.edges.contains((p.0, s.0, k)) && next_dir(p.1, k) == Some(s.1);
        t.lemma_edges((p.0, s.0, k));
        let (g, i) = choose|g: int, i: int| #[trigger] t.link_is(g, i, p.0, s.0, k);
        t.lemma_handle_of(h);
        assert(g == h);
        let to = t.link_at(h, i).to as int;
        assert(seen(up, down, to, s.1));
        t.lemma_handle_of(to);
        assert(t.live(to) && t.asn_at(to) == w[n].0 && seen(up, down, to, w[n].1));
    }
}

/// From a node absent from the topology no walk leaves.
proof fn lemma_absent_source(t: &Topology, src: u32, b: Set<u32>, w: Seq<(u32, Direction)>)
    requires
        t.wf(),
        !t@.asns.contains(src),
        t@.walk_from(src, b, w),
    ensures
        w.len() == 1,
{
    if w.len() > 1 {
        let tv = t@;
        assert(tv.steps_to(b, w[0int], w[0int + 1]));
        let k = choose|k: RelKind| #[trigger] tv.edges.contains((w[0].0, w[1].0, k)) && next_dir(w[0].1, k) == Some(w[1].1);
        t.lemma_edges((w[0].0, w[1].0, k));
    }
}

/// The number of `true` entries of `s`.
pub open spec fn count_true(s: Seq<bool>) -> nat
    decreases s.len(),
{
    if s.len() == 0 {
        0
    } else {
        count_true(s.drop_last()) + if s.last() {
            1nat
        } else {
            0nat
        }
    }
}

proof fn lemma_count_bound(s: Seq<bool>)
    ensures
        count_true(s) <= s.len(),
    decreases s.len(),
{
    if s.len() > 0 {
        lemma_count_bound(s.drop_last());
    }
}

proof fn lemma_count_none(s: Seq<bool>)
    requires
        forall|i: int| 0 <= i < s.len() ==> !s[i],
    ensures
        count_true(s) == 0,
    decreases s.len(),
{
    if s.len() > 0 {
        lemma_count_none(s.drop_last());
    }
}

proof fn lemma_count_set(s: Seq<bool>, i: int)
    requires
        0 <= i < s.len(),
        !s[i],
    ensures
        count_true(s.update(i, true)) == count_true(s) + 1,
    decreases s.len(),
{
    let u = s.update(i, true);
    if i == s.len() - 1 {
        assert(u.drop_last() =~= s.drop_last());
    } else {
        assert(u.drop_last() =~= s.drop_last().update(i, true));
        lemma_count_set(s.drop_last(), i);
    }
}

/// State `s` ends some valley-free walk from `src` that avoids `b`.
pub open spec fn reaches_state(tv: TopoView, src: u32, b: Set<u32>, s: (u32, Direction)) -> bool {
    exists|w: Seq<(u32, Direction)>| #[trigger] tv.walk_from(src, b, w) && w.last() == s
}

/// Link `i` of `h`, crossed in direction `d`, leads to a seen state where
/// the policy and the mask allow the crossing.
pub open spec fn hop_done(t: &Topology, mask: Seq<bool>, up: Seq<bool>, down: Seq<bool>, h: int, d: Direction, i: int) -> bool {
    let l = t.link_at(h, i);
    (t.live(l.to as int) && !mask[l.to as int] && next_dir(d, l.kind) is Some) ==> seen(
        up,
        down,
        l.to as int,
        next_dir(d, l.kind)->0,
    )
}

pub open spec fn any_seen(up: Seq<bool>, down: Seq<bool>, h: int) -> bool {
    up[h] || down[h]
}

/// Extending a walk by a legal hop gives a walk.
proof fn lemma_walk_push(tv: TopoView, src: u32, b: Set<u32>, w: Seq<(u32, Direction)>, s: (u32, Direction))
    requires
        tv.walk_from(src, b, w),
        tv.steps_to(b, w.last(), s),
    ensures
        tv.walk_from(src, b, w.push(s)),
        reaches_state(tv, src, b, s),
{
    let w2 = w.push(s);
    assert forall|i: int| 0 <= i < w2.len() - 1 implies #[trigger] tv.steps_to(b, w2[i], w2[i + 1]) by {
        if i < w.len() - 1 {
            assert(w2[i] == w[i] && w2[i + 1] == w[i + 1]);
        } else {
            assert(w2[i] == w.last());
        }
    }
    assert(w2.last() == s);
}

/// The ASes other than handle `src`'s that it reaches by valley-free walks
/// into nodes that `mask` leaves open, each once.
pub(crate) fn reach_masked(t: &Topology, src: usize, mask: &Vec<bool>, Ghost(b): Ghost<Set<u32>>) -> (r: Vec<u32>)
    requires
        t.wf(),
        t.live(src as int),
        mask_of(t, mask@, b),
        !b.contains(t.asn_at(src as int)),
    ensures
        r@.no_duplicates(),
        r@.to_set() == t@.reach_set(t.asn_at(src as int), b),
{
    let (_, _, out) = search(t, src, mask, Ghost(b));
    out
}

/// A worklist search over the states `(handle, direction)` from `(src, Up)`:
/// which states are reached, and the ASes other than `src`'s reached in
/// some direction, each once.
fn search(t: &Topology, src: usize, mask: &Vec<bool>, Ghost(b): Ghost<Set<u32>>) -> (r: (Vec<bool>, Vec<bool>, Vec<u32>))
    requires
        t.wf(),
        t.live(src as int),
        mask_of(t, mask@, b),
        !b.contains(t.asn_at(src as int)),
    ensures
        r.0@.len() == t.slots(),
        r.1@.len() == t.slots(),
        forall|h: int, d: Direction| 0 <= h < t.slots() ==> (#[trigger] seen(r.0@, r.1@, h, d) <==> t.live(h)
            && reaches_state(t@, t.asn_at(src as int), b, (t.asn_at(h), d))),
        r.2@.no_duplicates(),
        r.2@.to_set() == t@.reach_set(t.asn_at(src as int), b),
{
    let ghost tv = t@;
    let ghost x = t.asn_at(src as int);
    proof {
        t.lemma_handle_of(src as int);
    }
    let n = t.slot_count();
    let mut up: Vec<bool> = Vec::new();
    let mut down: Vec<bool> = Vec::new();
    let mut j: usize = 0;
    while j < n
        invariant
            0 <= j <= n,
            up@.len() == j,
            down@.len() == j,
            forall|y: int| 0 <= y < j ==> !up@[y] && !down@[y],
        decreases n - j,
    {
        up.push(false);
        down.push(false);
        j = j + 1;
    }
    proof {
        lemma_count_none(up@);
        lemma_count_none(down@);
        lemma_count_set(up@, src as int);
        let w0 = seq![(x, Direction::Up)];
        assert(tv.walk_from(x, b, w0));
        assert(w0.last() == (x, Direction::Up));
    }
    up.set(src, true);
    let mut queue: Vec<(usize, Direction)> = Vec::new();
    queue.push((src, Direction::Up));
    let mut out: Vec<u32> = Vec::new();
    let mut qi: usize = 0;
    assert forall|h: int, d: Direction| 0 <= h < n && #[trigger] seen(up@, down@, h, d) implies exists|j: int|
        0 <= j < queue@.len() && queue@[j] == (h as usize, d) by {
        assert(h == src && d == Direction::Up);
        assert(queue@[0] == (src, Direction::Up));
    }
    while qi < queue.len()
        invariant
            t.wf(),
            t.live(src as int),
            mask_of(t, mask@, b),
            !b.contains(x),
            x == t.asn_at(src as int),
            tv == t@,
            n == t.slots(),
            up@.len() == n,
            down@.len() == n,
            src < n,
            up@[src as int],
            0 <= qi <= queue@.len(),
            queue@.len() == count_true(up@) + count_true(down@),
            forall|j: int| 0 <= j < queue@.len() ==> (#[trigger] queue@[j]).0 < n && seen(up@, down@, queue@[j].0 as int, queue@[j].1),
            forall|h: int, d: Direction| 0 <= h < n && #[trigger] seen(up@, down@, h, d) ==> exists|j: int|
                0 <= j < queue@.len() && queue@[j] == (h as usize, d),
            forall|h: int, d: Direction| 0 <= h < n && #[trigger] seen(up@, down@, h, d) ==> t.live(h)
                && reaches_state(tv, x, b, (t.asn_at(h), d)),
            forall|j: int, i: int| 0 <= j < qi && 0 <= i < t.degree(queue@[j].0 as int) ==> #[trigger] hop_done(
                t, mask@, up@, down@, queue@[j].0 as int, queue@[j].1, i),
            out@.no_duplicates(),
            forall|y: u32| #[trigger] out@.contains(y) <==> exists|h: int| 0 <= h < n && #[trigger] any_seen(up@, down@, h) && t.asn_at(h) == y && h != src,
        decreases 2 * n - qi,
    {
        proof {
            lemma_count_bound(up@);
            lemma_count_bound(down@);
        }
        let (hq, dq) = queue[qi];
        let deg = t.degree_of(hq);
        let mut i: usize = 0;
        while i < deg
            invariant
                t.wf(),
                t.live(src as int),
                mask_of(t, mask@, b),
                !b.contains(x),
                x == t.asn_at(src as int),
                tv == t@,
                n == t.slots(),
                up@.len() == n,
                down@.len() == n,
                src < n,
                up@[src as int],
                0 <= qi < queue@.len(),
                queue@[qi as int] == (hq, dq),
                hq < n,
                deg == t.degree(hq as int),
                0 <= i <= deg,
                queue@.len() == count_true(up@) + count_true(down@),
                forall|j: int| 0 <= j < queue@.len() ==> (#[trigger] queue@[j]).0 < n && seen(up@, down@, queue@[j].0 as int, queue@[j].1),
                forall|h: int, d: Direction| 0 <= h < n && #[trigger] seen(up@, down@, h, d) ==> exists|j: int|
                    0 <= j < queue@.len() && queue@[j] == (h as usize, d),
                forall|h: int, d: Direction| 0 <= h < n && #[trigger] seen(up@, down@, h, d) ==> t.live(h)
                    && reaches_state(tv, x, b, (t.asn_at(h), d)),
                forall|j: int, i2: int| 0 <= j < qi && 0 <= i2 < t.degree(queue@[j].0 as int) ==> #[trigger] hop_done(
                    t, mask@, up@, down@, queue@[j].0 as int, queue@[j].1, i2),
                forall|i2: int| 0 <= i2 < i ==> #[trigger] hop_done(t, mask@, up@, down@, hq as int, dq, i2),
                out@.no_duplicates(),
                forall|y: u32| #[trigger] out@.contains(y) <==> exists|h: int| 0 <= h < n && #[trigger] any_seen(up@, down@, h) && t.asn_at(h) == y && h != src,
            decreases deg - i,
        {
            let l = t.link(hq, i);
            let to = l.to;
            if t.is_live(to) && !mask[to] {
                match step_direction(dq, l.kind) {
                    Some(d2) => {
                        let already = match d2 {
                            Direction::Up => up[to],
                            Direction::Down => down[to],
                        };
                        if !already {
                            let fresh = !up[to] && !down[to];
                            let ghost up0 = up@;
                            let ghost down0 = down@;
                            let ghost out0 = out@;
                            let ghost q0 = queue@;
                            let ghost s2 = (t.asn_at(to as int), d2);
                            proof {
                                assert(seen(up@, down@, hq as int, dq));
                                let w = choose|w: Seq<(u32, Direction)>| #[trigger] tv.walk_from(x, b, w) && w.last() == (t.asn_at(hq as int), dq);
                                assert(t.link_is(hq as int, i as int, t.asn_at(hq as int), s2.0, l.kind));
                                t.lemma_link_edge(hq as int, i as int, t.asn_at(hq as int), s2.0, l.kind);
                                assert(tv.edges.contains((w.last().0, s2.0, l.kind)));
                                assert(tv.steps_to(b, w.last(), s2));
                                lemma_walk_push(tv, x, b, w, s2);
                            }
                            match d2 {
                                Direction::Up => {
                                    proof { lemma_count_set(up@, to as int); }
                                    up.set(to, true);
                                },
                                Direction::Down => {
                                    proof { lemma_count_set(down@, to as int); }
                                    down.set(to, true);
                                },
                            }
                            queue.push((to, d2));
                            if fresh && to != src {
                                let y = t.asn_of(to);
                                proof {
                                    if out@.contains(y) {
                                        let h = choose|h: int| 0 <= h < n && #[trigger] any_seen(up0, down0, h) && t.asn_at(h) == y && h != src;
                                        let d = if up0[h] { Direction::Up } else { Direction::Down };
                                        assert(seen(up0, down0, h, d));
                                        t.lemma_handle_of(h);
                                    }
                                }
                                out.push(y);
                            }
                            proof {
                                assert forall|h: int, d: Direction| 0 <= h < n && #[trigger] seen(up0, down0, h, d) implies seen(up@, down@, h, d) by {}
                                assert forall|j: int| 0 <= j < queue@.len() implies (#[trigger] queue@[j]).0 < n && seen(up@, down@, queue@[j].0 as int, queue@[j].1) by {
                                    if j < q0.len() {
                                        assert(q0[j] == queue@[j]);
                                        assert(seen(up0, down0, q0[j].0 as int, q0[j].1));
                                    }
                                }
                                assert forall|h: int, d: Direction| 0 <= h < n && #[trigger] seen(up@, down@, h, d) implies exists|j: int|
                                    0 <= j < queue@.len() && queue@[j] == (h as usize, d) by {
                                    if h == to && d == d2 {
                                        assert(queue@[q0.len() as int] == (h as usize, d));
                                    } else {
                                        assert(seen(up0, down0, h, d));
                                        let j = choose|j: int| 0 <= j < q0.len() && q0[j] == (h as usize, d);
                                        assert(queue@[j] == q0[j]);
                                    }
                                }
                                assert forall|h: int, d: Direction| 0 <= h < n && #[trigger] seen(up@, down@, h, d) implies t.live(h)
                                    && reaches_state(tv, x, b, (t.asn_at(h), d)) by {
                                    if !(h == to && d == d2) {
                                        assert(seen(up0, down0, h, d));
                                    }
                                }
                                assert forall|j: int, i2: int| 0 <= j < qi && 0 <= i2 < t.degree(queue@[j].0 as int) implies #[trigger] hop_done(
                                    t, mask@, up@, down@, queue@[j].0 as int, queue@[j].1, i2) by {
                                    assert(queue@[j] == q0[j]);
                                    assert(hop_done(t, mask@, up0, down0, q0[j].0 as int, q0[j].1, i2));
                                    let l2 = t.link_at(q0[j].0 as int, i2);
                                    t.lemma_link_bound(q0[j].0 as int, i2);
                                    if next_dir(q0[j].1, l2.kind) is Some {
                                        if seen(up0, down0, l2.to as int, next_dir(q0[j].1, l2.kind)->0) {
                                            assert(seen(up@, down@, l2.to as int, next_dir(q0[j].1, l2.kind)->0));
                                        }
                                    }
                                }
                                assert forall|i2: int| 0 <= i2 < i + 1 implies #[trigger] hop_done(t, mask@, up@, down@, hq as int, dq, i2) by {
                                    if i2 < i {
                                        assert(hop_done(t, mask@, up0, down0, hq as int, dq, i2));
                                        let l2 = t.link_at(hq as int, i2);
                                        t.lemma_link_bound(hq as int, i2);
                                        if next_dir(dq, l2.kind) is Some {
                                            if seen(up0, down0, l2.to as int, next_dir(dq, l2.kind)->0) {
                                                assert(seen(up@, down@, l2.to as int, next_dir(dq, l2.kind)->0));
                                            }
                                        }
                                    } else {
                                        assert(seen(up@, down@, to as int, d2));
                                    }
                                }
                                assert forall|y: u32| #[trigger] out@.contains(y) <==> exists|h: int| 0 <= h < n && #[trigger] any_seen(up@, down@, h) && t.asn_at(h) == y && h != src by {
                                    if out@.contains(y) {
                                        if out0.contains(y) {
                                            let h = choose|h: int| 0 <= h < n && #[trigger] any_seen(up0, down0, h) && t.asn_at(h) == y && h != src;
                                            assert(any_seen(up@, down@, h));
                                        } else {
                                            assert(any_seen(up@, down@, to as int));
                                        }
                                    }
                                    if exists|h: int| 0 <= h < n && #[trigger] any_seen(up@, down@, h) && t.asn_at(h) == y && h != src {
                                        let h = choose|h: int| 0 <= h < n && #[trigger] any_seen(up@, down@, h) && t.asn_at(h) == y && h != src;
                                        if h != to || !fresh {
                                            if h == to {
                                                assert(any_seen(up0, down0, h));
                                            } else {
                                                assert(any_seen(up0, down0, h));
                                            }
                                            assert(out0.contains(y));
                                            let k = choose|k: int| 0 <= k < out0.len() && out0[k] == y;
                                            assert(out@[k] == y);
                                        } else {
                                            assert(out@.last() == y);
                                        }
                                    }
                                }
                            }
                        } else {
                            assert(hop_done(t, mask@, up@, down@, hq as int, dq, i as int));
                        }
                    },
                    None => {
                        assert(hop_done(t, mask@, up@, down@, hq as int, dq, i as int));
                    },
                }
            } else {
                assert(hop_done(t, mask@, up@, down@, hq as int, dq, i as int));
            }
            i = i + 1;
        }
        qi = qi + 1;
        assert forall|j: int, i2: int| 0 <= j < qi && 0 <= i2 < t.degree(queue@[j].0 as int) implies #[trigger] hop_done(
            t, mask@, up@, down@, queue@[j].0 as int, queue@[j].1, i2) by {
            if j == qi - 1 {
                assert(hop_done(t, mask@, up@, down@, hq as int, dq, i2));
            }
        }
    }
    proof {
        assert forall|h: int, d: Direction, i: int|
            0 <= h < t.slots() && #[trigger] seen(up@, down@, h, d) && 0 <= i < t.degree(h) && t.live(
                #[trigger] t.link_at(h, i).to as int,
            ) && !mask@[t.link_at(h, i).to as int] && next_dir(d, t.link_at(h, i).kind) is Some
                implies seen(up@, down@, t.link_at(h, i).to as int, next_dir(d, t.link_at(h, i).kind)->0) by {
            let j = choose|j: int| 0 <= j < queue@.len() && queue@[j] == (h as usize, d);
            assert(hop_done(t, mask@, up@, down@, queue@[j].0 as int, queue@[j].1, i));
        }
        assert forall|h: int, d: Direction| 0 <= h < t.slots() && #[trigger] seen(up@, down@, h, d) implies t.live(h) by {}
        assert forall|y: u32| out@.to_set().contains(y) <==> tv.reach_set(x, b).contains(y) by {
            if out@.contains(y) {
                let h = choose|h: int| 0 <= h < n && #[trigger] any_seen(up@, down@, h) && t.asn_at(h) == y && h != src;
                let d = if up@[h] { Direction::Up } else { Direction::Down };
                assert(seen(up@, down@, h, d));
                t.lemma_handle_of(h);
                let w = choose|w: Seq<(u32, Direction)>| #[trigger] tv.walk_from(x, b, w) && w.last() == (t.asn_at(h), d);
                lemma_shortcut(tv, x, b, w);
                assert(tv.reaches(x, b, y));
            }
            if tv.reach_set(x, b).contains(y) {
                let w = choose|w: Seq<(u32, Direction)>| #[trigger] tv.walk_from(x, b, w) && simple(w) && w.last().0 == y;
                lemma_closed_complete(t, src as int, b, mask@, up@, down@, w, w.len() - 1);
                let h = choose|h: int| 0 <= h < t.slots() && t.live(h) && t.asn_at(h) == w[w.len() - 1].0 && #[trigger] seen(up@, down@, h, w[w.len() - 1].1);
                assert(any_seen(up@, down@, h));
                assert(h != src);
            }
        }
        assert(out@.to_set() =~= tv.reach_set(x, b));
        assert forall|h: int, d: Direction| 0 <= h < t.slots() && t.live(h) && reaches_state(tv, x, b, (t.asn_at(h), d))
            implies #[trigger] seen(up@, down@, h, d) by {
            let w = choose|w: Seq<(u32, Direction)>| #[trigger] tv.walk_from(x, b, w) && w.last() == (t.asn_at(h), d);
            lemma_closed_complete(t, src as int, b, mask@, up@, down@, w, w.len() - 1);
            let g = choose|g: int| 0 <= g < t.slots() && t.live(g) && t.asn_at(g) == w[w.len() - 1].0 && #[trigger] seen(up@, down@, g, w[w.len() - 1].1);
            t.lemma_handle_of(h);
        }
    }
    (up, down, out)
}

/// A mask over every handle with nothing marked.
pub(crate) fn open_mask(t: &Topology) -> (mask: Vec<bool>)
    requires
        t.wf(),
    ensures
        mask_of(t, mask@, Set::empty()),
{
    let n = t.slot_count();
    let mut mask: Vec<bool> = Vec::new();
    let mut j: usize = 0;
    while j < n
        invariant
            0 <= j <= n,
            n == t.slots(),
            mask@.len() == j,
            forall|y: int| 0 <= y < j ==> !mask@[y],
        decreases n - j,
    {
        mask.push(false);
        j = j + 1;
    }
    assert forall|h: int| #[trigger] t.live(h) implies (mask@[h] <==> Set::<u32>::empty().contains(t.asn_at(h))) by {
        t.lemma_handle_of(h);
    }
    mask
}

/// Marks the live nodes of `list`, leaving `src` open.
pub(crate) fn exclude(t: &Topology, mask: &mut Vec<bool>, list: &Vec<u32>, src: u32, Ghost(b): Ghost<Set<u32>>)
    requires
        t.wf(),
        mask_of(t, old(mask)@, b),
    ensures
        mask_of(t, final(mask)@, b.union(list@.to_set().remove(src))),
{
    let mut k: usize = 0;
    while k < list.len()
        invariant
            t.wf(),
            0 <= k <= list@.len(),
            mask@.len() == t.slots(),
            forall|h: int| #[trigger] t.live(h) ==> (mask@[h] <==> (b.contains(t.asn_at(h)) || (t.asn_at(h) != src
                && exists|j: int| 0 <= j < k && list@[j] == t.asn_at(h)))),
        decreases list@.len() - k,
    {
        let y = list[k];
        let ghost m0 = mask@;
        let hopt = if y != src {
            t.index_of(y)
        } else {
            None
        };
        match hopt {
            Some(hy) => {
                proof {
                    t.lemma_handle_of(hy as int);
                }
                mask.set(hy, true);
            },
            None => {},
        }
        assert forall|h: int| #[trigger] t.live(h) implies (mask@[h] <==> (b.contains(t.asn_at(h)) || (t.asn_at(h) != src
            && exists|j: int| 0 <= j < k + 1 && list@[j] == t.asn_at(h)))) by {
            t.lemma_handle_of(h);
            assert(m0[h] <==> (b.contains(t.asn_at(h)) || (t.asn_at(h) != src
                && exists|j: int| 0 <= j < k && list@[j] == t.asn_at(h))));
            if t.asn_at(h) == y && y != src {
                assert(list@[k as int] == y);
                assert(hopt is Some);
                assert(hopt->0 == h);
            } else {
                if hopt is Some {
                    assert(hopt->0 != h);
                }
                if exists|j: int| 0 <= j < k + 1 && list@[j] == t.asn_at(h) {
                    let j = choose|j: int| 0 <= j < k + 1 && list@[j] == t.asn_at(h);
                    if t.asn_at(h) != src {
                        assert(j != k);
                    }
                }
            }
        }
        k = k + 1;
    }
    assert forall|h: int| #[trigger] t.live(h) implies (mask@[h] <==> b.union(list@.to_set().remove(src)).contains(t.asn_at(h))) by {
        if list@.contains(t.asn_at(h)) {
            let j = choose|j: int| 0 <= j < list@.len() && list@[j] == t.asn_at(h);
        }
    }
}

impl Topology {
    /// The ASes other than `src` that `src` reaches by a valley-free path
    /// whose nodes after `src` avoid `excluded` (`src` itself is never
    /// excluded), each once. Nothing is reached from an absent `src`.
    pub fn reachable_excluding(&self, src: u32, excluded: &Vec<u32>) -> (r: Vec<u32>)
        requires
            self.wf(),
        ensures
            r@.no_duplicates(),
            r@.to_set() == self@.reach_set(src, excluded@.to_set().remove(src)),
    {
        let ghost b = excluded@.to_set().remove(src);
        match self.index_of(src) {
            None => {
                proof {
                    lemma_absent_reaches_nothing(self, src, b);
                }
                let r: Vec<u32> = Vec::new();
                assert(r@.to_set() =~= self@.reach_set(src, b));
                r
            },
            Some(h) => {
                let mut mask = open_mask(self);
                exclude(self, &mut mask, excluded, src, Ghost(Set::empty()));
                assert(Set::<u32>::empty().union(b) =~= b);
                reach_masked(self, h, &mask, Ghost(b))
            },
        }
    }

    /// The ASes other than `src` that `src` reaches by a valley-free path, each once.
    pub fn valley_free_reach(&self, src: u32) -> (r: Vec<u32>)
        requires
            self.wf(),
        ensures
            r@.no_duplicates(),
            r@.to_set() == self@.reach_set(src, Set::empty()),
    {
        let none: Vec<u32> = Vec::new();
        let r = self.reachable_excluding(src, &none);
        assert(none@.to_set().remove(src) =~= Set::<u32>::empty());
        r
    }
}

/// Excluding more nodes never lets a source reach more ASes.
pub proof fn lemma_reach_antitone(tv: TopoView, src: u32, b1: Set<u32>, b2: Set<u32>)
    requires
        b1.subset_of(b2),
    ensures
        tv.reach_set(src, b2).subset_of(tv.reach_set(src, b1)),
{
    assert forall|v: u32| tv.reach_set(src, b2).contains(v) implies tv.reach_set(src, b1).contains(v) by {
        let w = choose|w: Seq<(u32, Direction)>| #[trigger] tv.walk_from(src, b2, w) && simple(w) && w.last().0 == v;
        assert forall|i: int| 0 <= i < w.len() - 1 implies #[trigger] tv.steps_to(b1, w[i], w[i + 1]) by {
            assert(tv.steps_to(b2, w[i], w[i + 1]));
        }
        assert(tv.walk_from(src, b1, w));
    }
}

/// The ASes that a source reaches are ASes of the topology other than the
/// source, so there are at most one fewer of them than nodes.
pub proof fn lemma_reach_bounded(t: &Topology, src: u32, b: Set<u32>)
    requires
        t.wf(),
    ensures
        t@.reach_set(src, b).subset_of(t@.asns.remove(src)),
        t@.reach_set(src, b).finite(),
        t@.reach_set(src, b).len() <= t@.asns.remove(src).len(),
        t@.asns.contains(src) ==> t@.reach_set(src, b).len() < t@.asns.len(),
{
    let tv = t@;
    assert forall|v: u32| tv.reach_set(src, b).contains(v) implies tv.asns.remove(src).contains(v) by {
        let w = choose|w: Seq<(u32, Direction)>| #[trigger] tv.walk_from(src, b, w) && simple(w) && w.last().0 == v;
        let m = w.len() - 2;
        assert(tv.steps_to(b, w[m], w[m + 1]));
        let k = choose|k: RelKind| #[trigger] tv.edges.contains((w[m].0, w[m + 1].0, k)) && next_dir(w[m].1, k) == Some(w[m + 1].1);
        t.lemma_edges((w[m].0, w[m + 1].0, k));
    }
    t.lemma_asns_finite();
    lemma_len_subset(tv.reach_set(src, b), tv.asns.remove(src));
}

/// Where one exclusion set holds another, the source reaches no more ASes
/// under the larger one.
pub proof fn lemma_stripping_monotone(t: &Topology, src: u32, b1: Set<u32>, b2: Set<u32>)
    requires
        t.wf(),
        b1.subset_of(b2),
    ensures
        t@.reach_set(src, b2).len() <= t@.reach_set(src, b1).len(),
{
    lemma_reach_antitone(t@, src, b1, b2);
    lemma_reach_bounded(t, src, b1);
    lemma_len_subset(t@.reach_set(src, b2), t@.reach_set(src, b1));
}

/// From a node absent from the topology nothing is reached.
pub proof fn lemma_absent_reaches_nothing(t: &Topology, src: u32, b: Set<u32>)
    requires
        t.wf(),
        !t@.asns.contains(src),
    ensures
        t@.reach_set(src, b) == Set::<u32>::empty(),
{
    assert forall|y: u32| !t@.reach_set(src, b).contains(y) by {
        if t@.reach_set(src, b).contains(y) {
            let w = choose|w: Seq<(u32, Direction)>| #[trigger] t@.walk_from(src, b, w) && simple(w) && w.last().0 == y;
            lemma_absent_source(t, src, b, w);
        }
    }
    assert(t@.reach_set(src, b) =~= Set::<u32>::empty());
}

impl TopoView {
    /// Edge `e` is crossed by some valley-free walk from `src`: its tail is
    /// reached in a direction from which the policy lets it be crossed. (A
    /// walk may pass an AS more than once, so an edge back into an AS already
    /// on the way counts too.)
    pub open spec fn usable(self, src: u32, e: (u32, u32, RelKind)) -> bool {
        &&& self.edges.contains(e)
        &&& exists|d: Direction| #[trigger] reaches_state(self, src, Set::empty(), (e.0, d)) && next_dir(d, e.2) is Some
    }

    /// The paths graph of `src`: the usable edges, with `src` and their ends
    /// as nodes.
    pub open spec fn paths_view(self, src: u32) -> TopoView {
        TopoView {
            asns: Set::new(|a: u32| a == src || exists|e: (u32, u32, RelKind)| #[trigger] self.usable(src, e) && (e.0 == a || e.1 == a)),
            edges: Set::new(|e: (u32, u32, RelKind)| self.usable(src, e)),
        }
    }
}

/// Link `j` of `h` is crossed by some walk that the tables `up` / `down` record.
pub open spec fn crossed(t: &Topology, up: Seq<bool>, down: Seq<bool>, h: int, j: int, e: (u32, u32, RelKind)) -> bool {
    &&& t.link_is(h, j, e.0, e.1, e.2)
    &&& ((up[h] && next_dir(Direction::Up, e.2) is Some) || (down[h] && next_dir(Direction::Down, e.2) is Some))
}

pub open spec fn ends_of(edges: Set<(u32, u32, RelKind)>, src: u32) -> Set<u32> {
    Set::new(|a: u32| a == src || exists|e: (u32, u32, RelKind)| #[trigger] edges.contains(e) && (e.0 == a || e.1 == a))
}

impl Topology {
    /// The paths graph of `src`: a new topology of exactly the edges that
    /// some valley-free walk from `src` crosses. Its nodes are `src` and the
    /// ASes that `src` reaches (see `lemma_paths_view_nodes`). It is empty
    /// where `src` is absent.
    pub fn valley_free_of(&self, src: u32) -> (g: Topology)
        requires
            self.wf(),
            self@.asns.len() + 3 < usize::MAX,
        ensures
            g.wf(),
            self@.asns.contains(src) ==> g@ == self@.paths_view(src),
            !self@.asns.contains(src) ==> g@.asns.is_empty() && g@.edges.is_empty(),
    {
        let ghost tv = self@;
        let ghost e0 = Set::<u32>::empty();
        let mut g = Topology::new();
        let hs = match self.index_of(src) {
            None => return g,
            Some(hs) => hs,
        };
        let mask = open_mask(self);
        let (up, down, _) = search(self, hs, &mask, Ghost(e0));
        g.add_node(src);
        proof {
            self.lemma_asns_finite();
            assert(ends_of(g@.edges, src) =~= g@.asns);
        }
        let n = self.slot_count();
        let mut h: usize = 0;
        while h < n
            invariant
                self.wf(),
                tv == self@,
                tv.asns.contains(src),
                tv.asns.finite(),
                tv.asns.len() + 3 < usize::MAX,
                n == self.slots(),
                up@.len() == n,
                down@.len() == n,
                forall|h2: int, d: Direction| 0 <= h2 < n ==> (#[trigger] seen(up@, down@, h2, d) <==> self.live(h2)
                    && reaches_state(tv, src, e0, (self.asn_at(h2), d))),
                0 <= h <= n,
                g.wf(),
                g.slots() == g@.asns.len(),
                g@.asns.subset_of(tv.asns),
                g@.asns == ends_of(g@.edges, src),
                forall|e: (u32, u32, RelKind)| #[trigger] g@.edges.contains(e) <==> exists|h2: int, j: int|
                    0 <= h2 < h && #[trigger] crossed(self, up@, down@, h2, j, e),
            decreases n - h,
        {
            let deg = self.degree_of(h);
            let mut i: usize = 0;
            while i < deg
                invariant
                    self.wf(),
                    tv == self@,
                    tv.asns.contains(src),
                    tv.asns.finite(),
                    tv.asns.len() + 3 < usize::MAX,
                    n == self.slots(),
                    up@.len() == n,
                    down@.len() == n,
                    0 <= h < n,
                    deg == self.degree(h as int),
                    0 <= i <= deg,
                    g.wf(),
                    g.slots() == g@.asns.len(),
                    g@.asns.subset_of(tv.asns),
                    g@.asns == ends_of(g@.edges, src),
                    forall|e: (u32, u32, RelKind)| #[trigger] g@.edges.contains(e) <==> exists|h2: int, j: int|
                        (0 <= h2 < h || (h2 == h && 0 <= j < i)) && #[trigger] crossed(self, up@, down@, h2, j, e),
                decreases deg - i,
            {
                let l = self.link(h, i);
                let ok = self.is_live(h) && self.is_live(l.to) && ((up[h] && step_direction(Direction::Up, l.kind).is_some()) || (
                down[h] && step_direction(Direction::Down, l.kind).is_some()));
                let ghost e = (self.asn_at(h as int), self.asn_at(l.to as int), l.kind);
                let ghost before = g@;
                if ok {
                    let a = self.asn_of(h);
                    let b = self.asn_of(l.to);
                    proof {
                        self.lemma_handle_of(h as int);
                        self.lemma_handle_of(l.to as int);
                        vstd::set_lib::lemma_len_subset(g@.asns, tv.asns);
                    }
                    g.add_edge(a, b, l.kind);
                    proof {
                        assert(crossed(self, up@, down@, h as int, i as int, e));
                        assert(g@.asns =~= ends_of(g@.edges, src)) by {
                            assert forall|x: u32| ends_of(g@.edges, src).contains(x) implies g@.asns.contains(x) by {
                                if x != src {
                                    let f = choose|f: (u32, u32, RelKind)| #[trigger] g@.edges.contains(f) && (f.0 == x || f.1 == x);
                                    if f != e {
                                        assert(before.edges.contains(f));
                                        assert(ends_of(before.edges, src).contains(x));
                                    }
                                }
                            }
                            assert forall|x: u32| g@.asns.contains(x) implies ends_of(g@.edges, src).contains(x) by {
                                if x == a || x == b {
                                    assert(g@.edges.contains(e));
                                } else {
                                    assert(ends_of(before.edges, src).contains(x));
                                    if x != src {
                                        let f = choose|f: (u32, u32, RelKind)| #[trigger] before.edges.contains(f) && (f.0 == x || f.1 == x);
                                        assert(g@.edges.contains(f));
                                    }
                                }
                            }
                        }
                        assert forall|f: (u32, u32, RelKind)| #[trigger] g@.edges.contains(f) <==> exists|h2: int, j: int|
                            (0 <= h2 < h || (h2 == h && 0 <= j < i + 1)) && #[trigger] crossed(self, up@, down@, h2, j, f) by {
                            if exists|h2: int, j: int| (0 <= h2 < h || (h2 == h && 0 <= j < i + 1)) && #[trigger] crossed(self, up@, down@, h2, j, f) {
                                let (h2, j) = choose|h2: int, j: int| (0 <= h2 < h || (h2 == h && 0 <= j < i + 1)) && #[trigger] crossed(self, up@, down@, h2, j, f);
                                if !(h2 == h && j == i) {
                                    assert(before.edges.contains(f));
                                }
                            }
                        }
                    }
                } else {
                    proof {
                        assert forall|f: (u32, u32, RelKind)| #[trigger] g@.edges.contains(f) <==> exists|h2: int, j: int|
                            (0 <= h2 < h || (h2 == h && 0 <= j < i + 1)) && #[trigger] crossed(self, up@, down@, h2, j, f) by {
                            if exists|h2: int, j: int| (0 <= h2 < h || (h2 == h && 0 <= j < i + 1)) && #[trigger] crossed(self, up@, down@, h2, j, f) {
                                let (h2, j) = choose|h2: int, j: int| (0 <= h2 < h || (h2 == h && 0 <= j < i + 1)) && #[trigger] crossed(self, up@, down@, h2, j, f);
                                if h2 == h && j == i {
                                    assert(false);
                                }
                            }
                        }
                    }
                }
                i = i + 1;
            }
            h = h + 1;
        }
        proof {
            assert forall|f: (u32, u32, RelKind)| g@.edges.contains(f) <==> tv.usable(src, f) by {
                if g@.edges.contains(f) {
                    let (h2, j) = choose|h2: int, j: int| 0 <= h2 < n && #[trigger] crossed(self, up@, down@, h2, j, f);
                    self.lemma_link_edge(h2, j, f.0, f.1, f.2);
                    if up@[h2] && next_dir(Direction::Up, f.2) is Some {
                        assert(seen(up@, down@, h2, Direction::Up));
                        assert(reaches_state(tv, src, e0, (f.0, Direction::Up)));
                    } else {
                        assert(seen(up@, down@, h2, Direction::Down));
                        assert(reaches_state(tv, src, e0, (f.0, Direction::Down)));
                    }
                }
                if tv.usable(src, f) {
                    let d = choose|d: Direction| #[trigger] reaches_state(tv, src, e0, (f.0, d)) && next_dir(d, f.2) is Some;
                    self.lemma_edges(f);
                    let (h2, j) = choose|h2: int, j: int| #[trigger] self.link_is(h2, j, f.0, f.1, f.2);
                    self.lemma_handle_of(h2);
                    assert(seen(up@, down@, h2, d));
                    assert(crossed(self, up@, down@, h2, j, f));
                }
            }
            assert(g@.edges =~= tv.paths_view(src).edges);
            assert forall|x: u32| g@.asns.contains(x) <==> tv.paths_view(src).asns.contains(x) by {
                if x != src && g@.asns.contains(x) {
                    let f = choose|f: (u32, u32, RelKind)| #[trigger] g@.edges.contains(f) && (f.0 == x || f.1 == x);
                    assert(tv.usable(src, f));
                }
                if x != src && tv.paths_view(src).asns.contains(x) {
                    let f = choose|f: (u32, u32, RelKind)| #[trigger] tv.usable(src, f) && (f.0 == x || f.1 == x);
                    assert(g@.edges.contains(f));
                }
            }
            assert(g@.asns =~= tv.paths_view(src).asns);
        }
        g
    }
}

/// No AS occurs twice on `w`.
pub open spec fn simple(w: Seq<(u32, Direction)>) -> bool {
    forall|i: int, j: int| 0 <= i < j < w.len() ==> (#[trigger] w[i]).0 != (#[trigger] w[j]).0
}

/// Along a walk, once descending, always descending.
proof fn lemma_down_stays(tv: TopoView, b: Set<u32>, w: Seq<(u32, Direction)>, i: int, j: int)
    requires
        tv.is_walk(b, w),
        0 <= i <= j < w.len(),
        w[i].1 == Direction::Down,
    ensures
        w[j].1 == Direction::Down,
    decreases j - i,
{
    if i < j {
        lemma_down_stays(tv, b, w, i, j - 1);
        assert(tv.steps_to(b, w[j - 1], w[j - 1 + 1]));
    }
}

/// Every valley-free walk from `src` can be shortened to one on which no AS
/// occurs twice and which ends at the same AS.
pub proof fn lemma_shortcut(tv: TopoView, src: u32, b: Set<u32>, w: Seq<(u32, Direction)>)
    requires
        tv.walk_from(src, b, w),
    ensures
        exists|p: Seq<(u32, Direction)>| #[trigger] tv.walk_from(src, b, p) && simple(p) && p.last().0 == w.last().0,
    decreases w.len(),
{
    if simple(w) {
        assert(tv.walk_from(src, b, w) && simple(w));
    } else {
        let (i, j) = choose|i: int, j: int| 0 <= i < j < w.len() && (#[trigger] w[i]).0 == (#[trigger] w[j]).0;
        if w[i].1 == Direction::Down {
            lemma_down_stays(tv, b, w, i, j);
        }
        let p = w.take(i + 1) + w.skip(j + 1);
        assert forall|k: int| 0 <= k < p.len() - 1 implies #[trigger] tv.steps_to(b, p[k], p[k + 1]) by {
            if k < i {
                assert(p[k] == w[k] && p[k + 1] == w[k + 1]);
                assert(tv.steps_to(b, w[k], w[k + 1]));
            } else if k == i {
                assert(p[k] == w[i] && p[k + 1] == w[j + 1]);
                assert(tv.steps_to(b, w[j], w[j + 1]));
                let kd = choose|kd: RelKind| #[trigger] tv.edges.contains((w[j].0, w[j + 1].0, kd)) && next_dir(w[j].1, kd) == Some(w[j + 1].1);
                assert(tv.edges.contains((w[i].0, w[j + 1].0, kd)));
            } else {
                let m = k - i + j;
                assert(p[k] == w[m] && p[k + 1] == w[m + 1]);
                assert(tv.steps_to(b, w[m], w[m + 1]));
            }
        }
        assert(p[0] == w[0]);
        assert(tv.walk_from(src, b, p));
        if j == w.len() - 1 {
            assert(p.last() == w[i]);
        } else {
            assert(p.last() == w.last());
        }
        lemma_shortcut(tv, src, b, p);
    }
}

/// A prefix of a walk from `src` is a walk from `src`.
proof fn lemma_walk_prefix(tv: TopoView, src: u32, b: Set<u32>, w: Seq<(u32, Direction)>, m: int)
    requires
        tv.walk_from(src, b, w),
        1 <= m <= w.len(),
    ensures
        tv.walk_from(src, b, w.take(m)),
{
    let p = w.take(m);
    assert forall|k: int| 0 <= k < p.len() - 1 implies #[trigger] tv.steps_to(b, p[k], p[k + 1]) by {
        assert(p[k] == w[k] && p[k + 1] == w[k + 1]);
        assert(tv.steps_to(b, w[k], w[k + 1]));
    }
}

/// The nodes of the paths graph of `src` are `src` and the ASes that `src`
/// reaches by valley-free paths: counting either gives the same number.
pub proof fn lemma_paths_view_nodes(tv: TopoView, src: u32)
    ensures
        tv.paths_view(src).asns == tv.reach_set(src, Set::empty()).insert(src),
{
    let e0 = Set::<u32>::empty();
    assert forall|a: u32| tv.paths_view(src).asns.contains(a) <==> tv.reach_set(src, e0).insert(src).contains(a) by {
        if a != src && tv.paths_view(src).asns.contains(a) {
            let e = choose|e: (u32, u32, RelKind)| #[trigger] tv.usable(src, e) && (e.0 == a || e.1 == a);
            let d = choose|d: Direction| #[trigger] reaches_state(tv, src, e0, (e.0, d)) && next_dir(d, e.2) is Some;
            let w = choose|w: Seq<(u32, Direction)>| #[trigger] tv.walk_from(src, e0, w) && w.last() == (e.0, d);
            if e.0 == a {
                lemma_shortcut(tv, src, e0, w);
            } else {
                let s2 = (e.1, next_dir(d, e.2)->0);
                assert(tv.edges.contains((w.last().0, s2.0, e.2)));
                assert(tv.steps_to(e0, w.last(), s2));
                lemma_walk_push(tv, src, e0, w, s2);
                assert(w.push(s2).last() == s2);
                lemma_shortcut(tv, src, e0, w.push(s2));
            }
        }
        if a != src && tv.reach_set(src, e0).contains(a) {
            let w = choose|w: Seq<(u32, Direction)>| #[trigger] tv.walk_from(src, e0, w) && simple(w) && w.last().0 == a;
            let m = w.len() - 2;
            assert(tv.steps_to(e0, w[m], w[m + 1]));
            let k = choose|k: RelKind| #[trigger] tv.edges.contains((w[m].0, w[m + 1].0, k)) && next_dir(w[m].1, k) == Some(w[m + 1].1);
            lemma_walk_prefix(tv, src, e0, w, m + 1);
            assert(w.take(m + 1).last() == w[m]);
            assert(reaches_state(tv, src, e0, (w[m].0, w[m].1)));
            let e = (w[m].0, a, k);
            assert(tv.usable(src, e));
        }
    }
    assert(tv.paths_view(src).asns =~= tv.reach_set(src, e0).insert(src));
}

} // verus!
