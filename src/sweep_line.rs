use vstd::prelude::*;

use crate::structure::WireSegment;

verus! {

/// A crossing between two wire segments, named by their positions in the list of segments.
#[derive(Debug, Clone, Copy, PartialEq, Eq, Structural)]
pub enum Intersection {
    /// Two horizontal segments on one line whose x-ranges overlap; the smaller position first.
    HorizontalHorizontal(usize, usize),
    /// A horizontal segment, then a vertical one, that cross.
    HorizontalVertical(usize, usize),
    /// Two vertical segments on one line whose y-ranges overlap by more than a point; the
    /// smaller position first.
    VerticalVertical(usize, usize),
}

/// A segment whose ends share their y coordinate is horizontal; every other one counts as
/// vertical, at the x of its start.
pub open spec fn is_horizontal(s: WireSegment) -> bool {
    s.start.y == s.end.y
}

pub open spec fn lo(a: i64, b: i64) -> i64 {
    if a < b {
        a
    } else {
        b
    }
}

pub open spec fn hi(a: i64, b: i64) -> i64 {
    if a < b {
        b
    } else {
        a
    }
}

/// Horizontal segments `a` and `b` lie on one line and their x-ranges overlap.
pub open spec fn hh_cross(a: WireSegment, b: WireSegment) -> bool {
    &&& is_horizontal(a)
    &&& is_horizontal(b)
    &&& a.start.y == b.start.y
    &&& lo(a.start.x, a.end.x) <= hi(b.start.x, b.end.x)
    &&& lo(b.start.x, b.end.x) <= hi(a.start.x, a.end.x)
}

/// Horizontal segment `h` and vertical segment `v` cross: the vertical's x lies in the
/// horizontal's x-range and the horizontal's y in the vertical's y-range.
pub open spec fn hv_cross(h: WireSegment, v: WireSegment) -> bool {
    &&& is_horizontal(h)
    &&& !is_horizontal(v)
    &&& lo(h.start.x, h.end.x) <= v.start.x <= hi(h.start.x, h.end.x)
    &&& lo(v.start.y, v.end.y) <= h.start.y <= hi(v.start.y, v.end.y)
}

/// Vertical segments `a` and `b` lie on one line and their y-ranges share more than a point.
pub open spec fn vv_cross(a: WireSegment, b: WireSegment) -> bool {
    &&& !is_horizontal(a)
    &&& !is_horizontal(b)
    &&& a.start.x == b.start.x
    &&& hi(lo(a.start.y, a.end.y), lo(b.start.y, b.end.y)) < lo(hi(a.start.y, a.end.y), hi(b.start.y, b.end.y))
}

/// `r` is a true crossing among `segs`.
pub open spec fn is_crossing(segs: Seq<WireSegment>, r: Intersection) -> bool {
    match r {
        Intersection::HorizontalHorizontal(a, b) => a < b < segs.len() && hh_cross(segs[a as int], segs[b as int]),
        Intersection::HorizontalVertical(h, v) => h < segs.len() && v < segs.len() && hv_cross(
            segs[h as int],
            segs[v as int],
        ),
        Intersection::VerticalVertical(a, b) => a < b < segs.len() && vv_cross(segs[a as int], segs[b as int]),
    }
}

fn min_of(a: i64, b: i64) -> (r: i64)
    ensures
        r == lo(a, b),
{
    if a < b {
        a
    } else {
        b
    }
}

fn max_of(a: i64, b: i64) -> (r: i64)
    ensures
        r == hi(a, b),
{
    if a < b {
        b
    } else {
        a
    }
}

/// A point of the sweep at x coordinate `x`: where horizontal segment `seg` starts (phase 0),
/// where vertical segment `seg` stands (phase 1), or where horizontal segment `seg` ends
/// (phase 2). At one x, starts come first and ends last, so touching segments cross.
#[derive(Clone, Copy)]
struct Event {
    x: i64,
    phase: u8,
    seg: usize,
}

/// The sweep order: by x, then by phase, then by segment.
spec fn ev_lt(a: Event, b: Event) -> bool {
    a.x < b.x || (a.x == b.x && (a.phase < b.phase || (a.phase == b.phase && a.seg < b.seg)))
}

fn event_lt(a: Event, b: Event) -> (r: bool)
    ensures
        r == ev_lt(a, b),
{
    a.x < b.x || (a.x == b.x && (a.phase < b.phase || (a.phase == b.phase && a.seg < b.seg)))
}

spec fn start_of(segs: Seq<WireSegment>, h: int) -> Event {
    Event { x: lo(segs[h].start.x, segs[h].end.x), phase: 0, seg: h as usize }
}

spec fn end_of(segs: Seq<WireSegment>, h: int) -> Event {
    Event { x: hi(segs[h].start.x, segs[h].end.x), phase: 2, seg: h as usize }
}

spec fn vert_of(segs: Seq<WireSegment>, v: int) -> Event {
    Event { x: segs[v].start.x, phase: 1, seg: v as usize }
}

/// `e` is one of the events of the segments below position `n`.
spec fn is_event(segs: Seq<WireSegment>, n: int, e: Event) -> bool {
    &&& e.seg < n
    &&& if is_horizontal(segs[e.seg as int]) {
        e == start_of(segs, e.seg as int) || e == end_of(segs, e.seg as int)
    } else {
        e == vert_of(segs, e.seg as int)
    }
}

spec fn strictly_sorted(s: Seq<Event>) -> bool {
    forall|p: int, q: int| 0 <= p < q < s.len() ==> ev_lt(#[trigger] s[p], #[trigger] s[q])
}

/// Puts `ev` into the sorted list of events at its place.
fn insert_sorted(sorted: &mut Vec<Event>, ev: Event)
    requires
        strictly_sorted(old(sorted)@),
        !old(sorted)@.contains(ev),
    ensures
        strictly_sorted(final(sorted)@),
        forall|e: Event| #[trigger] final(sorted)@.contains(e) <==> (old(sorted)@.contains(e) || e == ev),
{
    let mut pos: usize = 0;
    while pos < sorted.len() && event_lt(sorted[pos], ev)
        invariant
            pos <= sorted.len(),
            strictly_sorted(sorted@),
            forall|p: int| 0 <= p < pos ==> ev_lt(#[trigger] sorted@[p], ev),
        decreases sorted.len() - pos,
    {
        pos += 1;
    }
    let ghost before = sorted@;
    proof {
        if pos < sorted.len() {
            assert(sorted@[pos as int] != ev);
        }
    }
    sorted.insert(pos, ev);
    proof {
        assert forall|p: int, q: int| 0 <= p < q < sorted.len() implies ev_lt(#[trigger] sorted@[p], #[trigger] sorted@[q]) by {
            if q < pos {
                assert(sorted@[p] == before[p] && sorted@[q] == before[q]);
            } else if q == pos {
                assert(sorted@[p] == before[p]);
            } else if p == pos {
                assert(sorted@[q] == before[q - 1]);
                if q - 1 > pos {
                    assert(ev_lt(before[pos as int], before[q - 1]));
                }
                assert(before[pos as int] != ev);
            } else if p < pos {
                assert(sorted@[p] == before[p] && sorted@[q] == before[q - 1]);
            } else {
                assert(sorted@[p] == before[p - 1] && sorted@[q] == before[q - 1]);
            }
        }
        assert forall|e: Event| #[trigger] sorted@.contains(e) <==> (before.contains(e) || e == ev) by {
            if sorted@.contains(e) {
                let k = choose|k: int| 0 <= k < sorted.len() && sorted@[k] == e;
                if k < pos {
                    assert(before[k] == e);
                } else if k > pos {
                    assert(before[k - 1] == e);
                }
            }
            if before.contains(e) {
                let k = choose|k: int| 0 <= k < before.len() && before[k] == e;
                if k < pos {
                    assert(sorted@[k] == e);
                } else {
                    assert(sorted@[k + 1] == e);
                }
            }
            if e == ev {
                assert(sorted@[pos as int] == e);
            }
        }
    }
}

/// In a strictly sorted list, the events before position `t` are those that come before the
/// event at `t`.
proof fn lemma_prefix(sorted: Seq<Event>, t: int, e: Event)
    requires
        strictly_sorted(sorted),
        0 <= t < sorted.len(),
        sorted.contains(e),
    ensures
        sorted.subrange(0, t).contains(e) <==> ev_lt(e, sorted[t]),
        sorted.subrange(0, t + 1).contains(e) <==> (sorted.subrange(0, t).contains(e) || e == sorted[t]),
{
    let p = choose|p: int| 0 <= p < sorted.len() && sorted[p] == e;
    if p < t {
        assert(sorted.subrange(0, t)[p] == e);
        assert(sorted.subrange(0, t + 1)[p] == e);
    } else if p == t {
        assert(sorted.subrange(0, t + 1)[p] == e);
    }
    let s0 = sorted.subrange(0, t);
    let s1 = sorted.subrange(0, t + 1);
    if s0.contains(e) {
        let q = choose|q: int| 0 <= q < t && s0[q] == e;
        assert(sorted[q] == e);
    }
    if s1.contains(e) {
        let q = choose|q: int| 0 <= q < t + 1 && s1[q] == e;
        assert(sorted[q] == e);
        if q < t {
            assert(s0[q] == e);
        }
    }
}

/// The events of all the segments, in sweep order.
fn sorted_events(segments: &Vec<WireSegment>) -> (r: Vec<Event>)
    ensures
        strictly_sorted(r@),
        forall|e: Event| #[trigger] r@.contains(e) <==> is_event(segments@, segments.len() as int, e),
{
    let ghost segs = segments@;
    let mut sorted: Vec<Event> = Vec::new();
    let mut i: usize = 0;
    while i < segments.len()
        invariant
            segs == segments@,
            i <= segments.len(),
            strictly_sorted(sorted@),
            forall|e: Event| #[trigger] sorted@.contains(e) <==> is_event(segs, i as int, e),
        decreases segments.len() - i,
    {
        let s = segments[i];
        if s.start.y == s.end.y {
            let lo_x = min_of(s.start.x, s.end.x);
            let hi_x = max_of(s.start.x, s.end.x);
            let start = Event { x: lo_x, phase: 0, seg: i };
            let end = Event { x: hi_x, phase: 2, seg: i };
            assert(!is_event(segs, i as int, start));
            insert_sorted(&mut sorted, start);
            assert(!is_event(segs, i as int, end));
            insert_sorted(&mut sorted, end);
        } else {
            let v = Event { x: s.start.x, phase: 1, seg: i };
            assert(!is_event(segs, i as int, v));
            insert_sorted(&mut sorted, v);
        }
        i += 1;
    }
    sorted
}

/// The crossings that are settled once the events before position `t` have been swept: two
/// horizontals once both have started, a horizontal and a vertical once the vertical has
/// been passed; verticals among themselves are compared apart.
spec fn settled_crossing(segs: Seq<WireSegment>, sorted: Seq<Event>, t: int, x: Intersection) -> bool {
    &&& is_crossing(segs, x)
    &&& match x {
        Intersection::HorizontalHorizontal(a, b) => sorted.subrange(0, t).contains(start_of(segs, a as int))
            && sorted.subrange(0, t).contains(start_of(segs, b as int)),
        Intersection::HorizontalVertical(h, v) => sorted.subrange(0, t).contains(vert_of(segs, v as int)),
        Intersection::VerticalVertical(_, _) => false,
    }
}

/// The horizontal segments that have started and not yet ended before position `t`.
spec fn is_active(segs: Seq<WireSegment>, sorted: Seq<Event>, t: int, h: int) -> bool {
    &&& 0 <= h < segs.len()
    &&& is_horizontal(segs[h])
    &&& sorted.subrange(0, t).contains(start_of(segs, h))
    &&& !sorted.subrange(0, t).contains(end_of(segs, h))
}

proof fn lemma_push_keeps<A>(s: Seq<A>, v: A, x: A)
    requires
        s.contains(x),
    ensures
        s.push(v).contains(x),
{
    let k = choose|k: int| 0 <= k < s.len() && s[k] == x;
    assert(s.push(v)[k] == x);
}

/// Reports the crossing `x` unless it is already reported.
fn report(found: &mut Vec<Intersection>, x: Intersection)
    requires
        old(found)@.no_duplicates(),
        !old(found)@.contains(x),
    ensures
        final(found)@ == old(found)@.push(x),
        final(found)@.no_duplicates(),
        forall|y: Intersection| #[trigger] final(found)@.contains(y) <==> (old(found)@.contains(y) || y == x),
{
    let ghost before = found@;
    found.push(x);
    proof {
        assert(found@[before.len() as int] == x);
        assert forall|y: Intersection| #[trigger] found@.contains(y) <==> (before.contains(y) || y == x) by {
            if before.contains(y) {
                lemma_push_keeps(before, x, y);
            }
            if found@.contains(y) && y != x {
                let k = choose|k: int| 0 <= k < found.len() && found@[k] == y;
                assert(before[k] == y);
            }
        }
        assert forall|k1: int, k2: int| 0 <= k1 < found.len() && 0 <= k2 < found.len() && k1 != k2 implies found@[k1]
            != found@[k2] by {
            if k1 < before.len() && k2 < before.len() {
            } else if k1 < before.len() {
                assert(before.contains(found@[k1]));
            } else if k2 < before.len() {
                assert(before.contains(found@[k2]));
            }
        }
    }
}

/// The list of active segments without `h`.
fn without(active: &Vec<usize>, h: usize) -> (r: Vec<usize>)
    requires
        active@.no_duplicates(),
    ensures
        r@.no_duplicates(),
        forall|a: usize| #[trigger] r@.contains(a) <==> (active@.contains(a) && a != h),
{
    let mut r: Vec<usize> = Vec::new();
    let mut k: usize = 0;
    while k < active.len()
        invariant
            k <= active.len(),
            active@.no_duplicates(),
            r@.no_duplicates(),
            forall|a: usize| #[trigger] r@.contains(a) <==> (active@.subrange(0, k as int).contains(a) && a != h),
        decreases active.len() - k,
    {
        let a = active[k];
        let ghost before = r@;
        let ghost pre = active@.subrange(0, k as int);
        let ghost post = active@.subrange(0, k + 1);
        proof {
            assert(post =~= pre.push(a));
            if pre.contains(a) {
                let j = choose|j: int| 0 <= j < k && pre[j] == a;
                assert(active@[j] == a);
            }
        }
        if a != h {
            r.push(a);
            proof {
                assert(r@[before.len() as int] == a);
                assert forall|x: usize| #[trigger] r@.contains(x) <==> (post.contains(x) && x != h) by {
                    if before.contains(x) {
                        lemma_push_keeps(before, a, x);
                    }
                    if r@.contains(x) && x != a {
                        let j = choose|j: int| 0 <= j < r.len() && r@[j] == x;
                        assert(before[j] == x);
                    }
                    if pre.contains(x) {
                        lemma_push_keeps(pre, a, x);
                    }
                    if post.contains(x) && x != a {
                        let j = choose|j: int| 0 <= j < post.len() && post[j] == x;
                        assert(pre[j] == x);
                    }
                    assert(post[k as int] == a);
                }
                assert forall|j1: int, j2: int| 0 <= j1 < r.len() && 0 <= j2 < r.len() && j1 != j2 implies r@[j1] != r@[j2] by {
                    if j1 < before.len() && j2 < before.len() {
                    } else if j1 < before.len() {
                        assert(before.contains(r@[j1]));
                    } else if j2 < before.len() {
                        assert(before.contains(r@[j2]));
                    }
                }
            }
        } else {
            proof {
                assert forall|x: usize| #[trigger] r@.contains(x) <==> (post.contains(x) && x != h) by {
                    if pre.contains(x) {
                        lemma_push_keeps(pre, a, x);
                    }
                    if post.contains(x) && x != a {
                        let j = choose|j: int| 0 <= j < post.len() && post[j] == x;
                        assert(pre[j] == x);
                    }
                }
            }
        }
        k += 1;
    }
    assert(active@.subrange(0, active.len() as int) =~= active@);
    r
}

/// The events of horizontal `h` and vertical `v` lie in the sorted list.
proof fn lemma_events_present(segs: Seq<WireSegment>, events: Seq<Event>, n: int, s: int)
    requires
        forall|e: Event| #[trigger] events.contains(e) <==> is_event(segs, n, e),
        n == segs.len(),
        n <= usize::MAX,
        0 <= s < n,
    ensures
        is_horizontal(segs[s]) ==> events.contains(start_of(segs, s)) && events.contains(end_of(segs, s)),
        !is_horizontal(segs[s]) ==> events.contains(vert_of(segs, s)),
{
    if is_horizontal(segs[s]) {
        assert(is_event(segs, n, start_of(segs, s)));
        assert(is_event(segs, n, end_of(segs, s)));
    } else {
        assert(is_event(segs, n, vert_of(segs, s)));
    }
}

/// The crossing of horizontals `a` and `b`, smaller position first.
spec fn hh_pair(a: usize, b: usize) -> Intersection {
    if a < b {
        Intersection::HorizontalHorizontal(a, b)
    } else {
        Intersection::HorizontalHorizontal(b, a)
    }
}

/// `t` events have been swept: the active list holds the horizontals the sweep line cuts,
/// and the crossings found are those settled so far.
spec fn sweep_state(
    segs: Seq<WireSegment>,
    events: Seq<Event>,
    t: int,
    active: Seq<usize>,
    found: Seq<Intersection>,
) -> bool {
    &&& active.no_duplicates()
    &&& forall|h: usize| #[trigger] active.contains(h) <==> is_active(segs, events, t, h as int)
    &&& found.no_duplicates()
    &&& forall|x: Intersection| #[trigger] found.contains(x) <==> settled_crossing(segs, events, t, x)
}

/// The sweep over a start event: reports the active horizontals on the same line, then
/// activates the starting one.
fn sweep_start(
    segments: &Vec<WireSegment>,
    events: &Vec<Event>,
    t: usize,
    active: &mut Vec<usize>,
    found: &mut Vec<Intersection>,
)
    requires
        strictly_sorted(events@),
        forall|e: Event| #[trigger] events@.contains(e) <==> is_event(segments@, segments.len() as int, e),
        t < events.len(),
        events@[t as int].phase == 0,
        sweep_state(segments@, events@, t as int, old(active)@, old(found)@),
    ensures
        sweep_state(segments@, events@, t + 1, final(active)@, final(found)@),
{
    let ghost segs = segments@;
    let ghost n = segs.len() as int;
    let len = segments.len();
    let ev = events[t];
    let b = ev.seg;
    let ghost pre = events@.subrange(0, t as int);
    let ghost post = events@.subrange(0, t + 1);
    assert(events@.contains(ev));
    assert(ev == start_of(segs, b as int) && is_horizontal(segs[b as int]) && b < n);
    proof {
        lemma_prefix(events@, t as int, ev);
        lemma_events_present(segs, events@, n, b as int);
        lemma_prefix(events@, t as int, end_of(segs, b as int));
    }
    let seg = segments[b];
    let ghost found0 = found@;
    let mut k: usize = 0;
    while k < active.len()
        invariant
            segs == segments@,
            n == segs.len(),
            n <= usize::MAX,
            strictly_sorted(events@),
            forall|e: Event| #[trigger] events@.contains(e) <==> is_event(segs, n, e),
            t < events.len(),
            pre == events@.subrange(0, t as int),
            ev == events@[t as int],
            b < n,
            is_horizontal(segs[b as int]),
            ev == start_of(segs, b as int),
            seg == segs[b as int],
            !pre.contains(ev),
            k <= active.len(),
            active@ == old(active)@,
            active@.no_duplicates(),
            forall|h: usize| #[trigger] active@.contains(h) <==> is_active(segs, events@, t as int, h as int),
            found@.no_duplicates(),
            forall|x: Intersection| #[trigger] found0.contains(x) <==> settled_crossing(segs, events@, t as int, x),
            forall|x: Intersection|
                #[trigger] found@.contains(x) <==> (found0.contains(x) || exists|j: int|
                    0 <= j < k && #[trigger] hh_pair(active@[j], b) == x && is_crossing(segs, x)),
        decreases active.len() - k,
    {
        let a = active[k];
        assert(active@.contains(a));
        assert(a != b);
        let other = segments[a];
        proof {
            lemma_events_present(segs, events@, n, a as int);
            lemma_prefix(events@, t as int, start_of(segs, a as int));
            lemma_prefix(events@, t as int, end_of(segs, a as int));
        }
        let ghost x = hh_pair(a, b);
        assert(is_crossing(segs, x) <==> other.start.y == seg.start.y);
        if other.start.y == seg.start.y {
            let r = if a < b {
                Intersection::HorizontalHorizontal(a, b)
            } else {
                Intersection::HorizontalHorizontal(b, a)
            };
            proof {
                assert(r == x);
                if exists|j: int| 0 <= j < k && #[trigger] hh_pair(active@[j], b) == x && is_crossing(segs, x) {
                    let j = choose|j: int| 0 <= j < k && #[trigger] hh_pair(active@[j], b) == x && is_crossing(segs, x);
                    assert(active@[j] != a);
                    assert(active@.contains(active@[j]));
                }
            }
            let ghost before = found@;
            report(found, r);
            proof {
                assert forall|y: Intersection|
                    #[trigger] found@.contains(y) <==> (found0.contains(y) || exists|j: int|
                        0 <= j < k + 1 && #[trigger] hh_pair(active@[j], b) == y && is_crossing(segs, y)) by {
                    if y == x {
                        assert(hh_pair(active@[k as int], b) == y);
                    }
                    if exists|j: int| 0 <= j < k + 1 && #[trigger] hh_pair(active@[j], b) == y && is_crossing(segs, y) {
                        let j = choose|j: int| 0 <= j < k + 1 && #[trigger] hh_pair(active@[j], b) == y && is_crossing(segs, y);
                        if j < k {
                            assert(before.contains(y));
                        }
                    }
                }
            }
        } else {
            proof {
                assert forall|y: Intersection|
                    #[trigger] found@.contains(y) <==> (found0.contains(y) || exists|j: int|
                        0 <= j < k + 1 && #[trigger] hh_pair(active@[j], b) == y && is_crossing(segs, y)) by {
                    if exists|j: int| 0 <= j < k + 1 && #[trigger] hh_pair(active@[j], b) == y && is_crossing(segs, y) {
                        let j = choose|j: int| 0 <= j < k + 1 && #[trigger] hh_pair(active@[j], b) == y && is_crossing(segs, y);
                        if j == k {
                            assert(y == x);
                        }
                    }
                }
            }
        }
        k += 1;
    }
    let ghost found1 = found@;
    let ghost active0 = active@;
    active.push(b);
    proof {
        assert(active@[active0.len() as int] == b);
        assert(!active0.contains(b));
        assert forall|h: usize| #[trigger] active@.contains(h) <==> is_active(segs, events@, t + 1, h as int) by {
            if active0.contains(h) {
                lemma_push_keeps(active0, b, h);
            }
            if active@.contains(h) && h != b {
                let j = choose|j: int| 0 <= j < active.len() && active@[j] == h;
                assert(active0[j] == h);
            }
            if 0 <= h < n && is_horizontal(segs[h as int]) {
                lemma_events_present(segs, events@, n, h as int);
                lemma_prefix(events@, t as int, start_of(segs, h as int));
                lemma_prefix(events@, t as int, end_of(segs, h as int));
            }
        }
        assert forall|j1: int, j2: int| 0 <= j1 < active.len() && 0 <= j2 < active.len() && j1 != j2 implies active@[j1]
            != active@[j2] by {
            if j1 < active0.len() && j2 < active0.len() {
            } else if j1 < active0.len() {
                assert(active0.contains(active@[j1]));
            } else if j2 < active0.len() {
                assert(active0.contains(active@[j2]));
            }
        }
        assert forall|x: Intersection| #[trigger] found@.contains(x) <==> settled_crossing(segs, events@, t + 1, x) by {
            match x {
                Intersection::HorizontalHorizontal(p, q) => {
                    if p < n && q < n {
                        lemma_events_present(segs, events@, n, p as int);
                        lemma_events_present(segs, events@, n, q as int);
                        if is_horizontal(segs[p as int]) && is_horizontal(segs[q as int]) {
                            lemma_prefix(events@, t as int, start_of(segs, p as int));
                            lemma_prefix(events@, t as int, start_of(segs, q as int));
                            lemma_prefix(events@, t as int, end_of(segs, p as int));
                            lemma_prefix(events@, t as int, end_of(segs, q as int));
                            if settled_crossing(segs, events@, t + 1, x) && !found0.contains(x) {
                                let a = if p == b { q } else { p };
                                assert(active0.contains(a));
                                let j = choose|j: int| 0 <= j < active0.len() && active0[j] == a;
                                assert(hh_pair(active0[j], b) == x);
                            }
                            if found@.contains(x) && !found0.contains(x) {
                                let j = choose|j: int| 0 <= j < active0.len() && #[trigger] hh_pair(active0[j], b) == x && is_crossing(segs, x);
                                assert(active0.contains(active0[j]));
                            }
                        }
                    }
                },
                Intersection::HorizontalVertical(h, v) => {
                    if v < n {
                        lemma_events_present(segs, events@, n, v as int);
                        if !is_horizontal(segs[v as int]) {
                            lemma_prefix(events@, t as int, vert_of(segs, v as int));
                        }
                    }
                    if found@.contains(x) && !found0.contains(x) {
                        let j = choose|j: int| 0 <= j < active0.len() && #[trigger] hh_pair(active0[j], b) == x && is_crossing(segs, x);
                    }
                },
                Intersection::VerticalVertical(_, _) => {
                    if found@.contains(x) && !found0.contains(x) {
                        let j = choose|j: int| 0 <= j < active0.len() && #[trigger] hh_pair(active0[j], b) == x && is_crossing(segs, x);
                    }
                },
            }
        }
    }
}

/// The sweep over a vertical: reports the active horizontals whose line it spans.
fn sweep_vertical(
    segments: &Vec<WireSegment>,
    events: &Vec<Event>,
    t: usize,
    active: &Vec<usize>,
    found: &mut Vec<Intersection>,
)
    requires
        strictly_sorted(events@),
        forall|e: Event| #[trigger] events@.contains(e) <==> is_event(segments@, segments.len() as int, e),
        t < events.len(),
        events@[t as int].phase == 1,
        sweep_state(segments@, events@, t as int, active@, old(found)@),
    ensures
        sweep_state(segments@, events@, t + 1, active@, final(found)@),
{
    let ghost segs = segments@;
    let ghost n = segs.len() as int;
    let len = segments.len();
    let ev = events[t];
    let v = ev.seg;
    let ghost pre = events@.subrange(0, t as int);
    assert(events@.contains(ev));
    assert(ev == vert_of(segs, v as int) && !is_horizontal(segs[v as int]) && v < n);
    proof {
        lemma_prefix(events@, t as int, ev);
    }
    let seg = segments[v];
    let lo_y = min_of(seg.start.y, seg.end.y);
    let hi_y = max_of(seg.start.y, seg.end.y);
    let ghost found0 = found@;
    let mut k: usize = 0;
    while k < active.len()
        invariant
            segs == segments@,
            n == segs.len(),
            n <= usize::MAX,
            strictly_sorted(events@),
            forall|e: Event| #[trigger] events@.contains(e) <==> is_event(segs, n, e),
            t < events.len(),
            pre == events@.subrange(0, t as int),
            ev == events@[t as int],
            v < n,
            !is_horizontal(segs[v as int]),
            ev == vert_of(segs, v as int),
            seg == segs[v as int],
            lo_y == lo(seg.start.y, seg.end.y),
            hi_y == hi(seg.start.y, seg.end.y),
            !pre.contains(ev),
            k <= active.len(),
            active@.no_duplicates(),
            forall|h: usize| #[trigger] active@.contains(h) <==> is_active(segs, events@, t as int, h as int),
            found@.no_duplicates(),
            forall|x: Intersection| #[trigger] found0.contains(x) <==> settled_crossing(segs, events@, t as int, x),
            forall|x: Intersection|
                #[trigger] found@.contains(x) <==> (found0.contains(x) || exists|j: int|
                    0 <= j < k && x == Intersection::HorizontalVertical(#[trigger] active@[j], v) && is_crossing(segs, x)),
        decreases active.len() - k,
    {
        let a = active[k];
        assert(active@.contains(a));
        let h = segments[a];
        proof {
            lemma_events_present(segs, events@, n, a as int);
            lemma_prefix(events@, t as int, start_of(segs, a as int));
            lemma_prefix(events@, t as int, end_of(segs, a as int));
        }
        let ghost x = Intersection::HorizontalVertical(a, v);
        assert(is_crossing(segs, x) <==> (lo_y <= h.start.y && h.start.y <= hi_y));
        if lo_y <= h.start.y && h.start.y <= hi_y {
            proof {
                if exists|j: int| 0 <= j < k && x == Intersection::HorizontalVertical(#[trigger] active@[j], v) && is_crossing(segs, x) {
                    let j = choose|j: int| 0 <= j < k && x == Intersection::HorizontalVertical(#[trigger] active@[j], v) && is_crossing(segs, x);
                    assert(active@[j] != a);
                }
            }
            let ghost before = found@;
            report(found, Intersection::HorizontalVertical(a, v));
            proof {
                assert forall|y: Intersection|
                    #[trigger] found@.contains(y) <==> (found0.contains(y) || exists|j: int|
                        0 <= j < k + 1 && y == Intersection::HorizontalVertical(#[trigger] active@[j], v) && is_crossing(segs, y)) by {
                    if y == x {
                        assert(y == Intersection::HorizontalVertical(active@[k as int], v));
                    }
                    if exists|j: int| 0 <= j < k + 1 && y == Intersection::HorizontalVertical(#[trigger] active@[j], v) && is_crossing(segs, y) {
                        let j = choose|j: int| 0 <= j < k + 1 && y == Intersection::HorizontalVertical(#[trigger] active@[j], v) && is_crossing(segs, y);
                        if j < k {
                            assert(before.contains(y));
                        }
                    }
                }
            }
        } else {
            proof {
                assert forall|y: Intersection|
                    #[trigger] found@.contains(y) <==> (found0.contains(y) || exists|j: int|
                        0 <= j < k + 1 && y == Intersection::HorizontalVertical(#[trigger] active@[j], v) && is_crossing(segs, y)) by {
                    if exists|j: int| 0 <= j < k + 1 && y == Intersection::HorizontalVertical(#[trigger] active@[j], v) && is_crossing(segs, y) {
                        let j = choose|j: int| 0 <= j < k + 1 && y == Intersection::HorizontalVertical(#[trigger] active@[j], v) && is_crossing(segs, y);
                        if j == k {
                            assert(y == x);
                        }
                    }
                }
            }
        }
        k += 1;
    }
    proof {
        assert forall|h: usize| #[trigger] active@.contains(h) <==> is_active(segs, events@, t + 1, h as int) by {
            if 0 <= h < n && is_horizontal(segs[h as int]) {
                lemma_events_present(segs, events@, n, h as int);
                lemma_prefix(events@, t as int, start_of(segs, h as int));
                lemma_prefix(events@, t as int, end_of(segs, h as int));
            }
        }
        assert forall|x: Intersection| #[trigger] found@.contains(x) <==> settled_crossing(segs, events@, t + 1, x) by {
            match x {
                Intersection::HorizontalHorizontal(p, q) => {
                    if p < n && q < n {
                        lemma_events_present(segs, events@, n, p as int);
                        lemma_events_present(segs, events@, n, q as int);
                        if is_horizontal(segs[p as int]) && is_horizontal(segs[q as int]) {
                            lemma_prefix(events@, t as int, start_of(segs, p as int));
                            lemma_prefix(events@, t as int, start_of(segs, q as int));
                        }
                    }
                    if found@.contains(x) && !found0.contains(x) {
                        let j = choose|j: int| 0 <= j < active.len() && x == Intersection::HorizontalVertical(#[trigger] active@[j], v) && is_crossing(segs, x);
                    }
                },
                Intersection::HorizontalVertical(hh, vv) => {
                    if vv < n {
                        lemma_events_present(segs, events@, n, vv as int);
                        if !is_horizontal(segs[vv as int]) {
                            lemma_prefix(events@, t as int, vert_of(segs, vv as int));
                        }
                    }
                    if hh < n {
                        lemma_events_present(segs, events@, n, hh as int);
                        if is_horizontal(segs[hh as int]) {
                            lemma_prefix(events@, t as int, start_of(segs, hh as int));
                            lemma_prefix(events@, t as int, end_of(segs, hh as int));
                        }
                    }
                    if settled_crossing(segs, events@, t + 1, x) && !found0.contains(x) {
                        assert(vv == v);
                        assert(active@.contains(hh));
                        let j = choose|j: int| 0 <= j < active.len() && active@[j] == hh;
                        assert(x == Intersection::HorizontalVertical(active@[j], v));
                    }
                    if found@.contains(x) && !found0.contains(x) {
                        let j = choose|j: int| 0 <= j < active.len() && x == Intersection::HorizontalVertical(#[trigger] active@[j], v) && is_crossing(segs, x);
                    }
                },
                Intersection::VerticalVertical(_, _) => {
                    if found@.contains(x) && !found0.contains(x) {
                        let j = choose|j: int| 0 <= j < active.len() && x == Intersection::HorizontalVertical(#[trigger] active@[j], v) && is_crossing(segs, x);
                    }
                },
            }
        }
    }
}

/// The sweep over an end event: the ending horizontal leaves the active list.
fn sweep_end(
    segments: &Vec<WireSegment>,
    events: &Vec<Event>,
    t: usize,
    active: &mut Vec<usize>,
    found: &Vec<Intersection>,
)
    requires
        strictly_sorted(events@),
        forall|e: Event| #[trigger] events@.contains(e) <==> is_event(segments@, segments.len() as int, e),
        t < events.len(),
        events@[t as int].phase == 2,
        sweep_state(segments@, events@, t as int, old(active)@, found@),
    ensures
        sweep_state(segments@, events@, t + 1, final(active)@, found@),
{
    let ghost segs = segments@;
    let ghost n = segs.len() as int;
    let len = segments.len();
    let ev = events[t];
    assert(events@.contains(ev));
    assert(ev == end_of(segs, ev.seg as int) && is_horizontal(segs[ev.seg as int]) && ev.seg < n);
    let r = without(active, ev.seg);
    *active = r;
    proof {
        assert forall|h: usize| #[trigger] active@.contains(h) <==> is_active(segs, events@, t + 1, h as int) by {
            if 0 <= h < n && is_horizontal(segs[h as int]) {
                lemma_events_present(segs, events@, n, h as int);
                lemma_prefix(events@, t as int, start_of(segs, h as int));
                lemma_prefix(events@, t as int, end_of(segs, h as int));
            }
        }
        assert forall|x: Intersection| #[trigger] found@.contains(x) <==> settled_crossing(segs, events@, t + 1, x) by {
            match x {
                Intersection::HorizontalHorizontal(p, q) => {
                    if p < n && q < n {
                        lemma_events_present(segs, events@, n, p as int);
                        lemma_events_present(segs, events@, n, q as int);
                        if is_horizontal(segs[p as int]) && is_horizontal(segs[q as int]) {
                            lemma_prefix(events@, t as int, start_of(segs, p as int));
                            lemma_prefix(events@, t as int, start_of(segs, q as int));
                        }
                    }
                },
                Intersection::HorizontalVertical(hh, vv) => {
                    if vv < n {
                        lemma_events_present(segs, events@, n, vv as int);
                        if !is_horizontal(segs[vv as int]) {
                            lemma_prefix(events@, t as int, vert_of(segs, vv as int));
                        }
                    }
                },
                Intersection::VerticalVertical(_, _) => {},
            }
        }
    }
}

/// Reports every crossing among the wire segments, each once: horizontal segments on one line
/// whose x-ranges overlap, horizontal and vertical segments that cross, and vertical segments
/// on one line whose y-ranges share more than a point. Horizontals and verticals are found by
/// one sweep along x over the ends of the horizontals and the verticals, with the horizontals
/// that the sweep line cuts kept active; verticals are then compared pairwise.
pub fn find_intersections(segments: &Vec<WireSegment>) -> (r: Vec<Intersection>)
    ensures
        forall|k: int| 0 <= k < r.len() ==> is_crossing(segments@, #[trigger] r@[k]),
        forall|x: Intersection| is_crossing(segments@, x) ==> #[trigger] r@.contains(x),
        r@.no_duplicates(),
{
    let ghost segs = segments@;
    let n = segments.len();
    let events = sorted_events(segments);
    let mut active: Vec<usize> = Vec::new();
    let mut found: Vec<Intersection> = Vec::new();
    proof {
        assert(events@.subrange(0, 0) =~= Seq::<Event>::empty());
        assert forall|h: usize| #[trigger] active@.contains(h) <==> is_active(segs, events@, 0, h as int) by {}
        assert forall|x: Intersection| #[trigger] found@.contains(x) <==> settled_crossing(segs, events@, 0, x) by {}
    }
    let mut t: usize = 0;
    while t < events.len()
        invariant
            segs == segments@,
            n == segs.len(),
            strictly_sorted(events@),
            forall|e: Event| #[trigger] events@.contains(e) <==> is_event(segs, n as int, e),
            t <= events.len(),
            sweep_state(segs, events@, t as int, active@, found@),
        decreases events.len() - t,
    {
        let ev = events[t];
        assert(events@.contains(ev));
        if ev.phase == 0 {
            sweep_start(segments, &events, t, &mut active, &mut found);
        } else if ev.phase == 1 {
            sweep_vertical(segments, &events, t, &active, &mut found);
        } else {
            sweep_end(segments, &events, t, &mut active, &found);
        }
        t += 1;
    }
    proof {
        assert(events@.subrange(0, events.len() as int) =~= events@);
    }
    let mut i: usize = 0;
    while i < n
        invariant
            segs == segments@,
            n == segs.len(),
            i <= n,
            found@.no_duplicates(),
            forall|x: Intersection|
                #[trigger] found@.contains(x) <==> is_crossing(segs, x) && (x matches Intersection::VerticalVertical(a, b)
                    ==> a < i),
        decreases n - i,
    {
        let mut j: usize = i + 1;
        while j < n
            invariant
                segs == segments@,
                n == segs.len(),
                i < n,
                i + 1 <= j <= n,
                found@.no_duplicates(),
                forall|x: Intersection|
                    #[trigger] found@.contains(x) <==> is_crossing(segs, x) && (x matches Intersection::VerticalVertical(
                        a,
                        b,
                    ) ==> a < i || (a == i && b < j)),
            decreases n - j,
        {
            let a = segments[i];
            let b = segments[j];
            if a.start.y != a.end.y && b.start.y != b.end.y && a.start.x == b.start.x && max_of(
                min_of(a.start.y, a.end.y),
                min_of(b.start.y, b.end.y),
            ) < min_of(max_of(a.start.y, a.end.y), max_of(b.start.y, b.end.y)) {
                report(&mut found, Intersection::VerticalVertical(i, j));
            }
            j += 1;
        }
        i += 1;
    }
    proof {
        assert forall|k: int| 0 <= k < found.len() implies is_crossing(segments@, #[trigger] found@[k]) by {
            assert(found@.contains(found@[k]));
        }
    }
    found
}

} // verus!
