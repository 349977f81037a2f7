use vstd::prelude::*;

verus! {

/// `d` occurs in `s` starting at index `i`.
pub open spec fn occurs_at(s: Seq<u8>, d: Seq<u8>, i: int) -> bool {
    0 <= i && i + d.len() <= s.len() && s.subrange(i, i + d.len()) == d
}

/// The first index at or after `i` where a non-empty `d` occurs in `s`, or -1.
pub open spec fn find_from(s: Seq<u8>, d: Seq<u8>, i: int) -> int
    decreases s.len() - i,
{
    if i < 0 || d.len() == 0 || i + d.len() > s.len() {
        -1
    } else if occurs_at(s, d, i) {
        i
    } else {
        find_from(s, d, i + 1)
    }
}

/// The leftmost occurrence of `d` in `s`, if any.
pub open spec fn first_match(s: Seq<u8>, d: Seq<u8>) -> Option<int> {
    let p = find_from(s, d, 0);
    if 0 <= p && 0 < d.len() && p + d.len() <= s.len() {
        Some(p)
    } else {
        None
    }
}

/// The segments of `s`: the runs of bytes between the occurrences of `d` found
/// by scanning from the left, and before the first and after the last one.
/// There is always one more segment than there are occurrences.
pub open spec fn segments(s: Seq<u8>, d: Seq<u8>) -> Seq<Seq<u8>>
    decreases s.len(),
{
    match first_match(s, d) {
        Some(p) => seq![s.subrange(0, p)] + segments(s.subrange(p + d.len(), s.len() as int), d),
        None => seq![s],
    }
}

/// The number of occurrences of `d` in `s` found by scanning from the left,
/// each search resuming after the previous occurrence.
pub open spec fn count_matches(s: Seq<u8>, d: Seq<u8>) -> nat
    decreases s.len(),
{
    match first_match(s, d) {
        Some(p) => 1 + count_matches(s.subrange(p + d.len(), s.len() as int), d),
        None => 0,
    }
}

/// What the processes receive from input `s`, one entry per process in order:
/// each segment closed by `d` is followed by the terminator `t`, a final
/// segment that the input ends in is sent as it is, and nothing is sent for
/// input that is used up.
pub open spec fn deliveries(s: Seq<u8>, d: Seq<u8>, t: Seq<u8>) -> Seq<Seq<u8>>
    decreases s.len(),
{
    if s.len() == 0 {
        seq![]
    } else {
        match first_match(s, d) {
            Some(p) => seq![s.subrange(0, p) + t] + deliveries(
                s.subrange(p + d.len(), s.len() as int),
                d,
                t,
            ),
            None => seq![s],
        }
    }
}

/// The concatenation of a sequence of byte strings.
pub open spec fn concat(ds: Seq<Seq<u8>>) -> Seq<u8>
    decreases ds.len(),
{
    if ds.len() == 0 {
        seq![]
    } else {
        ds[0] + concat(ds.drop_first())
    }
}

/// Bytes seen as written to a process.
pub open spec fn lift(b: Seq<u8>) -> Seq<Option<u8>> {
    b.map_values(|x: u8| Some(x))
}

/// A run of deliveries seen as a stream of events: `None` for taking the next
/// process, `Some(b)` for writing the byte `b` to it.
pub open spec fn events(ds: Seq<Seq<u8>>) -> Seq<Option<u8>>
    decreases ds.len(),
{
    if ds.len() == 0 {
        seq![]
    } else {
        seq![None] + lift(ds[0]) + events(ds.drop_first())
    }
}

/// The event of taking a process, unless one is already taken.
pub open spec fn opening(open: bool) -> Seq<Option<u8>> {
    if open {
        seq![]
    } else {
        seq![None]
    }
}

/// The events that input `s` still gives rise to, where `open` says that a
/// process has already been taken for the segment that `s` continues.
pub open spec fn flow(open: bool, s: Seq<u8>, d: Seq<u8>, t: Seq<u8>) -> Seq<Option<u8>>
    decreases s.len(),
{
    if s.len() == 0 {
        seq![]
    } else {
        match first_match(s, d) {
            Some(p) => opening(open) + lift(s.subrange(0, p) + t) + flow(
                false,
                s.subrange(p + d.len(), s.len() as int),
                d,
                t,
            ),
            None => opening(open) + lift(s),
        }
    }
}


proof fn lemma_find_bounds(s: Seq<u8>, d: Seq<u8>, i: int)
    requires
        0 <= i,
        d.len() > 0,
    ensures
        find_from(s, d, i) == -1 || (i <= find_from(s, d, i) && occurs_at(s, d, find_from(s, d, i))
            && d.len() > 0),
        find_from(s, d, i) == -1 ==> forall|j: int| i <= j ==> !occurs_at(s, d, j),
        forall|j: int| i <= j < find_from(s, d, i) ==> !occurs_at(s, d, j),
    decreases s.len() - i,
{
    if i < 0 || d.len() == 0 || i + d.len() > s.len() {
    } else if occurs_at(s, d, i) {
    } else {
        lemma_find_bounds(s, d, i + 1);
        assert forall|j: int| i <= j && !(i + 1 <= j) implies !occurs_at(s, d, j) by {}
    }
}

/// Where no occurrence starts in `[i, k)`, the search from `i` is the search from `k`.
proof fn lemma_find_skip(s: Seq<u8>, d: Seq<u8>, i: int, k: int)
    requires
        0 <= i <= k,
        forall|j: int| i <= j < k ==> !occurs_at(s, d, j),
    ensures
        find_from(s, d, i) == find_from(s, d, k),
    decreases k - i,
{
    if i < k {
        lemma_find_skip(s, d, i + 1, k);
        if d.len() == 0 || i + d.len() > s.len() {
            lemma_find_far(s, d, k);
        }
    }
}

proof fn lemma_find_far(s: Seq<u8>, d: Seq<u8>, i: int)
    requires
        d.len() == 0 || i + d.len() > s.len(),
    ensures
        find_from(s, d, i) == -1,
{
}

/// Searching in a suffix of `s` is searching in `s`, shifted.
proof fn lemma_find_shift(s: Seq<u8>, d: Seq<u8>, k: int, i: int)
    requires
        0 <= k <= s.len(),
        0 <= i,
    ensures
        find_from(s, d, k + i) == if find_from(s.subrange(k, s.len() as int), d, i) == -1 {
            -1
        } else {
            find_from(s.subrange(k, s.len() as int), d, i) + k
        },
    decreases s.len() - k - i,
{
    let u = s.subrange(k, s.len() as int);
    if d.len() == 0 || k + i + d.len() > s.len() {
    } else {
        assert(u.subrange(i, i + d.len()) =~= s.subrange(k + i, k + i + d.len()));
        if !occurs_at(s, d, k + i) {
            lemma_find_shift(s, d, k, i + 1);
        }
    }
}

/// Bytes appended after an occurrence do not move it.
proof fn lemma_find_extend(s: Seq<u8>, x: Seq<u8>, d: Seq<u8>, i: int)
    requires
        0 <= i,
        find_from(s, d, i) != -1,
    ensures
        find_from(s + x, d, i) == find_from(s, d, i),
    decreases s.len() - i,
{
    assert(i + d.len() <= s.len());
    assert((s + x).subrange(i, i + d.len()) =~= s.subrange(i, i + d.len()));
    if !occurs_at(s, d, i) {
        lemma_find_extend(s, x, d, i + 1);
    }
}


proof fn lemma_lift_add(a: Seq<u8>, b: Seq<u8>)
    ensures
        lift(a + b) == lift(a) + lift(b),
{
    assert(lift(a + b) =~= lift(a) + lift(b));
}

/// An occurrence in `u` is the first one in `u` followed by anything.
proof fn lemma_flow_match(o: bool, u: Seq<u8>, x: Seq<u8>, d: Seq<u8>, t: Seq<u8>, q: int)
    requires
        first_match(u, d) == Some(q),
    ensures
        flow(o, u + x, d, t) == opening(o) + lift(u.subrange(0, q) + t) + flow(
            false,
            u.subrange(q + d.len(), u.len() as int) + x,
            d,
            t,
        ),
{
    lemma_find_extend(u, x, d, 0);
    let s = u + x;
    assert(first_match(s, d) == Some(q));
    assert(s.subrange(0, q) =~= u.subrange(0, q));
    assert(s.subrange(q + d.len(), s.len() as int) =~= u.subrange(q + d.len(), u.len() as int)
        + x);
}

/// Bytes that no occurrence starts in can be written at once, leaving the
/// segment open.
proof fn lemma_flow_skip(o: bool, s: Seq<u8>, d: Seq<u8>, t: Seq<u8>, k: int)
    requires
        0 < k <= s.len(),
        d.len() > 0,
        forall|j: int| 0 <= j < k ==> !occurs_at(s, d, j),
    ensures
        flow(o, s, d, t) == opening(o) + lift(s.subrange(0, k)) + flow(
            true,
            s.subrange(k, s.len() as int),
            d,
            t,
        ),
{
    let w = s.subrange(k, s.len() as int);
    lemma_find_skip(s, d, 0, k);
    lemma_find_shift(s, d, k, 0);
    lemma_find_bounds(w, d, 0);
    match first_match(w, d) {
        Some(p) => {
            assert(first_match(s, d) == Some(p + k));
            assert(s.subrange(0, p + k) =~= s.subrange(0, k) + w.subrange(0, p));
            assert(s.subrange(p + k + d.len(), s.len() as int) =~= w.subrange(
                p + d.len(),
                w.len() as int,
            ));
            lemma_lift_add(s.subrange(0, k), w.subrange(0, p) + t);
            lemma_lift_add(s.subrange(0, k), w.subrange(0, p));
            lemma_lift_add(w.subrange(0, p), t);
            lemma_lift_add(s.subrange(0, p + k), t);
            assert(lift(s.subrange(0, p + k) + t) =~= lift(s.subrange(0, k)) + lift(
                w.subrange(0, p) + t,
            ));
        },
        None => {
            assert(first_match(s, d) is None);
            assert(s =~= s.subrange(0, k) + w);
            lemma_lift_add(s.subrange(0, k), w);
            if w.len() == 0 {
                assert(lift(s) =~= lift(s.subrange(0, k)) + lift(w));
            }
        },
    }
}

/// Input shorter than the delimiter holds no occurrence.
proof fn lemma_flow_short(o: bool, s: Seq<u8>, d: Seq<u8>, t: Seq<u8>)
    requires
        s.len() < d.len(),
    ensures
        flow(o, s, d, t) == if s.len() == 0 {
            seq![]
        } else {
            opening(o) + lift(s)
        },
{
    lemma_find_far(s, d, 0);
}


proof fn lemma_flow_events(s: Seq<u8>, d: Seq<u8>, t: Seq<u8>)
    ensures
        flow(false, s, d, t) == events(deliveries(s, d, t)),
    decreases s.len(),
{
    if s.len() > 0 {
        let ds = deliveries(s, d, t);
        match first_match(s, d) {
            Some(p) => {
                let rest = s.subrange(p + d.len(), s.len() as int);
                lemma_flow_events(rest, d, t);
                assert(ds.drop_first() =~= deliveries(rest, d, t));
            },
            None => {
                assert(ds.drop_first() =~= Seq::<Seq<u8>>::empty());
                assert(events(ds.drop_first()) == Seq::<Option<u8>>::empty());
                assert(events(ds) =~= seq![None] + lift(s));
            },
        }
    }
}

proof fn lemma_structure(s: Seq<u8>, d: Seq<u8>, t: Seq<u8>)
    requires
        d.len() > 0,
    ensures
        segments(s, d).len() == count_matches(s, d) + 1,
        forall|i: int, j: int|
            0 <= i < segments(s, d).len() ==> !#[trigger] occurs_at(segments(s, d)[i], d, j),
        deliveries(s, d, t).len() == if segments(s, d).last().len() == 0 {
            segments(s, d).len() - 1
        } else {
            segments(s, d).len() as int
        },
        forall|i: int|
            0 <= i < segments(s, d).len() - 1 ==> #[trigger] deliveries(s, d, t)[i] == segments(
                s,
                d,
            )[i] + t,
        segments(s, d).last().len() > 0 ==> deliveries(s, d, t).last() == segments(s, d).last(),
    decreases s.len(),
{
    let segs = segments(s, d);
    let dels = deliveries(s, d, t);
    lemma_find_bounds(s, d, 0);
    match first_match(s, d) {
        Some(p) => {
            let rest = s.subrange(p + d.len(), s.len() as int);
            lemma_structure(rest, d, t);
            let head = s.subrange(0, p);
            assert forall|j: int| !occurs_at(head, d, j) by {
                if occurs_at(head, d, j) {
                    assert(head.subrange(j, j + d.len()) =~= s.subrange(j, j + d.len()));
                    assert(occurs_at(s, d, j));
                }
            }
            assert(segs.drop_first() =~= segments(rest, d));
            assert(dels.drop_first() =~= deliveries(rest, d, t));
            assert forall|i: int, j: int| 0 <= i < segs.len() implies !#[trigger] occurs_at(segs[i], d, j) by {
                if i > 0 {
                    assert(segs[i] == segments(rest, d)[i - 1]);
                }
            }
            assert forall|i: int| 0 <= i < segs.len() - 1 implies #[trigger] dels[i] == segs[i]
                + t by {
                if i > 0 {
                    assert(dels[i] == deliveries(rest, d, t)[i - 1]);
                    assert(segs[i] == segments(rest, d)[i - 1]);
                }
            }
        },
        None => {
            assert forall|i: int, j: int| 0 <= i < segs.len() implies !#[trigger] occurs_at(segs[i], d, j) by {
                assert(segs[i] == s);
                if 0 <= j && j + d.len() <= s.len() {
                    assert(!occurs_at(s, d, j));
                }
            }
        },
    }
}

/// Splitting and joining again with the delimiter gives the input back: the
/// processes receive, in order, exactly the bytes of the input.
pub proof fn lemma_round_trip(s: Seq<u8>, d: Seq<u8>)
    requires
        d.len() > 0,
    ensures
        concat(deliveries(s, d, d)) == s,
    decreases s.len(),
{
    let ds = deliveries(s, d, d);
    if s.len() > 0 {
        lemma_find_bounds(s, d, 0);
        match first_match(s, d) {
            Some(p) => {
                let rest = s.subrange(p + d.len(), s.len() as int);
                lemma_round_trip(rest, d);
                assert(ds.drop_first() =~= deliveries(rest, d, d));
                assert(s.subrange(p, p + d.len()) == d);
                assert(s =~= s.subrange(0, p) + d + rest);
            },
            None => {
                assert(ds.drop_first() =~= Seq::<Seq<u8>>::empty());
                assert(concat(ds.drop_first()) == Seq::<u8>::empty());
                assert(concat(ds) =~= s);
            },
        }
    }
}

/// The input splits into one segment more than the delimiter occurs in it,
/// and no segment holds the delimiter. Each segment goes to a process of its
/// own, but for a last segment that is empty: input that ends in a delimiter,
/// or empty input, starts no process for it.
pub proof fn lemma_segment_count(s: Seq<u8>, d: Seq<u8>, t: Seq<u8>)
    requires
        d.len() > 0,
    ensures
        segments(s, d).len() == count_matches(s, d) + 1,
        forall|i: int, j: int|
            0 <= i < segments(s, d).len() ==> !#[trigger] occurs_at(segments(s, d)[i], d, j),
        segments(s, d).last().len() > 0 ==> deliveries(s, d, t).len() == count_matches(s, d) + 1,
        segments(s, d).last().len() == 0 ==> deliveries(s, d, t).len() == count_matches(s, d),
{
    lemma_structure(s, d, t);
}

/// Each process but the one that receives a final, unterminated segment gets
/// its segment followed by the terminator (the write delimiter, when one is
/// given), never by the delimiter itself; the segment's bytes are unchanged.
pub proof fn lemma_terminated_segments(s: Seq<u8>, d: Seq<u8>, t: Seq<u8>)
    requires
        d.len() > 0,
    ensures
        forall|i: int|
            0 <= i < segments(s, d).len() - 1 ==> #[trigger] deliveries(s, d, t)[i] == segments(
                s,
                d,
            )[i] + t,
        segments(s, d).last().len() > 0 ==> deliveries(s, d, t).last() == segments(s, d).last(),
{
    lemma_structure(s, d, t);
}

/// A delimiter found at `q` closes the segment: its bytes and the terminator
/// are written.
proof fn lemma_advance_match(
    fed: Seq<u8>,
    e: Seq<Option<u8>>,
    e2: Seq<Option<u8>>,
    open: bool,
    data: Seq<u8>,
    pos: int,
    q: int,
    d: Seq<u8>,
    t: Seq<u8>,
)
    requires
        0 <= pos <= data.len(),
        d.len() > 0,
        find_from(data, d, pos) == q,
        q != -1,
        forall|x: Seq<u8>|
            #[trigger] flow(false, fed + x, d, t) == e + flow(
                open,
                data.subrange(pos, data.len() as int) + x,
                d,
                t,
            ),
        e2 == e + (opening(open) + lift(data.subrange(pos, q) + t)),
    ensures
        pos <= q,
        q + d.len() <= data.len(),
        forall|x: Seq<u8>|
            #[trigger] flow(false, fed + x, d, t) == e2 + flow(
                false,
                data.subrange(q + d.len(), data.len() as int) + x,
                d,
                t,
            ),
{
    let n = data.len() as int;
    let u = data.subrange(pos, n);
    lemma_find_shift(data, d, pos, 0);
    lemma_find_bounds(data, d, pos);
    lemma_find_bounds(u, d, 0);
    let p = q - pos;
    assert(first_match(u, d) == Some(p));
    assert(u.subrange(0, p) =~= data.subrange(pos, q));
    assert(u.subrange(p + d.len(), u.len() as int) =~= data.subrange(q + d.len(), n));
    assert forall|x: Seq<u8>|
        #[trigger] flow(false, fed + x, d, t) == e2 + flow(
            false,
            data.subrange(q + d.len(), n) + x,
            d,
            t,
        ) by {
        lemma_flow_match(open, u, x, d, t, p);
        assert(flow(false, fed + x, d, t) == e + flow(open, u + x, d, t));
        assert(e + (opening(open) + lift(u.subrange(0, p) + t) + flow(
            false,
            u.subrange(p + d.len(), u.len() as int) + x,
            d,
            t,
        )) =~= e2 + flow(false, data.subrange(q + d.len(), n) + x, d, t));
    }
}

/// With no delimiter left in `data[pos..]`, all of it but the last
/// `d.len() - 1` bytes is written, and the segment stays open.
proof fn lemma_advance_skip(
    fed: Seq<u8>,
    e: Seq<Option<u8>>,
    e2: Seq<Option<u8>>,
    open: bool,
    data: Seq<u8>,
    pos: int,
    safe: int,
    d: Seq<u8>,
    t: Seq<u8>,
)
    requires
        0 <= pos < safe,
        safe + d.len() == data.len() + 1,
        d.len() > 0,
        find_from(data, d, pos) == -1,
        forall|x: Seq<u8>|
            #[trigger] flow(false, fed + x, d, t) == e + flow(
                open,
                data.subrange(pos, data.len() as int) + x,
                d,
                t,
            ),
        e2 == e + (opening(open) + lift(data.subrange(pos, safe))),
    ensures
        forall|x: Seq<u8>|
            #[trigger] flow(false, fed + x, d, t) == e2 + flow(
                true,
                data.subrange(safe, data.len() as int) + x,
                d,
                t,
            ),
{
    let n = data.len() as int;
    let u = data.subrange(pos, n);
    let k = safe - pos;
    lemma_find_shift(data, d, pos, 0);
    lemma_find_bounds(u, d, 0);
    assert(find_from(u, d, 0) == -1);
    assert forall|x: Seq<u8>|
        #[trigger] flow(false, fed + x, d, t) == e2 + flow(
            true,
            data.subrange(safe, n) + x,
            d,
            t,
        ) by {
        let ux = u + x;
        assert forall|j: int| 0 <= j < k implies !occurs_at(ux, d, j) by {
            assert(!occurs_at(u, d, j));
            assert(ux.subrange(j, j + d.len()) =~= u.subrange(j, j + d.len()));
        }
        lemma_flow_skip(open, ux, d, t, k);
        assert(ux.subrange(0, k) =~= data.subrange(pos, safe));
        assert(ux.subrange(k, ux.len() as int) =~= data.subrange(safe, n) + x);
        assert(flow(false, fed + x, d, t) == e + flow(open, ux, d, t));
        assert(e + (opening(open) + lift(data.subrange(pos, safe)) + flow(
            true,
            data.subrange(safe, n) + x,
            d,
            t,
        )) =~= e2 + flow(true, data.subrange(safe, n) + x, d, t));
    }
}

/// What the caller is to do next, in order.
pub enum Step {
    /// Take the process that receives the next segment.
    Acquire,
    /// Write these bytes to the process taken last.
    Write(Vec<u8>),
}

/// The events of one step.
pub open spec fn step_events(st: Step) -> Seq<Option<u8>> {
    match st {
        Step::Acquire => seq![None],
        Step::Write(b) => lift(b@),
    }
}

/// The events of a run of steps.
pub open spec fn steps_events(sts: Seq<Step>) -> Seq<Option<u8>>
    decreases sts.len(),
{
    if sts.len() == 0 {
        seq![]
    } else {
        steps_events(sts.drop_last()) + step_events(sts.last())
    }
}

proof fn lemma_steps_push(sts: Seq<Step>, st: Step)
    ensures
        steps_events(sts.push(st)) == steps_events(sts) + step_events(st),
{
    assert(sts.push(st).drop_last() =~= sts);
}

proof fn lemma_opening_steps(before: Seq<Step>, open: bool, sts: Seq<Step>, b: Seq<u8>)
    requires
        sts.len() > 0,
        step_events(sts.last()) == lift(b),
        sts.drop_last() == if open {
            before
        } else {
            before.push(Step::Acquire)
        },
    ensures
        steps_events(sts) == steps_events(before) + (opening(open) + lift(b)),
{
    if open {
        assert(steps_events(before) + lift(b) =~= steps_events(before) + (opening(open) + lift(b)));
    } else {
        lemma_steps_push(before, Step::Acquire);
        assert(steps_events(before) + seq![None] + lift(b) =~= steps_events(before) + (opening(
            open,
        ) + lift(b)));
    }
}

/// Appends `src[lo..hi]` to `out`.
fn append_range(out: &mut Vec<u8>, src: &[u8], lo: usize, hi: usize)
    requires
        lo <= hi <= src@.len(),
    ensures
        final(out)@ == old(out)@ + src@.subrange(lo as int, hi as int),
{
    let mut i = lo;
    while i < hi
        invariant
            lo <= i <= hi <= src@.len(),
            out@ == old(out)@ + src@.subrange(lo as int, i as int),
        decreases hi - i,
    {
        out.push(src[i]);
        i = i + 1;
        proof {
            assert(out@ =~= old(out)@ + src@.subrange(lo as int, i as int));
        }
    }
}

/// Whether `d` occurs in `s` at index `i`.
fn matches_at(s: &[u8], d: &[u8], i: usize) -> (r: bool)
    requires
        i + d@.len() <= s@.len(),
    ensures
        r == occurs_at(s@, d@, i as int),
{
    let n = s.len();
    let mut j: usize = 0;
    while j < d.len()
        invariant
            n == s@.len(),
            i + d@.len() <= s@.len(),
            j <= d@.len(),
            forall|k: int| 0 <= k < j ==> s@[i + k] == d@[k],
        decreases d@.len() - j,
    {
        assert(i + j < s@.len());
        if s[i + j] != d[j] {
            proof {
                assert(s@.subrange(i as int, i + d@.len())[j as int] != d@[j as int]);
            }
            return false;
        }
        j = j + 1;
    }
    proof {
        assert(s@.subrange(i as int, i + d@.len()) =~= d@);
    }
    true
}

/// The first index at or after `from` where the non-empty `d` occurs in `s`.
fn find_delim(s: &[u8], d: &[u8], from: usize) -> (r: Option<usize>)
    requires
        d@.len() > 0,
    ensures
        match r {
            Some(q) => find_from(s@, d@, from as int) == q,
            None => find_from(s@, d@, from as int) == -1,
        },
{
    if s.len() < d.len() {
        return None;
    }
    let n = s.len();
    let last = n - d.len();
    let mut i = from;
    while i <= last
        invariant
            n == s@.len(),
            last + d@.len() == s@.len(),
            d@.len() > 0,
            from <= i,
            find_from(s@, d@, from as int) == find_from(s@, d@, i as int),
        decreases last + 1 - i,
    {
        if matches_at(s, d, i) {
            return Some(i);
        }
        i = i + 1;
    }
    None
}

/// Splits a stream of bytes, fed in chunks of any size, at each occurrence of
/// a delimiter, and says which bytes go to which process. A delimiter that
/// straddles two chunks is found all the same: of the bytes that hold no
/// occurrence, those that could begin one are kept back until more arrive.
pub struct Splitter {
    delim: Vec<u8>,
    write_delim: Option<Vec<u8>>,
    pending: Vec<u8>,
    open: bool,
    fed: Ghost<Seq<u8>>,
    emitted: Ghost<Seq<Option<u8>>>,
}

impl Splitter {
    /// The delimiter that the input is split at.
    pub closed spec fn delim(&self) -> Seq<u8> {
        self.delim@
    }

    /// What closes each segment that a delimiter ended: the write delimiter if
    /// one was given, else the delimiter itself.
    pub closed spec fn terminator(&self) -> Seq<u8> {
        match self.write_delim {
            Some(w) => w@,
            None => self.delim@,
        }
    }

    /// All input fed so far.
    pub closed spec fn fed(&self) -> Seq<u8> {
        self.fed@
    }

    /// The events of all steps handed out so far.
    pub closed spec fn emitted(&self) -> Seq<Option<u8>> {
        self.emitted@
    }

    /// The steps handed out so far, followed by those that any further input
    /// would give, are those of the whole input; and fewer bytes than the
    /// delimiter are held back.
    pub closed spec fn wf(&self) -> bool {
        &&& self.delim@.len() > 0
        &&& self.pending@.len() < self.delim@.len()
        &&& forall|x: Seq<u8>|
            #[trigger] flow(false, self.fed@ + x, self.delim@, self.terminator()) == self.emitted@
                + flow(self.open, self.pending@ + x, self.delim@, self.terminator())
    }

    /// A splitter at `delim` that has seen no input. If `write_delim` is given,
    /// it replaces the delimiter at the end of each segment that is written.
    pub fn new(delim: Vec<u8>, write_delim: Option<Vec<u8>>) -> (r: Splitter)
        requires
            delim@.len() > 0,
        ensures
            r.wf(),
            r.delim() == delim@,
            r.terminator() == match write_delim {
                Some(w) => w@,
                None => delim@,
            },
            r.fed() == Seq::<u8>::empty(),
            r.emitted() == Seq::<Option<u8>>::empty(),
    {
        let r = Splitter {
            delim,
            write_delim,
            pending: Vec::new(),
            open: false,
            fed: Ghost(Seq::empty()),
            emitted: Ghost(Seq::empty()),
        };
        proof {
            assert forall|x: Seq<u8>|
                #[trigger] flow(false, r.fed@ + x, r.delim@, r.terminator()) == r.emitted@ + flow(
                    r.open,
                    r.pending@ + x,
                    r.delim@,
                    r.terminator(),
                ) by {
                assert(r.fed@ + x =~= x);
                assert(r.pending@ + x =~= x);
                assert(r.emitted@ + flow(r.open, x, r.delim@, r.terminator()) =~= flow(
                    r.open,
                    x,
                    r.delim@,
                    r.terminator(),
                ));
            }
        }
        r
    }

    /// Appends the terminator to `out`.
    fn push_terminator(&self, out: &mut Vec<u8>)
        ensures
            final(out)@ == old(out)@ + self.terminator(),
    {
        match &self.write_delim {
            Some(w) => append_range(out, w.as_slice(), 0, w.len()),
            None => append_range(out, self.delim.as_slice(), 0, self.delim.len()),
        }
        proof {
            assert(old(out)@ + self.terminator() =~= final(out)@);
        }
    }

    /// Takes in the next chunk of input and returns the steps that it allows
    /// now. All steps so far, followed by those that any further input gives,
    /// are the steps of the whole input, however it was cut into chunks.
    pub fn feed(&mut self, chunk: &[u8]) -> (r: Vec<Step>)
        requires
            old(self).wf(),
        ensures
            final(self).wf(),
            final(self).delim() == old(self).delim(),
            final(self).terminator() == old(self).terminator(),
            final(self).fed() == old(self).fed() + chunk@,
            final(self).emitted() == old(self).emitted() + steps_events(r@),
    {
        let ghost d = self.delim@;
        let ghost t = self.terminator();
        let ghost fed = self.fed@ + chunk@;
        let mut data: Vec<u8> = Vec::new();
        append_range(&mut data, self.pending.as_slice(), 0, self.pending.len());
        append_range(&mut data, chunk, 0, chunk.len());
        proof {
            assert(data@ =~= self.pending@ + chunk@);
            assert(data@.subrange(0, data@.len() as int) =~= data@);
            assert forall|x: Seq<u8>|
                #[trigger] flow(false, fed + x, d, t) == self.emitted@ + flow(
                    self.open,
                    data@.subrange(0, data@.len() as int) + x,
                    d,
                    t,
                ) by {
                assert(fed + x =~= self.fed@ + (chunk@ + x));
                assert(data@ + x =~= self.pending@ + (chunk@ + x));
                assert(flow(false, self.fed@ + (chunk@ + x), d, t) == self.emitted@ + flow(
                    self.open,
                    self.pending@ + (chunk@ + x),
                    d,
                    t,
                ));
            }
            assert(self.emitted@ + steps_events(Seq::<Step>::empty()) =~= self.emitted@);
        }
        let dl = self.delim.len();
        let n = data.len();
        let mut steps: Vec<Step> = Vec::new();
        let mut open = self.open;
        let mut pos: usize = 0;
        loop
            invariant
                d == self.delim@,
                t == self.terminator(),
                d.len() > 0,
                dl == d.len(),
                n == data@.len(),
                pos <= n,
                forall|x: Seq<u8>|
                    #[trigger] flow(false, fed + x, d, t) == self.emitted@ + steps_events(steps@)
                        + flow(open, data@.subrange(pos as int, n as int) + x, d, t),
            ensures
                n - pos < dl,
            decreases n - pos,
        {
            let ghost before = steps@;
            let ghost e = self.emitted@ + steps_events(before);
            proof {
                assert(self.emitted@ + steps_events(steps@) == e);
            }
            match find_delim(data.as_slice(), self.delim.as_slice(), pos) {
                Some(q) => {
                    proof {
                        lemma_find_bounds(data@, d, pos as int);
                    }
                    if !open {
                        steps.push(Step::Acquire);
                    }
                    let mut w: Vec<u8> = Vec::new();
                    append_range(&mut w, data.as_slice(), pos, q);
                    self.push_terminator(&mut w);
                    let ghost mid = steps@;
                    let ghost b = w@;
                    proof {
                        assert(b =~= data@.subrange(pos as int, q as int) + t);
                    }
                    steps.push(Step::Write(w));
                    proof {
                        assert(steps@.drop_last() =~= mid);
                        lemma_opening_steps(before, open, steps@, b);
                        assert(self.emitted@ + steps_events(steps@) =~= e + (opening(open) + lift(
                            b,
                        )));
                        lemma_advance_match(
                            fed,
                            e,
                            self.emitted@ + steps_events(steps@),
                            open,
                            data@,
                            pos as int,
                            q as int,
                            d,
                            t,
                        );
                    }
                    pos = q + dl;
                    open = false;
                },
                None => {
                    if n - pos < dl {
                        break;
                    }
                    let safe = n - (dl - 1);
                    if !open {
                        steps.push(Step::Acquire);
                    }
                    let mut w: Vec<u8> = Vec::new();
                    append_range(&mut w, data.as_slice(), pos, safe);
                    let ghost mid = steps@;
                    let ghost b = w@;
                    steps.push(Step::Write(w));
                    proof {
                        assert(steps@.drop_last() =~= mid);
                        lemma_opening_steps(before, open, steps@, b);
                        assert(self.emitted@ + steps_events(steps@) =~= e + (opening(open) + lift(
                            b,
                        )));
                        lemma_advance_skip(
                            fed,
                            e,
                            self.emitted@ + steps_events(steps@),
                            open,
                            data@,
                            pos as int,
                            safe as int,
                            d,
                            t,
                        );
                    }
                    pos = safe;
                    open = true;
                },
            }
        }
        let mut rest: Vec<u8> = Vec::new();
        append_range(&mut rest, data.as_slice(), pos, n);
        self.pending = rest;
        self.open = open;
        self.fed = Ghost(fed);
        self.emitted = Ghost(self.emitted@ + steps_events(steps@));
        steps
    }

    /// Ends the input and returns the last steps: the bytes held back, if
    /// any, go out as the final segment. All steps handed out, these included,
    /// are the deliveries of the whole input, each one opened by an `Acquire`.
    pub fn finish(self) -> (r: Vec<Step>)
        requires
            self.wf(),
        ensures
            self.emitted() + steps_events(r@) == events(
                deliveries(self.fed(), self.delim(), self.terminator()),
            ),
    {
        let ghost d = self.delim@;
        let ghost t = self.terminator();
        proof {
            assert(self.fed@ + Seq::<u8>::empty() =~= self.fed@);
            assert(self.pending@ + Seq::<u8>::empty() =~= self.pending@);
            assert(flow(false, self.fed@ + Seq::<u8>::empty(), d, t) == self.emitted@ + flow(
                self.open,
                self.pending@ + Seq::<u8>::empty(),
                d,
                t,
            ));
            lemma_flow_short(self.open, self.pending@, d, t);
            lemma_flow_events(self.fed@, d, t);
        }
        let mut steps: Vec<Step> = Vec::new();
        if self.pending.len() > 0 {
            if !self.open {
                steps.push(Step::Acquire);
            }
            let ghost mid = steps@;
            let ghost b = self.pending@;
            steps.push(Step::Write(self.pending));
            proof {
                assert(steps@.drop_last() =~= mid);
                lemma_opening_steps(Seq::empty(), self.open, steps@, b);
                assert(steps_events(Seq::<Step>::empty()) + (opening(self.open) + lift(b))
                    =~= opening(self.open) + lift(b));
            }
        } else {
            proof {
                assert(self.emitted@ + steps_events(steps@) =~= self.emitted@);
            }
        }
        steps
    }
}

} // verus!
