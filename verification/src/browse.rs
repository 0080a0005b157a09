//! Choosing and ordering the points shown by a search or on the timeline.
use crate::dates::{date_exists, days_in_month, time_valid};
use crate::model::{date_view, string_views, time_view, Point};
use crate::text::{from_chars, keep, matches_at, occurs_at, to_chars};
use vstd::prelude::*;

verus! {

/// `pat` occurs somewhere in `s` (always, for an empty `pat`), as `str::contains` says.
pub open spec fn contains_text(s: Seq<char>, pat: Seq<char>) -> bool {
    exists|i: int| occurs_at(s, pat, i)
}

/// The identifiers of the points whose text contains `needle`, in order.
pub open spec fn found_ids(ps: Seq<Point>, needle: Seq<char>) -> Seq<Seq<char>>
    decreases ps.len(),
{
    if ps.len() == 0 {
        Seq::empty()
    } else if contains_text(ps.last().content@, needle) {
        found_ids(ps.drop_last(), needle).push(ps.last().id@)
    } else {
        found_ids(ps.drop_last(), needle)
    }
}

/// Whether `needle` occurs in `s`.
pub fn text_contains(s: &Vec<char>, needle: &Vec<char>) -> (r: bool)
    ensures
        r == contains_text(s@, needle@),
{
    let mut i: usize = 0;
    while i < s.len()
        invariant
            i <= s.len(),
            forall|j: int| 0 <= j < i ==> !occurs_at(s@, needle@, j),
        decreases s.len() - i,
    {
        if matches_at(s, needle, i) {
            return true;
        }
        i = i + 1;
    }
    if matches_at(s, needle, s.len()) {
        return true;
    }
    assert forall|j: int| !occurs_at(s@, needle@, j) by {
        if j > s.len() {
            assert(!occurs_at(s@, needle@, j));
        }
    }
    false
}

/// The identifiers of the points whose text contains `needle`, in the order of the points.
pub fn search_point_ids(points: &Vec<Point>, needle: &str) -> (r: Vec<String>)
    ensures
        string_views(r@) == found_ids(points@, needle@),
{
    let n = to_chars(needle);
    let mut r: Vec<String> = Vec::new();
    let mut i: usize = 0;
    while i < points.len()
        invariant
            i <= points.len(),
            n@ == needle@,
            string_views(r@) == found_ids(points@.take(i as int), needle@),
        decreases points.len() - i,
    {
        assert(points@.take(i + 1).drop_last() =~= points@.take(i as int));
        assert(points@.take(i + 1).last() == points@[i as int]);
        if text_contains(&to_chars(points[i].content.as_str()), &n) {
            let ghost before = string_views(r@);
            r.push(from_chars(&to_chars(points[i].id.as_str())));
            assert(string_views(r@) =~= before.push(points@[i as int].id@));
        }
        i = i + 1;
    }
    assert(points@.take(points.len() as int) =~= points@);
    r
}

/// The order of the timeline: by date, then by time (a leap second after its second 59), a point
/// without a time first.
pub open spec fn timeline_le(a: Point, b: Point) -> bool {
    let da = date_view(a.date)->0;
    let db = date_view(b.date)->0;
    if da != db {
        da.0 < db.0 || (da.0 == db.0 && (da.1 < db.1 || (da.1 == db.1 && da.2 < db.2)))
    } else {
        match (time_view(a.time), time_view(b.time)) {
            (None, _) => true,
            (Some(_), None) => false,
            (Some(ta), Some(tb)) => ta.0 < tb.0 || (ta.0 == tb.0 && (ta.1 < tb.1 || (ta.1 == tb.1
                && (ta.2 < tb.2 || (ta.2 == tb.2 && (!ta.3 || tb.3)))))),
        }
    }
}

/// `x` put into `s` after every element that is not after it, as a stable sort places it.
pub open spec fn insert_sorted(s: Seq<Point>, x: Point) -> Seq<Point>
    decreases s.len(),
{
    if s.len() == 0 {
        seq![x]
    } else if timeline_le(s.last(), x) {
        s.push(x)
    } else {
        insert_sorted(s.drop_last(), x).push(s.last())
    }
}

/// The points with a date, in the order of a stable sort by date and time.
pub open spec fn timeline(ps: Seq<Point>) -> Seq<Point>
    decreases ps.len(),
{
    if ps.len() == 0 {
        Seq::empty()
    } else if ps.last().date is Some {
        insert_sorted(timeline(ps.drop_last()), ps.last())
    } else {
        timeline(ps.drop_last())
    }
}

/// The identifiers of points.
pub open spec fn point_ids(ps: Seq<Point>) -> Seq<Seq<char>> {
    ps.map_values(|p: Point| p.id@)
}

fn date_key(p: &Point) -> (r: (i32, u32, u32))
    requires
        p.date is Some,
    ensures
        r == date_view(p.date)->0,
{
    match &p.date {
        Some(d) => (d.year(), d.month(), d.day()),
        None => (0, 0, 0),
    }
}

fn timeline_le_exec(a: &Point, b: &Point) -> (r: bool)
    requires
        a.date is Some,
        b.date is Some,
    ensures
        r == timeline_le(*a, *b),
{
    let da = date_key(a);
    let db = date_key(b);
    if da.0 != db.0 || da.1 != db.1 || da.2 != db.2 {
        da.0 < db.0 || (da.0 == db.0 && (da.1 < db.1 || (da.1 == db.1 && da.2 < db.2)))
    } else {
        match (&a.time, &b.time) {
            (None, _) => true,
            (Some(_), None) => false,
            (Some(ta), Some(tb)) => {
                let (h1, m1, s1, l1) = (ta.hour(), ta.minute(), ta.second(), ta.is_leap_second());
                let (h2, m2, s2, l2) = (tb.hour(), tb.minute(), tb.second(), tb.is_leap_second());
                h1 < h2 || (h1 == h2 && (m1 < m2 || (m1 == m2 && (s1 < s2 || (s1 == s2 && (!l1
                    || l2))))))
            },
        }
    }
}

/// A copy of a point's identifier and order key, standing for the point in the sort.
fn copy_point(p: &Point) -> (r: Point)
    ensures
        r.id@ == p.id@,
        date_view(r.date) == date_view(p.date),
        time_view(r.time) == time_view(p.time),
{
    let mut r = Point::default();
    r.id = from_chars(&to_chars(p.id.as_str()));
    r.date = match &p.date {
        Some(d) => Some(d.copy()),
        None => None,
    };
    r.time = match &p.time {
        Some(t) => Some(t.copy()),
        None => None,
    };
    r
}

/// The key of a point in the sort: identifier, date and time.
pub open spec fn sort_key(p: Point) -> (Seq<char>, Option<(i32, u32, u32)>, Option<(u32, u32, u32, bool)>) {
    (p.id@, date_view(p.date), time_view(p.time))
}

/// The keys of points.
pub open spec fn sort_keys(ps: Seq<Point>) -> Seq<(Seq<char>, Option<(i32, u32, u32)>, Option<(u32, u32, u32, bool)>)> {
    ps.map_values(|p: Point| sort_key(p))
}

/// Points with the same keys sort alike.
proof fn lemma_insert_keys(s: Seq<Point>, t: Seq<Point>, x: Point, y: Point)
    requires
        sort_keys(s) == sort_keys(t),
        sort_key(x) == sort_key(y),
    ensures
        sort_keys(insert_sorted(s, x)) == sort_keys(insert_sorted(t, y)),
    decreases s.len(),
{
    assert(s.len() == t.len()) by {
        assert(sort_keys(s).len() == s.len());
        assert(sort_keys(t).len() == t.len());
    }
    if s.len() > 0 {
        assert(sort_key(s.last()) == sort_keys(s)[s.len() - 1]);
        assert(sort_key(t.last()) == sort_keys(t)[t.len() - 1]);
        assert(sort_keys(s.drop_last()) =~= sort_keys(s).drop_last());
        assert(sort_keys(t.drop_last()) =~= sort_keys(t).drop_last());
        lemma_insert_keys(s.drop_last(), t.drop_last(), x, y);
        if timeline_le(s.last(), x) {
            assert(sort_keys(s.push(x)) =~= sort_keys(s).push(sort_key(x)));
            assert(sort_keys(t.push(y)) =~= sort_keys(t).push(sort_key(y)));
        } else {
            assert(sort_keys(insert_sorted(s.drop_last(), x).push(s.last())) =~= sort_keys(
                insert_sorted(s.drop_last(), x),
            ).push(sort_key(s.last())));
            assert(sort_keys(insert_sorted(t.drop_last(), y).push(t.last())) =~= sort_keys(
                insert_sorted(t.drop_last(), y),
            ).push(sort_key(t.last())));
        }
    } else {
        assert(sort_keys(seq![x]) =~= seq![sort_key(x)]);
        assert(sort_keys(seq![y]) =~= seq![sort_key(y)]);
    }
}

/// Inserts `x` into the sorted `s` after every element not after it.
fn insert_point(s: &mut Vec<Point>, x: Point)
    requires
        x.date is Some,
        forall|k: int| 0 <= k < old(s).len() ==> (#[trigger] old(s)@[k]).date is Some,
    ensures
        sort_keys(final(s)@) == sort_keys(insert_sorted(old(s)@, x)),
        forall|k: int| 0 <= k < final(s).len() ==> (#[trigger] final(s)@[k]).date is Some,
{
    let mut j: usize = s.len();
    let ghost s0 = s@;
    assert(s0.take(s0.len() as int) =~= s0);
    while j > 0
        invariant
            j <= s0.len() == s.len(),
            s@ == s0,
            x.date is Some,
            forall|k: int| 0 <= k < s0.len() ==> (#[trigger] s0[k]).date is Some,
            forall|k: int| j <= k < s0.len() ==> !timeline_le(#[trigger] s0[k], x),
            insert_sorted(s0, x) == insert_sorted(s0.take(j as int), x) + s0.skip(j as int),
        ensures
            j == 0 || timeline_le(s0[j - 1], x),
            insert_sorted(s0, x) == insert_sorted(s0.take(j as int), x) + s0.skip(j as int),
            j <= s0.len() == s.len(),
            s@ == s0,
        decreases j,
    {
        if timeline_le_exec(&s[j - 1], &x) {
            break;
        }
        proof {
            let t = s0.take(j as int);
            assert(t.last() == s0[j - 1]);
            assert(t.drop_last() =~= s0.take(j - 1));
            assert(insert_sorted(t, x) == insert_sorted(s0.take(j - 1), x).push(s0[j - 1]));
            assert(insert_sorted(s0.take(j - 1), x).push(s0[j - 1]) + s0.skip(j as int)
                =~= insert_sorted(s0.take(j - 1), x) + s0.skip(j - 1));
        }
        j = j - 1;
    }
    proof {
        let t = s0.take(j as int);
        if j == 0 {
            assert(t =~= Seq::<Point>::empty());
        } else {
            assert(t.last() == s0[j - 1]);
        }
        assert(insert_sorted(t, x) =~= t.push(x));
        assert(insert_sorted(s0, x) =~= s0.insert(j as int, x));
    }
    let ghost xv = x;
    s.insert(j, x);
    assert(s@ =~= s0.insert(j as int, xv));
}

/// The identifiers of the points that have a date, ordered by date and time as a stable sort
/// orders them (points with equal keys keep their order).
pub fn timeline_point_ids(points: &Vec<Point>) -> (r: Vec<String>)
    ensures
        string_views(r@) == point_ids(timeline(points@)),
{
    let mut sorted: Vec<Point> = Vec::new();
    let mut i: usize = 0;
    while i < points.len()
        invariant
            i <= points.len(),
            sort_keys(sorted@) == sort_keys(timeline(points@.take(i as int))),
            forall|k: int| 0 <= k < sorted.len() ==> (#[trigger] sorted@[k]).date is Some,
        decreases points.len() - i,
    {
        assert(points@.take(i + 1).drop_last() =~= points@.take(i as int));
        assert(points@.take(i + 1).last() == points@[i as int]);
        if points[i].date.is_some() {
            let ghost before = sorted@;
            let x = copy_point(&points[i]);
            insert_point(&mut sorted, x);
            proof {
                lemma_timeline_keys_eq(before, timeline(points@.take(i as int)), x, points@[i as int]);
            }
        }
        i = i + 1;
    }
    assert(points@.take(points.len() as int) =~= points@);
    let mut r: Vec<String> = Vec::new();
    let mut k: usize = 0;
    while k < sorted.len()
        invariant
            k <= sorted.len(),
            sort_keys(sorted@) == sort_keys(timeline(points@)),
            string_views(r@) == point_ids(sorted@).take(k as int),
        decreases sorted.len() - k,
    {
        let ghost before = string_views(r@);
        r.push(from_chars(&to_chars(sorted[k].id.as_str())));
        assert(string_views(r@) =~= before.push(sorted@[k as int].id@));
        assert(point_ids(sorted@).take(k + 1) =~= point_ids(sorted@).take(k as int).push(
            sorted@[k as int].id@,
        ));
        k = k + 1;
    }
    assert(point_ids(sorted@).take(sorted.len() as int) =~= point_ids(sorted@));
    assert(point_ids(sorted@) =~= point_ids(timeline(points@))) by {
        assert(sort_keys(sorted@).len() == sorted@.len());
        assert(sort_keys(timeline(points@)).len() == timeline(points@).len());
        assert forall|k: int| 0 <= k < sorted@.len() implies point_ids(sorted@)[k] == point_ids(
            timeline(points@),
        )[k] by {
            assert(sort_keys(sorted@)[k] == sort_keys(timeline(points@))[k]);
        }
    }
    r
}

proof fn lemma_timeline_keys_eq(s: Seq<Point>, t: Seq<Point>, x: Point, y: Point)
    requires
        sort_keys(s) == sort_keys(t),
        sort_key(x) == sort_key(y),
    ensures
        sort_keys(insert_sorted(s, x)) == sort_keys(insert_sorted(t, y)),
{
    lemma_insert_keys(s, t, x, y);
}

} // verus!

verus! {

/// The test that a point has a date.
pub open spec fn dated() -> spec_fn(Point) -> bool {
    |p: Point| p.date is Some
}

/// Each point comes no later than the next ones in the order of the timeline.
pub open spec fn timeline_sorted(s: Seq<Point>) -> bool {
    forall|i: int, j: int| 0 <= i < j < s.len() ==> timeline_le(#[trigger] s[i], #[trigger] s[j])
}

/// Every point has a date.
pub open spec fn all_dated(s: Seq<Point>) -> bool {
    forall|i: int| 0 <= i < s.len() ==> (#[trigger] s[i]).date is Some
}

proof fn lemma_le_total(a: Point, b: Point)
    requires
        a.date is Some,
        b.date is Some,
    ensures
        timeline_le(a, b) || timeline_le(b, a),
{
}

proof fn lemma_le_trans(a: Point, b: Point, c: Point)
    requires
        a.date is Some,
        b.date is Some,
        c.date is Some,
        timeline_le(a, b),
        timeline_le(b, c),
    ensures
        timeline_le(a, c),
{
}

proof fn lemma_insert_sorted(s: Seq<Point>, x: Point)
    requires
        timeline_sorted(s),
        all_dated(s),
        x.date is Some,
    ensures
        timeline_sorted(insert_sorted(s, x)),
        all_dated(insert_sorted(s, x)),
        insert_sorted(s, x).to_multiset() == s.to_multiset().insert(x),
        forall|k: int|
            0 <= k < insert_sorted(s, x).len() ==> #[trigger] insert_sorted(s, x)[k] == x
                || s.contains(insert_sorted(s, x)[k]),
    decreases s.len(),
{
    broadcast use vstd::seq_lib::group_to_multiset_ensures;

    let r = insert_sorted(s, x);
    if s.len() == 0 {
        assert(r == seq![x]);
        assert(seq![x] =~= Seq::<Point>::empty().push(x));
        assert(Seq::<Point>::empty().to_multiset() =~= vstd::multiset::Multiset::<Point>::empty());
    } else if timeline_le(s.last(), x) {
        let n = s.len();
        assert forall|i: int, j: int| 0 <= i < j < r.len() implies timeline_le(
            #[trigger] r[i],
            #[trigger] r[j],
        ) by {
            if j < n {
                assert(r[i] == s[i] && r[j] == s[j]);
            } else if i == n - 1 {
                assert(r[i] == s.last());
            } else {
                assert(r[i] == s[i]);
                assert(timeline_le(s[i], s[n - 1]));
                assert(s[n - 1].date is Some);
                lemma_le_trans(s[i], s[n - 1], x);
            }
        }
        assert forall|k: int| 0 <= k < r.len() implies (#[trigger] r[k]).date is Some by {
            if k < n {
                assert(r[k] == s[k]);
            }
        }
        assert forall|k: int| 0 <= k < r.len() implies #[trigger] r[k] == x || s.contains(r[k]) by {
            if k < n {
                assert(r[k] == s[k]);
            }
        }
    } else {
        let n = s.len();
        let d = s.drop_last();
        let last = s.last();
        assert forall|i: int, j: int| 0 <= i < j < d.len() implies timeline_le(
            #[trigger] d[i],
            #[trigger] d[j],
        ) by {
            assert(d[i] == s[i] && d[j] == s[j]);
        }
        assert forall|k: int| 0 <= k < d.len() implies (#[trigger] d[k]).date is Some by {
            assert(d[k] == s[k]);
        }
        lemma_insert_sorted(d, x);
        let r0 = insert_sorted(d, x);
        assert(r == r0.push(last));
        assert(last.date is Some) by {
            assert(s[n - 1].date is Some);
        }
        lemma_le_total(last, x);
        assert forall|i: int| 0 <= i < r0.len() implies timeline_le(#[trigger] r0[i], last) by {
            if r0[i] != x {
                assert(d.contains(r0[i]));
                let m = choose|m: int| 0 <= m < d.len() && d[m] == r0[i];
                assert(s[m] == d[m]);
                assert(timeline_le(s[m], s[n - 1]));
            }
        }
        assert forall|i: int, j: int| 0 <= i < j < r.len() implies timeline_le(
            #[trigger] r[i],
            #[trigger] r[j],
        ) by {
            assert(r[i] == r0[i]);
            if j < r0.len() {
                assert(r[j] == r0[j]);
            } else {
                assert(r[j] == last);
            }
        }
        assert forall|k: int| 0 <= k < r.len() implies (#[trigger] r[k]).date is Some by {
            if k < r0.len() {
                assert(r[k] == r0[k]);
            }
        }
        assert forall|k: int| 0 <= k < r.len() implies #[trigger] r[k] == x || s.contains(r[k]) by {
            if k < r0.len() {
                assert(r[k] == r0[k]);
                if r0[k] != x {
                    assert(d.contains(r0[k]));
                    let m = choose|m: int| 0 <= m < d.len() && d[m] == r0[k];
                    assert(s[m] == d[m]);
                }
            } else {
                assert(r[k] == s[n - 1]);
            }
        }
        assert(d.push(last) =~= s);
        assert(r.to_multiset() =~= s.to_multiset().insert(x));
    }
}

/// The timeline holds the points that have a date, each as often as they come, in
/// chronological order: by date, then by time, a point without a time first.
pub proof fn law_timeline_in_order(ps: Seq<Point>)
    ensures
        timeline_sorted(timeline(ps)),
        all_dated(timeline(ps)),
        timeline(ps).to_multiset() == keep(ps, dated()).to_multiset(),
    decreases ps.len(),
{
    broadcast use vstd::seq_lib::group_to_multiset_ensures;

    if ps.len() == 0 {
        assert(timeline(ps) =~= Seq::<Point>::empty());
    } else {
        law_timeline_in_order(ps.drop_last());
        if ps.last().date is Some {
            lemma_insert_sorted(timeline(ps.drop_last()), ps.last());
        }
    }
}

/// A date's place among days, counting every month as 31 days: a later date gets a larger
/// number.
pub open spec fn day_number(d: (i32, u32, u32)) -> int {
    (d.0 * 12 + d.1) * 31 + d.2
}

/// Twice the second of the day, plus one for a leap second (which comes after its second 59
/// and before the next minute).
pub open spec fn half_seconds(t: (u32, u32, u32, bool)) -> int {
    2 * (t.0 * 3600 + t.1 * 60 + t.2) + if t.3 {
        1int
    } else {
        0int
    }
}

/// The timeline is chronological: a point on an earlier day comes first; on the same day a
/// point without a time comes first, and two points with times come in the order of their
/// times of day. Dates that get the same day number are the same date.
pub proof fn law_timeline_chronological(a: Point, b: Point)
    requires
        date_view(a.date) matches Some(x) && date_exists(x.0 as int, x.1 as int, x.2 as int),
        date_view(b.date) matches Some(x) && date_exists(x.0 as int, x.1 as int, x.2 as int),
        time_view(a.time) matches Some(t) ==> time_valid(t),
        time_view(b.time) matches Some(t) ==> time_valid(t),
    ensures
        ({
            let da = date_view(a.date)->0;
            let db = date_view(b.date)->0;
            &&& day_number(da) == day_number(db) ==> da == db
            &&& day_number(da) < day_number(db) ==> timeline_le(a, b) && !timeline_le(b, a)
            &&& da == db && a.time is None ==> timeline_le(a, b)
            &&& da == db && a.time is Some && b.time is None ==> !timeline_le(a, b)
            &&& da == db && a.time is Some && b.time is Some ==> (timeline_le(a, b) <==> half_seconds(
                time_view(a.time)->0,
            ) <= half_seconds(time_view(b.time)->0))
        }),
{
    let da = date_view(a.date)->0;
    let db = date_view(b.date)->0;
    assert(days_in_month(da.0 as int, da.1 as int) <= 31);
    assert(days_in_month(db.0 as int, db.1 as int) <= 31);
    let ya = da.0 * 12 + da.1;
    let yb = db.0 * 12 + db.1;
    assert(day_number(da) == ya * 31 + da.2);
    assert(day_number(db) == yb * 31 + db.2);
    if ya < yb {
        assert(day_number(da) < day_number(db));
    } else if yb < ya {
        assert(day_number(db) < day_number(da));
    }
    if da.0 < db.0 {
        assert(ya < yb);
    } else if db.0 < da.0 {
        assert(yb < ya);
    }
}

/// The test that `needle` stands in a point's text, from some index on.
pub open spec fn text_holds(needle: Seq<char>) -> spec_fn(Point) -> bool {
    |p: Point|
        exists|i: int|
            0 <= i && i + needle.len() <= p.content@.len() && #[trigger] p.content@.subrange(
                i,
                i + needle.len(),
            ) == needle
}

/// A search finds exactly the points whose text holds the needle, in their order, by their
/// identifiers.
pub proof fn law_search_finds_holding_texts(ps: Seq<Point>, needle: Seq<char>)
    ensures
        found_ids(ps, needle) == point_ids(keep(ps, text_holds(needle))),
    decreases ps.len(),
{
    if ps.len() > 0 {
        let d = ps.drop_last();
        let x = ps.last();
        law_search_finds_holding_texts(d, needle);
        assert(contains_text(x.content@, needle) == text_holds(needle)(x)) by {
            if contains_text(x.content@, needle) {
                let i = choose|i: int| occurs_at(x.content@, needle, i);
                assert(x.content@.subrange(i, i + needle.len()) == needle);
            }
            if text_holds(needle)(x) {
                let i = choose|i: int|
                    0 <= i && i + needle.len() <= x.content@.len() && #[trigger] x.content@.subrange(
                        i,
                        i + needle.len(),
                    ) == needle;
                assert(occurs_at(x.content@, needle, i));
            }
        }
        if text_holds(needle)(x) {
            assert(point_ids(keep(d, text_holds(needle)).push(x)) =~= point_ids(
                keep(d, text_holds(needle)),
            ).push(x.id@));
        }
    } else {
        assert(point_ids(keep(ps, text_holds(needle))) =~= Seq::<Seq<char>>::empty());
    }
}

/// Points that are dated and already in timeline order keep their order on the timeline: the
/// sort is stable, so points with the same date and time stay as they came.
pub proof fn law_timeline_keeps_sorted_points(ps: Seq<Point>)
    requires
        all_dated(ps),
        timeline_sorted(ps),
    ensures
        timeline(ps) == ps,
    decreases ps.len(),
{
    if ps.len() > 0 {
        let d = ps.drop_last();
        assert(all_dated(d)) by {
            assert forall|i: int| 0 <= i < d.len() implies (#[trigger] d[i]).date is Some by {
                assert(d[i] == ps[i]);
            }
        }
        assert(timeline_sorted(d)) by {
            assert forall|i: int, j: int| 0 <= i < j < d.len() implies timeline_le(
                #[trigger] d[i],
                #[trigger] d[j],
            ) by {
                assert(d[i] == ps[i] && d[j] == ps[j]);
            }
        }
        law_timeline_keeps_sorted_points(d);
        assert(ps[ps.len() - 1].date is Some);
        if d.len() > 0 {
            assert(timeline_le(ps[d.len() - 1], ps[ps.len() - 1]));
            assert(d.last() == ps[d.len() - 1]);
            assert(d.push(ps.last()) =~= ps);
        } else {
            assert(seq![ps.last()] =~= ps);
        }
    }
}

} // verus!
