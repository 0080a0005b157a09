//! Exporting titles as plain text.
use crate::dates::date_text;
use crate::model::{date_view, image_views, string_views, Point, Title};
use crate::text::{
    append_chars, copy_chars, eq_chars, from_chars, join_chars, join_lines, join_lines_chars,
    join_with, split_chars, split_on, to_chars, views,
};
use vstd::prelude::*;

verus! {

/// What an export includes besides the titles' names and the points' texts.
pub struct ExportOptions {
    pub include_images: bool,
    pub include_sources: bool,
    pub include_dates: bool,
}

/// Every occurrence of `pat` taken out, scanning from the left, as `str::replace(pat, "")` does.
pub open spec fn without(s: Seq<char>, pat: Seq<char>) -> Seq<char> {
    join_with(split_on(s, pat), Seq::empty())
}

/// A point's text with the markers `[!l]`, `[!i]`, `[!u]`, `[!h]` and `[!H]` taken out, in this
/// order.
pub open spec fn stripped(s: Seq<char>) -> Seq<char> {
    without(
        without(without(without(without(s, "[!l]"@), "[!i]"@), "[!u]"@), "[!h]"@),
        "[!H]"@,
    )
}

fn without_chars(s: &Vec<char>, pat: &str) -> (r: Vec<char>)
    requires
        pat@.len() > 0,
    ensures
        r@ == without(s@, pat@),
{
    let p = to_chars(pat);
    let parts = split_chars(s, &p);
    let empty: Vec<char> = Vec::new();
    join_chars(&parts, &empty)
}

/// A point's text without its style markers.
pub fn strip_markup(content: &str) -> (r: String)
    ensures
        r@ == stripped(content@),
{
    proof {
        reveal_strlit("[!l]");
        reveal_strlit("[!i]");
        reveal_strlit("[!u]");
        reveal_strlit("[!h]");
        reveal_strlit("[!H]");
    }
    let c = to_chars(content);
    let a = without_chars(&c, "[!l]");
    let b = without_chars(&a, "[!i]");
    let d = without_chars(&b, "[!u]");
    let e = without_chars(&d, "[!h]");
    let f = without_chars(&e, "[!H]");
    from_chars(&f)
}

/// The export lines of images: `Image: path`, then `Image description: description` when the
/// description is not empty.
pub open spec fn image_export_lines(ims: Seq<(Seq<char>, Seq<char>)>) -> Seq<Seq<char>>
    decreases ims.len(),
{
    if ims.len() == 0 {
        Seq::empty()
    } else {
        image_export_lines(ims.drop_last()) + seq!["Image: "@ + ims.last().0] + if ims.last().1.len()
            > 0 {
            seq!["Image description: "@ + ims.last().1]
        } else {
            Seq::empty()
        }
    }
}

/// The export lines of a point: its source, its images, its date (each when included and
/// present) and its text without markers.
pub open spec fn point_export_lines(p: Point, o: ExportOptions) -> Seq<Seq<char>> {
    (if o.include_sources && p.source@.len() > 0 {
        seq!["Source: "@ + p.source@]
    } else {
        Seq::empty()
    }) + (if o.include_images {
        image_export_lines(image_views(p.images@))
    } else {
        Seq::empty()
    }) + (match date_view(p.date) {
        Some(d) => if o.include_dates {
            seq![date_text(d.0 as int, d.1 as int, d.2 as int)]
        } else {
            Seq::empty()
        },
        None => Seq::empty(),
    }) + seq![stripped(p.content@)]
}

/// The index of the first point with identifier `id`, or -1.
pub open spec fn find_point(ps: Seq<Point>, id: Seq<char>) -> int
    decreases ps.len(),
{
    if ps.len() == 0 {
        -1
    } else {
        let r = find_point(ps.drop_last(), id);
        if r >= 0 {
            r
        } else if ps.last().id@ == id {
            ps.len() - 1
        } else {
            -1
        }
    }
}

/// The export lines of the points with the given identifiers, in order.
pub open spec fn points_export_lines(ids: Seq<Seq<char>>, ps: Seq<Point>, o: ExportOptions) -> Seq<
    Seq<char>,
>
    decreases ids.len(),
{
    if ids.len() == 0 {
        Seq::empty()
    } else {
        points_export_lines(ids.drop_last(), ps, o) + point_export_lines(
            ps[find_point(ps, ids.last())],
            o,
        )
    }
}

/// The export lines of a title: its name, its image (when included and set) and its points.
pub open spec fn title_export_lines(t: Title, ps: Seq<Point>, o: ExportOptions) -> Seq<Seq<char>> {
    seq![t.name@] + (if o.include_images && t.image.path@.len() > 0 {
        seq!["Title image: "@ + t.image.path@] + if t.image.description@.len() > 0 {
            seq!["Title image description: "@ + t.image.description@]
        } else {
            Seq::empty()
        }
    } else {
        Seq::empty()
    }) + points_export_lines(string_views(t.point_ids@), ps, o)
}

/// Every point of the title is among the points.
pub open spec fn points_known(t: Title, ps: Seq<Point>) -> bool {
    forall|k: int| 0 <= k < t.point_ids.len() ==> find_point(ps, (#[trigger] t.point_ids@[k])@) >= 0
}

fn find_point_index(ps: &Vec<Point>, id: &Vec<char>) -> (r: Option<usize>)
    ensures
        match r {
            Some(i) => i as int == find_point(ps@, id@) && i < ps.len(),
            None => find_point(ps@, id@) == -1,
        },
{
    let mut i: usize = 0;
    while i < ps.len()
        invariant
            i <= ps.len(),
            find_point(ps@.take(i as int), id@) == -1,
        decreases ps.len() - i,
    {
        assert(ps@.take(i + 1).drop_last() =~= ps@.take(i as int));
        assert(ps@.take(i + 1).last() == ps@[i as int]);
        if eq_chars(&to_chars(ps[i].id.as_str()), id) {
            proof {
                lemma_find_point_prefix(ps@, id@, i + 1);
            }
            return Some(i);
        }
        i = i + 1;
    }
    assert(ps@.take(ps.len() as int) =~= ps@);
    None
}

proof fn lemma_find_point_prefix(ps: Seq<Point>, id: Seq<char>, i: int)
    requires
        0 <= i <= ps.len(),
    ensures
        find_point(ps.take(i), id) >= 0 ==> find_point(ps, id) == find_point(ps.take(i), id),
    decreases ps.len() - i,
{
    if i < ps.len() {
        lemma_find_point_prefix(ps, id, i + 1);
        assert(ps.take(i + 1).drop_last() =~= ps.take(i));
    } else {
        assert(ps.take(i) =~= ps);
    }
}

fn prefixed(prefix: &str, s: &String) -> (r: Vec<char>)
    ensures
        r@ == prefix@ + s@,
{
    let mut r = to_chars(prefix);
    append_chars(&mut r, &to_chars(s.as_str()));
    r
}

fn push_line(out: &mut Vec<Vec<char>>, l: Vec<char>)
    ensures
        views(final(out)@) == views(old(out)@).push(l@),
{
    let ghost before = views(out@);
    out.push(l);
    assert(views(out@) =~= before.push(l@));
}

/// The export lines of one point.
fn export_point(p: &Point, options: &ExportOptions) -> (out: Vec<Vec<char>>)
    ensures
        views(out@) == point_export_lines(*p, *options),
{
    let mut out: Vec<Vec<char>> = Vec::new();
    if options.include_sources && !p.source.as_str().is_empty() {
        push_line(&mut out, prefixed("Source: ", &p.source));
    }
    let ghost after_source = views(out@);
    if options.include_images {
        let mut j: usize = 0;
        assert(after_source + image_export_lines(image_views(p.images@).take(0)) =~= after_source);
        while j < p.images.len()
            invariant
                j <= p.images.len(),
                views(out@) == after_source + image_export_lines(
                    image_views(p.images@).take(j as int),
                ),
            decreases p.images.len() - j,
        {
            assert(image_views(p.images@).take(j + 1).drop_last() =~= image_views(p.images@).take(
                j as int,
            ));
            assert(image_views(p.images@).take(j + 1).last() == (p.images@[j as int].path@, p.images@[j as int].description@));
            push_line(&mut out, prefixed("Image: ", &p.images[j].path));
            if !p.images[j].description.as_str().is_empty() {
                push_line(&mut out, prefixed("Image description: ", &p.images[j].description));
            }
            j = j + 1;
        }
        assert(image_views(p.images@).take(p.images.len() as int) =~= image_views(p.images@));
    }
    if options.include_dates {
        match &p.date {
            Some(d) => {
                push_line(&mut out, to_chars(d.to_text().as_str()));
            },
            None => {},
        }
    }
    push_line(&mut out, to_chars(strip_markup(p.content.as_str()).as_str()));
    assert(views(out@) =~= point_export_lines(*p, *options));
    out
}

/// The text that exports a title: its lines joined by newlines.
pub fn export_title(title: &Title, points: &Vec<Point>, options: &ExportOptions) -> (r: String)
    requires
        points_known(*title, points@),
    ensures
        r@ == join_lines(title_export_lines(*title, points@, *options)),
{
    let mut out: Vec<Vec<char>> = Vec::new();
    push_line(&mut out, to_chars(title.name.as_str()));
    if options.include_images && !title.image.path.as_str().is_empty() {
        push_line(&mut out, prefixed("Title image: ", &title.image.path));
        if !title.image.description.as_str().is_empty() {
            push_line(&mut out, prefixed("Title image description: ", &title.image.description));
        }
    }
    let ghost head = views(out@);
    assert(head =~= seq![title.name@] + (if options.include_images && title.image.path@.len() > 0 {
        seq!["Title image: "@ + title.image.path@] + if title.image.description@.len() > 0 {
            seq!["Title image description: "@ + title.image.description@]
        } else {
            Seq::empty()
        }
    } else {
        Seq::empty()
    }));
    let ghost ids = string_views(title.point_ids@);
    let mut i: usize = 0;
    assert(head + points_export_lines(ids.take(0), points@, *options) =~= head);
    while i < title.point_ids.len()
        invariant
            i <= title.point_ids.len(),
            ids == string_views(title.point_ids@),
            points_known(*title, points@),
            views(out@) == head + points_export_lines(ids.take(i as int), points@, *options),
        decreases title.point_ids.len() - i,
    {
        assert(ids.take(i + 1).drop_last() =~= ids.take(i as int));
        assert(ids.take(i + 1).last() == title.point_ids@[i as int]@);
        let idc = to_chars(title.point_ids[i].as_str());
        let k = find_point_index(points, &idc);
        assert(find_point(points@, title.point_ids@[i as int]@) >= 0);
        let k = match k {
            Some(k) => k,
            None => {
                return String::new();
            },
        };
        let p = &points[k];
        let ghost base = views(out@);
        let lines = export_point(p, options);
        let mut j: usize = 0;
        while j < lines.len()
            invariant
                j <= lines.len(),
                views(out@) == base + views(lines@).take(j as int),
            decreases lines.len() - j,
        {
            push_line(&mut out, copy_chars(&lines[j]));
            assert(views(lines@).take(j + 1) =~= views(lines@).take(j as int).push(views(lines@)[j as int]));
            j = j + 1;
        }
        assert(views(lines@).take(lines.len() as int) =~= views(lines@));
        assert(views(out@) =~= base + point_export_lines(points@[k as int], *options));
        i = i + 1;
    }
    assert(ids.take(title.point_ids.len() as int) =~= ids);
    from_chars(&join_lines_chars(&out))
}

/// The markers that the export takes out of a point's text.
pub open spec fn style_markers() -> Seq<Seq<char>> {
    seq![
        seq!['[', '!', 'l', ']'],
        seq!['[', '!', 'i', ']'],
        seq!['[', '!', 'u', ']'],
        seq!['[', '!', 'h', ']'],
        seq!['[', '!', 'H', ']'],
    ]
}

/// Taking a marker `pat` (one of the style markers) out of a text without `[` but for one style
/// marker `m` takes `m` out when `pat` is `m` and leaves the text as it is otherwise; a text
/// without `[` stays as it is.
proof fn lemma_without_marker(t1: Seq<char>, m: Seq<char>, t2: Seq<char>, pat: Seq<char>)
    requires
        !t1.contains('['),
        !t2.contains('['),
        style_markers().contains(m),
        style_markers().contains(pat),
    ensures
        without(t1 + m + t2, pat) == if pat == m {
            t1 + t2
        } else {
            t1 + m + t2
        },
        without(t1 + t2, pat) == t1 + t2,
{
    let u = t1 + m + t2;
    let v = t1 + t2;
    let e = Seq::<char>::empty();
    let mi = choose|i: int| 0 <= i < style_markers().len() && style_markers()[i] == m;
    let pi = choose|i: int| 0 <= i < style_markers().len() && style_markers()[i] == pat;
    assert(m.len() == 4 && m[0] == '[' && m[1] != '[' && m[2] != '[' && m[3] != '[') by {
        if mi == 0 {} else if mi == 1 {} else if mi == 2 {} else if mi == 3 {} else {}
    }
    assert(pat.len() == 4 && pat[0] == '[') by {
        if pi == 0 {} else if pi == 1 {} else if pi == 2 {} else if pi == 3 {} else {}
    }
    assert(!v.contains('[')) by {
        if v.contains('[') {
            let k = choose|k: int| 0 <= k < v.len() && v[k] == '[';
            if k < t1.len() {
                assert(t1[k] == '[');
            } else {
                assert(t2[k - t1.len()] == '[');
            }
        }
    }
    crate::text::lemma_split_free(v, pat);
    assert(join_with(seq![v], e) == v);
    if pat == m {
        crate::text::lemma_split_pair(t1, t2, m);
        assert(seq![t1, t2].drop_first() =~= seq![t2]);
        assert(join_with(seq![t1, t2], e) == t1 + e + join_with(seq![t2], e));
        assert(t1 + e + t2 =~= v);
    } else {
        let n = t1.len() as int;
        assert forall|j: int| 0 <= j implies !crate::text::occurs_at(u, pat, j) by {
            if crate::text::occurs_at(u, pat, j) {
                assert(u.subrange(j, j + 4)[0] == u[j]);
                assert(u[j] == '[');
                if j < n {
                    assert(t1[j] == '[');
                } else if j == n {
                    assert(u.subrange(j, j + 4) =~= m);
                } else if j < n + 4 {
                    assert(u[j] == m[j - n]);
                } else {
                    assert(t2[j - n - 4] == '[');
                }
            }
        }
        crate::text::lemma_find_from_exact(u, pat, 0, -1);
        assert(split_on(u, pat) =~= seq![u]);
        assert(join_with(seq![u], e) == u);
    }
}

/// The export takes every style marker out: a text without `[` stays as it is, and one style
/// marker put into such a text is taken out, leaving the text around it.
pub proof fn law_strip_takes_out_a_marker(t1: Seq<char>, m: Seq<char>, t2: Seq<char>)
    requires
        !t1.contains('['),
        !t2.contains('['),
        style_markers().contains(m),
    ensures
        stripped(t1 + m + t2) == t1 + t2,
        stripped(t1 + t2) == t1 + t2,
{
    reveal_strlit("[!l]");
    reveal_strlit("[!i]");
    reveal_strlit("[!u]");
    reveal_strlit("[!h]");
    reveal_strlit("[!H]");
    let ms = style_markers();
    assert("[!l]"@ =~= ms[0]);
    assert("[!i]"@ =~= ms[1]);
    assert("[!u]"@ =~= ms[2]);
    assert("[!h]"@ =~= ms[3]);
    assert("[!H]"@ =~= ms[4]);
    assert(ms.contains(ms[0]) && ms.contains(ms[1]) && ms.contains(ms[2]) && ms.contains(ms[3])
        && ms.contains(ms[4]));
    let u = t1 + m + t2;
    let v = t1 + t2;
    lemma_without_marker(t1, m, t2, ms[0]);
    lemma_without_marker(t1, m, t2, ms[1]);
    lemma_without_marker(t1, m, t2, ms[2]);
    lemma_without_marker(t1, m, t2, ms[3]);
    lemma_without_marker(t1, m, t2, ms[4]);
    let s1 = without(u, ms[0]);
    let s2 = without(s1, ms[1]);
    let s3 = without(s2, ms[2]);
    let s4 = without(s3, ms[3]);
    let s5 = without(s4, ms[4]);
    assert(s1 == u || s1 == v);
    assert(s2 == u || s2 == v);
    assert(s3 == u || s3 == v);
    assert(s4 == u || s4 == v);
    assert(s5 == v);
    assert(stripped(u) == s5);
    assert(stripped(v) == v);
}

} // verus!
