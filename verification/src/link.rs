//! The links file: one line per title, `title_id|--|linked_id|--|…`.
use crate::model::{string_views, Title};
use crate::text::{
    append_chars, bar, bar_chars, contains_part, copy_chars, differs_from, eq_chars, file_lines,
    from_chars, join_chars, join_lines, join_lines_chars, join_with, keep, lemma_keep_prefix_len,
    lemma_split_nonempty, lines_of, parts_without, split_chars, split_on, to_chars, views,
    lemma_split_parts_avoid, lemma_split_empty, lemma_keep_contains, law_join_split,
    lemma_join_push, lemma_join_avoid, lemma_lines_no_newline, lines_keep, law_lines_join,
    lemma_keep_all, ends_with_bar_start, lemma_split_bar_parts, lemma_split_join_bar,
    no_line_ends_in_cr, occurs_at,
};
use vstd::prelude::*;

verus! {

/// The non-empty lines.
pub open spec fn nonempty_lines(ls: Seq<Seq<char>>) -> Seq<Seq<char>> {
    keep(ls, |l: Seq<char>| l.len() > 0)
}

/// The title of a links line and the titles linked to it (none when the second field is
/// missing or empty).
pub open spec fn link_entry(l: Seq<char>) -> (Seq<char>, Seq<Seq<char>>) {
    let f = split_on(l, bar());
    if f.len() > 1 && f[1].len() > 0 {
        (f[0], f.skip(1))
    } else {
        (f[0], Seq::empty())
    }
}

/// Every title of the links file with the titles linked to it, in order.
pub open spec fn titles_links(links: Seq<char>) -> Seq<(Seq<char>, Seq<Seq<char>>)> {
    nonempty_lines(file_lines(links)).map_values(|l: Seq<char>| link_entry(l))
}

/// The views of the entries that `all_titles_links` returns.
pub open spec fn entry_views(v: Seq<(String, Vec<String>)>) -> Seq<(Seq<char>, Seq<Seq<char>>)> {
    v.map_values(|e: (String, Vec<String>)| (e.0@, string_views(e.1@)))
}

/// Character vectors as strings.
pub fn chars_to_strings(v: &Vec<Vec<char>>, from: usize) -> (r: Vec<String>)
    requires
        from <= v.len(),
    ensures
        string_views(r@) == views(v@).skip(from as int),
{
    let mut r: Vec<String> = Vec::new();
    let mut i: usize = from;
    assert(views(v@).subrange(from as int, from as int) =~= Seq::<Seq<char>>::empty());
    while i < v.len()
        invariant
            from <= i <= v.len(),
            string_views(r@) == views(v@).subrange(from as int, i as int),
        decreases v.len() - i,
    {
        let ghost before = string_views(r@);
        r.push(from_chars(&v[i]));
        assert(string_views(r@) =~= before.push(views(v@)[i as int]));
        assert(views(v@).subrange(from as int, i + 1) =~= views(v@).subrange(from as int, i as int).push(
            views(v@)[i as int],
        ));
        i = i + 1;
    }
    assert(views(v@).subrange(from as int, v.len() as int) =~= views(v@).skip(from as int));
    r
}

/// Every title of the links file with the titles linked to it; empty lines are passed over.
/// (A project without a links file is read as an empty text.)
pub fn all_titles_links(links: &str) -> (r: Vec<(String, Vec<String>)>)
    ensures
        entry_views(r@) == titles_links(links@),
{
    let c = to_chars(links);
    let ls = lines_of(&c);
    let sep = bar_chars();
    let ghost p = |l: Seq<char>| l.len() > 0;
    let ghost g = |l: Seq<char>| link_entry(l);
    let mut r: Vec<(String, Vec<String>)> = Vec::new();
    let mut i: usize = 0;
    while i < ls.len()
        invariant
            i <= ls.len(),
            sep@ == bar(),
            p == (|l: Seq<char>| l.len() > 0),
            g == (|l: Seq<char>| link_entry(l)),
            entry_views(r@) == keep(views(ls@).take(i as int), p).map_values(g),
        decreases ls.len() - i,
    {
        assert(views(ls@).take(i + 1).drop_last() =~= views(ls@).take(i as int));
        let ghost lv = views(ls@)[i as int];
        assert(lv == ls@[i as int]@);
        assert(views(ls@).take(i + 1).last() == lv);
        if ls[i].len() > 0 {
            let fields = split_chars(&ls[i], &sep);
            proof {
                lemma_split_nonempty(lv, bar());
            }
            let entry = if fields.len() > 1 && fields[1].len() > 0 {
                (from_chars(&fields[0]), chars_to_strings(&fields, 1))
            } else {
                (from_chars(&fields[0]), Vec::new())
            };
            assert(string_views(entry.1@) =~= link_entry(lv).1);
            let ghost before = entry_views(r@);
            r.push(entry);
            assert(entry_views(r@) =~= before.push(g(lv)));
            assert(keep(views(ls@).take(i + 1), p) == keep(views(ls@).take(i as int), p).push(lv));
            assert(keep(views(ls@).take(i + 1), p).map_values(g) =~= keep(views(ls@).take(i as int), p).map_values(g).push(g(lv)));
        }
        i = i + 1;
    }
    assert(views(ls@).take(ls.len() as int) =~= views(ls@));
    r
}

/// For every non-empty line of the links file, whether one of its fields is `title_id`.
pub open spec fn linked_flags(links: Seq<char>, title_id: Seq<char>) -> Seq<bool> {
    nonempty_lines(file_lines(links)).map_values(
        |l: Seq<char>| split_on(l, bar()).contains(title_id),
    )
}

/// For every non-empty line of the links file, whether the title is on it.
pub fn title_is_linked_with(links: &str, title_id: &str) -> (r: Vec<bool>)
    ensures
        r@ == linked_flags(links@, title_id@),
{
    let c = to_chars(links);
    let id = to_chars(title_id);
    let ls = lines_of(&c);
    let sep = bar_chars();
    let ghost p = |l: Seq<char>| l.len() > 0;
    let ghost g = |l: Seq<char>| split_on(l, bar()).contains(id@);
    let mut r: Vec<bool> = Vec::new();
    let mut i: usize = 0;
    while i < ls.len()
        invariant
            i <= ls.len(),
            sep@ == bar(),
            p == (|l: Seq<char>| l.len() > 0),
            g == (|l: Seq<char>| split_on(l, bar()).contains(id@)),
            r@ == keep(views(ls@).take(i as int), p).map_values(g),
        decreases ls.len() - i,
    {
        assert(views(ls@).take(i + 1).drop_last() =~= views(ls@).take(i as int));
        let ghost lv = views(ls@)[i as int];
        assert(lv == ls@[i as int]@);
        assert(views(ls@).take(i + 1).last() == lv);
        if ls[i].len() > 0 {
            let fields = split_chars(&ls[i], &sep);
            let b = contains_part(&fields, &id);
            r.push(b);
            assert(keep(views(ls@).take(i + 1), p) == keep(views(ls@).take(i as int), p).push(lv));
            assert(r@ =~= keep(views(ls@).take(i + 1), p).map_values(g));
        }
        i = i + 1;
    }
    assert(views(ls@).take(ls.len() as int) =~= views(ls@));
    r
}

} // verus!

verus! {

/// The last index at which `x` stands in `ids`, or -1.
pub open spec fn last_index(ids: Seq<Seq<char>>, x: Seq<char>) -> int
    decreases ids.len(),
{
    if ids.len() == 0 {
        -1
    } else if ids.last() == x {
        ids.len() - 1
    } else {
        last_index(ids.drop_last(), x)
    }
}

/// Every (title, linked title) pair of the entries, in order.
pub open spec fn link_pairs(es: Seq<(Seq<char>, Seq<Seq<char>>)>) -> Seq<(Seq<char>, Seq<char>)>
    decreases es.len(),
{
    if es.len() == 0 {
        Seq::empty()
    } else {
        link_pairs(es.drop_last()) + es.last().1.map_values(|l: Seq<char>| (es.last().0, l))
    }
}

/// Every identifier of the pairs names a title.
pub open spec fn pairs_known(ps: Seq<(Seq<char>, Seq<char>)>, ids: Seq<Seq<char>>) -> bool {
    forall|k: int|
        0 <= k < ps.len() ==> last_index(ids, (#[trigger] ps[k]).0) >= 0 && last_index(
            ids,
            ps[k].1,
        ) >= 0
}

/// The pairs as title indices (the last title with each identifier), each link once: a pair is
/// left out when its reverse is already there.
pub open spec fn index_pairs(ps: Seq<(Seq<char>, Seq<char>)>, ids: Seq<Seq<char>>) -> Seq<
    (usize, usize),
>
    decreases ps.len(),
{
    if ps.len() == 0 {
        Seq::empty()
    } else {
        let r = index_pairs(ps.drop_last(), ids);
        let a = last_index(ids, ps.last().0) as usize;
        let b = last_index(ids, ps.last().1) as usize;
        if r.contains((b, a)) {
            r
        } else {
            r.push((a, b))
        }
    }
}

/// The last index of `x` in `ids`.
fn last_index_of(ids: &Vec<Vec<char>>, x: &Vec<char>) -> (r: Option<usize>)
    ensures
        match r {
            Some(i) => i as int == last_index(views(ids@), x@),
            None => last_index(views(ids@), x@) == -1,
        },
        last_index(views(ids@), x@) < ids.len(),
{
    let mut i: usize = ids.len();
    assert(views(ids@).take(ids.len() as int) =~= views(ids@));
    while i > 0
        invariant
            i <= ids.len(),
            last_index(views(ids@), x@) == last_index(views(ids@).take(i as int), x@),
        decreases i,
    {
        assert(views(ids@).take(i as int).drop_last() =~= views(ids@).take(i - 1));
        assert(views(ids@).take(i as int).last() == ids@[i - 1]@);
        if eq_chars(&ids[i - 1], x) {
            return Some(i - 1);
        }
        i = i - 1;
    }
    None
}

/// The identifiers of the titles as characters.
fn title_id_chars(ts: &Vec<Title>) -> (r: Vec<Vec<char>>)
    ensures
        views(r@) == crate::model::title_ids(ts@),
{
    let mut r: Vec<Vec<char>> = Vec::new();
    let mut i: usize = 0;
    while i < ts.len()
        invariant
            i <= ts.len(),
            views(r@) == crate::model::title_ids(ts@).take(i as int),
        decreases ts.len() - i,
    {
        let ghost before = views(r@);
        r.push(to_chars(ts[i].id.as_str()));
        assert(views(r@) =~= before.push(ts@[i as int].id@));
        assert(crate::model::title_ids(ts@).take(i + 1) =~= crate::model::title_ids(ts@).take(
            i as int,
        ).push(ts@[i as int].id@));
        i = i + 1;
    }
    assert(crate::model::title_ids(ts@).take(ts.len() as int) =~= crate::model::title_ids(ts@));
    r
}

fn pairs_contain(v: &Vec<(usize, usize)>, p: (usize, usize)) -> (r: bool)
    ensures
        r == v@.contains(p),
{
    let mut i: usize = 0;
    while i < v.len()
        invariant
            i <= v.len(),
            forall|k: int| 0 <= k < i ==> v@[k] != p,
        decreases v.len() - i,
    {
        if v[i].0 == p.0 && v[i].1 == p.1 {
            assert(v@[i as int] == p);
            return true;
        }
        i = i + 1;
    }
    false
}

/// Whether every title named in a link of the links file is a title of the list.
pub fn links_resolve(links: &str, title_list: &Vec<Title>) -> (r: bool)
    ensures
        r == pairs_known(
            link_pairs(titles_links(links@)),
            crate::model::title_ids(title_list@),
        ),
{
    let ids = title_id_chars(title_list);
    let ghost idv = views(ids@);
    let es = all_titles_links(links);
    let ghost ev = entry_views(es@);
    let mut i: usize = 0;
    while i < es.len()
        invariant
            i <= es.len(),
            idv == views(ids@),
            idv == crate::model::title_ids(title_list@),
            ev == entry_views(es@),
            ev == titles_links(links@),
            pairs_known(link_pairs(ev.take(i as int)), idv),
        decreases es.len() - i,
    {
        assert(ev.take(i + 1).drop_last() =~= ev.take(i as int));
        let ghost e = ev[i as int];
        let t = to_chars(es[i].0.as_str());
        let ls = crate::point::strings_to_chars(&es[i].1);
        let ghost base = link_pairs(ev.take(i as int));
        let ghost tail = e.1.map_values(|l: Seq<char>| (e.0, l));
        assert(link_pairs(ev.take(i + 1)) == base + tail);
        let mut j: usize = 0;
        while j < ls.len()
            invariant
                j <= ls.len(),
                i < es.len(),
                ev == entry_views(es@),
                ev == titles_links(links@),
                idv == crate::model::title_ids(title_list@),
                e == ev[i as int],
                base == link_pairs(ev.take(i as int)),
                link_pairs(ev.take(i + 1)) == base + tail,
                views(ls@) == e.1,
                t@ == e.0,
                tail == e.1.map_values(|l: Seq<char>| (e.0, l)),
                pairs_known(base, idv),
                idv == views(ids@),
                forall|k: int| 0 <= k < j ==> last_index(idv, (#[trigger] tail[k]).0) >= 0 && last_index(
                    idv,
                    tail[k].1,
                ) >= 0,
            decreases ls.len() - j,
        {
            let a = last_index_of(&ids, &t);
            let b = last_index_of(&ids, &ls[j]);
            assert(tail[j as int] == (e.0, views(ls@)[j as int]));
            if a.is_none() || b.is_none() {
                assert(!pairs_known(link_pairs(ev), idv)) by {
                    lemma_link_pairs_prefix(ev, i + 1);
                    assert((base + tail)[base.len() + j] == tail[j as int]);
                    assert(link_pairs(ev)[base.len() + j] == tail[j as int]);
                }
                assert(ev == titles_links(links@));
                return false;
            }
            j = j + 1;
        }
        assert(pairs_known(base + tail, idv)) by {
            assert forall|k: int| 0 <= k < (base + tail).len() implies last_index(
                idv,
                (#[trigger] (base + tail)[k]).0,
            ) >= 0 && last_index(idv, (base + tail)[k].1) >= 0 by {
                if k < base.len() {
                    assert((base + tail)[k] == base[k]);
                } else {
                    assert((base + tail)[k] == tail[k - base.len()]);
                }
            }
        }
        i = i + 1;
    }
    assert(ev.take(es.len() as int) =~= ev);
    true
}

/// The pairs of a prefix of the entries come first in the pairs of all entries.
proof fn lemma_link_pairs_prefix(es: Seq<(Seq<char>, Seq<Seq<char>>)>, i: int)
    requires
        0 <= i <= es.len(),
    ensures
        link_pairs(es.take(i)).len() <= link_pairs(es).len(),
        forall|k: int|
            0 <= k < link_pairs(es.take(i)).len() ==> #[trigger] link_pairs(es)[k] == link_pairs(
                es.take(i),
            )[k],
    decreases es.len() - i,
{
    if i < es.len() {
        lemma_link_pairs_prefix(es, i + 1);
        assert(es.take(i + 1).drop_last() =~= es.take(i));
        let t = es.take(i + 1).last().1.map_values(|l: Seq<char>| (es.take(i + 1).last().0, l));
        assert(link_pairs(es.take(i + 1)) == link_pairs(es.take(i)) + t);
        assert forall|k: int| 0 <= k < link_pairs(es.take(i)).len() implies #[trigger] link_pairs(
            es,
        )[k] == link_pairs(es.take(i))[k] by {
            assert(link_pairs(es.take(i + 1))[k] == link_pairs(es.take(i))[k]);
        }
    } else {
        assert(es.take(i) =~= es);
    }
}

} // verus!

verus! {

/// The linked titles as pairs of title indices, each link once, in the order of the links
/// file. Every title named in a link must be in the list (else the lookup of its index fails).
pub fn get_linked_pairs(links: &str, title_list: &Vec<Title>) -> (r: Vec<(usize, usize)>)
    requires
        pairs_known(link_pairs(titles_links(links@)), crate::model::title_ids(title_list@)),
    ensures
        r@ == index_pairs(link_pairs(titles_links(links@)), crate::model::title_ids(title_list@)),
{
    let ids = title_id_chars(title_list);
    let ghost idv = views(ids@);
    let es = all_titles_links(links);
    let ghost ev = entry_views(es@);
    let mut r: Vec<(usize, usize)> = Vec::new();
    let mut i: usize = 0;
    while i < es.len()
        invariant
            i <= es.len(),
            idv == views(ids@),
            idv == crate::model::title_ids(title_list@),
            ev == entry_views(es@),
            ev == titles_links(links@),
            pairs_known(link_pairs(ev), idv),
            r@ == index_pairs(link_pairs(ev.take(i as int)), idv),
        decreases es.len() - i,
    {
        assert(ev.take(i + 1).drop_last() =~= ev.take(i as int));
        let ghost e = ev[i as int];
        let t = to_chars(es[i].0.as_str());
        let ls = crate::point::strings_to_chars(&es[i].1);
        let ghost base = link_pairs(ev.take(i as int));
        let ghost tail = e.1.map_values(|l: Seq<char>| (e.0, l));
        assert(link_pairs(ev.take(i + 1)) == base + tail);
        proof {
            lemma_link_pairs_prefix(ev, i + 1);
        }
        let mut j: usize = 0;
        assert(base + tail.take(0) =~= base);
        while j < ls.len()
            invariant
                j <= ls.len(),
                i < es.len(),
                ev == entry_views(es@),
                e == ev[i as int],
                base == link_pairs(ev.take(i as int)),
                link_pairs(ev.take(i + 1)) == base + tail,
                link_pairs(ev.take(i + 1)).len() <= link_pairs(ev).len(),
                forall|k: int|
                    0 <= k < link_pairs(ev.take(i + 1)).len() ==> #[trigger] link_pairs(ev)[k]
                        == link_pairs(ev.take(i + 1))[k],
                pairs_known(link_pairs(ev), idv),
                views(ls@) == e.1,
                t@ == e.0,
                tail == e.1.map_values(|l: Seq<char>| (e.0, l)),
                idv == views(ids@),
                r@ == index_pairs(base + tail.take(j as int), idv),
            decreases ls.len() - j,
        {
            assert(tail[j as int] == (e.0, views(ls@)[j as int]));
            assert((base + tail)[base.len() + j] == tail[j as int]);
            assert(link_pairs(ev)[base.len() + j] == tail[j as int]);
            let a = last_index_of(&ids, &t);
            let b = last_index_of(&ids, &ls[j]);
            let ghost prev = base + tail.take(j as int);
            assert((base + tail.take(j + 1)).drop_last() =~= prev);
            assert((base + tail.take(j + 1)).last() == tail[j as int]);
            match (a, b) {
                (Some(x), Some(y)) => {
                    if !pairs_contain(&r, (y, x)) {
                        r.push((x, y));
                    }
                },
                _ => {},
            }
            j = j + 1;
        }
        assert(tail.take(ls.len() as int) =~= tail);
        i = i + 1;
    }
    assert(ev.take(es.len() as int) =~= ev);
    r
}

} // verus!

verus! {

/// A links line with a non-empty first field.
pub open spec fn has_first_field(l: Seq<char>) -> bool {
    split_on(l, bar())[0].len() > 0
}

/// The test that a links line has a non-empty first field.
pub open spec fn first_field_set() -> spec_fn(Seq<char>) -> bool {
    |l: Seq<char>| has_first_field(l)
}

/// The lines of the links file that `link_unlink_title` keeps: those with a non-empty first
/// field.
pub open spec fn link_lines(links: Seq<char>) -> Seq<Seq<char>> {
    keep(file_lines(links), first_field_set())
}

/// The identifiers of the titles among the first `n` that title `c` is linked to, other than
/// `c` itself, in order.
pub open spec fn linked_ids(ts: Seq<Title>, c: int, n: int) -> Seq<Seq<char>>
    decreases n,
{
    if n <= 0 {
        Seq::empty()
    } else {
        let r = linked_ids(ts, c, n - 1);
        if ts[c].links@[n - 1] && n - 1 != c {
            r.push(ts[n - 1].id@)
        } else {
            r
        }
    }
}

/// The `k`-th kept links line after linking title `c` by its flags: its own line lists the
/// titles it is linked to; the line of a title it is linked to gets its identifier (if
/// missing); the line of any other title loses it.
pub open spec fn linked_line(l: Seq<char>, k: int, c: int, ts: Seq<Title>) -> Seq<char> {
    let cid = ts[c].id@;
    let f = split_on(l, bar());
    if k == c {
        join_with(seq![cid] + linked_ids(ts, c, ts.len() as int), bar())
    } else if ts[c].links@[k] {
        if f.contains(cid) {
            l
        } else {
            l + bar() + cid
        }
    } else if f.contains(cid) {
        join_with(keep(f, differs_from(cid)), bar())
    } else {
        l
    }
}

/// The links file and the titles agree: title `c` has one flag per title, and the kept lines
/// are the lines of the titles in their order.
pub open spec fn links_consistent(links: Seq<char>, c: int, ts: Seq<Title>) -> bool {
    &&& 0 <= c < ts.len()
    &&& ts[c].links@.len() == ts.len()
    &&& link_lines(links).len() <= ts.len()
    &&& forall|k: int|
        0 <= k < link_lines(links).len() ==> split_on(#[trigger] link_lines(links)[k], bar())[0]
            == ts[k].id@
}

/// The links file after linking title `c` by its flags.
pub open spec fn relinked(links: Seq<char>, c: int, ts: Seq<Title>) -> Seq<Seq<char>> {
    let kl = link_lines(links);
    Seq::new(kl.len(), |k: int| linked_line(kl[k], k, c, ts))
}

/// Whether the links file and the titles agree as `link_unlink_title` needs.
pub fn links_match_titles(links: &str, curr_title_index: usize, title_list: &Vec<Title>) -> (r:
    bool)
    ensures
        r == links_consistent(links@, curr_title_index as int, title_list@),
{
    if curr_title_index >= title_list.len() || title_list[curr_title_index].links.len()
        != title_list.len() {
        return false;
    }
    let c = to_chars(links);
    let ls = lines_of(&c);
    let sep = bar_chars();
    let ghost p = first_field_set();
    let mut k: usize = 0;
    let mut i: usize = 0;
    while i < ls.len()
        invariant
            i <= ls.len(),
            sep@ == bar(),
            views(ls@) == file_lines(links@),
            p == first_field_set(),
            k == keep(views(ls@).take(i as int), p).len(),
            k <= title_list.len(),
            forall|j: int|
                0 <= j < k ==> split_on(
                    #[trigger] keep(views(ls@).take(i as int), p)[j],
                    bar(),
                )[0] == title_list@[j].id@,
        decreases ls.len() - i,
    {
        assert(views(ls@).take(i + 1).drop_last() =~= views(ls@).take(i as int));
        let ghost lv = views(ls@)[i as int];
        assert(lv == ls@[i as int]@);
        assert(views(ls@).take(i + 1).last() == lv);
        let fields = split_chars(&ls[i], &sep);
        proof {
            lemma_split_nonempty(lv, bar());
        }
        if fields[0].len() > 0 {
            let ghost kp = keep(views(ls@).take(i + 1), p);
            assert(kp == keep(views(ls@).take(i as int), p).push(lv));
            if k >= title_list.len() {
                proof {
                    lemma_keep_prefix_len(views(ls@), p, i + 1);
                    assert(keep(views(ls@), p) == link_lines(links@));
                }
                return false;
            }
            let id = to_chars(title_list[k].id.as_str());
            if !eq_chars(&fields[0], &id) {
                proof {
                    lemma_link_lines_prefix(views(ls@), p, i + 1);
                    assert(keep(views(ls@), p) == link_lines(links@));
                    assert(kp[k as int] == lv);
                    assert(link_lines(links@)[k as int] == lv);
                    assert(views(fields@)[0] == split_on(lv, bar())[0]);
                }
                return false;
            }
            k = k + 1;
        }
        i = i + 1;
    }
    assert(views(ls@).take(ls.len() as int) =~= views(ls@));
    true
}

/// What a prefix keeps comes first in what the whole keeps.
proof fn lemma_link_lines_prefix(s: Seq<Seq<char>>, p: spec_fn(Seq<char>) -> bool, i: int)
    requires
        0 <= i <= s.len(),
    ensures
        keep(s.take(i), p).len() <= keep(s, p).len(),
        forall|k: int|
            0 <= k < keep(s.take(i), p).len() ==> #[trigger] keep(s, p)[k] == keep(s.take(i), p)[k],
    decreases s.len() - i,
{
    if i < s.len() {
        lemma_link_lines_prefix(s, p, i + 1);
        assert(s.take(i + 1).drop_last() =~= s.take(i));
        assert forall|k: int| 0 <= k < keep(s.take(i), p).len() implies #[trigger] keep(s, p)[k]
            == keep(s.take(i), p)[k] by {
            assert(keep(s.take(i + 1), p)[k] == keep(s.take(i), p)[k]);
        }
    } else {
        assert(s.take(i) =~= s);
    }
}

/// Links title `curr_title_index` to the titles whose flags it holds and unlinks it from the
/// others; lines with an empty first field are dropped.
pub fn link_unlink_title(links: &str, curr_title_index: usize, title_list: &Vec<Title>) -> (r:
    String)
    requires
        links_consistent(links@, curr_title_index as int, title_list@),
    ensures
        r@ == join_lines(relinked(links@, curr_title_index as int, title_list@)),
{
    let ghost ts = title_list@;
    let c = curr_title_index;
    let cid = to_chars(title_list[c].id.as_str());
    let sep = bar_chars();
    let mut id_list: Vec<Vec<char>> = Vec::new();
    let mut j: usize = 0;
    while j < title_list[c].links.len()
        invariant
            j <= title_list@[c as int].links.len() == title_list.len(),
            c < title_list.len(),
            views(id_list@) == linked_ids(title_list@, c as int, j as int),
        decreases title_list@[c as int].links.len() - j,
    {
        if title_list[c].links[j] && j != c {
            let ghost before = views(id_list@);
            id_list.push(to_chars(title_list[j].id.as_str()));
            assert(views(id_list@) =~= before.push(title_list@[j as int].id@));
        }
        j = j + 1;
    }
    let mut own = vec![copy_chars(&cid)];
    let mut m: usize = 0;
    assert(views(own@) =~= seq![cid@] + views(id_list@).take(0));
    while m < id_list.len()
        invariant
            m <= id_list.len(),
            views(own@) == seq![cid@] + views(id_list@).take(m as int),
        decreases id_list.len() - m,
    {
        let ghost before = views(own@);
        own.push(copy_chars(&id_list[m]));
        assert(views(own@) =~= before.push(views(id_list@)[m as int]));
        assert(views(id_list@).take(m + 1) =~= views(id_list@).take(m as int).push(
            views(id_list@)[m as int],
        ));
        m = m + 1;
    }
    assert(views(id_list@).take(id_list.len() as int) =~= views(id_list@));
    let own_line = join_chars(&own, &sep);
    let text = to_chars(links);
    let ls = lines_of(&text);
    let ghost p = first_field_set();
    let mut out: Vec<Vec<char>> = Vec::new();
    let mut k: usize = 0;
    let mut i: usize = 0;
    while i < ls.len()
        invariant
            i <= ls.len(),
            sep@ == bar(),
            ts == title_list@,
            c == curr_title_index,
            cid@ == ts[c as int].id@,
            own_line@ == join_with(seq![cid@] + linked_ids(ts, c as int, ts.len() as int), bar()),
            views(ls@) == file_lines(links@),
            links_consistent(links@, c as int, ts),
            p == first_field_set(),
            k == keep(views(ls@).take(i as int), p).len(),
            views(out@) == Seq::new(
                k as nat,
                |j: int| linked_line(keep(views(ls@).take(i as int), p)[j], j, c as int, ts),
            ),
        decreases ls.len() - i,
    {
        assert(views(ls@).take(i + 1).drop_last() =~= views(ls@).take(i as int));
        let ghost lv = views(ls@)[i as int];
        assert(lv == ls@[i as int]@);
        assert(views(ls@).take(i + 1).last() == lv);
        let fields = split_chars(&ls[i], &sep);
        proof {
            lemma_split_nonempty(lv, bar());
        }
        if fields[0].len() > 0 {
            let ghost kp = keep(views(ls@).take(i + 1), p);
            assert(kp == keep(views(ls@).take(i as int), p).push(lv));
            proof {
                lemma_keep_prefix_len(views(ls@), p, i + 1);
                assert(keep(views(ls@), p) == link_lines(links@));
                assert(kp.len() <= link_lines(links@).len());
                assert(link_lines(links@).len() <= ts.len());
                assert(kp.len() == k + 1);
                assert(k + 1 <= title_list.len());
            }
            let line = if k == c {
                copy_chars(&own_line)
            } else if title_list[c].links[k] {
                if contains_part(&fields, &cid) {
                    copy_chars(&ls[i])
                } else {
                    let mut x = copy_chars(&ls[i]);
                    append_chars(&mut x, &sep);
                    append_chars(&mut x, &cid);
                    x
                }
            } else if contains_part(&fields, &cid) {
                let kept = parts_without(&fields, &cid);
                join_chars(&kept, &sep)
            } else {
                copy_chars(&ls[i])
            };
            assert(line@ == linked_line(lv, k as int, c as int, ts));
            let ghost before = views(out@);
            out.push(line);
            assert(views(out@) =~= before.push(line@));
            assert(views(out@) =~= Seq::new(
                (k + 1) as nat,
                |j: int| linked_line(kp[j], j, c as int, ts),
            ));
            k = k + 1;
        }
        i = i + 1;
    }
    assert(views(ls@).take(ls.len() as int) =~= views(ls@));
    from_chars(&join_lines_chars(&out))
}

} // verus!

verus! {

/// A title identifier that a links line keeps: not empty, with no line break and no `|--|`, and
/// not ending with `|--`.
pub open spec fn id_fits(x: Seq<char>) -> bool {
    &&& x.len() > 0
    &&& !x.contains('\n')
    &&& !crate::browse::contains_text(x, bar())
    &&& !ends_with_bar_start(x)
}

proof fn lemma_bar_facts()
    ensures
        bar().len() == 4,
        bar()[0] == '|',
        !bar().contains('\n'),
{
    let b = bar();
    if b.contains('\n') {
        let k = choose|k: int| 0 <= k < b.len() && b[k] == '\n';
        if k == 0 {} else if k == 1 {} else if k == 2 {} else {}
    }
}

proof fn lemma_linked_ids_fit(ts: Seq<Title>, c: int, n: int)
    requires
        0 <= c < ts.len(),
        n <= ts.len(),
        ts[c].links@.len() == ts.len(),
        forall|k: int| 0 <= k < ts.len() ==> id_fits(#[trigger] ts[k].id@),
    ensures
        forall|j: int|
            0 <= j < linked_ids(ts, c, n).len() ==> id_fits(#[trigger] linked_ids(ts, c, n)[j]),
    decreases n,
{
    if n > 0 {
        lemma_linked_ids_fit(ts, c, n - 1);
        let r = linked_ids(ts, c, n - 1);
        if ts[c].links@[n - 1] && n - 1 != c {
            assert forall|j: int| 0 <= j < r.push(ts[n - 1].id@).len() implies id_fits(
                #[trigger] r.push(ts[n - 1].id@)[j],
            ) by {
                if j < r.len() {
                    assert(r.push(ts[n - 1].id@)[j] == r[j]);
                } else {
                    assert(id_fits(ts[n - 1].id@));
                }
            }
        }
    }
}

/// Whether `id` would be appended to the `k`-th kept line `l` when title `c` is linked by its
/// flags: `l` is another title's line, linked, and does not hold `id` yet.
pub open spec fn gets_link_appended(l: Seq<char>, k: int, c: int, ts: Seq<Title>) -> bool {
    k != c && ts[c].links@[k] && !split_on(l, bar()).contains(ts[c].id@)
}

/// The fields of a links line after `linked_line`: title `c` is among them exactly when the line
/// is its own or it is linked to the line's title; the line is not empty and holds no line
/// break.
proof fn lemma_linked_line(l: Seq<char>, k: int, c: int, ts: Seq<Title>)
    requires
        0 <= k < ts.len(),
        0 <= c < ts.len(),
        ts[c].links@.len() == ts.len(),
        forall|j: int| 0 <= j < ts.len() ==> id_fits(#[trigger] ts[j].id@),
        k != c ==> ts[k].id@ != ts[c].id@,
        !l.contains('\n'),
        split_on(l, bar())[0] == ts[k].id@,
        gets_link_appended(l, k, c, ts) ==> !ends_with_bar_start(split_on(l, bar()).last()),
    ensures
        split_on(linked_line(l, k, c, ts), bar()).contains(ts[c].id@) == (k == c || ts[c].links@[k]),
        linked_line(l, k, c, ts).len() > 0,
        !linked_line(l, k, c, ts).contains('\n'),
{
    let cid = ts[c].id@;
    let f = split_on(l, bar());
    let out = linked_line(l, k, c, ts);
    lemma_bar_facts();
    lemma_split_nonempty(l, bar());
    lemma_split_parts_avoid(l, bar(), '\n');
    lemma_split_bar_parts(l);
    lemma_split_empty(bar());
    assert(id_fits(cid));
    assert(id_fits(ts[k].id@));
    let g = if k == c {
        seq![cid] + linked_ids(ts, c, ts.len() as int)
    } else if ts[c].links@[k] {
        if f.contains(cid) {
            f
        } else {
            f.push(cid)
        }
    } else if f.contains(cid) {
        keep(f, differs_from(cid))
    } else {
        f
    };
    if k == c {
        lemma_linked_ids_fit(ts, c, ts.len() as int);
        let li = linked_ids(ts, c, ts.len() as int);
        assert forall|j: int| 0 <= j < g.len() implies id_fits(#[trigger] g[j]) by {
            if j > 0 {
                assert(g[j] == li[j - 1]);
            }
        }
    }
    assert forall|j: int| 0 <= j < g.len() implies !(#[trigger] g[j]).contains('\n') && (forall|
        x: int,
    | !occurs_at(g[j], bar(), x)) && (j < g.len() - 1 ==> !ends_with_bar_start(g[j])) by {
        if k == c {
            assert(id_fits(g[j]));
        } else if ts[c].links@[k] && !f.contains(cid) {
            if j < f.len() {
                assert(g[j] == f[j]);
                if j == f.len() - 1 {
                    assert(gets_link_appended(l, k, c, ts));
                }
            } else {
                assert(g[j] == cid);
            }
        } else if !ts[c].links@[k] && f.contains(cid) {
            assert(g.contains(g[j]));
            lemma_keep_contains(f, differs_from(cid), g[j]);
            let i = choose|i: int| 0 <= i < f.len() && f[i] == g[j];
            if j < g.len() - 1 {
                let d = f.drop_last();
                let p = differs_from(cid);
                if p(f.last()) {
                    assert(g == keep(d, p).push(f.last()));
                    assert(g[j] == keep(d, p)[j]);
                } else {
                    assert(g == keep(d, p));
                }
                assert(keep(d, p).contains(g[j]));
                lemma_keep_contains(d, p, g[j]);
                let i2 = choose|i2: int| 0 <= i2 < d.len() && d[i2] == g[j];
                assert(f[i2] == g[j]);
            }
        }
    }
    law_join_split(l, bar());
    if k == c {
        assert(g[0] == cid);
        assert(out == join_with(g, bar()));
    } else if ts[c].links@[k] {
        if !f.contains(cid) {
            lemma_join_push(f, cid, bar());
            assert(out == join_with(g, bar()));
            assert(g[g.len() - 1] == cid);
        } else {
            assert(out == join_with(g, bar()));
        }
    } else if f.contains(cid) {
        lemma_keep_contains(f, differs_from(cid), cid);
        lemma_keep_contains(f, differs_from(cid), f[0]);
        assert(g.contains(f[0]));
        assert(out == join_with(g, bar()));
    } else {
        assert(out == join_with(g, bar()));
    }
    assert(g.len() >= 1);
    lemma_split_join_bar(g);
    assert(split_on(out, bar()) == g);
    assert(g.contains(cid) == (k == c || ts[c].links@[k]));
    lemma_join_avoid(g, bar(), '\n');
    if out.len() == 0 {
        assert(out =~= Seq::<char>::empty());
        assert(g == seq![Seq::<char>::empty()]);
        if k == c {
            assert(g[0] == cid);
        } else if !ts[c].links@[k] && f.contains(cid) {
            let i = choose|i: int| 0 <= i < g.len() && g[i] == f[0];
        } else if ts[c].links@[k] && !f.contains(cid) {
            assert(g[g.len() - 1] == cid);
        } else {
            assert(g[0] == f[0]);
        }
    }
}

/// Reading which titles a title is linked with, after linking it by its flags, gives back its
/// flags, with its own flag set, for every kept line: when every title identifier is not empty,
/// holds no line break and no `|--|` and does not end with `|--`, the identifier of the title
/// differs from the others, no line that gets the identifier appended has a last field ending
/// with `|--`, and no written line but the last ends with `\r`.
pub proof fn law_link_read_after_write(links: Seq<char>, c: int, ts: Seq<Title>)
    requires
        links_consistent(links, c, ts),
        forall|k: int| 0 <= k < ts.len() ==> id_fits(#[trigger] ts[k].id@),
        forall|k: int| 0 <= k < ts.len() && k != c ==> ts[k].id@ != #[trigger] ts[c].id@,
        forall|k: int|
            0 <= k < link_lines(links).len() && gets_link_appended(
                #[trigger] link_lines(links)[k],
                k,
                c,
                ts,
            ) ==> !ends_with_bar_start(split_on(link_lines(links)[k], bar()).last()),
        no_line_ends_in_cr(relinked(links, c, ts)),
    ensures
        linked_flags(join_lines(relinked(links, c, ts)), ts[c].id@) == Seq::new(
            link_lines(links).len(),
            |k: int| k == c || ts[c].links@[k],
        ),
{
    let kl = link_lines(links);
    let fl = file_lines(links);
    let out = relinked(links, c, ts);
    let p = first_field_set();
    lemma_lines_no_newline(links);
    assert forall|k: int| 0 <= k < kl.len() implies split_on(#[trigger] out[k], bar()).contains(
        ts[c].id@,
    ) == (k == c || ts[c].links@[k]) && !out[k].contains('\n') && out[k].len() > 0 by {
        assert(kl.contains(kl[k]));
        lemma_keep_contains(fl, p, kl[k]);
        let j = choose|j: int| 0 <= j < fl.len() && fl[j] == kl[k];
        assert(split_on(kl[k], bar())[0] == ts[k].id@);
        if k != c {
            assert(ts[k].id@ != ts[c].id@);
        }
        lemma_linked_line(kl[k], k, c, ts);
    }
    assert(lines_keep(out));
    law_lines_join(out);
    lemma_keep_all(out, |l: Seq<char>| l.len() > 0);
    assert(linked_flags(join_lines(out), ts[c].id@) =~= Seq::new(
        kl.len(),
        |k: int| k == c || ts[c].links@[k],
    ));
}

} // verus!
