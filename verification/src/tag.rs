//! The tags file: one line per title, `title_id@tag@tag…`.
use crate::model::{string_views, title_ids, Title};
use crate::point::strings_to_chars;
use crate::text::{
    at, at_chars, contains_part, copy_chars, eq_chars, file_lines, first_occurrences, from_chars,
    keep, lemma_split_nonempty, lines_of, split_chars, split_on, to_chars, views, one, join_with,
    join_lines, law_split_join, lemma_split_parts_free, lemma_lines_no_newline,
    lemma_split_parts_avoid, lemma_join_avoid, lemma_lines_join_clean, lemma_split_empty,
    no_line_ends_in_cr,
};
use vstd::prelude::*;

verus! {

/// The test that a field is not empty.
pub open spec fn non_empty() -> spec_fn(Seq<char>) -> bool {
    |f: Seq<char>| f.len() > 0
}

/// The tags of a tags line: its non-empty fields after the first.
pub open spec fn line_tags(l: Seq<char>) -> Seq<Seq<char>> {
    keep(split_on(l, at()).skip(1), non_empty())
}

/// The tags of all lines, in order.
pub open spec fn flat_tags(ls: Seq<Seq<char>>) -> Seq<Seq<char>>
    decreases ls.len(),
{
    if ls.len() == 0 {
        Seq::empty()
    } else {
        flat_tags(ls.drop_last()) + line_tags(ls.last())
    }
}

/// The non-empty fields after the first, in order.
fn tags_of_fields(fields: &Vec<Vec<char>>) -> (r: Vec<Vec<char>>)
    requires
        fields.len() >= 1,
    ensures
        views(r@) == keep(views(fields@).skip(1), non_empty()),
{
    let ghost s = views(fields@).skip(1);
    let mut r: Vec<Vec<char>> = Vec::new();
    let mut i: usize = 1;
    assert(s.take(0) =~= Seq::<Seq<char>>::empty());
    while i < fields.len()
        invariant
            1 <= i <= fields.len(),
            s == views(fields@).skip(1),
            views(r@) == keep(s.take(i - 1), non_empty()),
        decreases fields.len() - i,
    {
        assert(s.take(i as int).drop_last() =~= s.take(i - 1));
        assert(s.take(i as int).last() == views(fields@)[i as int]);
        if fields[i].len() > 0 {
            let ghost before = views(r@);
            r.push(copy_chars(&fields[i]));
            assert(views(r@) =~= before.push(views(fields@)[i as int]));
        }
        i = i + 1;
    }
    assert(s.take(fields.len() - 1) =~= s);
    r
}

/// Every tag used in the tags file, each once, in the order of first use.
pub fn get_all_tags(tags: &str) -> (r: Vec<String>)
    ensures
        string_views(r@) == first_occurrences(flat_tags(file_lines(tags@))),
{
    let c = to_chars(tags);
    let sep = at_chars();
    let ls = lines_of(&c);
    let mut acc: Vec<Vec<char>> = Vec::new();
    let mut i: usize = 0;
    while i < ls.len()
        invariant
            i <= ls.len(),
            sep@ == at(),
            views(acc@) == first_occurrences(flat_tags(views(ls@).take(i as int))),
        decreases ls.len() - i,
    {
        let fields = split_chars(&ls[i], &sep);
        proof {
            lemma_split_nonempty(views(ls@)[i as int], at());
        }
        let ts = tags_of_fields(&fields);
        let ghost base = flat_tags(views(ls@).take(i as int));
        assert(base + views(ts@).take(0) =~= base);
        let mut j: usize = 0;
        while j < ts.len()
            invariant
                j <= ts.len(),
                views(acc@) == first_occurrences(base + views(ts@).take(j as int)),
            decreases ts.len() - j,
        {
            assert((base + views(ts@).take(j + 1)).drop_last() =~= base + views(ts@).take(
                j as int,
            ));
            assert((base + views(ts@).take(j + 1)).last() == views(ts@)[j as int]);
            if !contains_part(&acc, &ts[j]) {
                let ghost before = views(acc@);
                acc.push(copy_chars(&ts[j]));
                assert(views(acc@) =~= before.push(views(ts@)[j as int]));
            }
            j = j + 1;
        }
        assert(views(ls@).take(i + 1).drop_last() =~= views(ls@).take(i as int));
        assert(views(ts@).take(ts.len() as int) =~= views(ts@));
        assert(views(ls@)[i as int] == ls@[i as int]@);
        i = i + 1;
    }
    assert(views(ls@).take(ls.len() as int) =~= views(ls@));
    let mut r: Vec<String> = Vec::new();
    let mut k: usize = 0;
    while k < acc.len()
        invariant
            k <= acc.len(),
            string_views(r@) == views(acc@).take(k as int),
        decreases acc.len() - k,
    {
        let ghost before = string_views(r@);
        r.push(from_chars(&acc[k]));
        assert(string_views(r@) =~= before.push(views(acc@)[k as int]));
        assert(views(acc@).take(k + 1) =~= views(acc@).take(k as int).push(views(acc@)[k as int]));
        k = k + 1;
    }
    assert(views(acc@).take(acc.len() as int) =~= views(acc@));
    r
}

/// The tags that the tags lines from `i` on give to the titles from `t` on: each title takes the
/// tags of the next line that starts with its identifier and has a second field; the titles
/// are matched in order, and a title whose line does not come next gets none of the lines
/// before the one that matches it.
pub open spec fn tags_scan(ls: Seq<Seq<char>>, ids: Seq<Seq<char>>, i: int, t: int) -> Seq<
    Seq<Seq<char>>,
>
    decreases ls.len() - i,
{
    if t < 0 || t >= ids.len() {
        Seq::empty()
    } else if i < 0 || i >= ls.len() {
        Seq::new((ids.len() - t) as nat, |k: int| Seq::<Seq<char>>::empty())
    } else if split_on(ls[i], at())[0] == ids[t] && split_on(ls[i], at()).len() > 1 {
        seq![line_tags(ls[i])] + tags_scan(ls, ids, i + 1, t + 1)
    } else {
        tags_scan(ls, ids, i + 1, t)
    }
}

/// The length of a scan.
proof fn lemma_tags_scan_len(ls: Seq<Seq<char>>, ids: Seq<Seq<char>>, i: int, t: int)
    requires
        0 <= t <= ids.len(),
    ensures
        tags_scan(ls, ids, i, t).len() == ids.len() - t,
    decreases ls.len() - i,
{
    if t < ids.len() && 0 <= i < ls.len() {
        lemma_tags_scan_len(ls, ids, i + 1, t + 1);
        lemma_tags_scan_len(ls, ids, i + 1, t);
    }
}

/// Adds to each title the tags of its line in the tags file. The lines are matched to the
/// titles in order: a line that starts with the identifier of the next title and has a second
/// field gives that title its non-empty tags; other lines are passed over.
pub fn add_tags_to_titles(tags: &str, titles: &mut Vec<Title>)
    ensures
        final(titles).len() == old(titles).len(),
        forall|t: int|
            #![trigger final(titles)@[t]]
            0 <= t < final(titles).len() ==> {
                &&& string_views(final(titles)[t].tags@) == string_views(old(titles)[t].tags@)
                    + tags_scan(file_lines(tags@), title_ids(old(titles)@), 0, 0)[t]
                &&& final(titles)[t].name == old(titles)[t].name
                &&& final(titles)[t].id == old(titles)[t].id
                &&& final(titles)[t].point_ids == old(titles)[t].point_ids
                &&& final(titles)[t].links == old(titles)[t].links
                &&& final(titles)[t].image == old(titles)[t].image
            },
{
    let c = to_chars(tags);
    let sep = at_chars();
    let ls = lines_of(&c);
    let ghost lv = views(ls@);
    let ghost ids = title_ids(old(titles)@);
    let ghost scan = tags_scan(lv, ids, 0, 0);
    proof {
        lemma_tags_scan_len(lv, ids, 0, 0);
    }
    let mut t: usize = 0;
    let mut i: usize = 0;
    while i < ls.len() && t < titles.len()
        invariant
            i <= ls.len(),
            t <= titles.len(),
            lv == views(ls@),
            lv == file_lines(tags@),
            sep@ == at(),
            ids == title_ids(old(titles)@),
            scan == tags_scan(lv, ids, 0, 0),
            scan.len() == ids.len(),
            titles.len() == old(titles).len(),
            scan.subrange(t as int, ids.len() as int) == tags_scan(lv, ids, i as int, t as int),
            forall|u: int|
                #![trigger titles@[u]]
                0 <= u < titles.len() ==> {
                    &&& string_views(titles[u].tags@) == string_views(old(titles)[u].tags@) + (
                    if u < t {
                        scan[u]
                    } else {
                        Seq::empty()
                    })
                    &&& titles[u].name == old(titles)[u].name
                    &&& titles[u].id == old(titles)[u].id
                    &&& titles[u].point_ids == old(titles)[u].point_ids
                    &&& titles[u].links == old(titles)[u].links
                    &&& titles[u].image == old(titles)[u].image
                },
        decreases ls.len() - i,
    {
        let fields = split_chars(&ls[i], &sep);
        proof {
            lemma_split_nonempty(lv[i as int], at());
            assert(lv[i as int] == ls@[i as int]@);
            lemma_tags_scan_len(lv, ids, i + 1, t + 1);
            lemma_tags_scan_len(lv, ids, i + 1, t as int);
        }
        let id_chars = to_chars(titles[t].id.as_str());
        assert(titles@[t as int].id == old(titles)@[t as int].id);
        assert(ids[t as int] == id_chars@);
        if eq_chars(&fields[0], &id_chars) && fields.len() > 1 {
            let new_tags = tags_of_fields(&fields);
            let ghost prev = titles@;
            let mut title = titles.remove(t);
            let ghost old_tags = string_views(title.tags@);
            let ghost removed = title;
            let mut j: usize = 0;
            while j < new_tags.len()
                invariant
                    j <= new_tags.len(),
                    title.name == removed.name,
                    title.id == removed.id,
                    title.point_ids == removed.point_ids,
                    title.links == removed.links,
                    title.image == removed.image,
                    string_views(title.tags@) == old_tags + views(new_tags@).take(j as int),
                decreases new_tags.len() - j,
            {
                let s = from_chars(&new_tags[j]);
                let ghost before = string_views(title.tags@);
                title.tags.push(s);
                assert(string_views(title.tags@) =~= before.push(views(new_tags@)[j as int]));
                assert(views(new_tags@).take(j + 1) =~= views(new_tags@).take(j as int).push(
                    views(new_tags@)[j as int],
                ));
                assert(string_views(title.tags@) =~= old_tags + views(new_tags@).take(j + 1));
                j = j + 1;
            }
            assert(views(new_tags@).take(new_tags.len() as int) =~= views(new_tags@));
            let ghost title_v = title;
            titles.insert(t, title);
            assert(titles@ =~= prev.update(t as int, title_v));
            proof {
                assert(ids[t as int] == old(titles)@[t as int].id@);
                assert(views(fields@)[0] == split_on(lv[i as int], at())[0]);
                assert(tags_scan(lv, ids, i as int, t as int) == seq![line_tags(lv[i as int])]
                    + tags_scan(lv, ids, i + 1, t + 1));
                let sub = scan.subrange(t as int, ids.len() as int);
                assert(sub[0] == scan[t as int]);
                assert(scan[t as int] == line_tags(lv[i as int]));
                assert(scan.subrange(t + 1, ids.len() as int) =~= sub.subrange(1, sub.len() as int));
                assert(sub.subrange(1, sub.len() as int) =~= tags_scan(lv, ids, i + 1, t + 1));
                assert(views(fields@) == split_on(lv[i as int], at()));
                assert(views(new_tags@) == line_tags(lv[i as int]));
                assert(string_views(prev[t as int].tags@) == string_views(old(titles)@[t as int].tags@)
                    + Seq::<Seq<char>>::empty());
                assert(string_views(prev[t as int].tags@) =~= string_views(old(titles)@[t as int].tags@));
                assert forall|u: int|
                    #![trigger titles@[u]]
                    0 <= u < titles.len() implies {
                        &&& string_views(titles[u].tags@) == string_views(old(titles)[u].tags@) + (
                        if u < t + 1 {
                            scan[u]
                        } else {
                            Seq::empty()
                        })
                        &&& titles[u].name == old(titles)[u].name
                        &&& titles[u].id == old(titles)[u].id
                        &&& titles[u].point_ids == old(titles)[u].point_ids
                        &&& titles[u].links == old(titles)[u].links
                        &&& titles[u].image == old(titles)[u].image
                    } by {
                    if u != t {
                        assert(titles@[u] == prev[u]);
                    } else {
                        assert(titles@[u] == title_v);
                        assert(string_views(title_v.tags@) == old_tags + views(new_tags@));
                        assert(old_tags == string_views(prev[t as int].tags@));
                        assert(title_v.name == prev[t as int].name);
                    }
                }
            }
            t = t + 1;
        }
        i = i + 1;
    }
    proof {
        if t < titles.len() {
            assert(tags_scan(lv, ids, i as int, t as int) == Seq::new(
                (ids.len() - t) as nat,
                |k: int| Seq::<Seq<char>>::empty(),
            ));
            assert forall|u: int| t <= u < titles.len() implies scan[u] == Seq::<Seq<char>>::empty() by {
                assert(scan[u] == scan.subrange(t as int, ids.len() as int)[u - t]);
            }
        }
        assert forall|u: int|
            #![trigger titles@[u]]
            0 <= u < titles.len() implies string_views(titles[u].tags@) == string_views(
                old(titles)[u].tags@,
            ) + scan[u] by {
            if u >= t {
                assert(string_views(old(titles)[u].tags@) + Seq::<Seq<char>>::empty() =~= string_views(
                    old(titles)[u].tags@,
                ));
            }
        }
    }
}

} // verus!

verus! {

/// The tags lines and the titles go together: one line per title, in order, each starting with
/// its title's identifier and having a second field.
pub open spec fn tags_aligned(ls: Seq<Seq<char>>, ids: Seq<Seq<char>>) -> bool {
    &&& ls.len() == ids.len()
    &&& forall|k: int|
        0 <= k < ls.len() ==> split_on(#[trigger] ls[k], at())[0] == ids[k] && split_on(
            ls[k],
            at(),
        ).len() > 1
}

proof fn lemma_aligned_scan(ls: Seq<Seq<char>>, ids: Seq<Seq<char>>, i: int)
    requires
        tags_aligned(ls, ids),
        0 <= i <= ls.len(),
    ensures
        tags_scan(ls, ids, i, i) == Seq::new((ls.len() - i) as nat, |k: int| line_tags(ls[i + k])),
    decreases ls.len() - i,
{
    if i < ls.len() {
        lemma_aligned_scan(ls, ids, i + 1);
        assert(split_on(ls[i], at())[0] == ids[i]);
        assert(tags_scan(ls, ids, i, i) =~= Seq::new(
            (ls.len() - i) as nat,
            |k: int| line_tags(ls[i + k]),
        ));
    } else {
        assert(tags_scan(ls, ids, i, i) =~= Seq::new(0, |k: int| line_tags(ls[i + k])));
    }
}

/// After a title's tags are saved, loading the tags gives that title its saved tags (without
/// empty ones) and the other titles the tags they had: when the tags lines and the titles go
/// together, the titles' identifiers differ, no tag holds `@` or a line break, and no written
/// line but the last ends with `\r`.
pub proof fn law_tags_read_after_save(tags: Seq<char>, ids: Seq<Seq<char>>, c: int, saved: Seq<Seq<char>>)
    requires
        tags_aligned(file_lines(tags), ids),
        0 <= c < ids.len(),
        forall|k: int| 0 <= k < ids.len() && k != c ==> ids[k] != #[trigger] ids[c],
        no_line_ends_in_cr(
            file_lines(tags).map_values(
                |l: Seq<char>| crate::general::line_replaced(l, ids[c], join_with(saved, at())),
            ),
        ),
        forall|k: int|
            0 <= k < saved.len() ==> !(#[trigger] saved[k]).contains('@') && !saved[k].contains(
                '\n',
            ),
    ensures
        ({
            let out = file_lines(
                crate::general::line_replaced_text(tags, ids[c], join_with(saved, at())),
            );
            forall|t: int|
                0 <= t < ids.len() ==> #[trigger] tags_scan(out, ids, 0, 0)[t] == if t == c {
                    keep(saved, non_empty())
                } else {
                    tags_scan(file_lines(tags), ids, 0, 0)[t]
                }
        }),
{
    let ls = file_lines(tags);
    let id = ids[c];
    let e = join_with(saved, at());
    let g = |l: Seq<char>| crate::general::line_replaced(l, id, e);
    let out = ls.map_values(g);
    let line = id + at() + e;
    let parts = seq![id] + saved;
    assert(at() =~= one('@'));
    lemma_split_parts_free(ls[c], '@');
    lemma_split_nonempty(ls[c], at());
    assert(split_on(ls[c], at())[0] == id);
    assert(!id.contains('@'));
    assert forall|i: int| 0 <= i < parts.len() implies !(#[trigger] parts[i]).contains('@') by {
        if i > 0 {
            assert(parts[i] == saved[i - 1]);
        }
    }
    if saved.len() == 0 {
        assert(e == Seq::<char>::empty());
        assert(line =~= id + at() + Seq::<char>::empty());
        crate::text::lemma_split_pair(id, Seq::<char>::empty(), at());
        assert(split_on(line, at()) == seq![id, Seq::<char>::empty()]);
        assert(split_on(line, at()).skip(1) =~= seq![Seq::<char>::empty()]);
        assert(seq![Seq::<char>::empty()].drop_last() =~= Seq::<Seq<char>>::empty());
        assert(keep(seq![Seq::<char>::empty()], non_empty()) == keep(
            Seq::<Seq<char>>::empty(),
            non_empty(),
        ));
        assert(keep(saved, non_empty()) =~= Seq::<Seq<char>>::empty());
    } else {
        assert(parts.drop_first() =~= saved);
        assert(join_with(parts, at()) == id + at() + e);
        law_split_join(parts, '@');
        assert(split_on(line, at()).skip(1) =~= saved);
    }
    assert(split_on(line, at()).len() > 1);
    lemma_lines_no_newline(tags);
    lemma_split_parts_avoid(ls[c], at(), '\n');
    assert(!id.contains('\n'));
    assert forall|i: int| 0 <= i < saved.len() implies !(#[trigger] saved[i]).contains('\n') by {}
    assert(!at().contains('\n')) by {
        if at().contains('\n') {
            let k = choose|k: int| 0 <= k < at().len() && at()[k] == '\n';
        }
    }
    lemma_join_avoid(saved, at(), '\n');
    crate::text::lemma_concat_avoid(id, at(), '\n');
    crate::text::lemma_concat_avoid(id + at(), e, '\n');
    assert forall|k: int| 0 <= k < out.len() implies !(#[trigger] out[k]).contains('\n')
        && split_on(out[k], at())[0] == ids[k] && split_on(
        out[k],
        at(),
    ).len() > 1 && out[k] == if k == c {
        line
    } else {
        ls[k]
    } by {
        assert(out[k] == g(ls[k]));
        assert(split_on(ls[k], at())[0] == ids[k]);
        if k != c {
            assert(ids[k] != ids[c]);
        }
    }
    lemma_lines_join_clean(out);
    assert(out.len() > 0 ==> out.last().len() > 0) by {
        if out.len() > 0 && out.last().len() == 0 {
            lemma_split_empty(at());
            assert(split_on(out[out.len() - 1], at()).len() > 1);
        }
    }
    assert(crate::general::line_replaced_text(tags, id, e) == join_lines(out));
    assert(tags_aligned(out, ids));
    lemma_aligned_scan(out, ids, 0);
    lemma_aligned_scan(ls, ids, 0);
}

} // verus!
