//! Which titles a point is shared with: the library lines whose fields hold the point.
use crate::text::{
    lemma_join_avoid, lemma_keep_all, lemma_keep_contains, lemma_keep_prefix_len,
    append_chars, at, at_chars, differs_from, contains_part, copy_chars, file_lines, from_chars, join_chars,
    join_lines, join_lines_chars, join_with, keep, law_join_split, law_lines_join, law_split_join,
    lemma_join_push, lemma_lines_no_newline, lemma_split_nonempty,
    lemma_split_parts_avoid, lemma_split_parts_free, lines_keep, lines_of, no_line_ends_in_cr, one,
    parts_without,
    split_chars, split_on, to_chars, views,
};
use crate::model::{string_views, Title};
use crate::point::strings_to_chars;
use vstd::prelude::*;

verus! {

/// A library line that names a title: it has at least two fields.
pub open spec fn is_title_line(l: Seq<char>) -> bool {
    split_on(l, at()).len() > 1
}

/// A library line that `share_unshare_point` keeps: at least two fields, the first not empty.
pub open spec fn is_share_line(l: Seq<char>) -> bool {
    split_on(l, at()).len() > 1 && split_on(l, at())[0].len() > 0
}

/// For every title line of the library, whether one of its fields is `id`.
pub open spec fn shared_flags(library: Seq<char>, id: Seq<char>) -> Seq<bool> {
    keep(file_lines(library), |l: Seq<char>| is_title_line(l)).map_values(
        |l: Seq<char>| split_on(l, at()).contains(id),
    )
}

/// The lines that `share_unshare_point` keeps.
pub open spec fn share_lines(library: Seq<char>) -> Seq<Seq<char>> {
    keep(file_lines(library), |l: Seq<char>| is_share_line(l))
}

/// A line with `id` added as a last field (when `share` and it is not there yet) or every field
/// `id` taken out (when not `share` and it is there).
pub open spec fn shared_line(l: Seq<char>, id: Seq<char>, share: bool) -> Seq<char> {
    let f = split_on(l, at());
    if share && !f.contains(id) {
        l + at() + id
    } else if !share && f.contains(id) {
        join_with(keep(f, differs_from(id)), at())
    } else {
        l
    }
}

/// The library after `share_unshare_point`: the kept lines, each set by its flag.
pub open spec fn shared_library(library: Seq<char>, id: Seq<char>, checklist: Seq<bool>) -> Seq<
    Seq<char>,
> {
    let ls = share_lines(library);
    Seq::new(ls.len(), |k: int| shared_line(ls[k], id, checklist[k]))
}

/// For every title line of the library, whether the point is on it.
pub fn point_is_shared_with(library: &str, point_id: &str) -> (r: Vec<bool>)
    ensures
        r@ == shared_flags(library@, point_id@),
{
    let c = to_chars(library);
    let id = to_chars(point_id);
    let sep = at_chars();
    let ls = lines_of(&c);
    let ghost p = |l: Seq<char>| is_title_line(l);
    let ghost g = |l: Seq<char>| split_on(l, at()).contains(id@);
    let mut r: Vec<bool> = Vec::new();
    let mut i: usize = 0;
    while i < ls.len()
        invariant
            i <= ls.len(),
            sep@ == at(),
            p == (|l: Seq<char>| is_title_line(l)),
            g == (|l: Seq<char>| split_on(l, at()).contains(id@)),
            r@ == keep(views(ls@).take(i as int), p).map_values(g),
        decreases ls.len() - i,
    {
        assert(views(ls@).take(i + 1).drop_last() =~= views(ls@).take(i as int));
        let fields = split_chars(&ls[i], &sep);
        if fields.len() > 1 {
            let b = contains_part(&fields, &id);
            let ghost before = r@;
            r.push(b);
            assert(keep(views(ls@).take(i + 1), p) == keep(views(ls@).take(i as int), p).push(
                views(ls@)[i as int],
            ));
            assert(r@ =~= keep(views(ls@).take(i + 1), p).map_values(g));
        }
        i = i + 1;
    }
    assert(views(ls@).take(ls.len() as int) =~= views(ls@));
    r
}

/// Puts the point on the kept library lines whose flag is set and takes it off the others; the
/// lines with fewer than two fields or an empty first field are dropped. The flags go by the
/// kept lines in order.
pub fn share_unshare_point(library: &str, point_id: &str, checklist: &Vec<bool>) -> (r: String)
    requires
        share_lines(library@).len() <= checklist.len(),
    ensures
        r@ == join_lines(shared_library(library@, point_id@, checklist@)),
{
    let c = to_chars(library);
    let id = to_chars(point_id);
    let sep = at_chars();
    let ls = lines_of(&c);
    let ghost p = |l: Seq<char>| is_share_line(l);
    let mut out: Vec<Vec<char>> = Vec::new();
    let mut k: usize = 0;
    let mut i: usize = 0;
    while i < ls.len()
        invariant
            i <= ls.len(),
            sep@ == at(),
            views(ls@) == file_lines(library@),
            id@ == point_id@,
            share_lines(library@).len() <= checklist.len(),
            p == (|l: Seq<char>| is_share_line(l)),
            k == keep(views(ls@).take(i as int), p).len(),
            views(out@) == Seq::new(
                k as nat,
                |j: int|
                    shared_line(keep(views(ls@).take(i as int), p)[j], id@, checklist@[j]),
            ),
        decreases ls.len() - i,
    {
        assert(views(ls@).take(i + 1).drop_last() =~= views(ls@).take(i as int));
        let fields = split_chars(&ls[i], &sep);
        proof {
            lemma_split_nonempty(views(ls@)[i as int], at());
            lemma_keep_prefix_len(views(ls@), p, i + 1);
            assert(views(ls@).take(ls.len() as int) =~= views(ls@));
        }
        if fields.len() > 1 && fields[0].len() > 0 {
            let l = &ls[i];
            let ghost lv = views(ls@)[i as int];
            assert(keep(views(ls@).take(i + 1), p) == keep(views(ls@).take(i as int), p).push(lv));
            let present = contains_part(&fields, &id);
            let line = if checklist[k] && !present {
                let mut x = copy_chars(l);
                append_chars(&mut x, &sep);
                append_chars(&mut x, &id);
                x
            } else if !checklist[k] && present {
                let kept = parts_without(&fields, &id);
                join_chars(&kept, &sep)
            } else {
                copy_chars(l)
            };
            assert(lv == ls@[i as int]@);
            assert(line@ == shared_line(lv, id@, checklist@[k as int]));
            let ghost before = views(out@);
            let ghost kp = keep(views(ls@).take(i + 1), p);
            assert(kp == keep(views(ls@).take(i as int), p).push(lv));
            out.push(line);
            assert(views(out@) =~= before.push(line@));
            assert(views(out@) =~= Seq::new(
                (k + 1) as nat,
                |j: int| shared_line(kp[j], id@, checklist@[j]),
            ));
            k = k + 1;
        }
        i = i + 1;
    }
    assert(views(ls@).take(ls.len() as int) =~= views(ls@));
    from_chars(&join_lines_chars(&out))
}



/// The fields of a library line that a title line keeps after `shared_line`.
proof fn lemma_shared_line(l: Seq<char>, id: Seq<char>, share: bool)
    requires
        !l.contains('\n'),
        is_share_line(l),
        split_on(l, at())[0] != id,
        split_on(l, at())[1] != id,
        !id.contains('@'),
        !id.contains('\n'),
    ensures
        is_title_line(shared_line(l, id, share)),
        split_on(shared_line(l, id, share), at()).contains(id) == share,
        !shared_line(l, id, share).contains('\n'),
        shared_line(l, id, share).len() > 0,
        split_on(shared_line(l, id, share), at()) == (if share && !split_on(l, at()).contains(id) {
            split_on(l, at()).push(id)
        } else if !share && split_on(l, at()).contains(id) {
            keep(split_on(l, at()), differs_from(id))
        } else {
            split_on(l, at())
        }),
{
    let f = split_on(l, at());
    let out = shared_line(l, id, share);
    lemma_split_parts_free(l, '@');
    lemma_split_parts_avoid(l, at(), '\n');
    assert(at() == one('@'));
    law_join_split(l, at());
    let g = if share && !f.contains(id) {
        f.push(id)
    } else if !share && f.contains(id) {
        keep(f, differs_from(id))
    } else {
        f
    };
    assert forall|i: int| 0 <= i < g.len() implies !(#[trigger] g[i]).contains('@') && !g[i].contains(
        '\n',
) by {
        if share && !f.contains(id) {
            if i < f.len() {
                assert(g[i] == f[i]);
            } else {
                assert(g[i] == id);
            }
        } else if !share && f.contains(id) {
            assert(g.contains(g[i]));
            lemma_keep_contains(f, differs_from(id), g[i]);
            let j = choose|j: int| 0 <= j < f.len() && f[j] == g[i];
        }
    }
    if share && !f.contains(id) {
        lemma_join_push(f, id, at());
        assert(out == join_with(g, at()));
        assert(g[g.len() - 1] == id);
    } else if !share && f.contains(id) {
        let p = differs_from(id);
        lemma_keep_prefix_len(f, p, 2);
        let t = f.take(2);
        let e = Seq::<Seq<char>>::empty();
        assert(t.drop_last() =~= seq![f[0]]);
        assert(seq![f[0]].drop_last() =~= e);
        assert(p(f[0]));
        assert(p(f[1]));
        assert(keep(e, p) == e);
        assert(seq![f[0]].last() == f[0]);
        assert(keep(seq![f[0]], p) == keep(e, p).push(f[0]));
        assert(t.last() == f[1]);
        assert(keep(t, p) == keep(seq![f[0]], p).push(f[1]));
        assert(keep(t, p).len() == 2);
        lemma_keep_contains(f, p, id);
        assert(g == keep(f, p));
        assert(out == join_with(g, at()));
        assert(!g.contains(id));
    } else {
        assert(out == join_with(g, at()));
    }
    assert(g.len() >= 2);
    law_split_join(g, '@');
    assert(split_on(out, at()) == g);
    assert(g.contains(id) == share);
    lemma_join_avoid(g, at(), '\n');
    assert(join_with(g, at()) == g[0] + at() + join_with(g.drop_first(), at()));
}

/// Reading which titles a point is shared with, after sharing it by a checklist, gives back the
/// checklist (one flag per kept line), when the point's identifier holds no `@` and no line
/// break, no written line but the last ends with `\r`, and no kept line has the identifier as
/// its first or second field.
pub proof fn law_share_read_after_write(library: Seq<char>, id: Seq<char>, checklist: Seq<bool>)
    requires
        no_line_ends_in_cr(shared_library(library, id, checklist)),
        !id.contains('@'),
        !id.contains('\n'),
        share_lines(library).len() <= checklist.len(),
        forall|k: int|
            0 <= k < share_lines(library).len() ==> split_on(
                #[trigger] share_lines(library)[k],
                at(),
            )[0] != id && split_on(share_lines(library)[k], at())[1] != id,
    ensures
        shared_flags(join_lines(shared_library(library, id, checklist)), id) == checklist.take(
            share_lines(library).len() as int,
        ),
{
    let ls = share_lines(library);
    let fl = file_lines(library);
    let p = |l: Seq<char>| is_share_line(l);
    let out = shared_library(library, id, checklist);
    lemma_lines_no_newline(library);
    assert forall|k: int| 0 <= k < ls.len() implies is_title_line(#[trigger] out[k])
        && split_on(out[k], at()).contains(id) == checklist[k] && !out[k].contains('\n')
        && out[k].len() > 0 by {
        assert(ls.contains(ls[k]));
        lemma_keep_contains(fl, p, ls[k]);
        let j = choose|j: int| 0 <= j < fl.len() && fl[j] == ls[k];
        lemma_shared_line(ls[k], id, checklist[k]);
    }
    assert(lines_keep(out));
    law_lines_join(out);
    lemma_keep_all(out, |l: Seq<char>| is_title_line(l));
    assert(shared_flags(join_lines(out), id) =~= checklist.take(ls.len() as int));
}

} // verus!

verus! {

/// A title's point identifiers after sharing (`share`) or unsharing a point: added last when
/// shared and missing, every copy taken out when unshared and present.
pub open spec fn ids_shared(ids: Seq<Seq<char>>, id: Seq<char>, share: bool) -> Seq<Seq<char>> {
    if share && !ids.contains(id) {
        ids.push(id)
    } else if !share && ids.contains(id) {
        keep(ids, differs_from(id))
    } else {
        ids
    }
}

/// The title with other point identifiers, and all else the same.
pub open spec fn same_but_points(a: Title, b: Title) -> bool {
    &&& a.name == b.name
    &&& a.id == b.id
    &&& a.links == b.links
    &&& a.image == b.image
    &&& a.tags == b.tags
}

/// Character vectors as strings.
fn chars_to_strings_all(v: &Vec<Vec<char>>) -> (r: Vec<String>)
    ensures
        string_views(r@) == views(v@),
{
    let mut r: Vec<String> = Vec::new();
    let mut i: usize = 0;
    while i < v.len()
        invariant
            i <= v.len(),
            string_views(r@) == views(v@).take(i as int),
        decreases v.len() - i,
    {
        let ghost before = string_views(r@);
        r.push(from_chars(&v[i]));
        assert(string_views(r@) =~= before.push(views(v@)[i as int]));
        assert(views(v@).take(i + 1) =~= views(v@).take(i as int).push(views(v@)[i as int]));
        i = i + 1;
    }
    assert(views(v@).take(v.len() as int) =~= views(v@));
    r
}

/// Shares the point with the titles whose flag is set and unshares it from the others, in the
/// titles held in memory (titles and flags go in pairs as far as both go).
pub fn share_in_titles(titles: &mut Vec<Title>, point_id: &str, checklist: &Vec<bool>)
    ensures
        final(titles).len() == old(titles).len(),
        forall|k: int|
            #![trigger final(titles)@[k]]
            0 <= k < old(titles).len() ==> same_but_points(final(titles)@[k], old(titles)@[k])
                && string_views(final(titles)@[k].point_ids@) == if k < checklist.len() {
                ids_shared(string_views(old(titles)@[k].point_ids@), point_id@, checklist@[k])
            } else {
                string_views(old(titles)@[k].point_ids@)
            },
{
    let id = to_chars(point_id);
    let mut k: usize = 0;
    while k < titles.len() && k < checklist.len()
        invariant
            k <= titles.len() == old(titles).len(),
            k <= checklist.len(),
            id@ == point_id@,
            forall|j: int|
                #![trigger titles@[j]]
                0 <= j < titles.len() ==> same_but_points(titles@[j], old(titles)@[j]) && string_views(
                    titles@[j].point_ids@,
                ) == if j < k {
                    ids_shared(string_views(old(titles)@[j].point_ids@), point_id@, checklist@[j])
                } else {
                    string_views(old(titles)@[j].point_ids@)
                },
        decreases titles.len() - k,
    {
        let mut t = titles.remove(k);
        let ids = strings_to_chars(&t.point_ids);
        let present = contains_part(&ids, &id);
        if checklist[k] && !present {
            let ghost before = string_views(t.point_ids@);
            t.point_ids.push(from_chars(&copy_chars(&id)));
            assert(string_views(t.point_ids@) =~= before.push(point_id@));
        } else if !checklist[k] && present {
            let kept = parts_without(&ids, &id);
            t.point_ids = chars_to_strings_all(&kept);
        }
        titles.insert(k, t);
        k = k + 1;
    }
}

/// Takes point `point_id` out of every title held in memory.
pub fn remove_point_from_titles(titles: &mut Vec<Title>, point_id: &str)
    ensures
        final(titles).len() == old(titles).len(),
        forall|k: int|
            #![trigger final(titles)@[k]]
            0 <= k < old(titles).len() ==> same_but_points(final(titles)@[k], old(titles)@[k])
                && string_views(final(titles)@[k].point_ids@) == keep(
                string_views(old(titles)@[k].point_ids@),
                differs_from(point_id@),
            ),
{
    let id = to_chars(point_id);
    let mut k: usize = 0;
    while k < titles.len()
        invariant
            k <= titles.len() == old(titles).len(),
            id@ == point_id@,
            forall|j: int|
                #![trigger titles@[j]]
                0 <= j < titles.len() ==> same_but_points(titles@[j], old(titles)@[j]) && string_views(
                    titles@[j].point_ids@,
                ) == if j < k {
                    keep(string_views(old(titles)@[j].point_ids@), differs_from(point_id@))
                } else {
                    string_views(old(titles)@[j].point_ids@)
                },
        decreases titles.len() - k,
    {
        let mut t = titles.remove(k);
        let ids = strings_to_chars(&t.point_ids);
        let kept = parts_without(&ids, &id);
        t.point_ids = chars_to_strings_all(&kept);
        titles.insert(k, t);
        k = k + 1;
    }
}

} // verus!

verus! {

/// The number of library lines that `share_unshare_point` keeps, one per flag it reads.
pub fn share_line_count(library: &str) -> (r: usize)
    ensures
        r == share_lines(library@).len(),
{
    let c = to_chars(library);
    let ls = lines_of(&c);
    let sep = at_chars();
    let ghost p = |l: Seq<char>| is_share_line(l);
    let mut n: usize = 0;
    let mut i: usize = 0;
    while i < ls.len()
        invariant
            i <= ls.len(),
            sep@ == at(),
            p == (|l: Seq<char>| is_share_line(l)),
            views(ls@) == file_lines(library@),
            n == keep(views(ls@).take(i as int), p).len(),
            n <= i,
        decreases ls.len() - i,
    {
        assert(views(ls@).take(i + 1).drop_last() =~= views(ls@).take(i as int));
        assert(views(ls@).take(i + 1).last() == ls@[i as int]@);
        let fields = split_chars(&ls[i], &sep);
        proof {
            lemma_split_nonempty(ls@[i as int]@, at());
        }
        if fields.len() > 1 && fields[0].len() > 0 {
            n = n + 1;
        }
        i = i + 1;
    }
    assert(views(ls@).take(ls.len() as int) =~= views(ls@));
    n
}

} // verus!

verus! {

/// Keeping fields when the first two pass keeps those two first, then what the rest keeps.
proof fn lemma_keep_first_two(s: Seq<Seq<char>>, p: spec_fn(Seq<char>) -> bool)
    requires
        s.len() >= 2,
        p(s[0]),
        p(s[1]),
    ensures
        keep(s, p) == seq![s[0], s[1]] + keep(s.skip(2), p),
    decreases s.len(),
{
    let d = s.drop_last();
    if s.len() == 2 {
        assert(d =~= seq![s[0]]);
        assert(d.drop_last() =~= Seq::<Seq<char>>::empty());
        assert(keep(Seq::<Seq<char>>::empty(), p) == Seq::<Seq<char>>::empty());
        assert(keep(d, p) == seq![s[0]]);
        assert(s.skip(2) =~= Seq::<Seq<char>>::empty());
        assert(keep(s, p) =~= seq![s[0], s[1]] + keep(s.skip(2), p));
    } else {
        lemma_keep_first_two(d, p);
        assert(d.skip(2) =~= s.skip(2).drop_last());
        assert(s.skip(2).last() == s.last());
        if p(s.last()) {
            assert(keep(s, p) =~= seq![s[0], s[1]] + keep(s.skip(2), p));
        } else {
            assert(keep(s, p) =~= seq![s[0], s[1]] + keep(s.skip(2), p));
        }
    }
}

/// The titles held in memory and the library agree: one kept library line per title, in order,
/// with the title's identifier first and its points from the third field on.
pub open spec fn titles_agree(library: Seq<char>, titles: Seq<Title>) -> bool {
    &&& share_lines(library).len() == titles.len()
    &&& forall|k: int|
        0 <= k < titles.len() ==> split_on(#[trigger] share_lines(library)[k], at())[0]
            == titles[k].id@ && split_on(share_lines(library)[k], at()).skip(2) == string_views(
            titles[k].point_ids@,
        )
}

/// Sharing a point by a checklist in the library file and in the titles held in memory keeps
/// them in agreement: when they agreed before, there is one flag per title, the point's
/// identifier holds no `@` and no line break and is not the identifier or the name on any
/// kept line, and no written line but the last ends with `\r`.
pub proof fn law_share_keeps_agreement(
    library: Seq<char>,
    titles: Seq<Title>,
    id: Seq<char>,
    checklist: Seq<bool>,
    shared: Seq<Title>,
)
    requires
        titles_agree(library, titles),
        checklist.len() == titles.len(),
        no_line_ends_in_cr(shared_library(library, id, checklist)),
        !id.contains('@'),
        !id.contains('\n'),
        forall|k: int|
            0 <= k < share_lines(library).len() ==> split_on(
                #[trigger] share_lines(library)[k],
                at(),
            )[0] != id && split_on(share_lines(library)[k], at())[1] != id,
        shared.len() == titles.len(),
        forall|k: int|
            0 <= k < titles.len() ==> same_but_points(#[trigger] shared[k], titles[k])
                && string_views(shared[k].point_ids@) == ids_shared(
                string_views(titles[k].point_ids@),
                id,
                checklist[k],
            ),
    ensures
        titles_agree(join_lines(shared_library(library, id, checklist)), shared),
{
    let ls = share_lines(library);
    let fl = file_lines(library);
    let p = |l: Seq<char>| is_share_line(l);
    let out = shared_library(library, id, checklist);
    lemma_lines_no_newline(library);
    assert forall|k: int| 0 <= k < ls.len() implies is_share_line(#[trigger] out[k])
        && !out[k].contains('\n') && out[k].len() > 0 && split_on(
        out[k],
        at(),
    )[0] == titles[k].id@ && split_on(out[k], at()).skip(2) == string_views(
        shared[k].point_ids@,
    ) by {
        assert(ls.contains(ls[k]));
        lemma_keep_contains(fl, p, ls[k]);
        let j = choose|j: int| 0 <= j < fl.len() && fl[j] == ls[k];
        lemma_shared_line(ls[k], id, checklist[k]);
        let f = split_on(ls[k], at());
        let ids = f.skip(2);
        assert(ids == string_views(titles[k].point_ids@));
        assert(f.contains(id) == ids.contains(id)) by {
            if f.contains(id) {
                let i = choose|i: int| 0 <= i < f.len() && f[i] == id;
                assert(i >= 2);
                assert(ids[i - 2] == id);
            }
            if ids.contains(id) {
                let i = choose|i: int| 0 <= i < ids.len() && ids[i] == id;
                assert(f[i + 2] == id);
            }
        }
        if checklist[k] && !f.contains(id) {
            assert(f.push(id).skip(2) =~= ids.push(id));
        } else if !checklist[k] && f.contains(id) {
            lemma_keep_first_two(f, differs_from(id));
            assert((seq![f[0], f[1]] + keep(ids, differs_from(id))).skip(2) =~= keep(
                ids,
                differs_from(id),
            ));
        }
    }
    assert(lines_keep(out));
    law_lines_join(out);
    lemma_keep_all(out, |l: Seq<char>| is_share_line(l));
    assert(share_lines(join_lines(out)) == out);
}

} // verus!
