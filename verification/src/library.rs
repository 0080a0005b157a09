//! Reading the titles of a project from its library and images files.
use crate::link::{get_linked_pairs, index_pairs, link_pairs, links_resolve, pairs_known, titles_links};
use crate::model::{string_views, title_ids, ImageStruct, Title};
use crate::tag::{add_tags_to_titles, get_all_tags, tags_scan};
use crate::text::{
    at, at_chars, copy_chars, eq_chars, file_lines, first_occurrences, from_chars, keep,
    lemma_split_nonempty, lines_of, split_chars, split_on, to_chars, views, one,
    lemma_split_parts_free, law_split_join, lemma_lines_no_newline,
    lemma_split_parts_avoid, lemma_join_avoid, lemma_lines_join_clean, lemma_split_empty,
    lemma_keep_contains, join_lines, lemma_split_append, strip_cr, join_with, no_line_ends_in_cr,
};
use crate::general::line_replaced;
use crate::title::{line_renamed, renamed_library};
use crate::link::chars_to_strings;
use vstd::prelude::*;

verus! {

/// A library line that describes a title: at least two fields.
pub open spec fn describes_title() -> spec_fn(Seq<char>) -> bool {
    |l: Seq<char>| split_on(l, at()).len() > 1
}

/// The title lines of the library.
pub open spec fn title_lines(library: Seq<char>) -> Seq<Seq<char>> {
    keep(file_lines(library), describes_title())
}

/// A title read from its library line: identifier, name and point identifiers, nothing else.
pub open spec fn read_title(t: Title, l: Seq<char>) -> bool {
    let f = split_on(l, at());
    &&& t.id@ == f[0]
    &&& t.name@ == f[1]
    &&& string_views(t.point_ids@) == f.skip(2)
    &&& t.links@ == Seq::<bool>::empty()
    &&& t.image.path@ == Seq::<char>::empty()
    &&& t.image.description@ == Seq::<char>::empty()
    &&& t.tags@ == Seq::<String>::empty()
}

/// The titles of the library, one per line with at least two fields, in order.
pub fn load_titles(library: &str) -> (r: Vec<Title>)
    ensures
        r.len() == title_lines(library@).len(),
        forall|k: int| 0 <= k < r.len() ==> read_title(#[trigger] r@[k], title_lines(library@)[k]),
{
    let c = to_chars(library);
    let ls = lines_of(&c);
    let sep = at_chars();
    let ghost p = describes_title();
    let mut r: Vec<Title> = Vec::new();
    let mut i: usize = 0;
    while i < ls.len()
        invariant
            i <= ls.len(),
            sep@ == at(),
            p == describes_title(),
            r.len() == keep(views(ls@).take(i as int), p).len(),
            forall|k: int|
                0 <= k < r.len() ==> read_title(
                    #[trigger] r@[k],
                    keep(views(ls@).take(i as int), p)[k],
                ),
        decreases ls.len() - i,
    {
        assert(views(ls@).take(i + 1).drop_last() =~= views(ls@).take(i as int));
        let ghost lv = views(ls@)[i as int];
        assert(lv == ls@[i as int]@);
        assert(views(ls@).take(i + 1).last() == lv);
        let fields = split_chars(&ls[i], &sep);
        if fields.len() > 1 {
            let mut t = Title::default();
            t.id = from_chars(&fields[0]);
            t.name = from_chars(&fields[1]);
            t.point_ids = chars_to_strings(&fields, 2);
            let ghost kp = keep(views(ls@).take(i + 1), p);
            assert(kp == keep(views(ls@).take(i as int), p).push(lv));
            r.push(t);
            assert forall|k: int| 0 <= k < r.len() implies read_title(#[trigger] r@[k], kp[k]) by {
                if k < r.len() - 1 {
                    assert(kp[k] == keep(views(ls@).take(i as int), p)[k]);
                }
            }
        }
        i = i + 1;
    }
    assert(views(ls@).take(ls.len() as int) =~= views(ls@));
    r
}

/// The image that the images lines give to title `id`: the last line of three fields whose
/// first field is `id` (not empty), or `dflt` when there is none.
pub open spec fn image_for(ls: Seq<Seq<char>>, id: Seq<char>, dflt: (Seq<char>, Seq<char>)) -> (
    Seq<char>,
    Seq<char>,
)
    decreases ls.len(),
{
    if ls.len() == 0 {
        dflt
    } else {
        let f = split_on(ls.last(), at());
        if f.len() == 3 && f[0].len() > 0 && f[0] == id {
            (f[1], f[2])
        } else {
            image_for(ls.drop_last(), id, dflt)
        }
    }
}

/// The first index at which `x` stands in `ids`, or -1.
pub open spec fn first_index(ids: Seq<Seq<char>>, x: Seq<char>) -> int
    decreases ids.len(),
{
    if ids.len() == 0 {
        -1
    } else {
        let r = first_index(ids.drop_last(), x);
        if r >= 0 {
            r
        } else if ids.last() == x {
            ids.len() - 1
        } else {
            -1
        }
    }
}

/// The image of a title as (path, description).
pub open spec fn image_of(t: Title) -> (Seq<char>, Seq<char>) {
    (t.image.path@, t.image.description@)
}

fn first_index_of(ids: &Vec<Vec<char>>, x: &Vec<char>) -> (r: Option<usize>)
    ensures
        match r {
            Some(i) => i as int == first_index(views(ids@), x@) && i < ids.len(),
            None => first_index(views(ids@), x@) == -1,
        },
{
    let mut i: usize = 0;
    while i < ids.len()
        invariant
            i <= ids.len(),
            first_index(views(ids@).take(i as int), x@) == -1,
        decreases ids.len() - i,
    {
        assert(views(ids@).take(i + 1).drop_last() =~= views(ids@).take(i as int));
        assert(views(ids@).take(i + 1).last() == ids@[i as int]@);
        if eq_chars(&ids[i], x) {
            proof {
                lemma_first_index_prefix(views(ids@), x@, i + 1);
            }
            return Some(i);
        }
        i = i + 1;
    }
    assert(views(ids@).take(ids.len() as int) =~= views(ids@));
    None
}

/// Once found in a prefix, the first index stays.
proof fn lemma_first_index_prefix(ids: Seq<Seq<char>>, x: Seq<char>, i: int)
    requires
        0 <= i <= ids.len(),
    ensures
        first_index(ids.take(i), x) >= 0 ==> first_index(ids, x) == first_index(ids.take(i), x),
    decreases ids.len() - i,
{
    if i < ids.len() {
        lemma_first_index_prefix(ids, x, i + 1);
        assert(ids.take(i + 1).drop_last() =~= ids.take(i));
    } else {
        assert(ids.take(i) =~= ids);
    }
}

/// Gives each title its image from the images file: a line `id@path@description` (three fields,
/// the first not empty) sets the image of the first title with that identifier; a later line
/// for the same title wins.
pub fn attach_images(images: &str, titles: &mut Vec<Title>)
    ensures
        final(titles).len() == old(titles).len(),
        forall|t: int|
            #![trigger final(titles)@[t]]
            0 <= t < final(titles).len() ==> {
                &&& image_of(final(titles)@[t]) == if first_index(
                    title_ids(old(titles)@),
                    old(titles)@[t].id@,
                ) == t {
                    image_for(file_lines(images@), old(titles)@[t].id@, image_of(old(titles)@[t]))
                } else {
                    image_of(old(titles)@[t])
                }
                &&& final(titles)@[t].id == old(titles)@[t].id
                &&& final(titles)@[t].name == old(titles)@[t].name
                &&& final(titles)@[t].point_ids == old(titles)@[t].point_ids
                &&& final(titles)@[t].links == old(titles)@[t].links
                &&& final(titles)@[t].tags == old(titles)@[t].tags
            },
{
    let c = to_chars(images);
    let ls = lines_of(&c);
    let ghost lv = views(ls@);
    let sep = at_chars();
    let mut ids: Vec<Vec<char>> = Vec::new();
    let mut q: usize = 0;
    while q < titles.len()
        invariant
            q <= titles.len(),
            views(ids@) == title_ids(titles@).take(q as int),
        decreases titles.len() - q,
    {
        let ghost before = views(ids@);
        ids.push(to_chars(titles[q].id.as_str()));
        assert(views(ids@) =~= before.push(titles@[q as int].id@));
        assert(title_ids(titles@).take(q + 1) =~= title_ids(titles@).take(q as int).push(
            titles@[q as int].id@,
        ));
        q = q + 1;
    }
    assert(title_ids(titles@).take(titles.len() as int) =~= title_ids(titles@));
    let ghost idv = views(ids@);
    let mut i: usize = 0;
    while i < ls.len()
        invariant
            i <= ls.len(),
            sep@ == at(),
            lv == views(ls@),
            lv == file_lines(images@),
            idv == views(ids@),
            idv == title_ids(old(titles)@),
            titles.len() == old(titles).len(),
            forall|t: int|
                #![trigger titles@[t]]
                0 <= t < titles.len() ==> {
                    &&& image_of(titles@[t]) == if first_index(idv, old(titles)@[t].id@) == t {
                        image_for(lv.take(i as int), old(titles)@[t].id@, image_of(old(titles)@[t]))
                    } else {
                        image_of(old(titles)@[t])
                    }
                    &&& titles@[t].id == old(titles)@[t].id
                    &&& titles@[t].name == old(titles)@[t].name
                    &&& titles@[t].point_ids == old(titles)@[t].point_ids
                    &&& titles@[t].links == old(titles)@[t].links
                    &&& titles@[t].tags == old(titles)@[t].tags
                },
        decreases ls.len() - i,
    {
        assert(lv.take(i + 1).drop_last() =~= lv.take(i as int));
        assert(lv.take(i + 1).last() == lv[i as int]);
        assert(lv[i as int] == ls@[i as int]@);
        let fields = split_chars(&ls[i], &sep);
        let ghost fv = views(fields@);
        let ghost prev = titles@;
        if fields.len() == 3 && fields[0].len() > 0 {
            match first_index_of(&ids, &fields[0]) {
                Some(t) => {
                    let mut title = titles.remove(t);
                    title.image = ImageStruct {
                        path: from_chars(&fields[1]),
                        description: from_chars(&fields[2]),
                    };
                    let ghost tv = title;
                    titles.insert(t, title);
                    assert(titles@ =~= prev.update(t as int, tv));
                    assert forall|u: int|
                        #![trigger titles@[u]]
                        0 <= u < titles.len() implies {
                            &&& image_of(titles@[u]) == if first_index(idv, old(titles)@[u].id@)
                                == u {
                                image_for(
                                    lv.take(i + 1),
                                    old(titles)@[u].id@,
                                    image_of(old(titles)@[u]),
                                )
                            } else {
                                image_of(old(titles)@[u])
                            }
                            &&& titles@[u].id == old(titles)@[u].id
                            &&& titles@[u].name == old(titles)@[u].name
                            &&& titles@[u].point_ids == old(titles)@[u].point_ids
                            &&& titles@[u].links == old(titles)@[u].links
                            &&& titles@[u].tags == old(titles)@[u].tags
                        } by {
                        assert(prev[u] == old(titles)@[u] || true);
                        assert(idv[u] == old(titles)@[u].id@);
                        if u == t {
                            assert(titles@[u] == tv);
                            assert(first_index(idv, fv[0]) == t);
                            assert(idv[t as int] == fv[0]) by {
                                lemma_first_index_at(idv, fv[0]);
                            }
                        } else {
                            assert(titles@[u] == prev[u]);
                            if first_index(idv, old(titles)@[u].id@) == u {
                                if old(titles)@[u].id@ == fv[0] {
                                    assert(false);
                                }
                            }
                        }
                    }
                },
                None => {
                    assert forall|u: int|
                        #![trigger titles@[u]]
                        0 <= u < titles.len() && first_index(idv, old(titles)@[u].id@) == u implies
                            old(titles)@[u].id@ != fv[0] by {
                        assert(idv[u] == old(titles)@[u].id@);
                    }
                },
            }
        }
        i = i + 1;
    }
    assert(lv.take(ls.len() as int) =~= lv);
}

/// Where the first index points, the identifier stands.
proof fn lemma_first_index_at(ids: Seq<Seq<char>>, x: Seq<char>)
    ensures
        first_index(ids, x) >= 0 ==> first_index(ids, x) < ids.len() && ids[first_index(ids, x)]
            == x,
        first_index(ids, x) == -1 ==> forall|k: int| 0 <= k < ids.len() ==> ids[k] != x,
        first_index(ids, x) >= -1,
    decreases ids.len(),
{
    if ids.len() > 0 {
        lemma_first_index_at(ids.drop_last(), x);
        assert forall|k: int| 0 <= k < ids.drop_last().len() implies ids.drop_last()[k] == ids[k] by {}
    }
}

} // verus!

verus! {

/// The state that loading a project gives: the titles with images and tags, the linked title
/// pairs, every tag, and one filter flag (off) per tag.
pub struct LoadedLibrary {
    pub titles: Vec<Title>,
    pub linked_pairs: Vec<(usize, usize)>,
    pub all_tags: Vec<String>,
    pub tags_actively_filtering: Vec<bool>,
}

/// What loading makes of titles `ts`, given the images, links and tags texts.
pub open spec fn loaded_from(
    r: LoadedLibrary,
    ts: Seq<Title>,
    images: Seq<char>,
    links: Seq<char>,
    tags: Seq<char>,
) -> bool {
    let ids = title_ids(ts);
    &&& r.titles.len() == ts.len()
    &&& forall|t: int|
        #![trigger r.titles@[t]]
        0 <= t < ts.len() ==> {
            &&& image_of(r.titles@[t]) == if first_index(ids, ts[t].id@) == t {
                image_for(file_lines(images), ts[t].id@, image_of(ts[t]))
            } else {
                image_of(ts[t])
            }
            &&& string_views(r.titles@[t].tags@) == string_views(ts[t].tags@) + tags_scan(
                file_lines(tags),
                ids,
                0,
                0,
            )[t]
            &&& r.titles@[t].id == ts[t].id
            &&& r.titles@[t].name == ts[t].name
            &&& r.titles@[t].point_ids == ts[t].point_ids
            &&& r.titles@[t].links == ts[t].links
        }
    &&& r.linked_pairs@ == index_pairs(link_pairs(titles_links(links)), ids)
    &&& string_views(r.all_tags@) == first_occurrences(crate::tag::flat_tags(file_lines(tags)))
    &&& r.tags_actively_filtering@ == Seq::new(r.all_tags.len() as nat, |k: int| false)
}

/// Gives the titles their images and tags and reads the links and tags, as loading a project
/// does. There is no result when a link names a title that is not in the list.
pub fn load_from_titles(titles: Vec<Title>, images: &str, links: &str, tags: &str) -> (r: Option<
    LoadedLibrary,
>)
    ensures
        r is Some <==> pairs_known(link_pairs(titles_links(links@)), title_ids(titles@)),
        r matches Some(l) ==> loaded_from(l, titles@, images@, links@, tags@),
{
    let ghost ts = titles@;
    let mut titles = titles;
    attach_images(images, &mut titles);
    assert(title_ids(titles@) =~= title_ids(ts)) by {
        assert forall|k: int| 0 <= k < ts.len() implies title_ids(titles@)[k] == title_ids(ts)[k] by {
            assert(titles@[k].id == ts[k].id);
        }
    }
    if !links_resolve(links, &titles) {
        return None;
    }
    let linked_pairs = get_linked_pairs(links, &titles);
    let all_tags = get_all_tags(tags);
    let ghost t1 = titles@;
    add_tags_to_titles(tags, &mut titles);
    assert(title_ids(t1) =~= title_ids(ts));
    let mut filter: Vec<bool> = Vec::new();
    let mut k: usize = 0;
    while k < all_tags.len()
        invariant
            k <= all_tags.len(),
            filter@ == Seq::new(k as nat, |j: int| false),
        decreases all_tags.len() - k,
    {
        filter.push(false);
        assert(filter@ =~= Seq::new((k + 1) as nat, |j: int| false));
        k = k + 1;
    }
    let r = LoadedLibrary { titles, linked_pairs, all_tags, tags_actively_filtering: filter };
    assert forall|t: int|
        #![trigger r.titles@[t]]
        0 <= t < ts.len() implies string_views(r.titles@[t].tags@) == string_views(ts[t].tags@)
            + tags_scan(file_lines(tags@), title_ids(ts), 0, 0)[t] by {
        assert(t1[t].tags == ts[t].tags);
    }
    Some(r)
}

/// Loads a project: the titles of the library text, then their images, tags and links.
pub fn load_from_library(library: &str, images: &str, links: &str, tags: &str) -> (r: Option<
    LoadedLibrary,
>)
    ensures
        r is Some <==> pairs_known(
            link_pairs(titles_links(links@)),
            title_lines(library@).map_values(|l: Seq<char>| split_on(l, at())[0]),
        ),
        r matches Some(l) ==> {
            &&& l.titles.len() == title_lines(library@).len()
            &&& forall|t: int|
                #![trigger l.titles@[t]]
                0 <= t < l.titles.len() ==> {
                    let f = split_on(title_lines(library@)[t], at());
                    let ids = title_lines(library@).map_values(
                        |x: Seq<char>| split_on(x, at())[0],
                    );
                    &&& l.titles@[t].id@ == f[0]
                    &&& l.titles@[t].name@ == f[1]
                    &&& string_views(l.titles@[t].point_ids@) == f.skip(2)
                    &&& l.titles@[t].links@ == Seq::<bool>::empty()
                    &&& image_of(l.titles@[t]) == if first_index(ids, f[0]) == t {
                        image_for(file_lines(images@), f[0], (Seq::empty(), Seq::empty()))
                    } else {
                        (Seq::<char>::empty(), Seq::<char>::empty())
                    }
                    &&& string_views(l.titles@[t].tags@) == tags_scan(
                        file_lines(tags@),
                        ids,
                        0,
                        0,
                    )[t]
                }
            &&& l.linked_pairs@ == index_pairs(
                link_pairs(titles_links(links@)),
                title_lines(library@).map_values(|x: Seq<char>| split_on(x, at())[0]),
            )
            &&& string_views(l.all_tags@) == first_occurrences(
                crate::tag::flat_tags(file_lines(tags@)),
            )
            &&& l.tags_actively_filtering@ == Seq::new(l.all_tags.len() as nat, |k: int| false)
        },
{
    let titles = load_titles(library);
    let ghost ts = titles@;
    let ghost tl = title_lines(library@);
    assert(title_ids(ts) =~= tl.map_values(|x: Seq<char>| split_on(x, at())[0])) by {
        assert forall|k: int| 0 <= k < ts.len() implies title_ids(ts)[k] == split_on(
            tl[k],
            at(),
        )[0] by {
            assert(read_title(ts[k], tl[k]));
        }
    }
    let r = load_from_titles(titles, images, links, tags);
    proof {
        if r is Some {
            let l = r->0;
            assert forall|t: int|
                #![trigger l.titles@[t]]
                0 <= t < l.titles.len() implies string_views(l.titles@[t].tags@) == tags_scan(
                    file_lines(tags@),
                    tl.map_values(|x: Seq<char>| split_on(x, at())[0]),
                    0,
                    0,
                )[t] by {
                assert(read_title(ts[t], tl[t]));
                assert(string_views(ts[t].tags@) =~= Seq::<Seq<char>>::empty());
                assert(Seq::<Seq<char>>::empty() + tags_scan(
                    file_lines(tags@),
                    title_ids(ts),
                    0,
                    0,
                )[t] =~= tags_scan(file_lines(tags@), title_ids(ts), 0, 0)[t]);
            }
            assert forall|t: int|
                #![trigger l.titles@[t]]
                0 <= t < l.titles.len() implies image_of(ts[t]) == (
                    Seq::<char>::empty(),
                    Seq::<char>::empty(),
                ) by {
                assert(read_title(ts[t], tl[t]));
            }
        }
    }
    r
}

} // verus!

verus! {

/// The fields of a library line after renaming title `id`.
proof fn lemma_line_renamed_fields(l: Seq<char>, id: Seq<char>, name: Seq<char>)
    requires
        !name.contains('@'),
    ensures
        split_on(line_renamed(l, id, name), at()) == (if split_on(l, at())[0] == id && split_on(
            l,
            at(),
        ).len() > 1 {
            split_on(l, at()).update(1, name)
        } else {
            split_on(l, at())
        }),
{
    let f = split_on(l, at());
    lemma_split_nonempty(l, at());
    if f[0] == id && f.len() > 1 {
        assert(at() =~= one('@'));
        lemma_split_parts_free(l, '@');
        let g = f.update(1, name);
        assert forall|i: int| 0 <= i < g.len() implies !(#[trigger] g[i]).contains('@') by {
            if i != 1 {
                assert(g[i] == f[i]);
            }
        }
        law_split_join(g, '@');
    }
}

/// Keeping the images of lines by a test that the map does not change is mapping what is kept.
proof fn lemma_keep_map(s: Seq<Seq<char>>, g: spec_fn(Seq<char>) -> Seq<char>, p: spec_fn(Seq<char>) -> bool)
    requires
        forall|i: int| 0 <= i < s.len() ==> p(g(#[trigger] s[i])) == p(s[i]),
    ensures
        keep(s.map_values(g), p) == keep(s, p).map_values(g),
    decreases s.len(),
{
    if s.len() > 0 {
        let d = s.drop_last();
        assert forall|i: int| 0 <= i < d.len() implies p(g(#[trigger] d[i])) == p(d[i]) by {
            assert(d[i] == s[i]);
        }
        lemma_keep_map(d, g, p);
        assert(s.map_values(g).drop_last() =~= d.map_values(g));
        assert(s.map_values(g).last() == g(s.last()));
        assert(p(g(s[s.len() - 1])) == p(s[s.len() - 1]));
        if p(s.last()) {
            assert(keep(s, p).map_values(g) =~= keep(d, p).map_values(g).push(g(s.last())));
        }
    } else {
        assert(s.map_values(g) =~= s);
    }
}

/// Renaming a title and reading the titles back gives the same title lines, in order, with the
/// same identifiers and point identifiers, and with the new name on the lines of that title;
/// when the name holds no `@` and no line break, and no written line but the last ends with
/// `\r`.
pub proof fn law_rename_read_back(library: Seq<char>, id: Seq<char>, name: Seq<char>)
    requires
        !name.contains('@'),
        !name.contains('\n'),
        no_line_ends_in_cr(file_lines(library).map_values(|l: Seq<char>| line_renamed(l, id, name))),
    ensures
        title_lines(renamed_library(library, id, name)).len() == title_lines(library).len(),
        forall|k: int|
            0 <= k < title_lines(library).len() ==> split_on(
                #[trigger] title_lines(renamed_library(library, id, name))[k],
                at(),
            ) == (if split_on(title_lines(library)[k], at())[0] == id {
                split_on(title_lines(library)[k], at()).update(1, name)
            } else {
                split_on(title_lines(library)[k], at())
            }),
{
    let ls = file_lines(library);
    let g = |l: Seq<char>| line_renamed(l, id, name);
    let out = ls.map_values(g);
    let p = describes_title();
    lemma_lines_no_newline(library);
    assert forall|i: int| 0 <= i < out.len() implies !(#[trigger] out[i]).contains('\n') by {
        let l = ls[i];
        let f = split_on(l, at());
        if f[0] == id && f.len() > 1 {
            let h = f.update(1, name);
            lemma_split_parts_avoid(l, at(), '\n');
            assert forall|j: int| 0 <= j < h.len() implies !(#[trigger] h[j]).contains('\n') by {
                if j != 1 {
                    assert(h[j] == f[j]);
                }
            }
            assert(!at().contains('\n')) by {
                if at().contains('\n') {
                    let k = choose|k: int| 0 <= k < at().len() && at()[k] == '\n';
                }
            }
            lemma_join_avoid(h, at(), '\n');
        }
    }
    lemma_lines_join_clean(out);
    assert(renamed_library(library, id, name) == join_lines(out));
    assert forall|i: int| 0 <= i < ls.len() implies p(g(#[trigger] ls[i])) == p(ls[i]) by {
        lemma_line_renamed_fields(ls[i], id, name);
    }
    lemma_keep_map(ls, g, p);
    let nl = file_lines(join_lines(out));
    if out.len() > 0 && out.last().len() == 0 {
        lemma_split_empty(at());
        assert(!p(out.last()));
        assert(keep(out, p) == keep(out.drop_last(), p));
    }
    assert(keep(nl, p) == keep(ls, p).map_values(g));
    assert forall|k: int| 0 <= k < title_lines(library).len() implies split_on(
        #[trigger] title_lines(renamed_library(library, id, name))[k],
        at(),
    ) == (if split_on(title_lines(library)[k], at())[0] == id {
        split_on(title_lines(library)[k], at()).update(1, name)
    } else {
        split_on(title_lines(library)[k], at())
    }) by {
        let l = title_lines(library)[k];
        assert(keep(ls, p).contains(l));
        lemma_keep_contains(ls, p, l);
        lemma_line_renamed_fields(l, id, name);
    }
}

} // verus!

verus! {

/// A line appended after a newline reads back as a last line, after the lines before it (and
/// an empty line when the text ended with a newline or was empty).
proof fn lemma_lines_appended(text: Seq<char>, x: Seq<char>)
    requires
        !(text.len() > 0 && text.last() == '\r'),
        !x.contains('\n'),
        x.len() > 0,
    ensures
        keep(file_lines(text + one('\n') + x), describes_title()) == keep(
            file_lines(text),
            describes_title(),
        ).push(x) || !describes_title()(x),
{
    let p = describes_title();
    let parts = split_on(text, one('\n'));
    lemma_split_append(text, '\n', x);
    lemma_split_nonempty(text, one('\n'));
    let n = parts.len();
    let np = parts.push(x);
    let f = |l: Seq<char>| strip_cr(l);
    let ended = parts.take(n - 1).map_values(f);
    let cut = ended.push(f(parts[n - 1]));
    assert(np.take(n as int).map_values(f) =~= cut);
    let nl = file_lines(text + one('\n') + x);
    assert(nl == cut.push(x));
    let ol = file_lines(text);
    if parts[n - 1].len() == 0 {
        assert(ol == ended);
        assert(f(parts[n - 1]) == parts[n - 1]);
        lemma_split_empty(at());
        assert(!p(cut.last()));
        assert(cut.drop_last() =~= ended);
        assert(keep(cut, p) == keep(ended, p));
    } else {
        crate::text::law_join_split(text, one('\n'));
        if n > 1 {
            crate::text::lemma_join_push(parts.take(n - 1), parts[n - 1], one('\n'));
            assert(parts.take(n - 1).push(parts[n - 1]) =~= parts);
        }
        assert(text.last() == parts[n - 1].last());
        assert(f(parts[n - 1]) == parts[n - 1]);
        assert(ol =~= cut);
    }
    assert(keep(ol, p) == keep(cut, p));
    if p(x) {
        assert(cut.push(x).drop_last() =~= cut);
        assert(cut.push(x).last() == x);
        assert(keep(cut.push(x), p) == keep(cut, p).push(x));
    }
}

/// A title added to the library reads back as the last title, with its identifier, the name
/// `New title` and no points, after the titles that were there; when the library does not end
/// with `\r` and the identifier holds no `@` and no line break.
pub proof fn law_added_title_reads_last(library: Seq<char>, id: Seq<char>)
    requires
        !(library.len() > 0 && library.last() == '\r'),
        !id.contains('@'),
        !id.contains('\n'),
    ensures
        title_lines(library + one('\n') + id + at() + crate::title::new_title_text())
            == title_lines(library).push(id + at() + crate::title::new_title_text()),
        split_on(id + at() + crate::title::new_title_text(), at()) == seq![
            id,
            crate::title::new_title_text(),
        ],
{
    let name = crate::title::new_title_text();
    let x = id + at() + name;
    assert(!name.contains('@') && !name.contains('\n')) by {
        if name.contains('@') || name.contains('\n') {
            let k = choose|k: int| 0 <= k < name.len() && (name[k] == '@' || name[k] == '\n');
            if k == 0 {} else if k == 1 {} else if k == 2 {} else if k == 3 {} else if k == 4 {}
            else if k == 5 {} else if k == 6 {} else if k == 7 {} else {}
        }
    }
    assert(at() =~= seq!['@']);
    crate::text::lemma_split_pair(id, name, at());
    assert(!at().contains('\n')) by {
        if at().contains('\n') {
            let k = choose|k: int| 0 <= k < at().len() && at()[k] == '\n';
        }
    }
    crate::text::lemma_concat_avoid(id, at(), '\n');
    crate::text::lemma_concat_avoid(id + at(), name, '\n');
    assert(x.len() > 0);
    assert(describes_title()(x));
    assert(library + one('\n') + id + at() + name =~= library + one('\n') + x);
    lemma_lines_appended(library, x);
}

} // verus!

verus! {

/// The image that lines give after every line about title `id` is replaced by
/// `id@path@description`.
proof fn lemma_image_after_replace(
    ls: Seq<Seq<char>>,
    id: Seq<char>,
    path: Seq<char>,
    description: Seq<char>,
    dflt: (Seq<char>, Seq<char>),
)
    requires
        id.len() > 0,
        split_on(id + at() + (path + at() + description), at()) == seq![id, path, description],
    ensures
        image_for(
            ls.map_values(|l: Seq<char>| line_replaced(l, id, path + at() + description)),
            id,
            dflt,
        ) == if exists|k: int| 0 <= k < ls.len() && split_on(#[trigger] ls[k], at())[0] == id {
            (path, description)
        } else {
            dflt
        },
    decreases ls.len(),
{
    let g = |l: Seq<char>| line_replaced(l, id, path + at() + description);
    if ls.len() > 0 {
        let d = ls.drop_last();
        lemma_image_after_replace(d, id, path, description, dflt);
        assert(ls.map_values(g).drop_last() =~= d.map_values(g));
        assert(ls.map_values(g).last() == g(ls.last()));
        if split_on(ls.last(), at())[0] == id {
            assert(split_on(ls[ls.len() - 1], at())[0] == id);
            assert(g(ls.last()) == id + at() + (path + at() + description));
        } else {
            assert(g(ls.last()) == ls.last());
            if exists|k: int| 0 <= k < ls.len() && split_on(#[trigger] ls[k], at())[0] == id {
                let k = choose|k: int| 0 <= k < ls.len() && split_on(#[trigger] ls[k], at())[0]
                    == id;
                assert(k < ls.len() - 1);
                assert(d[k] == ls[k]);
            }
            if exists|k: int| 0 <= k < d.len() && split_on(#[trigger] d[k], at())[0] == id {
                let k = choose|k: int| 0 <= k < d.len() && split_on(#[trigger] d[k], at())[0] == id;
                assert(ls[k] == d[k]);
            }
        }
    }
}

/// After a title is saved, loading the images gives it the saved image, when some line of the
/// images file is about the title (saving only replaces such lines; with none, the title keeps
/// the image it had): when the identifier is not empty and holds no `@` and no line break, the
/// path and description hold no `@` and no line break, and no written line but the last ends
/// with `\r`.
pub proof fn law_title_image_read_after_save(
    images: Seq<char>,
    id: Seq<char>,
    path: Seq<char>,
    description: Seq<char>,
    dflt: (Seq<char>, Seq<char>),
)
    requires
        id.len() > 0,
        !id.contains('@'),
        !id.contains('\n'),
        !path.contains('@'),
        !path.contains('\n'),
        !description.contains('@'),
        !description.contains('\n'),
        no_line_ends_in_cr(
            file_lines(images).map_values(
                |l: Seq<char>| line_replaced(l, id, path + at() + description),
            ),
        ),
    ensures
        image_for(
            file_lines(crate::general::line_replaced_text(images, id, path + at() + description)),
            id,
            dflt,
        ) == if exists|k: int|
            0 <= k < file_lines(images).len() && split_on(#[trigger] file_lines(images)[k], at())[0]
                == id {
            (path, description)
        } else {
            dflt
        },
{
    let ls = file_lines(images);
    let e = path + at() + description;
    let g = |l: Seq<char>| line_replaced(l, id, e);
    let out = ls.map_values(g);
    let line = id + at() + e;
    let parts = seq![id, path, description];
    assert(at() =~= one('@'));
    assert forall|i: int| 0 <= i < parts.len() implies !(#[trigger] parts[i]).contains('@') by {
        if i == 0 {} else if i == 1 {} else {}
    }
    assert(parts.drop_first() =~= seq![path, description]);
    assert(seq![path, description].drop_first() =~= seq![description]);
    assert(join_with(seq![description], at()) == description);
    assert(join_with(seq![path, description], at()) == path + at() + description);
    assert(join_with(parts, at()) == id + at() + (path + at() + description));
    law_split_join(parts, '@');
    lemma_lines_no_newline(images);
    assert(!at().contains('\n')) by {
        if at().contains('\n') {
            let k = choose|k: int| 0 <= k < at().len() && at()[k] == '\n';
        }
    }
    crate::text::lemma_concat_avoid(id, at(), '\n');
    crate::text::lemma_concat_avoid(id + at(), path, '\n');
    crate::text::lemma_concat_avoid(id + at() + path, at(), '\n');
    crate::text::lemma_concat_avoid(id + at() + path + at(), description, '\n');
    assert(id + at() + path + at() + description =~= line);
    assert forall|i: int| 0 <= i < out.len() implies !(#[trigger] out[i]).contains('\n') by {
        assert(out[i] == g(ls[i]));
    }
    lemma_lines_join_clean(out);
    assert(crate::general::line_replaced_text(images, id, e) == join_lines(out));
    lemma_image_after_replace(ls, id, path, description, dflt);
    if out.len() > 0 && out.last().len() == 0 {
        lemma_split_empty(at());
        let last = out.last();
        assert(split_on(last, at()).len() == 1);
        assert(image_for(out, id, dflt) == image_for(out.drop_last(), id, dflt));
    }
}

} // verus!
