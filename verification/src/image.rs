//! Image lines of point files, written as `Image|--|path|--|description`.
use crate::model::ImageStruct;
use crate::text::{
    append_chars, bar, bar_chars, copy_chars, eq_chars, file_lines, first_field, from_chars,
    join_lines, join_lines_chars, keep, lemma_split_nonempty, lines_of, split_chars, split_on,
    to_chars, views,
};
use vstd::prelude::*;

verus! {

/// `Image`, as characters.
pub open spec fn image_tag() -> Seq<char> {
    seq!['I', 'm', 'a', 'g', 'e']
}

/// The image line written by `add_image_to_point`.
pub open spec fn bar_image_line(path: Seq<char>, description: Seq<char>) -> Seq<char> {
    image_tag() + bar() + path + bar() + description
}

/// The lines that are not image lines (first field by `|--|` other than `Image`).
pub open spec fn non_image_lines(ls: Seq<Seq<char>>) -> Seq<Seq<char>> {
    keep(ls, |l: Seq<char>| first_field(l, bar()) != image_tag())
}

/// Writes an image line before the first other line of a point file. The image lines that were
/// there are dropped; a file with no other line stays without lines.
pub fn add_image_to_point(point_content: &str, image: &ImageStruct) -> (r: String)
    ensures
        r@ == join_lines(
            if non_image_lines(file_lines(point_content@)).len() == 0 {
                Seq::empty()
            } else {
                seq![bar_image_line(image.path@, image.description@)] + non_image_lines(
                    file_lines(point_content@),
                )
            },
        ),
{
    let c = to_chars(point_content);
    let ls = lines_of(&c);
    let sep = bar_chars();
    let tag = vec!['I', 'm', 'a', 'g', 'e'];
    assert(tag@ =~= image_tag());
    let mut new_line = copy_chars(&tag);
    append_chars(&mut new_line, &sep);
    append_chars(&mut new_line, &to_chars(image.path.as_str()));
    append_chars(&mut new_line, &sep);
    append_chars(&mut new_line, &to_chars(image.description.as_str()));
    let ghost il = bar_image_line(image.path@, image.description@);
    let ghost p = |l: Seq<char>| first_field(l, bar()) != image_tag();
    let mut out: Vec<Vec<char>> = Vec::new();
    let mut added = false;
    let mut i: usize = 0;
    while i < ls.len()
        invariant
            i <= ls.len(),
            sep@ == bar(),
            tag@ == image_tag(),
            new_line@ == il,
            p == (|l: Seq<char>| first_field(l, bar()) != image_tag()),
            added == (keep(views(ls@).take(i as int), p).len() > 0),
            views(out@) == if added {
                seq![il] + keep(views(ls@).take(i as int), p)
            } else {
                Seq::empty()
            },
        decreases ls.len() - i,
    {
        assert(views(ls@).take(i + 1).drop_last() =~= views(ls@).take(i as int));
        let fields = split_chars(&ls[i], &sep);
        proof {
            lemma_split_nonempty(views(ls@)[i as int], bar());
            assert(views(ls@)[i as int] == ls@[i as int]@);
        }
        assert(views(ls@).take(i + 1).last() == views(ls@)[i as int]);
        if !eq_chars(&fields[0], &tag) {
            assert(p(views(ls@)[i as int]));
            assert(keep(views(ls@).take(i + 1), p) == keep(views(ls@).take(i as int), p).push(
                views(ls@)[i as int],
            ));
            let ghost before = views(out@);
            let ghost k0 = keep(views(ls@).take(i as int), p);
            if !added {
                assert(k0 =~= Seq::<Seq<char>>::empty());
                out.push(copy_chars(&new_line));
                added = true;
                assert(views(out@) =~= seq![il] + k0);
            }
            let ghost mid = views(out@);
            out.push(copy_chars(&ls[i]));
            assert(views(out@) =~= mid.push(views(ls@)[i as int]));
            assert(views(out@) =~= seq![il] + keep(views(ls@).take(i + 1), p));
        } else {
            assert(!p(views(ls@)[i as int]));
            assert(keep(views(ls@).take(i + 1), p) == keep(views(ls@).take(i as int), p));
        }
        i = i + 1;
    }
    assert(views(ls@).take(ls.len() as int) =~= views(ls@));
    from_chars(&join_lines_chars(&out))
}

/// Whether a line is the image line of `path`: exactly three fields by `|--|`, the first
/// `Image` and the second `path`.
pub open spec fn names_image(l: Seq<char>, path: Seq<char>) -> bool {
    let f = split_on(l, bar());
    &&& f.len() == 3
    &&& f[0] == image_tag()
    &&& f[1] == path
}

/// Whether `k` is the index of the first image line of `path` in `ls`.
pub open spec fn is_first_image_line(ls: Seq<Seq<char>>, path: Seq<char>, k: int) -> bool {
    &&& 0 <= k < ls.len()
    &&& names_image(ls[k], path)
    &&& forall|j: int| 0 <= j < k ==> !names_image(#[trigger] ls[j], path)
}

/// The lines without the first image line of `path`; all lines when there is none.
pub open spec fn without_image_line(ls: Seq<Seq<char>>, path: Seq<char>) -> Seq<Seq<char>> {
    if exists|k: int| is_first_image_line(ls, path, k) {
        ls.remove(choose|k: int| is_first_image_line(ls, path, k))
    } else {
        ls
    }
}

/// Drops the first image line of `image.path` from a point file; every other line stays, in
/// its order.
pub fn delete_image_from_point(point_content: &str, image: &ImageStruct) -> (r: String)
    ensures
        r@ == join_lines(without_image_line(file_lines(point_content@), image.path@)),
{
    let c = to_chars(point_content);
    let mut ls = lines_of(&c);
    let sep = bar_chars();
    let tag = vec!['I', 'm', 'a', 'g', 'e'];
    assert(tag@ =~= image_tag());
    let path = to_chars(image.path.as_str());
    let ghost lv = views(ls@);
    let ghost pv = image.path@;
    let n = ls.len();
    let mut k: usize = n;
    let mut i: usize = 0;
    while i < n
        invariant
            i <= n,
            n == ls.len(),
            lv == views(ls@),
            sep@ == bar(),
            tag@ == image_tag(),
            path@ == pv,
            k <= n,
            k == n ==> forall|j: int| 0 <= j < i ==> !names_image(#[trigger] lv[j], pv),
            k < n ==> is_first_image_line(lv, pv, k as int),
        decreases n - i,
    {
        if k == n {
            let fields = split_chars(&ls[i], &sep);
            assert(lv[i as int] == ls@[i as int]@);
            let hit = fields.len() == 3 && eq_chars(&fields[0], &tag) && eq_chars(
                &fields[1],
                &path,
            );
            proof {
                if fields.len() == 3 {
                    assert(fields@[0]@ == split_on(lv[i as int], bar())[0]);
                    assert(fields@[1]@ == split_on(lv[i as int], bar())[1]);
                }
            }
            assert(hit == names_image(lv[i as int], pv));
            if hit {
                k = i;
            }
        }
        i = i + 1;
    }
    proof {
        if exists|k2: int| is_first_image_line(lv, pv, k2) {
            let k2 = choose|k2: int| is_first_image_line(lv, pv, k2);
            assert(k < n);
            if k2 < k {
                assert(!names_image(lv[k2], pv));
            } else if k < k2 {
                assert(!names_image(lv[k as int], pv));
            }
            assert(k2 == k);
        } else {
            if k < n {
                assert(is_first_image_line(lv, pv, k as int));
            }
        }
    }
    if k < n {
        ls.remove(k);
        assert(views(ls@) =~= lv.remove(k as int));
    }
    from_chars(&join_lines_chars(&ls))
}

} // verus!
