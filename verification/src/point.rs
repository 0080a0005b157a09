//! Point files: the text of a point with its image, date and time lines.
use crate::dates::{
    date_exists, date_text, parsed_date, parsed_time, point_time_text, time_text, time_valid,
    PointDate, PointTime,
};
use crate::general::{
    add_element_to_line, delete_all_mentions_from_file, delete_line_from_file,
    element_added_text, line_deleted_text, line_replaced_text, mentions_deleted_text,
    line_without_mentions,
    replace_line,
};
use crate::ids::{is_uuid_text, new_uuid_text};
use crate::model::{date_view, image_views, string_views, time_view, ImageStruct, Point, Title};
use crate::text::{
    append_chars, at, at_chars, first_occurrences, lemma_first_occurrences, contains_part, copy_chars, eq_chars, file_lines, first_field,
    first_field_chars, from_chars, join_chars, join_lines, join_lines_chars, join_with,
    lemma_split_nonempty, lines_of, one, split_chars, split_on, to_chars, views, lines_keep,
    law_lines_join, lemma_lines_no_newline, lemma_split_append,
    lemma_concat_avoid, strip_cr, law_split_join, lemma_split_pair, lemma_file_lines_after,
    lemma_lines_join_clean, lemma_split_empty, lemma_split_parts_free, lemma_keep_contains, keep,
    differs_from, lemma_split_parts_avoid, lemma_join_avoid, no_line_ends_in_cr,
};
use vstd::prelude::*;

verus! {

/// `Image`, the first field of an image line.
pub open spec fn image_word() -> Seq<char> {
    seq!['I', 'm', 'a', 'g', 'e']
}

/// `Date`, the first field of the date line.
pub open spec fn date_word() -> Seq<char> {
    seq!['D', 'a', 't', 'e']
}

/// `Time`, the first field of the time line.
pub open spec fn time_word() -> Seq<char> {
    seq!['T', 'i', 'm', 'e']
}

/// What is read of a point file: its text, images, date and time.
pub type PointRead = (Seq<char>, Seq<(Seq<char>, Seq<char>)>, Option<(i32, u32, u32)>, Option<
    (u32, u32, u32, bool),
>);

/// One line of a point file read into what was read before it. A line whose first field is
/// empty is skipped; `Image@path@description` adds an image; `Date@x` and `Time@x` set the date
/// and time (none when `x` is empty or chrono cannot read it); lines of other shapes that start
/// with these words are skipped; any other line is added to the text with a newline.
pub open spec fn point_line_step(r: PointRead, l: Seq<char>) -> PointRead {
    let f = split_on(l, at());
    if f[0].len() == 0 {
        r
    } else if f[0] == image_word() {
        if f.len() == 3 {
            (r.0, r.1.push((f[1], f[2])), r.2, r.3)
        } else {
            r
        }
    } else if f[0] == date_word() {
        if f.len() == 2 {
            (r.0, r.1, if f[1].len() == 0 {
                None
            } else {
                parsed_date(f[1])
            }, r.3)
        } else {
            r
        }
    } else if f[0] == time_word() {
        if f.len() == 2 {
            (r.0, r.1, r.2, if f[1].len() == 0 {
                None
            } else {
                parsed_time(f[1])
            })
        } else {
            r
        }
    } else {
        (r.0 + l + one('\n'), r.1, r.2, r.3)
    }
}

/// The lines of a point file read in order.
pub open spec fn read_point_lines(ls: Seq<Seq<char>>) -> PointRead
    decreases ls.len(),
{
    if ls.len() == 0 {
        (Seq::empty(), Seq::empty(), None, None)
    } else {
        point_line_step(read_point_lines(ls.drop_last()), ls.last())
    }
}

/// The point of a point file, as its parts are viewed.
pub open spec fn point_read_of(p: Point) -> PointRead {
    (p.content@, image_views(p.images@), date_view(p.date), time_view(p.time))
}

fn word_chars(w: &str) -> (v: Vec<char>)
    ensures
        v@ == w@,
{
    to_chars(w)
}

fn image_word_chars() -> (v: Vec<char>)
    ensures
        v@ == image_word(),
{
    let v = vec!['I', 'm', 'a', 'g', 'e'];
    assert(v@ =~= image_word());
    v
}

fn date_word_chars() -> (v: Vec<char>)
    ensures
        v@ == date_word(),
{
    let v = vec!['D', 'a', 't', 'e'];
    assert(v@ =~= date_word());
    v
}

fn time_word_chars() -> (v: Vec<char>)
    ensures
        v@ == time_word(),
{
    let v = vec!['T', 'i', 'm', 'e'];
    assert(v@ =~= time_word());
    v
}

/// Reads a point from the text of its file.
pub fn get_point_content_from_file(point_content: &str, point_id: &str) -> (r: Point)
    ensures
        r.id@ == point_id@,
        r.source@ == Seq::<char>::empty(),
        point_read_of(r) == read_point_lines(file_lines(point_content@)),
{
    let c = to_chars(point_content);
    let ls = lines_of(&c);
    let sep = at_chars();
    let img = image_word_chars();
    let dw = date_word_chars();
    let tw = time_word_chars();
    let mut content: Vec<char> = Vec::new();
    let mut images: Vec<ImageStruct> = Vec::new();
    let mut date: Option<PointDate> = None;
    let mut time: Option<PointTime> = None;
    let mut i: usize = 0;
    while i < ls.len()
        invariant
            i <= ls.len(),
            sep@ == at(),
            img@ == image_word(),
            dw@ == date_word(),
            tw@ == time_word(),
            (content@, image_views(images@), date_view(date), time_view(time)) == read_point_lines(
                views(ls@).take(i as int),
            ),
        decreases ls.len() - i,
    {
        assert(views(ls@).take(i + 1).drop_last() =~= views(ls@).take(i as int));
        let f = split_chars(&ls[i], &sep);
        proof {
            lemma_split_nonempty(ls@[i as int]@, at());
        }
        let ghost fv = views(f@);
        if f[0].len() == 0 {
        } else if eq_chars(&f[0], &img) {
            if f.len() == 3 {
                let im = ImageStruct { path: from_chars(&f[1]), description: from_chars(&f[2]) };
                let ghost before = images@;
                images.push(im);
                assert(image_views(images@) =~= image_views(before).push((fv[1], fv[2])));
            }
        } else if eq_chars(&f[0], &dw) {
            if f.len() == 2 {
                if f[1].len() == 0 {
                    date = None;
                } else {
                    let s = from_chars(&f[1]);
                    date = PointDate::parse(s.as_str());
                }
            }
        } else if eq_chars(&f[0], &tw) {
            if f.len() == 2 {
                if f[1].len() == 0 {
                    time = None;
                } else {
                    let s = from_chars(&f[1]);
                    time = PointTime::parse(s.as_str());
                }
            }
        } else {
            append_chars(&mut content, &ls[i]);
            content.push('\n');
        }
        i = i + 1;
    }
    assert(views(ls@).take(ls.len() as int) =~= views(ls@));
    Point {
        id: from_chars(&word_chars(point_id)),
        content: from_chars(&content),
        source: String::new(),
        images,
        date,
        time,
    }
}


/// The line of a point file that holds an image.
pub open spec fn image_line(path: Seq<char>, description: Seq<char>) -> Seq<char> {
    image_word() + at() + path + at() + description
}

/// The date line of a point file.
pub open spec fn date_line(d: Option<(i32, u32, u32)>) -> Seq<char> {
    date_word() + at() + match d {
        Some(x) => date_text(x.0 as int, x.1 as int, x.2 as int),
        None => Seq::empty(),
    }
}

/// The time line of a point file.
pub open spec fn time_line(t: Option<(u32, u32, u32, bool)>) -> Seq<char> {
    time_word() + at() + match t {
        Some(x) => point_time_text(x),
        None => Seq::empty(),
    }
}

/// The image line of an image, as (path, description).
pub open spec fn image_line_of() -> spec_fn((Seq<char>, Seq<char>)) -> Seq<char> {
    |im: (Seq<char>, Seq<char>)| image_line(im.0, im.1)
}

/// The image lines of images, as (path, description), in order.
pub open spec fn image_lines(ims: Seq<(Seq<char>, Seq<char>)>) -> Seq<Seq<char>> {
    ims.map_values(image_line_of())
}

/// The lines of the file of a point: its images, its date, its time and its text.
pub open spec fn point_file_lines(p: Point) -> Seq<Seq<char>> {
    image_lines(image_views(p.images@)) + seq![
        date_line(date_view(p.date)),
        time_line(time_view(p.time)),
        p.content@,
    ]
}

/// The text of the file of a point. Read back, it gives the point's images, date and time, and
/// its text line by line with each line ended by a newline, when the point fits its file.
pub fn save_point(point: &Point) -> (r: String)
    ensures
        r@ == join_lines(point_file_lines(*point)),
        point_fits_file(*point) ==> read_point_lines(file_lines(r@)) == (
            ended_lines(file_lines(point.content@)),
            image_views(point.images@),
            date_view(point.date),
            time_view(point.time),
        ),
{
    let sep = at_chars();
    let img = image_word_chars();
    let mut lines: Vec<Vec<char>> = Vec::new();
    let ghost f = image_line_of();
    let mut i: usize = 0;
    while i < point.images.len()
        invariant
            i <= point.images.len(),
            sep@ == at(),
            img@ == image_word(),
            f == image_line_of(),
            views(lines@) == image_views(point.images@).take(i as int).map_values(f),
        decreases point.images.len() - i,
    {
        let mut l = copy_chars(&img);
        append_chars(&mut l, &sep);
        append_chars(&mut l, &to_chars(point.images[i].path.as_str()));
        append_chars(&mut l, &sep);
        append_chars(&mut l, &to_chars(point.images[i].description.as_str()));
        let ghost before = views(lines@);
        lines.push(l);
        assert(views(lines@) =~= before.push(f(image_views(point.images@)[i as int])));
        assert(image_views(point.images@).take(i + 1).map_values(f) =~= image_views(
            point.images@,
        ).take(i as int).map_values(f).push(f(image_views(point.images@)[i as int])));
        i = i + 1;
    }
    assert(image_views(point.images@).take(point.images.len() as int) =~= image_views(
        point.images@,
    ));
    let mut dl = date_word_chars();
    append_chars(&mut dl, &sep);
    match &point.date {
        Some(d) => {
            append_chars(&mut dl, &to_chars(d.to_text().as_str()));
        },
        None => {},
    }
    assert(date_view(point.date) matches Some(x) ==> 1 <= x.1 <= 12 && 1 <= x.2 <= 31
        && parsed_date(date_text(x.0 as int, x.1 as int, x.2 as int)) == Some(x));
    let mut tl = time_word_chars();
    append_chars(&mut tl, &sep);
    match &point.time {
        Some(t) => {
            append_chars(&mut tl, &to_chars(t.to_text().as_str()));
        },
        None => {},
    }
    assert(time_view(point.time) matches Some(x) ==> time_valid(x) && parsed_time(
        point_time_text(x),
    ) == Some(x));
    let ghost before = views(lines@);
    lines.push(dl);
    lines.push(tl);
    lines.push(to_chars(point.content.as_str()));
    assert(views(lines@) =~= point_file_lines(*point));
    proof {
        if point_fits_file(*point) {
            law_point_read_after_save(*point);
        }
    }
    from_chars(&join_lines_chars(&lines))
}

/// `New point`, the text of a new point.
pub open spec fn new_point_text() -> Seq<char> {
    seq!['N', 'e', 'w', ' ', 'p', 'o', 'i', 'n', 't']
}

fn new_point_chars() -> (v: Vec<char>)
    ensures
        v@ == new_point_text(),
{
    let v = vec!['N', 'e', 'w', ' ', 'p', 'o', 'i', 'n', 't'];
    assert(v@ =~= new_point_text());
    v
}

/// What adding a point changes: the new point, the text of its file, and the new texts of the
/// library and sources files.
pub struct NewPoint {
    pub point: Point,
    pub point_file: String,
    pub library: String,
    pub sources: String,
}

/// A new point with identifier `id` was added to title `title_id`.
pub open spec fn new_point_added(
    np: NewPoint,
    title_id: Seq<char>,
    library: Seq<char>,
    sources: Seq<char>,
    id: Seq<char>,
) -> bool {
    &&& np.point.id@ == id
    &&& np.point.content@ == new_point_text()
    &&& np.point.source@ == Seq::<char>::empty()
    &&& np.point.images@ == Seq::<ImageStruct>::empty()
    &&& np.point.date is None
    &&& np.point.time is None
    &&& np.point_file@ == new_point_text()
    &&& np.library@ == element_added_text(library, title_id, id)
    &&& np.sources@ == sources + one('\n') + id + at()
}

/// Adds a point with identifier `id` to title `title_id`: a file with the text `New point`, the
/// identifier appended to the title's library line, and a line `id@` appended to the sources.
/// Nothing is added when the title identifier or the project directory is empty.
pub fn add_point_with_id(project_dir: &str, title_id: &str, library: &str, sources: &str, id: &str) -> (r:
    Option<NewPoint>)
    ensures
        r is Some <==> (title_id@.len() > 0 && project_dir@.len() > 0),
        r matches Some(np) ==> new_point_added(np, title_id@, library@, sources@, id@),
{
    if title_id.is_empty() || project_dir.is_empty() {
        return None;
    }
    let lib = add_element_to_line(library, title_id, id);
    let mut src = to_chars(sources);
    src.push('\n');
    append_chars(&mut src, &to_chars(id));
    src.push('@');
    assert(src@ =~= sources@ + one('\n') + id@ + at());
    let mut point = Point::default();
    point.id = from_chars(&to_chars(id));
    point.content = from_chars(&new_point_chars());
    Some(NewPoint { point, point_file: from_chars(&new_point_chars()), library: lib, sources: from_chars(&src) })
}

/// Adds a point with a fresh UUID to title `title_id`, as `add_point_with_id` does.
pub fn add_point(project_dir: &str, title_id: &str, library: &str, sources: &str) -> (r: Option<
    NewPoint,
>)
    ensures
        r is Some <==> (title_id@.len() > 0 && project_dir@.len() > 0),
        r matches Some(np) ==> is_uuid_text(np.point.id@) && new_point_added(
            np,
            title_id@,
            library@,
            sources@,
            np.point.id@,
        ),
{
    let id = new_uuid_text();
    add_point_with_id(project_dir, title_id, library, sources, id.as_str())
}

/// Deletes a point from the files: every mention of it in the library and its line in the
/// sources (first field by `@`). The new library and sources texts, in this order.
pub fn delete_point(library: &str, sources: &str, point_id: &str) -> (r: (String, String))
    ensures
        r.0@ == mentions_deleted_text(library@, point_id@),
        r.1@ == line_deleted_text(sources@, point_id@),
{
    (delete_all_mentions_from_file(library, point_id), delete_line_from_file(sources, point_id))
}

/// Index of the first line whose first field is `id`, from `i` on, or -1.
pub open spec fn first_line_about(ls: Seq<Seq<char>>, id: Seq<char>, i: int) -> int
    decreases ls.len() - i,
{
    if i < 0 || i >= ls.len() {
        -1
    } else if first_field(ls[i], at()) == id {
        i
    } else {
        first_line_about(ls, id, i + 1)
    }
}

/// The point identifiers of the first library line of title `title_id`: its fields from the
/// third on (none when no line is about the title).
pub open spec fn title_point_ids(library: Seq<char>, title_id: Seq<char>) -> Seq<Seq<char>> {
    let ls = file_lines(library);
    let k = first_line_about(ls, title_id, 0);
    if k < 0 {
        Seq::empty()
    } else {
        split_on(ls[k], at()).skip(2)
    }
}

/// The first library line of the title has its name.
pub open spec fn title_line_named(library: Seq<char>, title_id: Seq<char>) -> bool {
    let ls = file_lines(library);
    let k = first_line_about(ls, title_id, 0);
    k >= 0 ==> split_on(ls[k], at()).len() >= 2
}

/// The identifiers of the points of title `title_id` in the library, in order.
pub fn load_points_from_title_id(library: &str, title_id: &str) -> (r: Vec<String>)
    requires
        title_line_named(library@, title_id@),
    ensures
        string_views(r@) == title_point_ids(library@, title_id@),
{
    let c = to_chars(library);
    let id = to_chars(title_id);
    let sep = at_chars();
    let ls = lines_of(&c);
    let ghost lv = views(ls@);
    let mut i: usize = 0;
    while i < ls.len()
        invariant
            i <= ls.len(),
            lv == views(ls@),
            lv == file_lines(library@),
            id@ == title_id@,
            title_line_named(library@, title_id@),
            sep@ == at(),
            first_line_about(lv, id@, 0) == first_line_about(lv, id@, i as int),
        decreases ls.len() - i,
    {
        let first = first_field_chars(&ls[i], &sep);
        if eq_chars(&first, &id) {
            let fields = split_chars(&ls[i], &sep);
            assert(lv[i as int] == ls@[i as int]@);
            assert(first_line_about(lv, id@, i as int) == i);
            assert(views(fields@).len() == fields.len());
            let mut r: Vec<String> = Vec::new();
            let mut k: usize = 2;
            assert(string_views(r@) =~= views(fields@).subrange(2, 2));
            while k < fields.len()
                invariant
                    2 <= k <= fields.len(),
                    string_views(r@) == views(fields@).subrange(2, k as int),
                decreases fields.len() - k,
            {
                let ghost before = string_views(r@);
                r.push(from_chars(&fields[k]));
                assert(string_views(r@) =~= before.push(views(fields@)[k as int]));
                assert(views(fields@).subrange(2, k + 1) =~= views(fields@).subrange(2, k as int).push(
                    views(fields@)[k as int],
                ));
                k = k + 1;
            }
            assert(views(fields@).subrange(2, fields.len() as int) =~= views(fields@).skip(2));
            return r;
        }
        i = i + 1;
    }
    Vec::new()
}


/// Moves the item at `from` to `to`, shifting the items between them by one place, as the
/// rotation of a dragged item does.
pub fn move_item<T>(v: &mut Vec<T>, from: usize, to: usize)
    requires
        from < old(v).len(),
        to < old(v).len(),
    ensures
        final(v)@ == old(v)@.remove(from as int).insert(to as int, old(v)@[from as int]),
{
    let x = v.remove(from);
    v.insert(to, x);
}

/// Where a dragged item lands: `to`, or the last place when `to` is past it.
pub open spec fn clamp_position(to: int, n: int) -> int {
    if to >= n {
        n - 1
    } else {
        to
    }
}

/// The text after the title identifier on a library line: the name, then the point identifiers.
pub open spec fn library_line_rest(name: Seq<char>, point_ids: Seq<Seq<char>>) -> Seq<char> {
    name + at() + join_with(point_ids, at())
}

/// Strings as character vectors.
pub fn strings_to_chars(v: &Vec<String>) -> (r: Vec<Vec<char>>)
    ensures
        views(r@) == string_views(v@),
{
    let mut r: Vec<Vec<char>> = Vec::new();
    let mut i: usize = 0;
    while i < v.len()
        invariant
            i <= v.len(),
            views(r@) == string_views(v@).take(i as int),
        decreases v.len() - i,
    {
        let ghost before = views(r@);
        r.push(to_chars(v[i].as_str()));
        assert(views(r@) =~= before.push(v@[i as int]@));
        assert(string_views(v@).take(i + 1) =~= string_views(v@).take(i as int).push(v@[i as int]@));
        i = i + 1;
    }
    assert(string_views(v@).take(v.len() as int) =~= string_views(v@));
    r
}

/// Moves a point of a title from place `from_position` to place `to_position` (the last place
/// when past it), and gives the new library text, in which the title's line holds its name and
/// the points in their new order.
pub fn change_point_position(title: &mut Title, library: &str, from_position: usize, to_position: usize) -> (r: String)
    requires
        0 < old(title).point_ids.len(),
        from_position < old(title).point_ids.len(),
    ensures
        final(title).point_ids@ == old(title).point_ids@.remove(from_position as int).insert(
            clamp_position(to_position as int, old(title).point_ids.len() as int),
            old(title).point_ids@[from_position as int],
        ),
        final(title).name == old(title).name,
        final(title).id == old(title).id,
        final(title).links == old(title).links,
        final(title).image == old(title).image,
        final(title).tags == old(title).tags,
        r@ == line_replaced_text(
            library@,
            old(title).id@,
            library_line_rest(old(title).name@, string_views(final(title).point_ids@)),
        ),
{
    let n = title.point_ids.len();
    let to = if to_position >= n {
        n - 1
    } else {
        to_position
    };
    move_item(&mut title.point_ids, from_position, to);
    let mut line = to_chars(title.name.as_str());
    let sep = at_chars();
    append_chars(&mut line, &sep);
    let ids = strings_to_chars(&title.point_ids);
    append_chars(&mut line, &join_chars(&ids, &sep));
    let rest = from_chars(&line);
    replace_line(library, title.id.as_str(), rest.as_str())
}

/// All point identifiers of the titles, in order, each once.
pub open spec fn flat_point_ids(ts: Seq<Title>) -> Seq<Seq<char>>
    decreases ts.len(),
{
    if ts.len() == 0 {
        Seq::empty()
    } else {
        flat_point_ids(ts.drop_last()) + string_views(ts.last().point_ids@)
    }
}

/// The identifiers of all points of the titles, each once, in the order of first mention.
pub fn get_all_points(titles: &Vec<Title>) -> (r: Vec<String>)
    ensures
        string_views(r@) == first_occurrences(flat_point_ids(titles@)),
{
    let mut acc: Vec<Vec<char>> = Vec::new();
    let mut i: usize = 0;
    while i < titles.len()
        invariant
            i <= titles.len(),
            views(acc@) == first_occurrences(flat_point_ids(titles@.take(i as int))),
        decreases titles.len() - i,
    {
        let ids = strings_to_chars(&titles[i].point_ids);
        let ghost base = flat_point_ids(titles@.take(i as int));
        let mut j: usize = 0;
        assert(base + views(ids@).take(0) =~= base);
        while j < ids.len()
            invariant
                j <= ids.len(),
                views(acc@) == first_occurrences(base + views(ids@).take(j as int)),
            decreases ids.len() - j,
        {
            let ghost prev = base + views(ids@).take(j as int);
            assert((base + views(ids@).take(j + 1)).drop_last() =~= prev);
            assert((base + views(ids@).take(j + 1)).last() == views(ids@)[j as int]);
            if !contains_part(&acc, &ids[j]) {
                let ghost before = views(acc@);
                acc.push(copy_chars(&ids[j]));
                assert(views(acc@) =~= before.push(views(ids@)[j as int]));
            }
            j = j + 1;
        }
        assert(titles@.take(i + 1).drop_last() =~= titles@.take(i as int));
        assert(views(ids@).take(ids.len() as int) =~= views(ids@));
        assert(flat_point_ids(titles@.take(i + 1)) == base + string_views(titles@[i as int].point_ids@));
        i = i + 1;
    }
    assert(titles@.take(titles.len() as int) =~= titles@);
    let mut r: Vec<String> = Vec::new();
    let mut k: usize = 0;
    while k < acc.len()
        invariant
            k <= acc.len(),
            string_views(r@) == views(acc@).take(k as int),
        decreases acc.len() - k,
    {
        let ghost before = string_views(r@);
        r.push(from_chars(&acc[k]));
        assert(string_views(r@) =~= before.push(views(acc@)[k as int]));
        assert(views(acc@).take(k + 1) =~= views(acc@).take(k as int).push(views(acc@)[k as int]));
        k = k + 1;
    }
    assert(views(acc@).take(acc.len() as int) =~= views(acc@));
    r
}

/// Each point identifier of the titles is listed once by `get_all_points`, and nothing else is.
pub proof fn law_all_points_once(titles: Seq<Title>)
    ensures
        first_occurrences(flat_point_ids(titles)).no_duplicates(),
        forall|x: Seq<char>|
            first_occurrences(flat_point_ids(titles)).contains(x) <==> flat_point_ids(
                titles,
            ).contains(x),
{
    lemma_first_occurrences(flat_point_ids(titles));
}

} // verus!

verus! {

/// After a point is added to a title, the title's points read from the library are its points
/// before with the new one last; when the library does not end in an empty line, no written
/// line but the last ends with `\r`, the title's line has a name, and the point's identifier
/// holds no `@` and no line break.
pub proof fn law_added_point_is_last(library: Seq<char>, title_id: Seq<char>, point_id: Seq<char>)
    requires
        file_lines(library).len() == 0 || file_lines(library).last().len() > 0,
        no_line_ends_in_cr(
            file_lines(library).map_values(
                |l: Seq<char>| crate::general::line_with_element(l, title_id, point_id),
            ),
        ),
        title_line_named(library, title_id),
        !point_id.contains('@'),
        !point_id.contains('\n'),
    ensures
        title_point_ids(element_added_text(library, title_id, point_id), title_id) == if first_line_about(
            file_lines(library),
            title_id,
            0,
        ) >= 0 {
            title_point_ids(library, title_id).push(point_id)
        } else {
            title_point_ids(library, title_id)
        },
{
    let ls = file_lines(library);
    let f = |l: Seq<char>| crate::general::line_with_element(l, title_id, point_id);
    let out = ls.map_values(f);
    lemma_lines_no_newline(library);
    assert(at() == one('@'));
    assert forall|i: int| 0 <= i < ls.len() implies first_field(#[trigger] out[i], at())
        == first_field(ls[i], at()) && !out[i].contains('\n') && out[i].len() >= ls[i].len() && (first_field(ls[i], at()) == title_id ==> split_on(
        out[i],
        at(),
    ) == split_on(ls[i], at()).push(point_id)) by {
        assert(out[i] == f(ls[i]));
        if first_field(ls[i], at()) == title_id {
            lemma_split_append(ls[i], '@', point_id);
            lemma_concat_avoid(ls[i], at(), '\n');
            lemma_concat_avoid(ls[i] + at(), point_id, '\n');
        }
    }
    assert(lines_keep(out)) by {
        if out.len() > 0 {
            assert(out.last() == out[out.len() - 1]);
        }
    }
    law_lines_join(out);
    lemma_first_line_same(ls, out, title_id, 0);
    let k = first_line_about(ls, title_id, 0);
    if k >= 0 {
        lemma_first_line_about(ls, title_id, 0);
        assert(split_on(out[k], at()).skip(2) =~= split_on(ls[k], at()).skip(2).push(point_id));
    }
}

/// Lines with the same first fields have the same first line about an identifier.
proof fn lemma_first_line_same(ls: Seq<Seq<char>>, out: Seq<Seq<char>>, id: Seq<char>, i: int)
    requires
        ls.len() == out.len(),
        forall|j: int| 0 <= j < ls.len() ==> first_field(#[trigger] out[j], at()) == first_field(ls[j], at()),
        0 <= i,
    ensures
        first_line_about(out, id, i) == first_line_about(ls, id, i),
    decreases ls.len() - i,
{
    if i < ls.len() {
        lemma_first_line_same(ls, out, id, i + 1);
    }
}

/// Where the first line about an identifier stands.
proof fn lemma_first_line_about(ls: Seq<Seq<char>>, id: Seq<char>, i: int)
    requires
        0 <= i,
    ensures
        first_line_about(ls, id, i) >= 0 ==> i <= first_line_about(ls, id, i) < ls.len()
            && first_field(ls[first_line_about(ls, id, i)], at()) == id,
        first_line_about(ls, id, i) >= -1,
    decreases ls.len() - i,
{
    if i < ls.len() {
        lemma_first_line_about(ls, id, i + 1);
    }
}

} // verus!

verus! {

/// No `@`, no newline and no carriage return.
pub open spec fn plain_char(c: char) -> bool {
    c != '@' && c != '\n' && c != '\r'
}

/// Every character of `s` is plain.
pub open spec fn all_plain(s: Seq<char>) -> bool {
    forall|i: int| 0 <= i < s.len() ==> plain_char(#[trigger] s[i])
}

/// A plain text holds no `@`, no newline, and keeps when read as a line.
proof fn lemma_plain_facts(s: Seq<char>)
    requires
        all_plain(s),
    ensures
        !s.contains('@'),
        !s.contains('\n'),
        s.len() > 0 ==> s.last() != '\r',
{
    if s.contains('@') {
        let k = choose|k: int| 0 <= k < s.len() && s[k] == '@';
        assert(plain_char(s[k]));
    }
    if s.contains('\n') {
        let k = choose|k: int| 0 <= k < s.len() && s[k] == '\n';
        assert(plain_char(s[k]));
    }
    if s.len() > 0 {
        assert(plain_char(s[s.len() - 1]));
    }
}

proof fn lemma_plain_concat(a: Seq<char>, b: Seq<char>)
    requires
        all_plain(a),
        all_plain(b),
    ensures
        all_plain(a + b),
{
    assert forall|i: int| 0 <= i < (a + b).len() implies plain_char(#[trigger] (a + b)[i]) by {
        if i < a.len() {
            assert((a + b)[i] == a[i]);
        } else {
            assert((a + b)[i] == b[i - a.len()]);
        }
    }
}

proof fn lemma_digit_plain(n: int)
    requires
        0 <= n <= 9,
    ensures
        plain_char(crate::dates::digit(n)),
{
}

proof fn lemma_decimal_plain(n: nat)
    ensures
        all_plain(crate::dates::decimal(n)),
    decreases n,
{
    if n < 10 {
        lemma_digit_plain(n as int);
    } else {
        lemma_decimal_plain(n / 10);
        lemma_digit_plain((n % 10) as int);
        let d = crate::dates::decimal(n / 10);
        let x = crate::dates::digit((n % 10) as int);
        assert forall|i: int| 0 <= i < d.push(x).len() implies plain_char(#[trigger] d.push(x)[i]) by {
            if i < d.len() {
                assert(d.push(x)[i] == d[i]);
            }
        }
    }
}

proof fn lemma_two_digits_plain(n: int)
    requires
        0 <= n <= 99,
    ensures
        all_plain(crate::dates::two_digits(n)),
        crate::dates::two_digits(n).len() == 2,
{
    lemma_digit_plain(n / 10);
    lemma_digit_plain(n % 10);
    let t = crate::dates::two_digits(n);
    assert forall|i: int| 0 <= i < t.len() implies plain_char(#[trigger] t[i]) by {
        if i == 0 {
        } else {
        }
    }
}

proof fn lemma_pad4_plain(s: Seq<char>)
    requires
        all_plain(s),
    ensures
        all_plain(crate::dates::pad4(s)),
{
    if s.len() < 4 {
        let z = Seq::new((4 - s.len()) as nat, |i: int| '0');
        assert forall|i: int| 0 <= i < z.len() implies plain_char(#[trigger] z[i]) by {}
        lemma_plain_concat(z, s);
    }
}

/// A date as chrono prints it is plain and not empty.
proof fn lemma_date_text_plain(y: int, m: int, d: int)
    requires
        1 <= m <= 12,
        1 <= d <= 31,
    ensures
        all_plain(date_text(y, m, d)),
        date_text(y, m, d).len() > 0,
{
    let yt = crate::dates::year_text(y);
    if 0 <= y <= 9999 {
        lemma_decimal_plain(y as nat);
        lemma_pad4_plain(crate::dates::decimal(y as nat));
    } else if y < 0 {
        lemma_decimal_plain((-y) as nat);
        lemma_pad4_plain(crate::dates::decimal((-y) as nat));
        let sign = seq!['-'];
        assert forall|i: int| 0 <= i < sign.len() implies plain_char(#[trigger] sign[i]) by {}
        lemma_plain_concat(sign, crate::dates::pad4(crate::dates::decimal((-y) as nat)));
    } else {
        lemma_decimal_plain(y as nat);
        lemma_pad4_plain(crate::dates::decimal(y as nat));
        let sign = seq!['+'];
        assert forall|i: int| 0 <= i < sign.len() implies plain_char(#[trigger] sign[i]) by {}
        lemma_plain_concat(sign, crate::dates::pad4(crate::dates::decimal(y as nat)));
    }
    let dash = seq!['-'];
    assert forall|i: int| 0 <= i < dash.len() implies plain_char(#[trigger] dash[i]) by {}
    lemma_two_digits_plain(m);
    lemma_two_digits_plain(d);
    lemma_plain_concat(yt, dash);
    lemma_plain_concat(yt + dash, crate::dates::two_digits(m));
    lemma_plain_concat(yt + dash + crate::dates::two_digits(m), dash);
    lemma_plain_concat(yt + dash + crate::dates::two_digits(m) + dash, crate::dates::two_digits(d));
}

/// A time of day as chrono prints it is plain and not empty.
proof fn lemma_time_text_plain(h: int, m: int, s: int)
    requires
        0 <= h < 24,
        0 <= m < 60,
        0 <= s <= 60,
    ensures
        all_plain(time_text(h, m, s)),
        time_text(h, m, s).len() > 0,
{
    let colon = seq![':'];
    assert forall|i: int| 0 <= i < colon.len() implies plain_char(#[trigger] colon[i]) by {}
    lemma_two_digits_plain(h);
    lemma_two_digits_plain(m);
    lemma_two_digits_plain(s);
    let (a, b, c) = (crate::dates::two_digits(h), crate::dates::two_digits(m), crate::dates::two_digits(s));
    lemma_plain_concat(a, colon);
    lemma_plain_concat(a + colon, b);
    lemma_plain_concat(a + colon + b, colon);
    lemma_plain_concat(a + colon + b + colon, c);
}

proof fn lemma_words_plain()
    ensures
        all_plain(image_word()),
        all_plain(date_word()),
        all_plain(time_word()),
        image_word() != date_word(),
        image_word() != time_word(),
        date_word() != time_word(),
{
    let (iw, dw, tw) = (image_word(), date_word(), time_word());
    assert forall|i: int| 0 <= i < iw.len() implies plain_char(#[trigger] iw[i]) by {
        if i == 0 {} else if i == 1 {} else if i == 2 {} else if i == 3 {} else {}
    }
    assert forall|i: int| 0 <= i < dw.len() implies plain_char(#[trigger] dw[i]) by {
        if i == 0 {} else if i == 1 {} else if i == 2 {} else {}
    }
    assert forall|i: int| 0 <= i < tw.len() implies plain_char(#[trigger] tw[i]) by {
        if i == 0 {} else if i == 1 {} else if i == 2 {} else {}
    }
    assert(iw.len() != dw.len());
    assert(iw.len() != tw.len());
    assert(dw[0] != tw[0]);
}

} // verus!

verus! {

/// Nothing read yet.
pub open spec fn nothing_read() -> PointRead {
    (Seq::empty(), Seq::empty(), None, None)
}

/// The lines read in order into what was read before them.
pub open spec fn read_lines_from(r: PointRead, ls: Seq<Seq<char>>) -> PointRead
    decreases ls.len(),
{
    if ls.len() == 0 {
        r
    } else {
        point_line_step(read_lines_from(r, ls.drop_last()), ls.last())
    }
}

/// Each line followed by a newline, in order.
pub open spec fn ended_lines(ls: Seq<Seq<char>>) -> Seq<char>
    decreases ls.len(),
{
    if ls.len() == 0 {
        Seq::empty()
    } else {
        ended_lines(ls.drop_last()) + ls.last() + one('\n')
    }
}

/// A line that a point file holds as text: its first field by `@` is not empty and is none of
/// `Image`, `Date` and `Time`.
pub open spec fn is_text_line(l: Seq<char>) -> bool {
    let f = split_on(l, at())[0];
    f.len() > 0 && f != image_word() && f != date_word() && f != time_word()
}

/// An image that its line keeps: neither path nor description holds `@` or a newline, and the
/// description does not end with `\r`.
pub open spec fn image_fits(im: (Seq<char>, Seq<char>)) -> bool {
    &&& !im.0.contains('@')
    &&& !im.0.contains('\n')
    &&& !im.1.contains('@')
    &&& !im.1.contains('\n')
    &&& !(im.1.len() > 0 && im.1.last() == '\r')
}

/// A point that its file keeps: no image path or description holds `@` or a newline, no
/// description ends with `\r`, and every line of its text is a text line.
pub open spec fn point_fits_file(p: Point) -> bool {
    &&& forall|i: int| 0 <= i < p.images.len() ==> image_fits(#[trigger] image_views(p.images@)[i])
    &&& forall|i: int|
        0 <= i < file_lines(p.content@).len() ==> is_text_line(#[trigger] file_lines(p.content@)[i])
}

proof fn lemma_read_from_nothing(ls: Seq<Seq<char>>)
    ensures
        read_point_lines(ls) == read_lines_from(nothing_read(), ls),
    decreases ls.len(),
{
    if ls.len() > 0 {
        lemma_read_from_nothing(ls.drop_last());
    }
}

proof fn lemma_read_append(r: PointRead, a: Seq<Seq<char>>, b: Seq<Seq<char>>)
    ensures
        read_lines_from(r, a + b) == read_lines_from(read_lines_from(r, a), b),
    decreases b.len(),
{
    if b.len() == 0 {
        assert(a + b =~= a);
    } else {
        lemma_read_append(r, a, b.drop_last());
        assert((a + b).drop_last() =~= a + b.drop_last());
        assert((a + b).last() == b.last());
    }
}

proof fn lemma_split_image_line(im: (Seq<char>, Seq<char>))
    requires
        image_fits(im),
    ensures
        split_on(image_line(im.0, im.1), at()) == seq![image_word(), im.0, im.1],
        !image_line(im.0, im.1).contains('\n'),
        strip_cr(image_line(im.0, im.1)) == image_line(im.0, im.1),
{
    lemma_words_plain();
    lemma_plain_facts(image_word());
    let parts = seq![image_word(), im.0, im.1];
    assert(at() =~= one('@'));
    assert forall|i: int| 0 <= i < parts.len() implies !(#[trigger] parts[i]).contains('@') by {
        if i == 0 {} else if i == 1 {} else {}
    }
    let tail = seq![im.0, im.1];
    assert(parts.drop_first() =~= tail);
    assert(tail.drop_first() =~= seq![im.1]);
    assert(join_with(seq![im.1], at()) == im.1);
    assert(join_with(tail, at()) == im.0 + at() + im.1);
    assert(join_with(parts, at()) == image_word() + at() + (im.0 + at() + im.1));
    assert(join_with(parts, at()) =~= image_line(im.0, im.1));
    law_split_join(parts, '@');
    let l = image_line(im.0, im.1);
    assert(!at().contains('\n')) by {
        if at().contains('\n') {
            let k = choose|k: int| 0 <= k < at().len() && at()[k] == '\n';
        }
    }
    lemma_concat_avoid(image_word(), at(), '\n');
    lemma_concat_avoid(image_word() + at(), im.0, '\n');
    lemma_concat_avoid(image_word() + at() + im.0, at(), '\n');
    lemma_concat_avoid(image_word() + at() + im.0 + at(), im.1, '\n');
    if im.1.len() > 0 {
        assert(l.last() == im.1.last());
    } else {
        assert(l.last() == '@');
    }
}

proof fn lemma_read_images(r: PointRead, ims: Seq<(Seq<char>, Seq<char>)>)
    requires
        forall|i: int| 0 <= i < ims.len() ==> image_fits(#[trigger] ims[i]),
    ensures
        read_lines_from(r, image_lines(ims)) == (r.0, r.1 + ims, r.2, r.3),
    decreases ims.len(),
{
    if ims.len() == 0 {
        assert(image_lines(ims) =~= Seq::<Seq<char>>::empty());
        assert(r.1 + ims =~= r.1);
    } else {
        let d = ims.drop_last();
        assert forall|i: int| 0 <= i < d.len() implies image_fits(#[trigger] d[i]) by {
            assert(d[i] == ims[i]);
        }
        lemma_read_images(r, d);
        assert(image_lines(ims).drop_last() =~= image_lines(d));
        let im = ims.last();
        assert(image_fits(ims[ims.len() - 1]));
        assert(image_lines(ims).last() == image_line(im.0, im.1));
        lemma_split_image_line(im);
        lemma_words_plain();
        assert((r.1 + d).push(im) =~= r.1 + ims);
    }
}

proof fn lemma_read_text_lines(r: PointRead, ls: Seq<Seq<char>>)
    requires
        forall|i: int| 0 <= i < ls.len() ==> is_text_line(#[trigger] ls[i]),
    ensures
        read_lines_from(r, ls) == (r.0 + ended_lines(ls), r.1, r.2, r.3),
    decreases ls.len(),
{
    if ls.len() == 0 {
        assert(r.0 + ended_lines(ls) =~= r.0);
    } else {
        let d = ls.drop_last();
        assert forall|i: int| 0 <= i < d.len() implies is_text_line(#[trigger] d[i]) by {
            assert(d[i] == ls[i]);
        }
        lemma_read_text_lines(r, d);
        assert(is_text_line(ls[ls.len() - 1]));
        assert(r.0 + ended_lines(d) + ls.last() + one('\n') =~= r.0 + ended_lines(ls));
    }
}

/// The date line of a point file, read, sets the date.
proof fn lemma_read_date_line(r: PointRead, d: Option<(i32, u32, u32)>)
    requires
        d matches Some(x) ==> 1 <= x.1 <= 12 && 1 <= x.2 <= 31 && parsed_date(
            date_text(x.0 as int, x.1 as int, x.2 as int),
        ) == Some(x),
    ensures
        point_line_step(r, date_line(d)) == (r.0, r.1, d, r.3),
        !date_line(d).contains('\n'),
        strip_cr(date_line(d)) == date_line(d),
{
    lemma_words_plain();
    lemma_plain_facts(date_word());
    let x = match d {
        Some(x) => date_text(x.0 as int, x.1 as int, x.2 as int),
        None => Seq::<char>::empty(),
    };
    let ap = seq!['@'];
    if let Some(v) = d {
        lemma_date_text_plain(v.0 as int, v.1 as int, v.2 as int);
        lemma_plain_facts(x);
    }
    assert(!x.contains('@'));
    assert(!x.contains('\n'));
    assert(at() =~= ap);
    lemma_split_pair(date_word(), x, at());
    assert(date_line(d) == date_word() + at() + x);
    assert(!at().contains('\n')) by {
        if at().contains('\n') {
            let k = choose|k: int| 0 <= k < at().len() && at()[k] == '\n';
        }
    }
    lemma_concat_avoid(date_word(), at(), '\n');
    lemma_concat_avoid(date_word() + at(), x, '\n');
    let l = date_line(d);
    if x.len() > 0 {
        assert(l.last() == x.last());
    } else {
        assert(l.last() == '@');
    }
}

/// The time line of a point file, read, sets the time.
proof fn lemma_read_time_line(r: PointRead, t: Option<(u32, u32, u32, bool)>)
    requires
        t matches Some(x) ==> time_valid(x) && parsed_time(point_time_text(x)) == Some(x),
    ensures
        point_line_step(r, time_line(t)) == (r.0, r.1, r.2, t),
        !time_line(t).contains('\n'),
        strip_cr(time_line(t)) == time_line(t),
{
    lemma_words_plain();
    lemma_plain_facts(time_word());
    let x = match t {
        Some(x) => point_time_text(x),
        None => Seq::<char>::empty(),
    };
    if let Some(v) = t {
        lemma_time_text_plain(v.0 as int, v.1 as int, if v.3 { 60 } else { v.2 as int });
        lemma_plain_facts(x);
    }
    assert(!x.contains('@'));
    assert(!x.contains('\n'));
    assert(at() =~= seq!['@']);
    lemma_split_pair(time_word(), x, at());
    assert(time_line(t) == time_word() + at() + x);
    assert(!at().contains('\n')) by {
        if at().contains('\n') {
            let k = choose|k: int| 0 <= k < at().len() && at()[k] == '\n';
        }
    }
    lemma_concat_avoid(time_word(), at(), '\n');
    lemma_concat_avoid(time_word() + at(), x, '\n');
    let l = time_line(t);
    if x.len() > 0 {
        assert(l.last() == x.last());
    } else {
        assert(l.last() == '@');
    }
}

/// A point saved and read back keeps its images, its date and its time, and its text comes back
/// line by line, each line ended by a newline. This holds when no image path or description
/// holds `@` or a newline and no description ends with `\r`, when the date and time are valid
/// and chrono reads back the texts it printed for them, and when every line of the text is a
/// text line.
pub proof fn law_point_read_after_save(p: Point)
    requires
        forall|i: int|
            0 <= i < p.images.len() ==> image_fits(#[trigger] image_views(p.images@)[i]),
        date_view(p.date) matches Some(x) ==> 1 <= x.1 <= 12 && 1 <= x.2 <= 31 && parsed_date(
            date_text(x.0 as int, x.1 as int, x.2 as int),
        ) == Some(x),
        time_view(p.time) matches Some(x) ==> time_valid(x) && parsed_time(point_time_text(x))
            == Some(x),
        forall|i: int|
            0 <= i < file_lines(p.content@).len() ==> is_text_line(
                #[trigger] file_lines(p.content@)[i],
            ),
    ensures
        read_point_lines(file_lines(join_lines(point_file_lines(p)))) == (
            ended_lines(file_lines(p.content@)),
            image_views(p.images@),
            date_view(p.date),
            time_view(p.time),
        ),
{
    let ims = image_views(p.images@);
    let dl = date_line(date_view(p.date));
    let tl = time_line(time_view(p.time));
    let il = image_lines(ims);
    let pre = il + seq![dl, tl];
    assert(point_file_lines(p) =~= pre.push(p.content@));
    lemma_read_date_line(nothing_read(), date_view(p.date));
    lemma_read_time_line(nothing_read(), time_view(p.time));
    assert forall|i: int| 0 <= i < pre.len() implies !(#[trigger] pre[i]).contains('\n') && strip_cr(
        pre[i],
    ) == pre[i] by {
        if i < il.len() {
            assert(pre[i] == il[i]);
            assert(image_fits(ims[i]));
            lemma_split_image_line(ims[i]);
        } else if i == il.len() {
            assert(pre[i] == dl);
        } else {
            assert(pre[i] == tl);
        }
    }
    lemma_file_lines_after(pre, p.content@);
    let lines = pre + file_lines(p.content@);
    lemma_read_from_nothing(lines);
    lemma_read_append(nothing_read(), pre, file_lines(p.content@));
    lemma_read_append(nothing_read(), il, seq![dl, tl]);
    lemma_read_images(nothing_read(), ims);
    let after_images = (Seq::<char>::empty(), Seq::<(Seq<char>, Seq<char>)>::empty() + ims, None::<(i32, u32, u32)>, None::<(u32, u32, u32, bool)>);
    assert(Seq::<(Seq<char>, Seq<char>)>::empty() + ims =~= ims);
    lemma_read_date_line(after_images, date_view(p.date));
    lemma_read_time_line((after_images.0, after_images.1, date_view(p.date), after_images.3), time_view(p.time));
    let two = seq![dl, tl];
    assert(two.drop_last() =~= seq![dl]);
    assert(seq![dl].drop_last() =~= Seq::<Seq<char>>::empty());
    assert(read_lines_from(after_images, Seq::<Seq<char>>::empty()) == after_images);
    assert(read_lines_from(after_images, seq![dl]) == point_line_step(after_images, dl));
    assert(read_lines_from(after_images, two) == point_line_step(
        read_lines_from(after_images, seq![dl]),
        tl,
    ));
    assert(read_lines_from(after_images, two) == (Seq::<char>::empty(), ims, date_view(p.date), time_view(p.time)));
    lemma_read_text_lines((Seq::<char>::empty(), ims, date_view(p.date), time_view(p.time)), file_lines(p.content@));
    assert(Seq::<char>::empty() + ended_lines(file_lines(p.content@)) =~= ended_lines(file_lines(p.content@)));
}

} // verus!

verus! {

proof fn lemma_first_line_about_range(ls: Seq<Seq<char>>, id: Seq<char>, i: int)
    requires
        0 <= i,
    ensures
        first_line_about(ls, id, i) == -1 || (i <= first_line_about(ls, id, i) < ls.len()),
    decreases ls.len() - i,
{
    if i < ls.len() && first_field(ls[i], at()) != id {
        lemma_first_line_about_range(ls, id, i + 1);
    }
}

/// A library line with every mention of a point taken out lists the point from its third field
/// on no more.
proof fn lemma_line_unmentioned(l: Seq<char>, id: Seq<char>)
    requires
        split_on(line_without_mentions(l, id), at()).len() >= 2,
    ensures
        !split_on(line_without_mentions(l, id), at()).skip(2).contains(id),
{
    let f = split_on(l, at());
    let g = keep(f, differs_from(id));
    let out = line_without_mentions(l, id);
    assert(at() =~= one('@'));
    lemma_split_parts_free(l, '@');
    lemma_keep_contains(f, differs_from(id), id);
    if g.len() == 0 {
        lemma_split_empty(at());
        assert(out =~= Seq::<char>::empty());
    } else {
        assert forall|i: int| 0 <= i < g.len() implies !(#[trigger] g[i]).contains('@') by {
            assert(g.contains(g[i]));
            lemma_keep_contains(f, differs_from(id), g[i]);
            let j = choose|j: int| 0 <= j < f.len() && f[j] == g[i];
        }
        law_split_join(g, '@');
        assert(split_on(out, at()) == g);
        if g.skip(2).contains(id) {
            let j = choose|j: int| 0 <= j < g.skip(2).len() && g.skip(2)[j] == id;
            assert(g.skip(2)[j] == g[j + 2]);
            assert(g.contains(g[j + 2]));
        }
    }
}

/// After a point is deleted, no title lists it (whose line keeps its name), when no written line
/// but the last ends with `\r`.
pub proof fn law_deleted_point_unlisted(library: Seq<char>, id: Seq<char>, title_id: Seq<char>)
    requires
        no_line_ends_in_cr(
            file_lines(library).map_values(
                |l: Seq<char>| crate::general::line_without_mentions(l, id),
            ),
        ),
        title_line_named(mentions_deleted_text(library, id), title_id),
    ensures
        !title_point_ids(mentions_deleted_text(library, id), title_id).contains(id),
{
    let ls = file_lines(library);
    let out = ls.map_values(|l: Seq<char>| crate::general::line_without_mentions(l, id));
    lemma_lines_no_newline(library);
    assert(at() =~= one('@'));
    assert forall|i: int| 0 <= i < out.len() implies !(#[trigger] out[i]).contains('\n') by {
        let f = split_on(ls[i], at());
        let g = keep(f, differs_from(id));
        lemma_split_parts_avoid(ls[i], at(), '\n');
        assert forall|j: int| 0 <= j < g.len() implies !(#[trigger] g[j]).contains('\n') by {
            assert(g.contains(g[j]));
            lemma_keep_contains(f, differs_from(id), g[j]);
            let k = choose|k: int| 0 <= k < f.len() && f[k] == g[j];
        }
        assert(!at().contains('\n')) by {
            if at().contains('\n') {
                let k = choose|k: int| 0 <= k < at().len() && at()[k] == '\n';
            }
        }
        lemma_join_avoid(g, at(), '\n');
    }
    lemma_lines_join_clean(out);
    let nl = file_lines(join_lines(out));
    assert(mentions_deleted_text(library, id) == join_lines(out));
    lemma_first_line_about_range(nl, title_id, 0);
    let k = first_line_about(nl, title_id, 0);
    if k >= 0 {
        assert(nl[k] == out[k]);
        lemma_line_unmentioned(ls[k], id);
    }
}

} // verus!

verus! {

/// Moving a point keeps the title's points, each as often as before, and puts the moved point
/// at the place where it lands.
pub proof fn law_move_keeps_points(ids: Seq<String>, from: int, to: int)
    requires
        0 <= from < ids.len(),
        0 <= to,
    ensures
        ids.remove(from).insert(clamp_position(to, ids.len() as int), ids[from]).to_multiset()
            == ids.to_multiset(),
        ids.remove(from).insert(clamp_position(to, ids.len() as int), ids[from])[clamp_position(
            to,
            ids.len() as int,
        )] == ids[from],
{
    broadcast use vstd::seq_lib::group_to_multiset_ensures;
    broadcast use vstd::multiset::group_multiset_axioms;

    let x = ids[from];
    let r = ids.remove(from);
    let p = clamp_position(to, ids.len() as int);
    assert(0 <= p <= r.len());
    assert(r.insert(p, x).to_multiset() =~= r.to_multiset().insert(x));
    assert(r.to_multiset() =~= ids.to_multiset().remove(x));
    assert(ids.contains(x));
    assert(ids.to_multiset().count(x) > 0);
    assert(ids.to_multiset().remove(x).insert(x) =~= ids.to_multiset());
}

} // verus!

verus! {

proof fn lemma_ended_is_joined(ls: Seq<Seq<char>>)
    requires
        ls.len() > 0,
    ensures
        ended_lines(ls) == join_lines(ls) + one('\n'),
    decreases ls.len(),
{
    let d = ls.drop_last();
    if d.len() == 0 {
        assert(ended_lines(d) == Seq::<char>::empty());
        assert(ls =~= seq![ls.last()]);
        assert(ended_lines(ls) =~= join_lines(ls) + one('\n'));
    } else {
        lemma_ended_is_joined(d);
        crate::text::lemma_join_push(d, ls.last(), one('\n'));
        assert(d.push(ls.last()) =~= ls);
        assert(ended_lines(ls) =~= join_lines(ls) + one('\n'));
    }
}

/// No `\r` in the text stands right before a `\n`.
pub open spec fn no_cr_before_newline(c: Seq<char>) -> bool {
    forall|i: int| 0 <= i < c.len() - 1 && #[trigger] c[i] == '\r' ==> c[i + 1] != '\n'
}

/// The text of a saved point comes back with one newline added, when it is not empty, has no
/// `\r` right before a newline and does not end with a newline (with `save_point`'s read-back,
/// for a point that fits its file).
pub proof fn law_saved_text_reads_back(c: Seq<char>)
    requires
        c.len() > 0,
        no_cr_before_newline(c),
        c.last() != '\n',
    ensures
        ended_lines(file_lines(c)) == c + one('\n'),
{
    let parts = split_on(c, one('\n'));
    lemma_split_nonempty(c, one('\n'));
    crate::text::law_join_split(c, one('\n'));
    let n = parts.len();
    assert forall|i: int| 0 <= i < n - 1 implies strip_cr(#[trigger] parts[i]) == parts[i] by {
        if parts[i].len() > 0 && parts[i].last() == '\r' {
            crate::text::lemma_join_split_at(parts, one('\n'), i);
            let a = join_with(parts.take(i + 1), one('\n'));
            let b = join_with(parts.skip(i + 1), one('\n'));
            assert(c == a + one('\n') + b);
            if i > 0 {
                assert(a == join_with(parts.take(i), one('\n')) + one('\n') + parts[i]);
            }
            assert(a.len() > 0 && a.last() == '\r');
            let p = a.len() - 1;
            assert(c[p] == a[p]);
            assert(c[p + 1] == '\n');
        }
    }
    assert(parts.take(n - 1).map_values(|l: Seq<char>| strip_cr(l)) =~= parts.take(n - 1));
    if parts[n - 1].len() == 0 {
        if n == 1 {
            assert(join_with(parts, one('\n')) == parts[0]);
        } else {
            crate::text::lemma_join_push(parts.take(n - 1), parts[n - 1], one('\n'));
            assert(parts.take(n - 1).push(parts[n - 1]) =~= parts);
            let j = join_with(parts, one('\n'));
            assert(j.last() == '\n');
        }
    }
    assert(parts.take(n - 1).push(parts[n - 1]) =~= parts);
    assert(file_lines(c) == parts);
    lemma_ended_is_joined(parts);
}

} // verus!
