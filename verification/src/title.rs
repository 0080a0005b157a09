//! Titles in the project files: adding, deleting, saving and renaming them.
use crate::general::{
    delete_all_mentions_from_file, delete_line_from_file, line_deleted_text, line_replaced_text,
    lines_not_about, mentions_deleted_text, replace_line,
};
use crate::ids::{is_uuid_text, new_uuid_text};
use crate::link::{linked_flags, title_is_linked_with};
use crate::model::{string_views, Title};
use crate::point::{clamp_position, move_item, strings_to_chars};
use crate::text::{
    append_chars, at, at_chars, contains_part, copy_chars, eq_chars, file_lines, first_field,
    first_field_chars, from_chars, join_chars, join_lines, join_lines_chars, join_with, keep,
    lemma_split_nonempty, lines_of, one, split_chars, split_on, to_chars, views,
    lemma_lines_no_newline, lemma_keep_contains, lemma_lines_join_clean, no_line_ends_in_cr,
};
use vstd::prelude::*;

verus! {

/// The texts of the files of a project that title and point edits change.
pub struct ProjectFiles {
    pub library: String,
    pub sources: String,
    pub images: String,
    pub links: String,
    pub tags: String,
}

/// `New title`, the name of a new title.
pub open spec fn new_title_text() -> Seq<char> {
    seq!['N', 'e', 'w', ' ', 't', 'i', 't', 'l', 'e']
}

/// `Version:1`, the second line of a new title file: the version of the project format.
pub open spec fn title_file_version() -> Seq<char> {
    seq!['V', 'e', 'r', 's', 'i', 'o', 'n', ':', '1']
}

/// The text of the file of a new title: its name, then the format version.
pub open spec fn new_title_file() -> Seq<char> {
    new_title_text() + one('\n') + title_file_version()
}

/// What adding a title changes: its identifier, the text of its own file (named by the
/// identifier) and the new texts of the four title files.
pub struct NewTitle {
    pub id: String,
    pub title_file: String,
    pub library: String,
    pub links: String,
    pub images: String,
    pub tags: String,
}

/// A title with identifier `id` was made: its own file holds `New title` and `Version:1` on two
/// lines, and `id@New title` was appended to the library, `id` to the links, `id@` to the
/// images and to the tags, each after a newline.
pub open spec fn new_title_added(nt: NewTitle, files: ProjectFiles, id: Seq<char>) -> bool {
    &&& nt.id@ == id
    &&& nt.title_file@ == new_title_file()
    &&& nt.library@ == files.library@ + one('\n') + id + at() + new_title_text()
    &&& nt.links@ == files.links@ + one('\n') + id
    &&& nt.images@ == files.images@ + one('\n') + id + at()
    &&& nt.tags@ == files.tags@ + one('\n') + id + at()
}

/// Makes a title with identifier `id`: the text of its own file, and the four title files with
/// the title appended.
pub fn add_title_with_id(files: &ProjectFiles, id: &str) -> (r: NewTitle)
    ensures
        new_title_added(r, *files, id@),
{
    let idc = to_chars(id);
    let mut lib = to_chars(files.library.as_str());
    lib.push('\n');
    append_chars(&mut lib, &idc);
    lib.push('@');
    let name = vec!['N', 'e', 'w', ' ', 't', 'i', 't', 'l', 'e'];
    assert(name@ =~= new_title_text());
    append_chars(&mut lib, &name);
    assert(lib@ =~= files.library@ + one('\n') + id@ + at() + new_title_text());
    let mut title_file = copy_chars(&name);
    title_file.push('\n');
    let version = vec!['V', 'e', 'r', 's', 'i', 'o', 'n', ':', '1'];
    assert(version@ =~= title_file_version());
    append_chars(&mut title_file, &version);
    assert(title_file@ =~= new_title_file());
    let mut links = to_chars(files.links.as_str());
    links.push('\n');
    append_chars(&mut links, &idc);
    assert(links@ =~= files.links@ + one('\n') + id@);
    let mut images = to_chars(files.images.as_str());
    images.push('\n');
    append_chars(&mut images, &idc);
    images.push('@');
    assert(images@ =~= files.images@ + one('\n') + id@ + at());
    let mut tags = to_chars(files.tags.as_str());
    tags.push('\n');
    append_chars(&mut tags, &idc);
    tags.push('@');
    assert(tags@ =~= files.tags@ + one('\n') + id@ + at());
    NewTitle {
        id: from_chars(&idc),
        title_file: from_chars(&title_file),
        library: from_chars(&lib),
        links: from_chars(&links),
        images: from_chars(&images),
        tags: from_chars(&tags),
    }
}

/// Makes a title with a fresh UUID, as `add_title_with_id` does.
pub fn add_title(files: &ProjectFiles) -> (r: NewTitle)
    ensures
        is_uuid_text(r.id@),
        new_title_added(r, *files, r.id@),
{
    let id = new_uuid_text();
    add_title_with_id(files, id.as_str())
}

/// A library line is about the title `id`.
pub open spec fn about(l: Seq<char>, id: Seq<char>) -> bool {
    first_field(l, at()) == id
}

/// Every library line about the title has at least two fields.
pub open spec fn title_lines_named(ls: Seq<Seq<char>>, id: Seq<char>) -> bool {
    forall|i: int| 0 <= i < ls.len() && about(#[trigger] ls[i], id) ==> split_on(ls[i], at()).len() >= 2
}

/// The point identifiers on the library lines about title `id`: their fields from the third on,
/// in order.
pub open spec fn deleted_point_ids(ls: Seq<Seq<char>>, id: Seq<char>) -> Seq<Seq<char>>
    decreases ls.len(),
{
    if ls.len() == 0 {
        Seq::empty()
    } else {
        deleted_point_ids(ls.drop_last(), id) + if about(ls.last(), id) {
            split_on(ls.last(), at()).skip(2)
        } else {
            Seq::empty()
        }
    }
}

/// Some line of the text holds `p` as a field.
pub open spec fn is_mentioned(text: Seq<char>, p: Seq<char>) -> bool {
    exists|i: int|
        0 <= i < file_lines(text).len() && split_on(#[trigger] file_lines(text)[i], at()).contains(
            p,
        )
}

/// The test that no line of `text` mentions a point.
pub open spec fn unmentioned(text: Seq<char>) -> spec_fn(Seq<char>) -> bool {
    |p: Seq<char>| !is_mentioned(text, p)
}

/// The library and sources texts after deleting the points in order.
pub open spec fn points_deleted(library: Seq<char>, sources: Seq<char>, ps: Seq<Seq<char>>) -> (
    Seq<char>,
    Seq<char>,
)
    decreases ps.len(),
{
    if ps.len() == 0 {
        (library, sources)
    } else {
        let r = points_deleted(library, sources, ps.drop_last());
        (mentions_deleted_text(r.0, ps.last()), line_deleted_text(r.1, ps.last()))
    }
}

/// What deleting a title changes: the new texts of the files, the points that no title holds
/// any more, and the files to remove: those of these points, then the title's own file.
pub struct DeletedTitle {
    pub files: ProjectFiles,
    pub orphaned_points: Vec<String>,
    pub removed_files: Vec<String>,
}

/// Whether some line of the text holds `p` as a field.
fn mentioned(lines: &Vec<Vec<char>>, p: &Vec<char>) -> (r: bool)
    ensures
        r == exists|i: int|
            0 <= i < lines.len() && split_on(#[trigger] views(lines@)[i], at()).contains(p@),
{
    let sep = at_chars();
    let mut i: usize = 0;
    while i < lines.len()
        invariant
            i <= lines.len(),
            sep@ == at(),
            forall|j: int| 0 <= j < i ==> !split_on(#[trigger] views(lines@)[j], at()).contains(p@),
        decreases lines.len() - i,
    {
        let fields = split_chars(&lines[i], &sep);
        assert(views(lines@)[i as int] == lines@[i as int]@);
        if contains_part(&fields, p) {
            return true;
        }
        i = i + 1;
    }
    false
}

/// Deletes a title: its library line, its lines in the links, images and tags files and every
/// mention of it in the links; then every point of its library line that no remaining library
/// line holds is deleted (as `delete_point` does) and listed; last the title's own file is to be
/// removed, so `removed_files` names these points and then the title. The links file is edited by `@` fields, like the other files, so its lines (whose
/// fields are separated by `|--|`) lose only a line or field that is exactly the identifier.
pub fn delete_title(files: &ProjectFiles, title_id: &str) -> (r: DeletedTitle)
    requires
        title_lines_named(file_lines(files.library@), title_id@),
    ensures
        ({
            let lib1 = line_deleted_text(files.library@, title_id@);
            let orphans = keep(
                deleted_point_ids(file_lines(files.library@), title_id@),
                unmentioned(lib1),
            );
            &&& string_views(r.orphaned_points@) == orphans
            &&& string_views(r.removed_files@) == orphans.push(title_id@)
            &&& (r.files.library@, r.files.sources@) == points_deleted(
                lib1,
                files.sources@,
                orphans,
            )
            &&& r.files.links@ == mentions_deleted_text(
                line_deleted_text(files.links@, title_id@),
                title_id@,
            )
            &&& r.files.images@ == line_deleted_text(files.images@, title_id@)
            &&& r.files.tags@ == line_deleted_text(files.tags@, title_id@)
        }),
{
    let sep = at_chars();
    let id = to_chars(title_id);
    let c = to_chars(files.library.as_str());
    let ls = lines_of(&c);
    let ghost lv = views(ls@);
    let mut deleted: Vec<Vec<char>> = Vec::new();
    let mut i: usize = 0;
    while i < ls.len()
        invariant
            i <= ls.len(),
            sep@ == at(),
            lv == views(ls@),
            lv == file_lines(files.library@),
            id@ == title_id@,
            title_lines_named(lv, id@),
            views(deleted@) == deleted_point_ids(lv.take(i as int), id@),
        decreases ls.len() - i,
    {
        assert(lv.take(i + 1).drop_last() =~= lv.take(i as int));
        assert(lv.take(i + 1).last() == lv[i as int]);
        assert(lv[i as int] == ls@[i as int]@);
        let first = first_field_chars(&ls[i], &sep);
        if eq_chars(&first, &id) {
            let fields = split_chars(&ls[i], &sep);
            assert(about(lv[i as int], id@));
            let ghost base = views(deleted@);
            let mut k: usize = 2;
            assert(base + views(fields@).subrange(2, 2) =~= base);
            while k < fields.len()
                invariant
                    2 <= k <= fields.len(),
                    views(deleted@) == base + views(fields@).subrange(2, k as int),
                decreases fields.len() - k,
            {
                let ghost before = views(deleted@);
                deleted.push(copy_chars(&fields[k]));
                assert(views(deleted@) =~= before.push(views(fields@)[k as int]));
                assert(views(fields@).subrange(2, k + 1) =~= views(fields@).subrange(2, k as int).push(
                    views(fields@)[k as int],
                ));
                k = k + 1;
            }
            assert(views(fields@).subrange(2, fields.len() as int) =~= views(fields@).skip(2));
        } else {
            assert(deleted_point_ids(lv.take(i + 1), id@) =~= deleted_point_ids(lv.take(i as int), id@));
        }
        i = i + 1;
    }
    assert(lv.take(ls.len() as int) =~= lv);
    let lib1 = delete_line_from_file(files.library.as_str(), title_id);
    let links1 = delete_line_from_file(files.links.as_str(), title_id);
    let links2 = delete_all_mentions_from_file(links1.as_str(), title_id);
    let images = delete_line_from_file(files.images.as_str(), title_id);
    let tags = delete_line_from_file(files.tags.as_str(), title_id);
    let lib1_lines = lines_of(&to_chars(lib1.as_str()));
    let ghost dv = views(deleted@);
    let ghost u = unmentioned(lib1@);
    let mut orphans: Vec<Vec<char>> = Vec::new();
    let mut library = lib1;
    let mut sources = copy_string(&files.sources);
    let mut j: usize = 0;
    while j < deleted.len()
        invariant
            j <= deleted.len(),
            dv == views(deleted@),
            views(lib1_lines@) == file_lines(lib1@),
            u == unmentioned(lib1@),
            views(orphans@) == keep(dv.take(j as int), u),
            (library@, sources@) == points_deleted(lib1@, files.sources@, views(orphans@)),
        decreases deleted.len() - j,
    {
        assert(dv.take(j + 1).drop_last() =~= dv.take(j as int));
        assert(dv.take(j + 1).last() == dv[j as int]);
        let m = mentioned(&lib1_lines, &deleted[j]);
        if !m {
            let ghost before = views(orphans@);
            orphans.push(copy_chars(&deleted[j]));
            assert(views(orphans@) =~= before.push(dv[j as int]));
            assert(views(orphans@).drop_last() =~= before);
            let p = from_chars(&deleted[j]);
            library = delete_all_mentions_from_file(library.as_str(), p.as_str());
            sources = delete_line_from_file(sources.as_str(), p.as_str());
        }
        j = j + 1;
    }
    assert(dv.take(deleted.len() as int) =~= dv);
    let mut orphaned_points: Vec<String> = Vec::new();
    let mut removed_files: Vec<String> = Vec::new();
    let mut k: usize = 0;
    while k < orphans.len()
        invariant
            k <= orphans.len(),
            string_views(orphaned_points@) == views(orphans@).take(k as int),
            string_views(removed_files@) == views(orphans@).take(k as int),
        decreases orphans.len() - k,
    {
        let ghost before = string_views(orphaned_points@);
        orphaned_points.push(from_chars(&orphans[k]));
        assert(string_views(orphaned_points@) =~= before.push(views(orphans@)[k as int]));
        let ghost before2 = string_views(removed_files@);
        removed_files.push(from_chars(&orphans[k]));
        assert(string_views(removed_files@) =~= before2.push(views(orphans@)[k as int]));
        assert(views(orphans@).take(k + 1) =~= views(orphans@).take(k as int).push(
            views(orphans@)[k as int],
        ));
        k = k + 1;
    }
    assert(views(orphans@).take(orphans.len() as int) =~= views(orphans@));
    let ghost before = string_views(removed_files@);
    removed_files.push(from_chars(&id));
    assert(string_views(removed_files@) =~= before.push(title_id@));
    DeletedTitle {
        files: ProjectFiles { library, sources, images, links: links2, tags },
        orphaned_points,
        removed_files,
    }
}

/// A copy of a string.
fn copy_string(s: &String) -> (r: String)
    ensures
        r@ == s@,
{
    from_chars(&to_chars(s.as_str()))
}


/// A library line about title `id` with its second field set to `name` (lines with one field
/// stay as they are).
pub open spec fn line_renamed(l: Seq<char>, id: Seq<char>, name: Seq<char>) -> Seq<char> {
    let f = split_on(l, at());
    if f[0] == id && f.len() > 1 {
        join_with(f.update(1, name), at())
    } else {
        l
    }
}

/// The library text after renaming title `id`.
pub open spec fn renamed_library(library: Seq<char>, id: Seq<char>, name: Seq<char>) -> Seq<char> {
    join_lines(file_lines(library).map_values(|l: Seq<char>| line_renamed(l, id, name)))
}

/// Sets the second field of every library line about title `id` to `name`.
fn rename_in_library(library: &str, id: &str, name: &str) -> (r: String)
    ensures
        r@ == renamed_library(library@, id@, name@),
{
    let c = to_chars(library);
    let idc = to_chars(id);
    let namec = to_chars(name);
    let sep = at_chars();
    let ls = lines_of(&c);
    let ghost f = |l: Seq<char>| line_renamed(l, idc@, namec@);
    let mut out: Vec<Vec<char>> = Vec::new();
    let mut i: usize = 0;
    while i < ls.len()
        invariant
            i <= ls.len(),
            sep@ == at(),
            f == (|l: Seq<char>| line_renamed(l, idc@, namec@)),
            views(out@) == views(ls@).take(i as int).map_values(f),
        decreases ls.len() - i,
    {
        let fields = split_chars(&ls[i], &sep);
        proof {
            lemma_split_nonempty(ls@[i as int]@, at());
        }
        let line = if eq_chars(&fields[0], &idc) && fields.len() > 1 {
            let mut g: Vec<Vec<char>> = Vec::new();
            let mut k: usize = 0;
            while k < fields.len()
                invariant
                    k <= fields.len(),
                    fields.len() > 1,
                    views(g@) == views(fields@).update(1, namec@).take(k as int),
                decreases fields.len() - k,
            {
                let ghost before = views(g@);
                let x = if k == 1 {
                    copy_chars(&namec)
                } else {
                    copy_chars(&fields[k])
                };
                assert(x@ == views(fields@).update(1, namec@)[k as int]);
                g.push(x);
                assert(views(g@) =~= before.push(x@));
                assert(views(fields@).update(1, namec@).take(k + 1) =~= views(fields@).update(
                    1,
                    namec@,
                ).take(k as int).push(x@));
                k = k + 1;
            }
            assert(views(fields@).update(1, namec@).take(fields.len() as int) =~= views(
                fields@,
            ).update(1, namec@));
            join_chars(&g, &sep)
        } else {
            copy_chars(&ls[i])
        };
        assert(line@ == f(views(ls@)[i as int]));
        let ghost before = views(out@);
        out.push(line);
        assert(views(out@) =~= before.push(f(views(ls@)[i as int])));
        assert(views(ls@).take(i + 1).map_values(f) =~= views(ls@).take(i as int).map_values(
            f,
        ).push(f(views(ls@)[i as int])));
        i = i + 1;
    }
    assert(views(ls@).take(ls.len() as int) =~= views(ls@));
    from_chars(&join_lines_chars(&out))
}

/// The texts that saving a title writes: the images, tags and library files.
pub struct SavedTitle {
    pub images: String,
    pub tags: String,
    pub library: String,
}

/// Saves a title: its line in the images file becomes `id@path@description`, its line in the
/// tags file `id@tag@…`, and its library line takes its name. Nothing is saved without a
/// project directory or a title identifier.
pub fn save_title(project_dir: &str, files: &ProjectFiles, title: &Title) -> (r: Option<SavedTitle>)
    ensures
        r is Some <==> (project_dir@.len() > 0 && title.id@.len() > 0),
        r matches Some(st) ==> {
            &&& st.images@ == line_replaced_text(
                files.images@,
                title.id@,
                title.image.path@ + at() + title.image.description@,
            )
            &&& st.tags@ == line_replaced_text(
                files.tags@,
                title.id@,
                join_with(string_views(title.tags@), at()),
            )
            &&& st.library@ == renamed_library(files.library@, title.id@, title.name@)
        },
{
    if project_dir.is_empty() || title.id.as_str().is_empty() {
        return None;
    }
    let sep = at_chars();
    let mut image_text = to_chars(title.image.path.as_str());
    append_chars(&mut image_text, &sep);
    append_chars(&mut image_text, &to_chars(title.image.description.as_str()));
    let image_line = from_chars(&image_text);
    let images = replace_line(files.images.as_str(), title.id.as_str(), image_line.as_str());
    let tag_chars = strings_to_chars(&title.tags);
    let tags_line = from_chars(&join_chars(&tag_chars, &sep));
    let tags = replace_line(files.tags.as_str(), title.id.as_str(), tags_line.as_str());
    let library = rename_in_library(files.library.as_str(), title.id.as_str(), title.name.as_str());
    Some(SavedTitle { images, tags, library })
}

/// The text of a title file with its first line set to `name` (an empty file stays empty).
pub open spec fn title_file_renamed(text: Seq<char>, name: Seq<char>) -> Seq<char> {
    let ls = file_lines(text);
    if ls.len() == 0 {
        Seq::empty()
    } else {
        join_lines(seq![name] + ls.drop_first())
    }
}

/// Every library line about the title has a second field.
pub open spec fn library_names_title(library: Seq<char>, id: Seq<char>) -> bool {
    title_lines_named(file_lines(library), id)
}

/// Renames a title in its own file (whose first line is the name) and in the library. The new
/// title file and library texts, in this order.
pub fn change_title_name(title_file: &str, library: &str, title_id: &str, new_title: &str) -> (r: (
    String,
    String,
))
    requires
        library_names_title(library@, title_id@),
    ensures
        r.0@ == title_file_renamed(title_file@, new_title@),
        r.1@ == renamed_library(library@, title_id@, new_title@),
{
    let c = to_chars(title_file);
    let ls = lines_of(&c);
    let mut out: Vec<Vec<char>> = Vec::new();
    if ls.len() > 0 {
        out.push(to_chars(new_title));
        let mut i: usize = 1;
        while i < ls.len()
            invariant
                1 <= i <= ls.len(),
                views(out@) == seq![new_title@] + views(ls@).subrange(1, i as int),
            decreases ls.len() - i,
        {
            let ghost before = views(out@);
            out.push(copy_chars(&ls[i]));
            assert(views(out@) =~= before.push(views(ls@)[i as int]));
            assert(views(ls@).subrange(1, i + 1) =~= views(ls@).subrange(1, i as int).push(
                views(ls@)[i as int],
            ));
            i = i + 1;
        }
        assert(views(ls@).subrange(1, ls.len() as int) =~= views(ls@).drop_first());
    }
    assert(ls.len() == 0 ==> views(out@) =~= Seq::<Seq<char>>::empty());
    let tf = from_chars(&join_lines_chars(&out));
    (tf, rename_in_library(library, title_id, new_title))
}

/// Moves a title from place `from_position` to place `to_position` (the last place when past
/// it) after reading its link flags from the links file, and gives the place where it lands.
pub fn change_title_position(titles: &mut Vec<Title>, links: &str, from_position: usize, to_position: usize) -> (r: usize)
    requires
        from_position < old(titles).len(),
    ensures
        r as int == clamp_position(to_position as int, old(titles).len() as int),
        final(titles)@ == old(titles)@.update(
            from_position as int,
            Title { links: final(titles)@[r as int].links, ..old(titles)@[from_position as int] },
        ).remove(from_position as int).insert(
            r as int,
            Title { links: final(titles)@[r as int].links, ..old(titles)@[from_position as int] },
        ),
        final(titles)@[r as int].links@ == linked_flags(links@, old(titles)@[from_position as int].id@),
{
    let n = titles.len();
    let mut t = titles.remove(from_position);
    t.links = title_is_linked_with(links, t.id.as_str());
    titles.insert(from_position, t);
    let to = if to_position >= n {
        n - 1
    } else {
        to_position
    };
    move_item(titles, from_position, to);
    to
}

} // verus!

verus! {

/// The name a title keeps when its name is edited: `New title` in place of an empty name.
pub fn confirmed_title_name(name: &str) -> (r: String)
    ensures
        r@ == if name@.len() == 0 {
            new_title_text()
        } else {
            name@
        },
{
    if name.is_empty() {
        let v = vec!['N', 'e', 'w', ' ', 't', 'i', 't', 'l', 'e'];
        assert(v@ =~= new_title_text());
        from_chars(&v)
    } else {
        from_chars(&to_chars(name))
    }
}

/// Whether every library line about title `title_id` has at least two fields, as deleting or
/// renaming the title needs.
pub fn title_lines_have_names(library: &str, title_id: &str) -> (r: bool)
    ensures
        r == title_lines_named(file_lines(library@), title_id@),
{
    let c = to_chars(library);
    let ls = lines_of(&c);
    let id = to_chars(title_id);
    let sep = at_chars();
    let ghost lv = views(ls@);
    let mut i: usize = 0;
    while i < ls.len()
        invariant
            i <= ls.len(),
            sep@ == at(),
            id@ == title_id@,
            lv == views(ls@),
            lv == file_lines(library@),
            forall|j: int|
                0 <= j < i && about(#[trigger] lv[j], id@) ==> split_on(lv[j], at()).len() >= 2,
        decreases ls.len() - i,
    {
        assert(lv[i as int] == ls@[i as int]@);
        let fields = split_chars(&ls[i], &sep);
        proof {
            lemma_split_nonempty(lv[i as int], at());
        }
        if eq_chars(&fields[0], &id) && fields.len() < 2 {
            assert(about(lv[i as int], id@));
            return false;
        }
        i = i + 1;
    }
    true
}

} // verus!

verus! {

/// After a title is deleted, no library line is about it any more; the points it leaves are
/// exactly its points that no remaining library line holds. When no remaining line but the last
/// ends with `\r`.
pub proof fn law_deleted_title_gone(library: Seq<char>, id: Seq<char>)
    requires
        no_line_ends_in_cr(lines_not_about(file_lines(library), id, at())),
    ensures
        forall|k: int|
            0 <= k < file_lines(line_deleted_text(library, id)).len() ==> !about(
                #[trigger] file_lines(line_deleted_text(library, id))[k],
                id,
            ),
        forall|p: Seq<char>|
            #![trigger keep(
                deleted_point_ids(file_lines(library), id),
                unmentioned(line_deleted_text(library, id)),
            ).contains(p)]
            keep(
                deleted_point_ids(file_lines(library), id),
                unmentioned(line_deleted_text(library, id)),
            ).contains(p) <==> (deleted_point_ids(file_lines(library), id).contains(p)
                && !is_mentioned(line_deleted_text(library, id), p)),
{
    let ls = file_lines(library);
    let pr = |l: Seq<char>| first_field(l, at()) != id;
    let kept = keep(ls, pr);
    lemma_lines_no_newline(library);
    assert(kept == lines_not_about(ls, id, at()));
    assert forall|i: int| 0 <= i < kept.len() implies !(#[trigger] kept[i]).contains('\n') && pr(
        kept[i],
    ) by {
        assert(kept.contains(kept[i]));
        lemma_keep_contains(ls, pr, kept[i]);
        let j = choose|j: int| 0 <= j < ls.len() && ls[j] == kept[i];
    }
    lemma_lines_join_clean(kept);
    assert(line_deleted_text(library, id) == join_lines(kept));
    let lib1 = line_deleted_text(library, id);
    assert forall|k: int| 0 <= k < file_lines(lib1).len() implies !about(
        #[trigger] file_lines(lib1)[k],
        id,
    ) by {
        assert(file_lines(lib1)[k] == kept[k]);
    }
    let d = deleted_point_ids(ls, id);
    assert forall|p: Seq<char>| #[trigger] keep(d, unmentioned(lib1)).contains(p) <==> (d.contains(p)
        && !is_mentioned(lib1, p)) by {
        lemma_keep_contains(d, unmentioned(lib1), p);
    }
}

} // verus!

verus! {

/// Whether `p` stands on a library line about title `id`, in a field from the third on.
pub open spec fn held_by_title(ls: Seq<Seq<char>>, id: Seq<char>, p: Seq<char>) -> bool {
    exists|k: int, j: int|
        0 <= k < ls.len() && split_on(#[trigger] ls[k], at())[0] == id && 2 <= j < split_on(
            ls[k],
            at(),
        ).len() && #[trigger] split_on(ls[k], at())[j] == p
}

proof fn lemma_deleted_point_ids(ls: Seq<Seq<char>>, id: Seq<char>, p: Seq<char>)
    requires
        title_lines_named(ls, id),
    ensures
        deleted_point_ids(ls, id).contains(p) <==> held_by_title(ls, id, p),
    decreases ls.len(),
{
    if ls.len() > 0 {
        let d = ls.drop_last();
        let l = ls.last();
        let f = split_on(l, at());
        assert(title_lines_named(d, id)) by {
            assert forall|i: int| 0 <= i < d.len() && about(#[trigger] d[i], id) implies split_on(
                d[i],
                at(),
            ).len() >= 2 by {
                assert(d[i] == ls[i]);
            }
        }
        assert(about(l, id) ==> f.len() >= 2) by {
            assert(ls[ls.len() - 1] == l);
        }
        lemma_deleted_point_ids(d, id, p);
        let a = deleted_point_ids(d, id);
        let b = if about(l, id) {
            f.skip(2)
        } else {
            Seq::empty()
        };
        assert(deleted_point_ids(ls, id) == a + b);
        if (a + b).contains(p) {
            let i = choose|i: int| 0 <= i < (a + b).len() && (a + b)[i] == p;
            if i < a.len() {
                assert(a[i] == p);
                assert(a.contains(p));
                let (k, j) = choose|k: int, j: int|
                    0 <= k < d.len() && split_on(#[trigger] d[k], at())[0] == id && 2 <= j
                        < split_on(d[k], at()).len() && #[trigger] split_on(d[k], at())[j] == p;
                assert(ls[k] == d[k]);
            } else {
                assert(about(l, id)) by {
                    if !about(l, id) {
                        assert(b.len() == 0);
                    }
                }
                assert(b[i - a.len()] == p);
                assert(f.skip(2)[i - a.len()] == f[i - a.len() + 2]);
                assert(f[i - a.len() + 2] == p);
                assert(split_on(l, at())[0] == id);
                assert(ls[ls.len() - 1] == l);
                assert(split_on(ls[ls.len() - 1], at())[i - a.len() + 2] == p);
            }
        }
        if held_by_title(ls, id, p) {
            let (k, j) = choose|k: int, j: int|
                0 <= k < ls.len() && split_on(#[trigger] ls[k], at())[0] == id && 2 <= j < split_on(
                    ls[k],
                    at(),
                ).len() && #[trigger] split_on(ls[k], at())[j] == p;
            if k < d.len() {
                assert(d[k] == ls[k]);
                assert(held_by_title(d, id, p));
                let i = choose|i: int| 0 <= i < a.len() && a[i] == p;
                assert((a + b)[i] == p);
            } else {
                assert(ls[k] == l);
                assert(about(l, id));
                assert(b[j - 2] == p);
                assert((a + b)[a.len() + j - 2] == p);
            }
        }
    }
}

/// Deleting a title leaves behind exactly the points that stand on a library line about it, in
/// a field from the third on, and that no library line left after the deletion holds (every
/// line about the title naming it, as `delete_title` requires).
pub proof fn law_orphans_of_deleted_title(library: Seq<char>, id: Seq<char>, p: Seq<char>)
    requires
        title_lines_named(file_lines(library), id),
    ensures
        keep(
            deleted_point_ids(file_lines(library), id),
            unmentioned(line_deleted_text(library, id)),
        ).contains(p) <==> (held_by_title(file_lines(library), id, p) && !is_mentioned(
            line_deleted_text(library, id),
            p,
        )),
{
    lemma_deleted_point_ids(file_lines(library), id, p);
    lemma_keep_contains(
        deleted_point_ids(file_lines(library), id),
        unmentioned(line_deleted_text(library, id)),
        p,
    );
}

} // verus!
