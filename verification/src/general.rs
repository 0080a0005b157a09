//! Line edits shared by the project files. Every file is a list of lines; a line is a list of
//! fields separated by `@`, and its first field names what the line is about.
use crate::text::{
    append_chars, at, at_chars, differs_from, copy_chars, eq_chars, file_lines, first_field, first_field_chars,
    from_chars, join_chars, join_lines, join_lines_chars, join_with, keep, lines_of, parts_without,
    split_chars, split_on, to_chars, views,
};
use vstd::prelude::*;

verus! {

/// A line with `element` appended as a new last field when the line's first field is `id`.
pub open spec fn line_with_element(l: Seq<char>, id: Seq<char>, element: Seq<char>) -> Seq<char> {
    if first_field(l, at()) == id {
        l + at() + element
    } else {
        l
    }
}

/// A line replaced by `id@element` when its first field is `id`.
pub open spec fn line_replaced(l: Seq<char>, id: Seq<char>, element: Seq<char>) -> Seq<char> {
    if first_field(l, at()) == id {
        id + at() + element
    } else {
        l
    }
}

/// A line with every field equal to `id` taken out.
pub open spec fn line_without_mentions(l: Seq<char>, id: Seq<char>) -> Seq<char> {
    join_with(keep(split_on(l, at()), differs_from(id)), at())
}

/// The lines whose first field is not `id`.
pub open spec fn lines_not_about(ls: Seq<Seq<char>>, id: Seq<char>, sep: Seq<char>) -> Seq<
    Seq<char>,
> {
    keep(ls, |l: Seq<char>| first_field(l, sep) != id)
}

/// The text after `add_element_to_line`.
pub open spec fn element_added_text(content: Seq<char>, id: Seq<char>, element: Seq<char>) -> Seq<
    char,
> {
    join_lines(file_lines(content).map_values(|l: Seq<char>| line_with_element(l, id, element)))
}

/// The text after `delete_line_from_file`.
pub open spec fn line_deleted_text(content: Seq<char>, id: Seq<char>) -> Seq<char> {
    join_lines(lines_not_about(file_lines(content), id, at()))
}

/// The text after `delete_all_mentions_from_file`.
pub open spec fn mentions_deleted_text(content: Seq<char>, id: Seq<char>) -> Seq<char> {
    join_lines(file_lines(content).map_values(|l: Seq<char>| line_without_mentions(l, id)))
}

/// The text after `replace_line`.
pub open spec fn line_replaced_text(content: Seq<char>, id: Seq<char>, element: Seq<char>) -> Seq<
    char,
> {
    join_lines(file_lines(content).map_values(|l: Seq<char>| line_replaced(l, id, element)))
}

/// Adds `element` as a new last field of every line whose first field is `line_identifier`.
pub fn add_element_to_line(content: &str, line_identifier: &str, element: &str) -> (r: String)
    ensures
        r@ == element_added_text(content@, line_identifier@, element@),
{
    let c = to_chars(content);
    let id = to_chars(line_identifier);
    let e = to_chars(element);
    let sep = at_chars();
    let ls = lines_of(&c);
    let ghost f = |l: Seq<char>| line_with_element(l, id@, e@);
    let mut out: Vec<Vec<char>> = Vec::new();
    let mut i: usize = 0;
    while i < ls.len()
        invariant
            i <= ls.len(),
            sep@ == at(),
            f == (|l: Seq<char>| line_with_element(l, id@, e@)),
            views(out@) == views(ls@).take(i as int).map_values(f),
        decreases ls.len() - i,
    {
        let mut line = copy_chars(&ls[i]);
        let first = first_field_chars(&ls[i], &sep);
        if eq_chars(&first, &id) {
            append_chars(&mut line, &sep);
            append_chars(&mut line, &e);
        }
        let ghost before = views(out@);
        out.push(line);
        assert(views(out@) =~= before.push(f(views(ls@)[i as int])));
        assert(views(ls@).take(i + 1).map_values(f) =~= views(ls@).take(i as int).map_values(
            f,
        ).push(f(views(ls@)[i as int])));
        i = i + 1;
    }
    assert(views(ls@).take(ls.len() as int) =~= views(ls@));
    from_chars(&join_lines_chars(&out))
}

/// Takes out every line whose first field is `identifier`.
pub fn delete_line_from_file(content: &str, identifier: &str) -> (r: String)
    ensures
        r@ == line_deleted_text(content@, identifier@),
{
    let c = to_chars(content);
    let id = to_chars(identifier);
    let sep = at_chars();
    let ls = lines_of(&c);
    let ghost p = |l: Seq<char>| first_field(l, at()) != id@;
    let mut out: Vec<Vec<char>> = Vec::new();
    let mut i: usize = 0;
    while i < ls.len()
        invariant
            i <= ls.len(),
            sep@ == at(),
            p == (|l: Seq<char>| first_field(l, at()) != id@),
            views(out@) == keep(views(ls@).take(i as int), p),
        decreases ls.len() - i,
    {
        assert(views(ls@).take(i + 1).drop_last() =~= views(ls@).take(i as int));
        let first = first_field_chars(&ls[i], &sep);
        if !eq_chars(&first, &id) {
            let ghost before = views(out@);
            out.push(copy_chars(&ls[i]));
            assert(views(out@) =~= before.push(views(ls@)[i as int]));
        }
        i = i + 1;
    }
    assert(views(ls@).take(ls.len() as int) =~= views(ls@));
    from_chars(&join_lines_chars(&out))
}

/// Takes the field `identifier` out of every line, wherever it stands.
pub fn delete_all_mentions_from_file(content: &str, identifier: &str) -> (r: String)
    ensures
        r@ == mentions_deleted_text(content@, identifier@),
{
    let c = to_chars(content);
    let id = to_chars(identifier);
    let sep = at_chars();
    let ls = lines_of(&c);
    let ghost f = |l: Seq<char>| line_without_mentions(l, id@);
    let mut out: Vec<Vec<char>> = Vec::new();
    let mut i: usize = 0;
    while i < ls.len()
        invariant
            i <= ls.len(),
            sep@ == at(),
            f == (|l: Seq<char>| line_without_mentions(l, id@)),
            views(out@) == views(ls@).take(i as int).map_values(f),
        decreases ls.len() - i,
    {
        let fields = split_chars(&ls[i], &sep);
        let kept = parts_without(&fields, &id);
        let line = join_chars(&kept, &sep);
        let ghost before = views(out@);
        out.push(line);
        assert(views(out@) =~= before.push(f(views(ls@)[i as int])));
        assert(views(ls@).take(i + 1).map_values(f) =~= views(ls@).take(i as int).map_values(
            f,
        ).push(f(views(ls@)[i as int])));
        i = i + 1;
    }
    assert(views(ls@).take(ls.len() as int) =~= views(ls@));
    from_chars(&join_lines_chars(&out))
}

/// Replaces every line whose first field is `line_identifier` by `line_identifier@element`.
pub fn replace_line(content: &str, line_identifier: &str, element: &str) -> (r: String)
    ensures
        r@ == line_replaced_text(content@, line_identifier@, element@),
{
    let c = to_chars(content);
    let id = to_chars(line_identifier);
    let e = to_chars(element);
    let sep = at_chars();
    let ls = lines_of(&c);
    let ghost f = |l: Seq<char>| line_replaced(l, id@, e@);
    let mut out: Vec<Vec<char>> = Vec::new();
    let mut i: usize = 0;
    while i < ls.len()
        invariant
            i <= ls.len(),
            sep@ == at(),
            f == (|l: Seq<char>| line_replaced(l, id@, e@)),
            views(out@) == views(ls@).take(i as int).map_values(f),
        decreases ls.len() - i,
    {
        let first = first_field_chars(&ls[i], &sep);
        let line = if eq_chars(&first, &id) {
            let mut l = copy_chars(&id);
            append_chars(&mut l, &sep);
            append_chars(&mut l, &e);
            l
        } else {
            copy_chars(&ls[i])
        };
        let ghost before = views(out@);
        out.push(line);
        assert(views(out@) =~= before.push(f(views(ls@)[i as int])));
        assert(views(ls@).take(i + 1).map_values(f) =~= views(ls@).take(i as int).map_values(
            f,
        ).push(f(views(ls@)[i as int])));
        i = i + 1;
    }
    assert(views(ls@).take(ls.len() as int) =~= views(ls@));
    from_chars(&join_lines_chars(&out))
}

} // verus!

verus! {

/// The text with the first line about `id` moved to place `position` among the lines (the end
/// when past it); unchanged in its lines when no line is about `id`.
pub open spec fn line_moved_text(content: Seq<char>, id: Seq<char>, position: int) -> Seq<char> {
    let ls = file_lines(content);
    let k = crate::point::first_line_about(ls, id, 0);
    if k < 0 {
        join_lines(ls)
    } else {
        let rest = ls.remove(k);
        let pos = if position > rest.len() {
            rest.len() as int
        } else {
            position
        };
        join_lines(rest.insert(pos, ls[k]))
    }
}

/// Moves the first line about `identifier` to place `position`, as reordering titles does in
/// each title file.
pub fn move_line_to(content: &str, identifier: &str, position: usize) -> (r: String)
    ensures
        r@ == line_moved_text(content@, identifier@, position as int),
{
    let c = to_chars(content);
    let id = to_chars(identifier);
    let sep = at_chars();
    let mut ls = lines_of(&c);
    let ghost lv = views(ls@);
    let mut i: usize = 0;
    while i < ls.len()
        invariant
            i <= ls.len(),
            sep@ == at(),
            lv == views(ls@),
            lv == file_lines(content@),
            id@ == identifier@,
            crate::point::first_line_about(lv, id@, 0) == crate::point::first_line_about(
                lv,
                id@,
                i as int,
            ),
        decreases ls.len() - i,
    {
        let first = first_field_chars(&ls[i], &sep);
        assert(lv[i as int] == ls@[i as int]@);
        if eq_chars(&first, &id) {
            assert(crate::point::first_line_about(lv, id@, i as int) == i);
            let line = ls.remove(i);
            let pos = if position > ls.len() {
                ls.len()
            } else {
                position
            };
            ls.insert(pos, line);
            assert(views(ls@) =~= lv.remove(i as int).insert(pos as int, lv[i as int]));
            return from_chars(&join_lines_chars(&ls));
        }
        i = i + 1;
    }
    from_chars(&join_lines_chars(&ls))
}

} // verus!
