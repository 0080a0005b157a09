//! The sources file: one line per point, `point_id|--|source`.
use crate::text::{
    append_chars, bar, bar_chars, copy_chars, ends_with_bar_start, eq_chars, file_lines,
    first_field, first_field_chars, from_chars, join_lines, join_lines_chars, law_lines_join,
    lemma_first_field_free, lemma_lines_no_newline, lemma_split_bar_pair, lemma_split_nonempty,
    lemma_split_parts_avoid, lines_keep, lines_of, no_line_ends_in_cr, split_chars, split_on,
    to_chars, views,
};
use vstd::prelude::*;

verus! {

/// A sources line set to `id|--|source` when its first field is `id`.
pub open spec fn source_line_updated(l: Seq<char>, id: Seq<char>, source: Seq<char>) -> Seq<char> {
    if first_field(l, bar()) == id {
        id + bar() + source
    } else {
        l
    }
}

/// `No source set yet.`, the source of a point that has none.
pub open spec fn no_source_text() -> Seq<char> {
    seq![
        'N',
        'o',
        ' ',
        's',
        'o',
        'u',
        'r',
        'c',
        'e',
        ' ',
        's',
        'e',
        't',
        ' ',
        'y',
        'e',
        't',
        '.',
    ]
}

/// The source of point `id` in the lines from `i` on: the second field of the first line whose
/// first field is `id` and that has a second field.
pub open spec fn source_in_lines(ls: Seq<Seq<char>>, id: Seq<char>, i: int) -> Seq<char>
    decreases ls.len() - i,
{
    if i < 0 || i >= ls.len() {
        no_source_text()
    } else if split_on(ls[i], bar())[0] == id && split_on(ls[i], bar()).len() > 1 {
        split_on(ls[i], bar())[1]
    } else {
        source_in_lines(ls, id, i + 1)
    }
}

/// Sets the source of point `point_id` on every line that is about it.
pub fn update_source(sources: &str, point_id: &str, new_source: &str) -> (r: String)
    ensures
        r@ == join_lines(
            file_lines(sources@).map_values(
                |l: Seq<char>| source_line_updated(l, point_id@, new_source@),
            ),
        ),
{
    let c = to_chars(sources);
    let id = to_chars(point_id);
    let src = to_chars(new_source);
    let sep = bar_chars();
    let ls = lines_of(&c);
    let ghost f = |l: Seq<char>| source_line_updated(l, id@, src@);
    let mut out: Vec<Vec<char>> = Vec::new();
    let mut i: usize = 0;
    while i < ls.len()
        invariant
            i <= ls.len(),
            sep@ == bar(),
            f == (|l: Seq<char>| source_line_updated(l, id@, src@)),
            views(out@) == views(ls@).take(i as int).map_values(f),
        decreases ls.len() - i,
    {
        let first = first_field_chars(&ls[i], &sep);
        let line = if eq_chars(&first, &id) {
            let mut l = copy_chars(&id);
            append_chars(&mut l, &sep);
            append_chars(&mut l, &src);
            l
        } else {
            copy_chars(&ls[i])
        };
        let ghost before = views(out@);
        out.push(line);
        assert(views(out@) =~= before.push(f(views(ls@)[i as int])));
        assert(views(ls@).take(i + 1).map_values(f) =~= views(ls@).take(i as int).map_values(
            f,
        ).push(f(views(ls@)[i as int])));
        i = i + 1;
    }
    assert(views(ls@).take(ls.len() as int) =~= views(ls@));
    from_chars(&join_lines_chars(&out))
}

fn no_source_chars() -> (v: Vec<char>)
    ensures
        v@ == no_source_text(),
{
    let v = vec![
        'N',
        'o',
        ' ',
        's',
        'o',
        'u',
        'r',
        'c',
        'e',
        ' ',
        's',
        'e',
        't',
        ' ',
        'y',
        'e',
        't',
        '.',
    ];
    assert(v@ =~= no_source_text());
    v
}

/// The source of point `point_id`, or `No source set yet.` when no line gives one.
pub fn get_point_source(sources: &str, point_id: &str) -> (r: String)
    ensures
        r@ == source_in_lines(file_lines(sources@), point_id@, 0),
{
    let c = to_chars(sources);
    let id = to_chars(point_id);
    let sep = bar_chars();
    let ls = lines_of(&c);
    let ghost lv = views(ls@);
    let mut i: usize = 0;
    while i < ls.len()
        invariant
            i <= ls.len(),
            lv == views(ls@),
            lv == file_lines(sources@),
            id@ == point_id@,
            sep@ == bar(),
            source_in_lines(lv, id@, 0) == source_in_lines(lv, id@, i as int),
        decreases ls.len() - i,
    {
        let fields = split_chars(&ls[i], &sep);
        proof {
            lemma_split_nonempty(lv[i as int], bar());
            assert(lv[i as int] == ls@[i as int]@);
        }
        if eq_chars(&fields[0], &id) && fields.len() > 1 {
            return from_chars(&fields[1]);
        }
        i = i + 1;
    }
    from_chars(&no_source_chars())
}

/// Reading the source of a point after setting it gives what was set, when some line is about
/// the point, and `No source set yet.` when none is. This holds when the source holds neither
/// `|--|` nor a line break, the identifier does not end with `|--`, no written line but the last
/// ends with `\r`, and the text has no empty last line.
pub proof fn law_source_read_after_update(sources: Seq<char>, id: Seq<char>, source: Seq<char>)
    requires
        file_lines(sources).len() == 0 || file_lines(sources).last().len() > 0,
        no_line_ends_in_cr(
            file_lines(sources).map_values(|l: Seq<char>| source_line_updated(l, id, source)),
        ),
        !ends_with_bar_start(id),
        !crate::browse::contains_text(source, bar()),
        !source.contains('\n'),
    ensures
        ({
            let ls = file_lines(sources);
            let out = ls.map_values(|l: Seq<char>| source_line_updated(l, id, source));
            source_in_lines(file_lines(join_lines(out)), id, 0) == if exists|k: int|
                0 <= k < ls.len() && first_field(#[trigger] ls[k], bar()) == id {
                source
            } else {
                no_source_text()
            }
        }),
{
    let ls = file_lines(sources);
    let f = |l: Seq<char>| source_line_updated(l, id, source);
    let out = ls.map_values(f);
    let upd = id + bar() + source;
    let about = exists|k: int| 0 <= k < ls.len() && first_field(#[trigger] ls[k], bar()) == id;
    lemma_lines_no_newline(sources);
    if about {
        let k = choose|k: int| 0 <= k < ls.len() && first_field(#[trigger] ls[k], bar()) == id;
        lemma_first_field_free(ls[k], bar());
        lemma_split_nonempty(ls[k], bar());
        lemma_split_parts_avoid(ls[k], bar(), '\n');
        assert(!id.contains('\n'));
        lemma_split_bar_pair(id, source);
        assert(!upd.contains('\n')) by {
            if upd.contains('\n') {
                let j = choose|j: int| 0 <= j < upd.len() && upd[j] == '\n';
                if j < id.len() {
                    assert(id[j] == '\n');
                } else if j >= id.len() + 4 {
                    assert(source[j - id.len() - 4] == '\n');
                }
            }
        }
    }
    assert(lines_keep(out)) by {
        assert forall|i: int| 0 <= i < out.len() implies !(#[trigger] out[i]).contains('\n') by {
            assert(out[i] == f(ls[i]));
            if first_field(ls[i], bar()) == id {
                assert(about);
            }
        }
        if out.len() > 0 {
            assert(out.last() == f(ls.last()));
        }
    }
    law_lines_join(out);
    lemma_source_search(ls, out, id, source, 0);
}

proof fn lemma_source_search(
    ls: Seq<Seq<char>>,
    out: Seq<Seq<char>>,
    id: Seq<char>,
    source: Seq<char>,
    i: int,
)
    requires
        0 <= i <= ls.len(),
        out == ls.map_values(|l: Seq<char>| source_line_updated(l, id, source)),
        (exists|k: int| 0 <= k < ls.len() && first_field(#[trigger] ls[k], bar()) == id)
            ==> split_on(id + bar() + source, bar()) == seq![id, source],
    ensures
        source_in_lines(out, id, i) == if exists|k: int|
            i <= k < ls.len() && first_field(#[trigger] ls[k], bar()) == id {
            source
        } else {
            no_source_text()
        },
    decreases ls.len() - i,
{
    if i < ls.len() {
        lemma_source_search(ls, out, id, source, i + 1);
        assert(out[i] == source_line_updated(ls[i], id, source));
        if first_field(ls[i], bar()) == id {
            assert(out[i] == id + bar() + source);
            assert(split_on(id + bar() + source, bar()) == seq![id, source]);
        } else {
            if exists|k: int| i <= k < ls.len() && first_field(#[trigger] ls[k], bar()) == id {
                let k = choose|k: int| i <= k < ls.len() && first_field(#[trigger] ls[k], bar())
                    == id;
                assert(i + 1 <= k);
            }
        }
    }
}

} // verus!

verus! {

/// Whether a source reads as a web address: it is set and holds `www` or `https`.
pub fn source_is_link(source: &str) -> (r: bool)
    ensures
        r == (source@ != no_source_text() && (crate::browse::contains_text(source@, "www"@)
            || crate::browse::contains_text(source@, "https"@))),
{
    proof {
        reveal_strlit("www");
        reveal_strlit("https");
    }
    let c = to_chars(source);
    let unset = no_source_chars();
    if eq_chars(&c, &unset) {
        return false;
    }
    crate::browse::text_contains(&c, &to_chars("www")) || crate::browse::text_contains(
        &c,
        &to_chars("https"),
    )
}

} // verus!
