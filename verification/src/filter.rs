//! Tags of titles: which tags a checklist selects, which titles a tag filter shows, and how a
//! click on a tag or a new tag changes the checklists.
use crate::model::string_views;
use crate::point::strings_to_chars;
use crate::text::{contains_part, copy_chars, eq_chars, from_chars, keep, to_chars, views};
use vstd::prelude::*;

verus! {

/// The first `n` tags whose flag is set, in order.
pub open spec fn checked_upto(tags: Seq<Seq<char>>, flags: Seq<bool>, n: int) -> Seq<Seq<char>>
    decreases n,
{
    if n <= 0 {
        Seq::empty()
    } else {
        let r = checked_upto(tags, flags, n - 1);
        if flags[n - 1] {
            r.push(tags[n - 1])
        } else {
            r
        }
    }
}

/// The tags whose flag is set, tags and flags taken in pairs as far as both go.
pub open spec fn checked(tags: Seq<Seq<char>>, flags: Seq<bool>) -> Seq<Seq<char>> {
    checked_upto(tags, flags, if tags.len() <= flags.len() { tags.len() as int } else { flags.len() as int })
}

/// The tags whose checkbox is set: tags and flags go in pairs as far as both go, and a tag
/// comes out when its flag is set.
pub fn checked_tags(all_tags: &Vec<String>, flags: &Vec<bool>) -> (r: Vec<String>)
    ensures
        string_views(r@) == checked(string_views(all_tags@), flags@),
{
    let n = if all_tags.len() <= flags.len() { all_tags.len() } else { flags.len() };
    let mut r: Vec<String> = Vec::new();
    let mut i: usize = 0;
    while i < n
        invariant
            i <= n,
            n <= all_tags.len(),
            n <= flags.len(),
            n == (if all_tags.len() <= flags.len() { all_tags.len() } else { flags.len() }),
            string_views(r@) == checked_upto(string_views(all_tags@), flags@, i as int),
        decreases n - i,
    {
        if flags[i] {
            let ghost before = string_views(r@);
            r.push(from_chars(&to_chars(all_tags[i].as_str())));
            assert(string_views(r@) =~= before.push(string_views(all_tags@)[i as int]));
        }
        i = i + 1;
    }
    r
}

/// The test that a tag is among `tags`.
pub open spec fn among(tags: Seq<Seq<char>>) -> spec_fn(Seq<char>) -> bool {
    |t: Seq<char>| tags.contains(t)
}

/// For each tag, whether the title has it.
pub fn tag_flags(all_tags: &Vec<String>, title_tags: &Vec<String>) -> (r: Vec<bool>)
    ensures
        r@ == string_views(all_tags@).map_values(among(string_views(title_tags@))),
{
    let have = strings_to_chars(title_tags);
    let mut r: Vec<bool> = Vec::new();
    let mut i: usize = 0;
    while i < all_tags.len()
        invariant
            i <= all_tags.len(),
            views(have@) == string_views(title_tags@),
            r@ == string_views(all_tags@).take(i as int).map_values(among(string_views(title_tags@))),
        decreases all_tags.len() - i,
    {
        let b = contains_part(&have, &to_chars(all_tags[i].as_str()));
        r.push(b);
        assert(string_views(all_tags@).take(i + 1) =~= string_views(all_tags@).take(i as int).push(
            string_views(all_tags@)[i as int],
        ));
        assert(r@ =~= string_views(all_tags@).take(i + 1).map_values(among(string_views(title_tags@))));
        i = i + 1;
    }
    assert(string_views(all_tags@).take(all_tags.len() as int) =~= string_views(all_tags@));
    r
}

/// Whether any flag is set.
pub fn any_flag(flags: &Vec<bool>) -> (r: bool)
    ensures
        r == flags@.contains(true),
{
    let mut i: usize = 0;
    while i < flags.len()
        invariant
            i <= flags.len(),
            forall|k: int| 0 <= k < i ==> !flags@[k],
        decreases flags.len() - i,
    {
        if flags[i] {
            assert(flags@[i as int] == true);
            return true;
        }
        i = i + 1;
    }
    false
}

/// Every tag of `want` is among `have`.
pub open spec fn has_all(have: Seq<Seq<char>>, want: Seq<Seq<char>>) -> bool {
    forall|k: int| 0 <= k < want.len() ==> have.contains(#[trigger] want[k])
}

/// Whether a title shows in the list of titles: always when no tag filters, else when it has
/// every tag of the filter.
pub fn title_shown(title_tags: &Vec<String>, tags_in_filter: &Vec<String>, filtering: bool) -> (r:
    bool)
    ensures
        r == (!filtering || has_all(string_views(title_tags@), string_views(tags_in_filter@))),
{
    if !filtering {
        return true;
    }
    let have = strings_to_chars(title_tags);
    let mut i: usize = 0;
    while i < tags_in_filter.len()
        invariant
            filtering,
            i <= tags_in_filter.len(),
            views(have@) == string_views(title_tags@),
            forall|k: int|
                0 <= k < i ==> string_views(title_tags@).contains(
                    #[trigger] string_views(tags_in_filter@)[k],
                ),
        decreases tags_in_filter.len() - i,
    {
        let want = to_chars(tags_in_filter[i].as_str());
        assert(want@ == string_views(tags_in_filter@)[i as int]);
        if !contains_part(&have, &want) {
            assert(!string_views(title_tags@).contains(string_views(tags_in_filter@)[i as int]));
            assert(!has_all(string_views(title_tags@), string_views(tags_in_filter@)));
            return false;
        }
        i = i + 1;
    }
    assert(has_all(string_views(title_tags@), string_views(tags_in_filter@)));
    true
}

/// The first index at which `x` stands in `s`, or -1.
pub open spec fn first_index_of(s: Seq<Seq<char>>, x: Seq<char>) -> int
    decreases s.len(),
{
    if s.len() == 0 {
        -1
    } else {
        let r = first_index_of(s.drop_last(), x);
        if r >= 0 {
            r
        } else if s.last() == x {
            s.len() - 1
        } else {
            -1
        }
    }
}

proof fn lemma_first_index_of(s: Seq<Seq<char>>, x: Seq<char>)
    ensures
        -1 <= first_index_of(s, x) < s.len(),
        first_index_of(s, x) >= 0 ==> s[first_index_of(s, x)] == x,
        first_index_of(s, x) == -1 <==> !s.contains(x),
        forall|k: int| 0 <= k < first_index_of(s, x) ==> s[k] != x,
    decreases s.len(),
{
    if s.len() > 0 {
        let d = s.drop_last();
        lemma_first_index_of(d, x);
        if d.contains(x) {
            let k = choose|k: int| 0 <= k < d.len() && d[k] == x;
            assert(s[k] == x);
        }
        if s.contains(x) && s.last() != x {
            let k = choose|k: int| 0 <= k < s.len() && s[k] == x;
            assert(d[k] == x);
        }
        assert forall|k: int| 0 <= k < first_index_of(s, x) implies s[k] != x by {
            assert(k < d.len());
            assert(s[k] == d[k]);
            if s[k] == x {
                assert(d.contains(x));
            }
        }
    }
}

/// The flags and filter tags after a click on tag `tag` of a title: an emptied filter (no
/// flag set) first forgets its tags; a tag not yet in the filter joins it, and the flag of its
/// first place among all tags is set.
pub open spec fn clicked_filter(
    all_tags: Seq<Seq<char>>,
    flags: Seq<bool>,
    in_filter: Seq<Seq<char>>,
    tag: Seq<char>,
) -> (Seq<bool>, Seq<Seq<char>>) {
    let f = if flags.contains(true) {
        in_filter
    } else {
        Seq::empty()
    };
    if f.contains(tag) {
        (flags, f)
    } else {
        let k = first_index_of(all_tags, tag);
        (if k >= 0 {
            flags.update(k, true)
        } else {
            flags
        }, f.push(tag))
    }
}

/// Filters by tag `tag`, as a click on one of the current title's tags does.
pub fn filter_by_tag(
    all_tags: &Vec<String>,
    flags: &mut Vec<bool>,
    tags_in_filter: &mut Vec<String>,
    tag: &str,
)
    requires
        !(if old(flags)@.contains(true) {
            string_views(old(tags_in_filter)@)
        } else {
            Seq::empty()
        }).contains(tag@) ==> old(flags).len() == all_tags.len(),
    ensures
        (final(flags)@, string_views(final(tags_in_filter)@)) == clicked_filter(
            string_views(all_tags@),
            old(flags)@,
            string_views(old(tags_in_filter)@),
            tag@,
        ),
{
    let ghost target = clicked_filter(
        string_views(all_tags@),
        old(flags)@,
        string_views(old(tags_in_filter)@),
        tag@,
    );
    if !any_flag(flags) {
        *tags_in_filter = Vec::new();
        assert(string_views(tags_in_filter@) =~= Seq::<Seq<char>>::empty());
    }
    let t = to_chars(tag);
    let current = strings_to_chars(tags_in_filter);
    if !contains_part(&current, &t) {
        let ghost before = string_views(tags_in_filter@);
        tags_in_filter.push(from_chars(&copy_chars(&t)));
        assert(string_views(tags_in_filter@) =~= before.push(tag@));
        let all = strings_to_chars(all_tags);
        proof {
            lemma_first_index_of(string_views(all_tags@), tag@);
        }
        let ghost joined = string_views(tags_in_filter@);
        let ghost fi = first_index_of(string_views(all_tags@), tag@);
        assert(target == (if fi >= 0 {
            old(flags)@.update(fi, true)
        } else {
            old(flags)@
        }, joined));
        let mut i: usize = 0;
        while i < all.len()
            invariant
                i <= all.len() == all_tags.len() == flags.len(),
                views(all@) == string_views(all_tags@),
                t@ == tag@,
                flags@ == old(flags)@,
                string_views(tags_in_filter@) == joined,
                fi == first_index_of(string_views(all_tags@), tag@),
                target == clicked_filter(
                    string_views(all_tags@),
                    old(flags)@,
                    string_views(old(tags_in_filter)@),
                    tag@,
                ),
                target == (if fi >= 0 {
                    old(flags)@.update(fi, true)
                } else {
                    old(flags)@
                }, joined),
                forall|k: int| 0 <= k < i ==> string_views(all_tags@)[k] != tag@,
            decreases all.len() - i,
        {
            if eq_chars(&all[i], &t) {
                proof {
                    assert(views(all@)[i as int] == all@[i as int]@);
                    assert(string_views(all_tags@)[i as int] == tag@);
                    lemma_first_index_of(string_views(all_tags@), tag@);
                    let fi = first_index_of(string_views(all_tags@), tag@);
                    assert(fi >= 0);
                    if fi < i {
                        assert(string_views(all_tags@)[fi] != tag@);
                    }
                    if fi > i {
                        assert(string_views(all_tags@)[i as int] == tag@);
                    }
                }
                flags.set(i, true);
                return;
            }
            i = i + 1;
        }
        proof {
            lemma_first_index_of(string_views(all_tags@), tag@);
            if string_views(all_tags@).contains(tag@) {
                let k = choose|k: int| 0 <= k < all_tags.len() && string_views(all_tags@)[k] == tag@;
            }
        }
    }
}

/// Creates tag `new_tag` when it is not empty: it joins all tags, unset in the filter and set
/// for the current title. Says whether it was created.
pub fn create_tag(
    all_tags: &mut Vec<String>,
    filter_flags: &mut Vec<bool>,
    title_flags: &mut Vec<bool>,
    new_tag: &str,
) -> (r: bool)
    ensures
        r == (new_tag@.len() > 0),
        r ==> string_views(final(all_tags)@) == string_views(old(all_tags)@).push(new_tag@)
            && final(filter_flags)@ == old(filter_flags)@.push(false) && final(title_flags)@
            == old(title_flags)@.push(true),
        !r ==> final(all_tags)@ == old(all_tags)@ && final(filter_flags)@ == old(filter_flags)@
            && final(title_flags)@ == old(title_flags)@,
{
    if new_tag.is_empty() {
        return false;
    }
    let ghost before = string_views(all_tags@);
    all_tags.push(from_chars(&to_chars(new_tag)));
    assert(string_views(all_tags@) =~= before.push(new_tag@));
    filter_flags.push(false);
    title_flags.push(true);
    true
}

proof fn lemma_checked_prefix(all: Seq<Seq<char>>, have: Seq<Seq<char>>, n: int)
    requires
        0 <= n <= all.len(),
    ensures
        checked_upto(all, all.map_values(among(have)), n) == keep(all.take(n), among(have)),
    decreases n,
{
    if n > 0 {
        lemma_checked_prefix(all, have, n - 1);
        assert(all.take(n).drop_last() =~= all.take(n - 1));
        assert(all.take(n).last() == all[n - 1]);
    } else {
        assert(all.take(0) =~= Seq::<Seq<char>>::empty());
    }
}

/// Opening the tags of a title as checkboxes and confirming them unchanged keeps the title's
/// tags that are among all tags, in the order of all tags.
pub proof fn law_tags_unchanged_by_checklist(all: Seq<Seq<char>>, have: Seq<Seq<char>>)
    ensures
        checked(all, all.map_values(among(have))) == keep(all, among(have)),
{
    lemma_checked_prefix(all, have, all.len() as int);
    assert(all.take(all.len() as int) =~= all);
}

} // verus!
