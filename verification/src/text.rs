//! Character-sequence utilities used by the file formats.
use vstd::prelude::*;
use vstd::std_specs::iter::IteratorSpec;

verus! {

/// Appends one character to a string (std's `String::push`).
/// Trusted: the new view is the old view with the character at its end.
#[verifier::external_body]
fn push_char(s: &mut String, c: char)
    ensures
        final(s)@ == old(s)@.push(c),
{
    s.push(c);
}

/// The characters of a string, in order.
pub fn to_chars(s: &str) -> (v: Vec<char>)
    ensures
        v@ == s@,
{
    let mut v: Vec<char> = Vec::new();
    let mut it = s.chars();
    proof {
        vstd::string::axiom_spec_iter(s);
    }
    loop
        invariant
            it.obeys_prophetic_iter_laws(),
            v@ + it.remaining() == s@,
            it.decrease() is Some,
        ensures
            v@ == s@,
        decreases it.decrease()->0,
    {
        let c = it.next();
        match c {
            Some(ch) => {
                v.push(ch);
            },
            None => {
                break;
            },
        }
    }
    v
}

/// A string made of the given characters.
pub fn from_chars(v: &Vec<char>) -> (s: String)
    ensures
        s@ == v@,
{
    let mut s = String::new();
    let mut i: usize = 0;
    while i < v.len()
        invariant
            i <= v.len(),
            s@ == v@.take(i as int),
        decreases v.len() - i,
    {
        push_char(&mut s, v[i]);
        assert(v@.take(i as int).push(v@[i as int]) =~= v@.take(i + 1));
        i = i + 1;
    }
    assert(v@.take(v.len() as int) =~= v@);
    s
}

} // verus!

verus! {

/// The views of a sequence of character vectors.
pub open spec fn views(v: Seq<Vec<char>>) -> Seq<Seq<char>> {
    v.map_values(|x: Vec<char>| x@)
}

/// `pat` occurs in `s` starting at index `i`.
pub open spec fn occurs_at(s: Seq<char>, pat: Seq<char>, i: int) -> bool {
    0 <= i && i + pat.len() <= s.len() && s.subrange(i, i + pat.len()) == pat
}

/// Index of the first occurrence of `pat` in `s` at or after `from`, or -1 when there is none.
pub open spec fn find_from(s: Seq<char>, pat: Seq<char>, from: nat) -> int
    decreases s.len() - from,
{
    if pat.len() == 0 || from + pat.len() > s.len() {
        -1
    } else if occurs_at(s, pat, from as int) {
        from as int
    } else {
        find_from(s, pat, from + 1)
    }
}

/// `s` cut at every non-overlapping occurrence of the non-empty `pat`, scanning from the left,
/// as `str::split` does with a string pattern.
pub open spec fn split_on(s: Seq<char>, pat: Seq<char>) -> Seq<Seq<char>>
    decreases s.len(),
{
    if pat.len() == 0 {
        seq![s]
    } else {
        let k = find_from(s, pat, 0);
        if k < 0 {
            seq![s]
        } else {
            proof {
                lemma_find_from(s, pat, 0);
            }
            seq![s.take(k)] + split_on(s.skip(k + pat.len()), pat)
        }
    }
}

/// The parts put together with `sep` between each two of them, as `[String]::join` does.
pub open spec fn join_with(parts: Seq<Seq<char>>, sep: Seq<char>) -> Seq<char>
    decreases parts.len(),
{
    if parts.len() == 0 {
        Seq::empty()
    } else if parts.len() == 1 {
        parts[0]
    } else {
        parts[0] + sep + join_with(parts.drop_first(), sep)
    }
}

/// The first field of `s` when it is split on `sep`.
pub open spec fn first_field(s: Seq<char>, sep: Seq<char>) -> Seq<char> {
    split_on(s, sep)[0]
}

/// The single-character sequence `c`.
pub open spec fn one(c: char) -> Seq<char> {
    seq![c]
}

/// No line but the last ends with `\r`, which reading the lines back would drop.
pub open spec fn no_line_ends_in_cr(ls: Seq<Seq<char>>) -> bool {
    forall|k: int| 0 <= k < ls.len() - 1 ==> strip_cr(#[trigger] ls[k]) == ls[k]
}

/// `|--`, the start of `|--|` that can run on into a following `|--|`.
pub open spec fn bar_start() -> Seq<char> {
    seq!['|', '-', '-']
}

/// The text ends with `|--`.
pub open spec fn ends_with_bar_start(s: Seq<char>) -> bool {
    s.len() >= 3 && s.subrange(s.len() - 3, s.len() as int) == bar_start()
}

/// A line as `BufRead::lines` hands it out when a newline ended it: one `\r` before the newline
/// is dropped.
pub open spec fn strip_cr(l: Seq<char>) -> Seq<char> {
    if l.len() > 0 && l.last() == '\r' {
        l.drop_last()
    } else {
        l
    }
}

/// The lines of a text, as `BufRead::lines` reads them: cut at every `\n`, a `\r` before a
/// `\n` dropped, and no line after a final `\n` (nor for an empty text).
pub open spec fn file_lines(s: Seq<char>) -> Seq<Seq<char>> {
    let parts = split_on(s, one('\n'));
    let n = parts.len();
    let ended = parts.take(n - 1).map_values(|l: Seq<char>| strip_cr(l));
    if parts[n - 1].len() == 0 {
        ended
    } else {
        ended.push(parts[n - 1])
    }
}

/// Lines put back together into a text, one `\n` between each two.
pub open spec fn join_lines(lines: Seq<Seq<char>>) -> Seq<char> {
    join_with(lines, one('\n'))
}

/// What `find_from` returns.
pub proof fn lemma_find_from(s: Seq<char>, pat: Seq<char>, from: nat)
    requires
        pat.len() > 0,
    ensures
        find_from(s, pat, from) == -1 || (from <= find_from(s, pat, from) && occurs_at(
            s,
            pat,
            find_from(s, pat, from),
        )),
        find_from(s, pat, from) == -1 ==> forall|j: int| from <= j ==> !occurs_at(s, pat, j),
        forall|j: int| from <= j < find_from(s, pat, from) ==> !occurs_at(s, pat, j),
    decreases s.len() - from,
{
    if pat.len() == 0 || from + pat.len() > s.len() {
    } else if occurs_at(s, pat, from as int) {
    } else {
        lemma_find_from(s, pat, from + 1);
    }
}

/// `find_from` is pinned down by where `pat` occurs.
pub proof fn lemma_find_from_exact(s: Seq<char>, pat: Seq<char>, from: nat, k: int)
    requires
        pat.len() > 0,
        (from <= k && occurs_at(s, pat, k) && forall|j: int| from <= j < k ==> !occurs_at(s, pat, j))
            || (k == -1 && forall|j: int| from <= j ==> !occurs_at(s, pat, j)),
    ensures
        find_from(s, pat, from) == k,
    decreases s.len() - from,
{
    if from + pat.len() > s.len() {
    } else if occurs_at(s, pat, from as int) {
    } else {
        if k != from {
            lemma_find_from_exact(s, pat, from + 1, k);
        }
    }
}

/// Occurrences in a suffix are occurrences in the whole.
pub proof fn lemma_occurs_skip(s: Seq<char>, pat: Seq<char>, a: int, j: int)
    requires
        0 <= a <= s.len(),
        0 <= j,
    ensures
        occurs_at(s.skip(a), pat, j) == occurs_at(s, pat, a + j),
{
    if occurs_at(s, pat, a + j) {
        assert(s.skip(a).subrange(j, j + pat.len()) =~= s.subrange(a + j, a + j + pat.len()));
    }
    if occurs_at(s.skip(a), pat, j) {
        assert(s.skip(a).subrange(j, j + pat.len()) =~= s.subrange(a + j, a + j + pat.len()));
    }
}

/// A split has at least one part.
pub proof fn lemma_split_nonempty(s: Seq<char>, pat: Seq<char>)
    ensures
        split_on(s, pat).len() >= 1,
{
}

/// Putting the parts of a split back together with the same separator gives back the text.
pub proof fn law_join_split(s: Seq<char>, pat: Seq<char>)
    requires
        pat.len() > 0,
    ensures
        join_with(split_on(s, pat), pat) == s,
    decreases s.len(),
{
    let k = find_from(s, pat, 0);
    lemma_find_from(s, pat, 0);
    if k >= 0 {
        let rest = s.skip(k + pat.len());
        law_join_split(rest, pat);
        lemma_split_nonempty(rest, pat);
        let parts = split_on(s, pat);
        assert(parts.drop_first() =~= split_on(rest, pat));
        assert(s =~= s.take(k) + pat + rest);
    }
}

/// Splitting the join of parts that do not hold the separator character gives back the parts.
pub proof fn law_split_join(parts: Seq<Seq<char>>, c: char)
    requires
        parts.len() >= 1,
        forall|i: int| 0 <= i < parts.len() ==> !(#[trigger] parts[i]).contains(c),
    ensures
        split_on(join_with(parts, one(c)), one(c)) == parts,
    decreases parts.len(),
{
    let s = join_with(parts, one(c));
    if parts.len() == 1 {
        assert forall|j: int| 0 <= j implies !occurs_at(s, one(c), j) by {
            if occurs_at(s, one(c), j) {
                assert(s[j] == s.subrange(j, j + 1)[0]);
            }
        }
        lemma_find_from_exact(s, one(c), 0, -1);
    } else {
        let p0 = parts[0];
        let rest = parts.drop_first();
        assert(s == p0 + one(c) + join_with(rest, one(c)));
        assert forall|j: int| 0 <= j < p0.len() implies !occurs_at(s, one(c), j) by {
            if occurs_at(s, one(c), j) {
                assert(s[j] == s.subrange(j, j + 1)[0]);
                assert(p0[j] == s[j]);
            }
        }
        assert(s.subrange(p0.len() as int, p0.len() + 1int) =~= one(c));
        lemma_find_from_exact(s, one(c), 0, p0.len() as int);
        assert forall|i: int| 0 <= i < rest.len() implies !(#[trigger] rest[i]).contains(c) by {
            assert(rest[i] == parts[i + 1]);
        }
        law_split_join(rest, c);
        assert(s.take(p0.len() as int) =~= p0);
        assert(s.skip(p0.len() + 1int) =~= join_with(rest, one(c)));
        assert(split_on(s, one(c)) =~= seq![p0] + rest);
    }
}

/// The first part of a split holds no occurrence of the pattern.
pub proof fn lemma_first_field_free(s: Seq<char>, pat: Seq<char>)
    requires
        pat.len() > 0,
    ensures
        forall|j: int| !occurs_at(split_on(s, pat)[0], pat, j),
{
    let k = find_from(s, pat, 0);
    lemma_find_from(s, pat, 0);
    if k >= 0 {
        let f = s.take(k);
        assert(split_on(s, pat)[0] == f);
        assert forall|j: int| !occurs_at(f, pat, j) by {
            if occurs_at(f, pat, j) {
                assert(f.subrange(j, j + pat.len()) =~= s.subrange(j, j + pat.len()));
                assert(occurs_at(s, pat, j));
            }
        }
    } else {
        assert(split_on(s, pat)[0] == s);
    }
}

/// Split on `|--|`, a text `a`, `|--|` and `b` gives `a` and then the parts of `b`, when `a`
/// holds no `|--|` and does not end with `|--`.
pub proof fn lemma_split_after_bar(a: Seq<char>, b: Seq<char>)
    requires
        forall|j: int| !occurs_at(a, bar(), j),
        !ends_with_bar_start(a),
    ensures
        split_on(a + bar() + b, bar()) == seq![a] + split_on(b, bar()),
{
    let s = a + bar() + b;
    let n = a.len() as int;
    assert forall|j: int| 0 <= j < n implies !occurs_at(s, bar(), j) by {
        if occurs_at(s, bar(), j) {
            let w = s.subrange(j, j + 4);
            assert(w == bar());
            if j + 4 <= n {
                assert(w =~= a.subrange(j, j + 4));
                assert(occurs_at(a, bar(), j));
            } else if j == n - 1 {
                assert(w[1] == s[n]);
                assert(s[n] == '|');
            } else if j == n - 2 {
                assert(w[2] == s[n]);
                assert(s[n] == '|');
            } else {
                assert(j == n - 3);
                assert(a.subrange(n - 3, n) =~= w.take(3));
                assert(w.take(3) =~= bar_start());
            }
        }
    }
    assert(s.subrange(n, n + 4) =~= bar());
    lemma_find_from_exact(s, bar(), 0, n);
    assert(s.skip(n + 4) =~= b);
    assert(s.take(n) =~= a);
}

/// Two texts joined by `|--|` split back into the two, when neither holds `|--|` and the first
/// does not end with `|--`.
pub proof fn lemma_split_bar_pair(a: Seq<char>, b: Seq<char>)
    requires
        forall|j: int| !occurs_at(a, bar(), j),
        !ends_with_bar_start(a),
        forall|j: int| !occurs_at(b, bar(), j),
    ensures
        split_on(a + bar() + b, bar()) == seq![a, b],
{
    lemma_split_after_bar(a, b);
    lemma_find_from_exact(b, bar(), 0, -1);
    assert(split_on(b, bar()) =~= seq![b]);
    assert(seq![a] + seq![b] =~= seq![a, b]);
}

/// The parts of a split on `|--|` hold no `|--|`, and none but the last ends with `|--`.
pub proof fn lemma_split_bar_parts(s: Seq<char>)
    ensures
        forall|i: int, j: int|
            0 <= i < split_on(s, bar()).len() ==> !#[trigger] occurs_at(
                split_on(s, bar())[i],
                bar(),
                j,
            ),
        forall|i: int|
            0 <= i < split_on(s, bar()).len() - 1 ==> !ends_with_bar_start(
                #[trigger] split_on(s, bar())[i],
            ),
    decreases s.len(),
{
    let k = find_from(s, bar(), 0);
    lemma_find_from(s, bar(), 0);
    if k < 0 {
        assert(split_on(s, bar()) == seq![s]);
    } else {
        let a = s.take(k);
        let rest = s.skip(k + 4);
        lemma_split_bar_parts(rest);
        let sp = split_on(s, bar());
        assert(sp == seq![a] + split_on(rest, bar()));
        assert forall|j: int| !occurs_at(a, bar(), j) by {
            if occurs_at(a, bar(), j) {
                assert(a.subrange(j, j + 4) =~= s.subrange(j, j + 4));
                assert(occurs_at(s, bar(), j));
            }
        }
        assert(!ends_with_bar_start(a)) by {
            if ends_with_bar_start(a) {
                assert(s.subrange(k - 3, k + 1) =~= a.subrange(k - 3, k) + s.subrange(k, k + 1));
                assert(s.subrange(k, k + 1) =~= s.subrange(k, k + 4).take(1));
                assert(s.subrange(k - 3, k + 1) =~= bar());
                assert(occurs_at(s, bar(), k - 3));
            }
        }
        assert forall|i: int, j: int| 0 <= i < sp.len() implies !#[trigger] occurs_at(sp[i], bar(), j) by {
            if i > 0 {
                assert(sp[i] == split_on(rest, bar())[i - 1]);
            }
        }
        assert forall|i: int| 0 <= i < sp.len() - 1 implies !ends_with_bar_start(#[trigger] sp[i]) by {
            if i > 0 {
                assert(sp[i] == split_on(rest, bar())[i - 1]);
            }
        }
    }
}

/// Parts joined by `|--|` split back into the parts, when none holds `|--|` and none but the
/// last ends with `|--`.
pub proof fn lemma_split_join_bar(parts: Seq<Seq<char>>)
    requires
        parts.len() >= 1,
        forall|i: int, j: int| 0 <= i < parts.len() ==> !#[trigger] occurs_at(parts[i], bar(), j),
        forall|i: int| 0 <= i < parts.len() - 1 ==> !ends_with_bar_start(#[trigger] parts[i]),
    ensures
        split_on(join_with(parts, bar()), bar()) == parts,
    decreases parts.len(),
{
    if parts.len() == 1 {
        lemma_find_from_exact(parts[0], bar(), 0, -1);
        assert(split_on(parts[0], bar()) =~= parts);
    } else {
        let rest = parts.drop_first();
        assert forall|i: int, j: int| 0 <= i < rest.len() implies !#[trigger] occurs_at(rest[i], bar(), j) by {
            assert(rest[i] == parts[i + 1]);
        }
        assert forall|i: int| 0 <= i < rest.len() - 1 implies !ends_with_bar_start(
            #[trigger] rest[i],
        ) by {
            assert(rest[i] == parts[i + 1]);
        }
        lemma_split_join_bar(rest);
        assert(!ends_with_bar_start(parts[0]));
        lemma_split_after_bar(parts[0], join_with(rest, bar()));
        assert(seq![parts[0]] + rest =~= parts);
    }
}

/// A join cut after the part at `i`: the join of the parts up to it, the separator, and the join
/// of the rest; the first piece ends with that part.
pub proof fn lemma_join_split_at(parts: Seq<Seq<char>>, sep: Seq<char>, i: int)
    requires
        0 <= i < parts.len() - 1,
    ensures
        join_with(parts, sep) == join_with(parts.take(i + 1), sep) + sep + join_with(
            parts.skip(i + 1),
            sep,
        ),
        join_with(parts.take(i + 1), sep) == if i == 0 {
            parts[0]
        } else {
            join_with(parts.take(i), sep) + sep + parts[i]
        },
    decreases i,
{
    let df = parts.drop_first();
    if i == 0 {
        assert(parts.take(1) =~= seq![parts[0]]);
        assert(parts.skip(1) =~= df);
    } else {
        lemma_join_split_at(df, sep, i - 1);
        assert(parts.take(i + 1).drop_first() =~= df.take(i));
        assert(parts.skip(i + 1) =~= df.skip(i));
        assert(parts.take(i + 1)[0] == parts[0]);
        assert(join_with(parts.take(i + 1), sep) == parts[0] + sep + join_with(df.take(i), sep));
        assert(parts[0] + sep + (join_with(df.take(i), sep) + sep + join_with(df.skip(i), sep))
            =~= parts[0] + sep + join_with(df.take(i), sep) + sep + join_with(df.skip(i), sep));
    }
    if i > 0 {
        lemma_join_push(parts.take(i), parts[i], sep);
        assert(parts.take(i).push(parts[i]) =~= parts.take(i + 1));
    }
}

/// Appending a part to a join.
pub proof fn lemma_join_push(parts: Seq<Seq<char>>, x: Seq<char>, sep: Seq<char>)
    ensures
        join_with(parts.push(x), sep) == if parts.len() == 0 {
            x
        } else {
            join_with(parts, sep) + sep + x
        },
    decreases parts.len(),
{
    if parts.len() == 0 {
        assert(parts.push(x) =~= seq![x]);
    } else if parts.len() == 1 {
        assert(parts.push(x).drop_first() =~= seq![x]);
        assert(join_with(seq![x], sep) == x);
        assert(join_with(parts.push(x), sep) == parts[0] + sep + x);
    } else {
        let df = parts.drop_first();
        lemma_join_push(df, x, sep);
        assert(parts.push(x).drop_first() =~= df.push(x));
        assert(parts.push(x)[0] == parts[0]);
        assert(join_with(parts.push(x), sep) == parts[0] + sep + join_with(df.push(x), sep));
        assert(join_with(parts, sep) == parts[0] + sep + join_with(df, sep));
        assert(parts[0] + sep + (join_with(df, sep) + sep + x) =~= parts[0] + sep + join_with(
            df,
            sep,
        ) + sep + x);
    }
}

} // verus!

verus! {

/// Appends a copy of `src` to `dst`.
pub fn append_chars(dst: &mut Vec<char>, src: &Vec<char>)
    ensures
        final(dst)@ == old(dst)@ + src@,
{
    let mut i: usize = 0;
    while i < src.len()
        invariant
            i <= src.len(),
            dst@ == old(dst)@ + src@.take(i as int),
        decreases src.len() - i,
    {
        dst.push(src[i]);
        assert(src@.take(i + 1) =~= src@.take(i as int).push(src@[i as int]));
        assert(old(dst)@ + src@.take(i as int).push(src@[i as int]) =~= (old(dst)@ + src@.take(
            i as int,
        )).push(src@[i as int]));
        i = i + 1;
    }
    assert(src@.take(src.len() as int) =~= src@);
}

/// A copy of the characters.
pub fn copy_chars(src: &Vec<char>) -> (r: Vec<char>)
    ensures
        r@ == src@,
{
    let mut r: Vec<char> = Vec::new();
    append_chars(&mut r, src);
    assert(Seq::<char>::empty() + src@ =~= src@);
    r
}

/// The characters of `s` from `from` (inclusive) to `to` (exclusive).
pub fn sub_chars(s: &Vec<char>, from: usize, to: usize) -> (r: Vec<char>)
    requires
        from <= to <= s.len(),
    ensures
        r@ == s@.subrange(from as int, to as int),
{
    let mut r: Vec<char> = Vec::new();
    let mut i: usize = from;
    while i < to
        invariant
            from <= i <= to <= s.len(),
            r@ == s@.subrange(from as int, i as int),
        decreases to - i,
    {
        r.push(s[i]);
        assert(s@.subrange(from as int, i + 1) =~= s@.subrange(from as int, i as int).push(
            s@[i as int],
        ));
        i = i + 1;
    }
    r
}

/// Whether two character vectors are equal.
pub fn eq_chars(a: &Vec<char>, b: &Vec<char>) -> (r: bool)
    ensures
        r == (a@ == b@),
{
    if a.len() != b.len() {
        return false;
    }
    let mut i: usize = 0;
    while i < a.len()
        invariant
            i <= a.len() == b.len(),
            forall|k: int| 0 <= k < i ==> a@[k] == b@[k],
        decreases a.len() - i,
    {
        if a[i] != b[i] {
            return false;
        }
        i = i + 1;
    }
    assert(a@ =~= b@);
    true
}

/// Whether `pat` occurs in `s` at index `i`.
pub fn matches_at(s: &Vec<char>, pat: &Vec<char>, i: usize) -> (b: bool)
    ensures
        b == occurs_at(s@, pat@, i as int),
{
    if i > s.len() || pat.len() > s.len() - i {
        return false;
    }
    let mut k: usize = 0;
    while k < pat.len()
        invariant
            k <= pat.len(),
            i + pat.len() <= s.len(),
            forall|m: int| 0 <= m < k ==> s@[i + m] == pat@[m],
        decreases pat.len() - k,
    {
        if s[i + k] != pat[k] {
            assert(s@.subrange(i as int, i + pat.len())[k as int] == s@[i + k]);
            return false;
        }
        k = k + 1;
    }
    assert(s@.subrange(i as int, i + pat.len()) =~= pat@);
    true
}

/// Splits `s` at every occurrence of `pat`, as `str::split` does.
pub fn split_chars(s: &Vec<char>, pat: &Vec<char>) -> (parts: Vec<Vec<char>>)
    requires
        pat.len() > 0,
    ensures
        views(parts@) == split_on(s@, pat@),
{
    let mut parts: Vec<Vec<char>> = Vec::new();
    let mut seg: Vec<char> = Vec::new();
    let mut start: usize = 0;
    let mut i: usize = 0;
    assert(s@.skip(0) =~= s@);
    while i < s.len()
        invariant
            pat.len() > 0,
            start <= i <= s.len(),
            seg@ == s@.subrange(start as int, i as int),
            split_on(s@, pat@) == views(parts@) + split_on(s@.skip(start as int), pat@),
            forall|j: int| start <= j < i ==> !occurs_at(s@, pat@, j),
        decreases s.len() - i,
    {
        if matches_at(s, pat, i) {
            let ghost t = s@.skip(start as int);
            let ghost k = i - start;
            proof {
                assert forall|j: int| 0 <= j < k implies !occurs_at(t, pat@, j) by {
                    lemma_occurs_skip(s@, pat@, start as int, j);
                }
                lemma_occurs_skip(s@, pat@, start as int, k);
                lemma_find_from_exact(t, pat@, 0, k);
                assert(t.take(k) =~= seg@);
                assert(t.skip(k + pat.len()) =~= s@.skip(i + pat.len()));
                assert(split_on(t, pat@) == seq![seg@] + split_on(s@.skip(i + pat.len()), pat@));
            }
            let ghost old_parts = parts@;
            parts.push(seg);
            assert(views(parts@) =~= views(old_parts).push(seg@));
            assert(views(old_parts) + (seq![seg@] + split_on(s@.skip(i + pat.len()), pat@))
                =~= views(old_parts).push(seg@) + split_on(s@.skip(i + pat.len()), pat@));
            seg = Vec::new();
            start = i + pat.len();
            i = start;
            assert(s@.subrange(start as int, i as int) =~= Seq::<char>::empty());
        } else {
            seg.push(s[i]);
            assert(s@.subrange(start as int, i + 1) =~= s@.subrange(start as int, i as int).push(
                s@[i as int],
            ));
            i = i + 1;
        }
    }
    proof {
        let t = s@.skip(start as int);
        assert forall|j: int| 0 <= j implies !occurs_at(t, pat@, j) by {
            lemma_occurs_skip(s@, pat@, start as int, j);
        }
        lemma_find_from_exact(t, pat@, 0, -1);
        assert(seg@ =~= t);
    }
    let ghost old_parts = parts@;
    parts.push(seg);
    assert(views(parts@) =~= views(old_parts).push(s@.skip(start as int)));
    assert(views(old_parts) + seq![s@.skip(start as int)] =~= views(old_parts).push(
        s@.skip(start as int),
    ));
    parts
}

/// Joins the parts with `sep` between each two, as `[Vec<char>]::join` does.
pub fn join_chars(parts: &Vec<Vec<char>>, sep: &Vec<char>) -> (r: Vec<char>)
    ensures
        r@ == join_with(views(parts@), sep@),
{
    let mut r: Vec<char> = Vec::new();
    let mut i: usize = 0;
    while i < parts.len()
        invariant
            i <= parts.len(),
            r@ == join_with(views(parts@).take(i as int), sep@),
        decreases parts.len() - i,
    {
        let ghost before = r@;
        proof {
            lemma_join_push(views(parts@).take(i as int), parts@[i as int]@, sep@);
            assert(views(parts@).take(i + 1) =~= views(parts@).take(i as int).push(
                parts@[i as int]@,
            ));
        }
        if i > 0 {
            append_chars(&mut r, sep);
        }
        append_chars(&mut r, &parts[i]);
        proof {
            if i > 0 {
                assert(before + sep@ + parts@[i as int]@ =~= r@);
            } else {
                assert(r@ =~= parts@[i as int]@);
            }
        }
        i = i + 1;
    }
    assert(views(parts@).take(parts.len() as int) =~= views(parts@));
    r
}

} // verus!

verus! {

/// Lines that survive being joined with `\n` and read back: none holds a `\n`, none but the
/// last ends with `\r`, and the last is not empty.
pub open spec fn lines_keep(ls: Seq<Seq<char>>) -> bool {
    &&& forall|i: int| 0 <= i < ls.len() ==> !(#[trigger] ls[i]).contains('\n')
    &&& forall|i: int| 0 <= i < ls.len() - 1 ==> strip_cr(#[trigger] ls[i]) == ls[i]
    &&& (ls.len() == 0 || ls.last().len() > 0)
}

/// Reading back the lines of a text made by joining lines gives back those lines.
pub proof fn law_lines_join(ls: Seq<Seq<char>>)
    requires
        lines_keep(ls),
    ensures
        file_lines(join_lines(ls)) == ls,
{
    if ls.len() == 0 {
        let e = Seq::<char>::empty();
        assert forall|j: int| 0 <= j implies !occurs_at(e, one('\n'), j) by {}
        lemma_find_from_exact(e, one('\n'), 0, -1);
        assert(split_on(e, one('\n')) =~= seq![e]);
        assert(file_lines(e) =~= ls);
    } else {
        law_split_join(ls, '\n');
        let n = ls.len();
        assert(ls.take(n - 1).map_values(|l: Seq<char>| strip_cr(l)) =~= ls.take(n - 1));
        assert(ls.take(n - 1).push(ls[n - 1]) =~= ls);
    }
}

/// The lines of a text never hold a `\n`.
pub proof fn lemma_lines_no_newline(s: Seq<char>)
    ensures
        forall|i: int|
            0 <= i < file_lines(s).len() ==> !(#[trigger] file_lines(s)[i]).contains('\n'),
{
    let parts = split_on(s, one('\n'));
    lemma_split_parts_free(s, '\n');
    let n = parts.len();
    assert forall|i: int| 0 <= i < file_lines(s).len() implies !(#[trigger] file_lines(
        s,
    )[i]).contains('\n') by {
        if i < n - 1 {
            assert(file_lines(s)[i] == strip_cr(parts[i]));
            if strip_cr(parts[i]).contains('\n') {
                let k = choose|k: int| 0 <= k < strip_cr(parts[i]).len() && strip_cr(parts[i])[k]
                    == '\n';
                assert(parts[i][k] == '\n');
            }
        } else {
            assert(file_lines(s)[i] == parts[n - 1]);
        }
    }
}

/// No part of a split on a single character holds that character.
pub proof fn lemma_split_parts_free(s: Seq<char>, c: char)
    ensures
        forall|i: int|
            0 <= i < split_on(s, one(c)).len() ==> !(#[trigger] split_on(s, one(c))[i]).contains(
                c,
            ),
    decreases s.len(),
{
    let k = find_from(s, one(c), 0);
    lemma_find_from(s, one(c), 0);
    let parts = split_on(s, one(c));
    if k < 0 {
        assert(parts == seq![s]);
        if s.contains(c) {
            let j = choose|j: int| 0 <= j < s.len() && s[j] == c;
            assert(s.subrange(j, j + 1) =~= one(c));
            assert(occurs_at(s, one(c), j));
        }
    } else {
        let rest = s.skip(k + 1);
        lemma_split_parts_free(rest, c);
        assert(parts == seq![s.take(k)] + split_on(rest, one(c)));
        assert forall|i: int| 0 <= i < parts.len() implies !(#[trigger] parts[i]).contains(c) by {
            if i == 0 {
                if s.take(k).contains(c) {
                    let j = choose|j: int| 0 <= j < k && s.take(k)[j] == c;
                    assert(s.subrange(j, j + 1) =~= one(c));
                    assert(occurs_at(s, one(c), j));
                }
            } else {
                assert(parts[i] == split_on(rest, one(c))[i - 1]);
            }
        }
    }
}

/// Drops one `\r` at the end, as `BufRead::lines` does before a newline.
fn strip_cr_chars(l: &Vec<char>) -> (r: Vec<char>)
    ensures
        r@ == strip_cr(l@),
{
    if l.len() > 0 && l[l.len() - 1] == '\r' {
        sub_chars(l, 0, l.len() - 1)
    } else {
        copy_chars(l)
    }
}

/// The lines of a text, as `BufRead::lines` reads them.
pub fn lines_of(s: &Vec<char>) -> (ls: Vec<Vec<char>>)
    ensures
        views(ls@) == file_lines(s@),
{
    let nl: Vec<char> = vec!['\n'];
    assert(nl@ =~= one('\n'));
    let parts = split_chars(s, &nl);
    proof {
        lemma_split_nonempty(s@, nl@);
    }
    let ghost ps = views(parts@);
    let n = parts.len();
    let mut ls: Vec<Vec<char>> = Vec::new();
    let mut i: usize = 0;
    while i + 1 < n
        invariant
            n == parts.len() >= 1,
            ps == views(parts@),
            i + 1 <= n,
            views(ls@) == ps.take(i as int).map_values(|l: Seq<char>| strip_cr(l)),
        decreases n - i,
    {
        let l = strip_cr_chars(&parts[i]);
        let ghost before = views(ls@);
        ls.push(l);
        assert(views(ls@) =~= before.push(strip_cr(ps[i as int])));
        assert(ps.take(i + 1).map_values(|l: Seq<char>| strip_cr(l)) =~= ps.take(
            i as int,
        ).map_values(|l: Seq<char>| strip_cr(l)).push(strip_cr(ps[i as int])));
        i = i + 1;
    }
    if parts[n - 1].len() > 0 {
        let last = copy_chars(&parts[n - 1]);
        let ghost before = views(ls@);
        ls.push(last);
        assert(views(ls@) =~= before.push(ps[n - 1]));
    }
    ls
}

/// A text made of lines joined with `\n`.
pub fn join_lines_chars(ls: &Vec<Vec<char>>) -> (r: Vec<char>)
    ensures
        r@ == join_lines(views(ls@)),
{
    let nl: Vec<char> = vec!['\n'];
    assert(nl@ =~= one('\n'));
    join_chars(ls, &nl)
}

} // verus!

verus! {

/// The field separator of most project files.
pub open spec fn at() -> Seq<char> {
    seq!['@']
}

/// The field separator of the links, sources and point-image lines.
pub open spec fn bar() -> Seq<char> {
    seq!['|', '-', '-', '|']
}

/// The test that a field differs from `id`.
pub open spec fn differs_from(id: Seq<char>) -> spec_fn(Seq<char>) -> bool {
    |f: Seq<char>| f != id
}

/// The elements of `s` for which `p` holds, in order.
pub open spec fn keep<A>(s: Seq<A>, p: spec_fn(A) -> bool) -> Seq<A>
    decreases s.len(),
{
    if s.len() == 0 {
        s
    } else if p(s.last()) {
        keep(s.drop_last(), p).push(s.last())
    } else {
        keep(s.drop_last(), p)
    }
}

/// `@` as characters.
pub fn at_chars() -> (v: Vec<char>)
    ensures
        v@ == at(),
{
    let v = vec!['@'];
    assert(v@ =~= at());
    v
}

/// `|--|` as characters.
pub fn bar_chars() -> (v: Vec<char>)
    ensures
        v@ == bar(),
{
    let v = vec!['|', '-', '-', '|'];
    assert(v@ =~= bar());
    v
}

/// The first field of a line.
pub fn first_field_chars(line: &Vec<char>, sep: &Vec<char>) -> (r: Vec<char>)
    requires
        sep.len() > 0,
    ensures
        r@ == first_field(line@, sep@),
{
    let parts = split_chars(line, sep);
    proof {
        lemma_split_nonempty(line@, sep@);
    }
    copy_chars(&parts[0])
}

/// Whether `needle` is one of the parts.
pub fn contains_part(parts: &Vec<Vec<char>>, needle: &Vec<char>) -> (r: bool)
    ensures
        r == views(parts@).contains(needle@),
{
    let mut i: usize = 0;
    while i < parts.len()
        invariant
            i <= parts.len(),
            forall|k: int| 0 <= k < i ==> views(parts@)[k] != needle@,
        decreases parts.len() - i,
    {
        if eq_chars(&parts[i], needle) {
            assert(views(parts@)[i as int] == needle@);
            return true;
        }
        i = i + 1;
    }
    false
}

/// The parts that differ from `needle`, in order.
pub fn parts_without(parts: &Vec<Vec<char>>, needle: &Vec<char>) -> (r: Vec<Vec<char>>)
    ensures
        views(r@) == keep(views(parts@), differs_from(needle@)),
{
    let ghost p = differs_from(needle@);
    let mut r: Vec<Vec<char>> = Vec::new();
    let mut i: usize = 0;
    while i < parts.len()
        invariant
            i <= parts.len(),
            p == differs_from(needle@),
            views(r@) == keep(views(parts@).take(i as int), p),
        decreases parts.len() - i,
    {
        assert(views(parts@).take(i + 1).drop_last() =~= views(parts@).take(i as int));
        if !eq_chars(&parts[i], needle) {
            let ghost before = views(r@);
            r.push(copy_chars(&parts[i]));
            assert(views(r@) =~= before.push(views(parts@)[i as int]));
        }
        i = i + 1;
    }
    assert(views(parts@).take(parts.len() as int) =~= views(parts@));
    r
}

} // verus!

verus! {

/// A text without the first character of `pat` is not cut by a split on `pat`.
pub proof fn lemma_split_free(s: Seq<char>, pat: Seq<char>)
    requires
        pat.len() > 0,
        !s.contains(pat[0]),
    ensures
        split_on(s, pat) == seq![s],
{
    assert forall|j: int| 0 <= j implies !occurs_at(s, pat, j) by {
        if occurs_at(s, pat, j) {
            assert(s.subrange(j, j + pat.len())[0] == s[j]);
        }
    }
    lemma_find_from_exact(s, pat, 0, -1);
}

/// Two texts without the first character of `pat`, joined by `pat`, split back into the two.
pub proof fn lemma_split_pair(a: Seq<char>, b: Seq<char>, pat: Seq<char>)
    requires
        pat.len() > 0,
        !a.contains(pat[0]),
        !b.contains(pat[0]),
    ensures
        split_on(a + pat + b, pat) == seq![a, b],
{
    let s = a + pat + b;
    assert forall|j: int| 0 <= j < a.len() implies !occurs_at(s, pat, j) by {
        if occurs_at(s, pat, j) {
            assert(s.subrange(j, j + pat.len())[0] == s[j]);
            assert(s[j] == a[j]);
        }
    }
    assert(s.subrange(a.len() as int, (a.len() + pat.len()) as int) =~= pat);
    lemma_find_from_exact(s, pat, 0, a.len() as int);
    assert(s.skip((a.len() + pat.len()) as int) =~= b);
    assert(s.take(a.len() as int) =~= a);
    lemma_split_free(b, pat);
}

} // verus!

verus! {

/// The parts of a split of a text without `c` hold no `c`.
pub proof fn lemma_split_parts_avoid(s: Seq<char>, pat: Seq<char>, c: char)
    requires
        !s.contains(c),
    ensures
        forall|i: int|
            0 <= i < split_on(s, pat).len() ==> !(#[trigger] split_on(s, pat)[i]).contains(c),
    decreases s.len(),
{
    let parts = split_on(s, pat);
    if pat.len() > 0 {
        let k = find_from(s, pat, 0);
        lemma_find_from(s, pat, 0);
        if k >= 0 {
            let rest = s.skip(k + pat.len());
            if rest.contains(c) {
                let j = choose|j: int| 0 <= j < rest.len() && rest[j] == c;
                assert(s[k + pat.len() + j] == c);
            }
            lemma_split_parts_avoid(rest, pat, c);
            assert(parts == seq![s.take(k)] + split_on(rest, pat));
            assert forall|i: int| 0 <= i < parts.len() implies !(#[trigger] parts[i]).contains(c) by {
                if i == 0 {
                    if s.take(k).contains(c) {
                        let j = choose|j: int| 0 <= j < k && s.take(k)[j] == c;
                        assert(s[j] == c);
                    }
                } else {
                    assert(parts[i] == split_on(rest, pat)[i - 1]);
                }
            }
        }
    }
}

} // verus!

verus! {

/// What `keep` keeps: exactly the elements that pass.
pub proof fn lemma_keep_contains<A>(s: Seq<A>, p: spec_fn(A) -> bool, x: A)
    ensures
        keep(s, p).contains(x) <==> (s.contains(x) && p(x)),
    decreases s.len(),
{
    if s.len() > 0 {
        lemma_keep_contains(s.drop_last(), p, x);
        let r = keep(s.drop_last(), p);
        if s.contains(x) && x != s.last() {
            let k = choose|k: int| 0 <= k < s.len() && s[k] == x;
            assert(s.drop_last()[k] == x);
        }
        if s.drop_last().contains(x) {
            let k = choose|k: int| 0 <= k < s.drop_last().len() && s.drop_last()[k] == x;
            assert(s[k] == x);
        }
        if p(s.last()) {
            if r.push(s.last()).contains(x) && x != s.last() {
                let k = choose|k: int| 0 <= k < r.push(s.last()).len() && r.push(s.last())[k] == x;
                assert(r[k] == x);
            }
            if r.contains(x) {
                let k = choose|k: int| 0 <= k < r.len() && r[k] == x;
                assert(r.push(s.last())[k] == x);
            }
            assert(r.push(s.last())[r.len() as int] == s.last());
        }
        if x == s.last() {
            assert(s[s.len() - 1] == x);
        }
    }
}

/// `keep` keeps everything when everything passes.
pub proof fn lemma_keep_all<A>(s: Seq<A>, p: spec_fn(A) -> bool)
    requires
        forall|i: int| 0 <= i < s.len() ==> p(#[trigger] s[i]),
    ensures
        keep(s, p) == s,
    decreases s.len(),
{
    if s.len() > 0 {
        assert forall|i: int| 0 <= i < s.drop_last().len() implies p(#[trigger] s.drop_last()[i]) by {
            assert(s.drop_last()[i] == s[i]);
        }
        lemma_keep_all(s.drop_last(), p);
        assert(p(s[s.len() - 1]));
        assert(s.drop_last().push(s.last()) =~= s);
    }
}

/// A prefix keeps no more than the whole.
pub proof fn lemma_keep_prefix_len<A>(s: Seq<A>, p: spec_fn(A) -> bool, i: int)
    requires
        0 <= i <= s.len(),
    ensures
        keep(s.take(i), p).len() <= keep(s, p).len(),
    decreases s.len() - i,
{
    if i < s.len() {
        lemma_keep_prefix_len(s, p, i + 1);
        assert(s.take(i + 1).drop_last() =~= s.take(i));
    } else {
        assert(s.take(i) =~= s);
    }
}

/// A join of parts without `c`, by a separator without `c`, holds no `c`.
pub proof fn lemma_join_avoid(parts: Seq<Seq<char>>, sep: Seq<char>, c: char)
    requires
        !sep.contains(c),
        forall|i: int| 0 <= i < parts.len() ==> !(#[trigger] parts[i]).contains(c),
    ensures
        !join_with(parts, sep).contains(c),
    decreases parts.len(),
{
    if parts.len() > 1 {
        let rest = parts.drop_first();
        assert forall|i: int| 0 <= i < rest.len() implies !(#[trigger] rest[i]).contains(c) by {
            assert(rest[i] == parts[i + 1]);
        }
        lemma_join_avoid(rest, sep, c);
        let j = join_with(parts, sep);
        let r = join_with(rest, sep);
        assert(j == parts[0] + sep + r);
        if j.contains(c) {
            let k = choose|k: int| 0 <= k < j.len() && j[k] == c;
            if k < parts[0].len() {
                assert(parts[0][k] == c);
            } else if k < parts[0].len() + sep.len() {
                assert(sep[k - parts[0].len()] == c);
            } else {
                assert(r[k - parts[0].len() - sep.len()] == c);
            }
        }
    } else if parts.len() == 1 {
        assert(parts[0] == join_with(parts, sep));
    }
}


} // verus!

verus! {

/// The first occurrence of each element, in order.
pub open spec fn first_occurrences(s: Seq<Seq<char>>) -> Seq<Seq<char>>
    decreases s.len(),
{
    if s.len() == 0 {
        s
    } else {
        let r = first_occurrences(s.drop_last());
        if r.contains(s.last()) {
            r
        } else {
            r.push(s.last())
        }
    }
}

/// The first occurrences hold each element of the sequence once, and nothing else.
pub proof fn lemma_first_occurrences(s: Seq<Seq<char>>)
    ensures
        first_occurrences(s).no_duplicates(),
        forall|x: Seq<char>| first_occurrences(s).contains(x) <==> s.contains(x),
    decreases s.len(),
{
    if s.len() > 0 {
        lemma_first_occurrences(s.drop_last());
        let r = first_occurrences(s.drop_last());
        assert forall|x: Seq<char>| first_occurrences(s).contains(x) <==> s.contains(x) by {
            if s.contains(x) && x != s.last() {
                let k = choose|k: int| 0 <= k < s.len() && s[k] == x;
                assert(s.drop_last()[k] == x);
            }
            if s.drop_last().contains(x) {
                let k = choose|k: int| 0 <= k < s.drop_last().len() && s.drop_last()[k] == x;
                assert(s[k] == x);
            }
            if !r.contains(s.last()) {
                if r.push(s.last()).contains(x) && x != s.last() {
                    let k = choose|k: int| 0 <= k < r.push(s.last()).len() && r.push(s.last())[k] == x;
                    assert(r[k] == x);
                }
                if r.contains(x) {
                    let k = choose|k: int| 0 <= k < r.len() && r[k] == x;
                    assert(r.push(s.last())[k] == x);
                }
                assert(r.push(s.last())[r.len() as int] == s.last());
            }
            if x == s.last() {
                assert(s[s.len() - 1] == x);
            }
        }
    }
}

} // verus!

verus! {

/// Appending a separator and a field without the separator character adds one field.
pub proof fn lemma_split_append(l: Seq<char>, c: char, x: Seq<char>)
    requires
        !x.contains(c),
    ensures
        split_on(l + one(c) + x, one(c)) == split_on(l, one(c)).push(x),
{
    let parts = split_on(l, one(c));
    lemma_split_parts_free(l, c);
    law_join_split(l, one(c));
    lemma_split_nonempty(l, one(c));
    lemma_join_push(parts, x, one(c));
    assert forall|i: int| 0 <= i < parts.push(x).len() implies !(#[trigger] parts.push(
        x,
    )[i]).contains(c) by {
        if i < parts.len() {
            assert(parts.push(x)[i] == parts[i]);
        }
    }
    law_split_join(parts.push(x), c);
}

/// A text without `c` holds no `c` after a join of parts without it.
pub proof fn lemma_concat_avoid(a: Seq<char>, b: Seq<char>, c: char)
    requires
        !a.contains(c),
        !b.contains(c),
    ensures
        !(a + b).contains(c),
{
    if (a + b).contains(c) {
        let k = choose|k: int| 0 <= k < (a + b).len() && (a + b)[k] == c;
        if k < a.len() {
            assert(a[k] == c);
        } else {
            assert(b[k - a.len()] == c);
        }
    }
}

} // verus!

verus! {

/// A first part without `c`, then `c`, splits off as the first part.
pub proof fn lemma_split_lead(a: Seq<char>, c: char, b: Seq<char>)
    requires
        !a.contains(c),
    ensures
        split_on(a + one(c) + b, one(c)) == seq![a] + split_on(b, one(c)),
{
    let s = a + one(c) + b;
    assert forall|j: int| 0 <= j < a.len() implies !occurs_at(s, one(c), j) by {
        if occurs_at(s, one(c), j) {
            assert(s.subrange(j, j + 1)[0] == s[j]);
            assert(s[j] == a[j]);
        }
    }
    assert(s.subrange(a.len() as int, a.len() + 1int) =~= one(c));
    lemma_find_from_exact(s, one(c), 0, a.len() as int);
    assert(s.take(a.len() as int) =~= a);
    assert(s.skip(a.len() + 1int) =~= b);
}

/// Parts without `c` joined by `c`, then `c` and a text: the split gives the parts and then the
/// split of the text.
pub proof fn lemma_split_join_then(pre: Seq<Seq<char>>, c: char, b: Seq<char>)
    requires
        pre.len() >= 1,
        forall|i: int| 0 <= i < pre.len() ==> !(#[trigger] pre[i]).contains(c),
    ensures
        split_on(join_with(pre, one(c)) + one(c) + b, one(c)) == pre + split_on(b, one(c)),
    decreases pre.len(),
{
    if pre.len() == 1 {
        lemma_split_lead(pre[0], c, b);
        assert(seq![pre[0]] =~= pre);
    } else {
        let rest = pre.drop_first();
        assert forall|i: int| 0 <= i < rest.len() implies !(#[trigger] rest[i]).contains(c) by {
            assert(rest[i] == pre[i + 1]);
        }
        lemma_split_join_then(rest, c, b);
        let tail = join_with(rest, one(c)) + one(c) + b;
        assert(join_with(pre, one(c)) + one(c) + b =~= pre[0] + one(c) + tail);
        assert(!pre[0].contains(c));
        lemma_split_lead(pre[0], c, tail);
        assert(seq![pre[0]] + (rest + split_on(b, one(c))) =~= pre + split_on(b, one(c)));
    }
}

/// Reading back lines that keep, joined with `\n` to a last text, gives those lines and then the
/// lines of that text.
pub proof fn lemma_file_lines_after(pre: Seq<Seq<char>>, b: Seq<char>)
    requires
        pre.len() >= 1,
        forall|i: int| 0 <= i < pre.len() ==> !(#[trigger] pre[i]).contains('\n'),
        forall|i: int| 0 <= i < pre.len() ==> strip_cr(#[trigger] pre[i]) == pre[i],
    ensures
        file_lines(join_lines(pre.push(b))) == pre + file_lines(b),
{
    lemma_join_push(pre, b, one('\n'));
    lemma_split_join_then(pre, '\n', b);
    lemma_split_nonempty(b, one('\n'));
    let sb = split_on(b, one('\n'));
    let parts = pre + sb;
    let n = parts.len();
    let m = sb.len();
    assert(parts[n - 1] == sb[m - 1]);
    let f = |l: Seq<char>| strip_cr(l);
    assert(parts.take(n - 1).map_values(f) =~= pre + sb.take(m - 1).map_values(f)) by {
        assert forall|i: int| 0 <= i < n - 1 implies #[trigger] parts.take(n - 1).map_values(f)[i]
            == (pre + sb.take(m - 1).map_values(f))[i] by {
            if i < pre.len() {
                assert(parts[i] == pre[i]);
            } else {
                assert(parts[i] == sb[i - pre.len()]);
            }
        }
    }
    assert(file_lines(join_lines(pre.push(b))) =~= pre + file_lines(b));
}

} // verus!

verus! {

/// The split of an empty text is one empty part.
pub proof fn lemma_split_empty(pat: Seq<char>)
    ensures
        split_on(Seq::<char>::empty(), pat) == seq![Seq::<char>::empty()],
{
    if pat.len() > 0 {
        lemma_find_from_exact(Seq::<char>::empty(), pat, 0, -1);
    }
}

} // verus!

verus! {

/// Lines without line breaks or `\r`, joined with `\n` and read back, give those lines, but for
/// an empty last line, which is lost.
pub proof fn lemma_lines_join_clean(ls: Seq<Seq<char>>)
    requires
        forall|i: int| 0 <= i < ls.len() ==> !(#[trigger] ls[i]).contains('\n'),
        no_line_ends_in_cr(ls),
    ensures
        file_lines(join_lines(ls)) == if ls.len() > 0 && ls.last().len() == 0 {
            ls.drop_last()
        } else {
            ls
        },
{
    if ls.len() == 0 {
        assert(lines_keep(ls));
        law_lines_join(ls);
    } else {
        law_split_join(ls, '\n');
        let n = ls.len();
        assert(ls.take(n - 1).map_values(|l: Seq<char>| strip_cr(l)) =~= ls.take(n - 1));
        assert(ls.take(n - 1).push(ls[n - 1]) =~= ls);
        assert(ls.take(n - 1) =~= ls.drop_last());
    }
}

} // verus!

verus! {

/// The number of bytes of a character in UTF-8.
pub open spec fn utf8_width(c: char) -> nat {
    if (c as u32) < 0x80 {
        1
    } else if (c as u32) < 0x800 {
        2
    } else if (c as u32) < 0x10000 {
        3
    } else {
        4
    }
}

/// The number of bytes of a text in UTF-8.
pub open spec fn byte_len(s: Seq<char>) -> nat
    decreases s.len(),
{
    if s.len() == 0 {
        0
    } else {
        byte_len(s.drop_last()) + utf8_width(s.last())
    }
}

/// The number of characters before byte `b` of `s`, from character `k` on, or -1 when no
/// character starts at byte `b`.
pub open spec fn boundary_from(s: Seq<char>, b: int, k: int) -> int
    decreases s.len() - k,
{
    if k < 0 || k > s.len() || byte_len(s.take(k)) > b {
        -1
    } else if byte_len(s.take(k)) == b {
        k
    } else if k == s.len() {
        -1
    } else {
        boundary_from(s, b, k + 1)
    }
}

/// The number of characters before byte `b` of `s`, or -1 when byte `b` does not start a
/// character (nor is the end of `s`).
pub open spec fn char_index_of_byte(s: Seq<char>, b: int) -> int {
    boundary_from(s, b, 0)
}

/// `t` put into `s` at byte `b`, as `String::insert_str` does.
pub open spec fn inserted_at_byte(s: Seq<char>, b: int, t: Seq<char>) -> Seq<char> {
    let k = char_index_of_byte(s, b);
    s.take(k) + t + s.skip(k)
}

proof fn lemma_boundary_from(s: Seq<char>, b: int, k: int)
    requires
        0 <= k <= s.len(),
    ensures
        -1 <= boundary_from(s, b, k) <= s.len(),
        boundary_from(s, b, k) >= 0 ==> k <= boundary_from(s, b, k),
    decreases s.len() - k,
{
    if byte_len(s.take(k)) < b && k < s.len() {
        lemma_boundary_from(s, b, k + 1);
    }
}

fn utf8_width_of(c: char) -> (r: usize)
    ensures
        r == utf8_width(c),
{
    let u = c as u32;
    if u < 0x80 {
        1
    } else if u < 0x800 {
        2
    } else if u < 0x10000 {
        3
    } else {
        4
    }
}

/// The number of characters before byte `b` of a text, if a character starts there (or the
/// text ends there).
pub fn char_index_at_byte(s: &str, b: usize) -> (r: Option<usize>)
    ensures
        match r {
            Some(k) => k as int == char_index_of_byte(s@, b as int),
            None => char_index_of_byte(s@, b as int) == -1,
        },
{
    let c = to_chars(s);
    let mut k: usize = 0;
    let mut rem: usize = b;
    while k < c.len() && rem > 0
        invariant
            k <= c.len(),
            c@ == s@,
            byte_len(s@.take(k as int)) + rem == b,
            char_index_of_byte(s@, b as int) == boundary_from(s@, b as int, k as int),
        decreases c.len() - k,
    {
        let w = utf8_width_of(c[k]);
        assert(s@.take(k + 1).drop_last() =~= s@.take(k as int));
        assert(s@.take(k + 1).last() == c@[k as int]);
        if w > rem {
            assert(boundary_from(s@, b as int, k as int + 1) == -1);
            return None;
        }
        rem = rem - w;
        k = k + 1;
    }
    if rem == 0 {
        Some(k)
    } else {
        assert(k == c.len());
        None
    }
}

/// Puts `t` into `s` at byte `b`, as `String::insert_str` does where `b` starts a character.
pub fn insert_at_byte(s: &str, b: usize, t: &str) -> (r: String)
    requires
        char_index_of_byte(s@, b as int) >= 0,
    ensures
        r@ == inserted_at_byte(s@, b as int, t@),
{
    proof {
        lemma_boundary_from(s@, b as int, 0);
    }
    let k = match char_index_at_byte(s, b) {
        Some(k) => k,
        None => 0,
    };
    let c = to_chars(s);
    let mut out = sub_chars(&c, 0, k);
    append_chars(&mut out, &to_chars(t));
    append_chars(&mut out, &sub_chars(&c, k, c.len()));
    assert(c@.subrange(0, k as int) =~= s@.take(k as int));
    assert(c@.subrange(k as int, c@.len() as int) =~= s@.skip(k as int));
    from_chars(&out)
}

} // verus!
