//! The inline markup of a point's text: `[!x]` toggles a style until the next `[!x]`.
use crate::text::{
    boundary_from, byte_len, char_index_at_byte, char_index_of_byte, from_chars, insert_at_byte, inserted_at_byte, to_chars,
};
use vstd::prelude::*;

verus! {

/// A run of text with its style flags, in the order italic, highlight, underline, heading 1,
/// heading 2.
pub type Segment = (Seq<char>, Seq<bool>);

/// Five flags, all off.
pub open spec fn no_flags() -> Seq<bool> {
    seq![false, false, false, false, false]
}

/// The flags in the order in which a segment carries them.
pub open spec fn flags_of(italic: bool, highlight: bool, underline: bool, h1: bool, h2: bool) -> Seq<
    bool,
> {
    seq![italic, highlight, underline, h1, h2]
}

/// A marker `[!x]` starts at `i`.
pub open spec fn marker_at(c: Seq<char>, i: int) -> bool {
    0 <= i && i + 3 < c.len() && c[i] == '[' && c[i + 1] == '!' && c[i + 3] == ']'
}

/// The scan of `c` from index `i`, with the current style flags, the text gathered since the
/// last marker and the segments found so far. A marker closes the gathered text (if any) under
/// the current flags and toggles one flag: `l` or `b` the highlight, `i` italics, `u` underline,
/// `H` heading 1 and `h` heading 2; any other letter toggles nothing. Once four characters are
/// left the scan takes them as text at once, and it stops when fewer than four are left to look
/// at. What is gathered at the end becomes a last segment with no flags.
pub open spec fn markup_scan(
    c: Seq<char>,
    i: int,
    it: bool,
    hl: bool,
    ul: bool,
    h1: bool,
    h2: bool,
    cur: Seq<char>,
    out: Seq<Segment>,
) -> Seq<Segment>
    decreases c.len() - i,
{
    if i < 0 || i + 3 >= c.len() {
        if cur.len() > 0 {
            out.push((cur, no_flags()))
        } else {
            out
        }
    } else if marker_at(c, i) {
        let out2 = if cur.len() > 0 {
            out.push((cur, flags_of(it, hl, ul, h1, h2)))
        } else {
            out
        };
        let k = c[i + 2];
        markup_scan(
            c,
            i + 4,
            if k == 'i' { !it } else { it },
            if k == 'l' || k == 'b' { !hl } else { hl },
            if k == 'u' { !ul } else { ul },
            if k == 'H' { !h1 } else { h1 },
            if k == 'h' { !h2 } else { h2 },
            Seq::empty(),
            out2,
        )
    } else if i + 4 == c.len() {
        markup_scan(c, i + 1, it, hl, ul, h1, h2, cur + c.subrange(i, i + 4), out)
    } else {
        markup_scan(c, i + 1, it, hl, ul, h1, h2, cur.push(c[i]), out)
    }
}

/// The segments of a text: a text of fewer than three characters is one segment with no
/// flags; any other text is scanned from its start with all flags off.
pub open spec fn markup_segments(c: Seq<char>) -> Seq<Segment> {
    if c.len() < 3 {
        seq![(c, no_flags())]
    } else {
        markup_scan(c, 0, false, false, false, false, false, Seq::empty(), Seq::empty())
    }
}

/// The views of parsed segments.
pub open spec fn segments_view(v: Seq<(String, Vec<bool>)>) -> Seq<Segment> {
    v.map_values(|x: (String, Vec<bool>)| (x.0@, x.1@))
}

fn flag_vec(it: bool, hl: bool, ul: bool, h1: bool, h2: bool) -> (v: Vec<bool>)
    ensures
        v@ == flags_of(it, hl, ul, h1, h2),
{
    let v = vec![it, hl, ul, h1, h2];
    assert(v@ =~= flags_of(it, hl, ul, h1, h2));
    v
}

/// Splits a text into runs that share a style, reading the `[!x]` markers.
pub fn markup_parse_string(input_string: String) -> (result: Vec<(String, Vec<bool>)>)
    ensures
        segments_view(result@) == markup_segments(input_string@),
{
    let chars = to_chars(input_string.as_str());
    let n = chars.len();
    let mut result: Vec<(String, Vec<bool>)> = Vec::new();
    if n < 3 {
        let f = flag_vec(false, false, false, false, false);
        result.push((input_string, f));
        assert(segments_view(result@) =~= seq![(chars@, no_flags())]);
        return result;
    }
    let mut it = false;
    let mut hl = false;
    let mut ul = false;
    let mut h1 = false;
    let mut h2 = false;
    let mut cur: Vec<char> = Vec::new();
    let mut index: usize = 0;
    assert(segments_view(result@) =~= Seq::<Segment>::empty());
    while index < n - 3
        invariant
            n == chars.len() >= 3,
            index <= n,
            markup_segments(chars@) == markup_scan(
                chars@,
                index as int,
                it,
                hl,
                ul,
                h1,
                h2,
                cur@,
                segments_view(result@),
            ),
        decreases n - index,
    {
        if chars[index] == '[' && chars[index + 1] == '!' && chars[index + 3] == ']' {
            if cur.len() > 0 {
                let s = from_chars(&cur);
                let f = flag_vec(it, hl, ul, h1, h2);
                let ghost before = segments_view(result@);
                result.push((s, f));
                assert(segments_view(result@) =~= before.push((cur@, flags_of(it, hl, ul, h1, h2))));
                cur = Vec::new();
            } else {
                cur = Vec::new();
            }
            let k = chars[index + 2];
            if k == 'l' || k == 'b' {
                hl = !hl;
            } else if k == 'i' {
                it = !it;
            } else if k == 'u' {
                ul = !ul;
            } else if k == 'h' {
                h2 = !h2;
            } else if k == 'H' {
                h1 = !h1;
            }
            assert(cur@ =~= Seq::<char>::empty());
            index = index + 4;
        } else {
            if index + 4 == n {
                let ghost before = cur@;
                cur.push(chars[index]);
                cur.push(chars[index + 1]);
                cur.push(chars[index + 2]);
                cur.push(chars[index + 3]);
                assert(cur@ =~= before + chars@.subrange(index as int, index + 4));
            } else {
                cur.push(chars[index]);
            }
            index = index + 1;
        }
    }
    if cur.len() > 0 {
        let s = from_chars(&cur);
        let f = flag_vec(false, false, false, false, false);
        let ghost before = segments_view(result@);
        result.push((s, f));
        assert(segments_view(result@) =~= before.push((cur@, no_flags())));
    }
    result
}

} // verus!

verus! {

/// How a run of text is shown: italics, a highlighted background, an underline, and the font
/// size in points.
#[derive(Clone, Copy, Debug, PartialEq, Eq)]
pub struct MarkupStyle {
    pub italics: bool,
    pub highlighted: bool,
    pub underlined: bool,
    pub font_size: u32,
}

/// The style of a run from its flags: size 20, or 30 for heading 1, or 25 for heading 2 (which
/// wins over heading 1).
pub fn markup_style(flags: &Vec<bool>) -> (r: MarkupStyle)
    requires
        flags.len() >= 5,
    ensures
        r.italics == flags@[0],
        r.highlighted == flags@[1],
        r.underlined == flags@[2],
        r.font_size == if flags@[4] {
            25u32
        } else if flags@[3] {
            30u32
        } else {
            20u32
        },
{
    let mut font_size: u32 = 20;
    if flags[3] {
        font_size = 30;
    }
    if flags[4] {
        font_size = 25;
    }
    MarkupStyle { italics: flags[0], highlighted: flags[1], underlined: flags[2], font_size }
}

/// A text without `[` that is not three characters long is one run with no flags.
pub proof fn law_plain_text_one_segment(c: Seq<char>)
    requires
        !c.contains('['),
        c.len() != 3,
    ensures
        markup_segments(c) == seq![(c, no_flags())],
{
    if c.len() >= 4 {
        lemma_plain_scan(c, 0);
        assert(c.take(0) =~= Seq::<char>::empty());
    }
}

proof fn lemma_plain_scan(c: Seq<char>, i: int)
    requires
        !c.contains('['),
        c.len() >= 4,
        0 <= i <= c.len() - 4,
    ensures
        markup_scan(c, i, false, false, false, false, false, c.take(i), Seq::empty()) == seq![
            (c, no_flags()),
        ],
    decreases c.len() - i,
{
    assert(!marker_at(c, i)) by {
        if c[i] == '[' {
            assert(c.contains('['));
        }
    }
    if i + 4 == c.len() {
        assert(c.take(i) + c.subrange(i, i + 4) =~= c);
        let e = Seq::<Segment>::empty();
        assert(markup_scan(c, i + 1, false, false, false, false, false, c, e) == e.push(
            (c, no_flags()),
        ));
        assert(e.push((c, no_flags())) =~= seq![(c, no_flags())]);
    } else {
        assert(c.take(i).push(c[i]) =~= c.take(i + 1));
        lemma_plain_scan(c, i + 1);
    }
}

} // verus!

verus! {

/// The style buttons of the point editor.
#[derive(Clone, Copy, Debug, PartialEq, Eq)]
pub enum MarkupKind {
    Italic,
    Underline,
    Highlight,
    Heading1,
    Heading2,
}

/// The marker put before the selection: `[!i]`, `[!u]`, `[!l]`, or a new line and `[!H] ` or
/// `[!h] ` for the headings.
pub open spec fn opening_marker(kind: MarkupKind) -> Seq<char> {
    match kind {
        MarkupKind::Italic => seq!['[', '!', 'i', ']'],
        MarkupKind::Underline => seq!['[', '!', 'u', ']'],
        MarkupKind::Highlight => seq!['[', '!', 'l', ']'],
        MarkupKind::Heading1 => seq!['\n', '[', '!', 'H', ']', ' '],
        MarkupKind::Heading2 => seq!['\n', '[', '!', 'h', ']', ' '],
    }
}

/// The marker put after the selection: `[!i]`, `[!u]`, `[!l]`, `[!H]` or `[!h]`.
pub open spec fn closing_marker(kind: MarkupKind) -> Seq<char> {
    match kind {
        MarkupKind::Italic => seq!['[', '!', 'i', ']'],
        MarkupKind::Underline => seq!['[', '!', 'u', ']'],
        MarkupKind::Highlight => seq!['[', '!', 'l', ']'],
        MarkupKind::Heading1 => seq!['[', '!', 'H', ']'],
        MarkupKind::Heading2 => seq!['[', '!', 'h', ']'],
    }
}

fn marker_chars(kind: MarkupKind, opening: bool) -> (v: Vec<char>)
    ensures
        v@ == if opening {
            opening_marker(kind)
        } else {
            closing_marker(kind)
        },
{
    let v = match kind {
        MarkupKind::Italic => vec!['[', '!', 'i', ']'],
        MarkupKind::Underline => vec!['[', '!', 'u', ']'],
        MarkupKind::Highlight => vec!['[', '!', 'l', ']'],
        MarkupKind::Heading1 => if opening {
            vec!['\n', '[', '!', 'H', ']', ' ']
        } else {
            vec!['[', '!', 'H', ']']
        },
        MarkupKind::Heading2 => if opening {
            vec!['\n', '[', '!', 'h', ']', ' ']
        } else {
            vec!['[', '!', 'h', ']']
        },
    };
    assert(v@ =~= if opening {
        opening_marker(kind)
    } else {
        closing_marker(kind)
    });
    v
}

/// The text after a style button: the opening marker put in at byte `start`, then the closing
/// marker at byte `end` of the text so far moved by the opening marker's length, each as
/// `String::insert_str` puts text in.
pub open spec fn markup_applied(content: Seq<char>, start: int, end: int, kind: MarkupKind) -> Seq<
    char,
> {
    let open = opening_marker(kind);
    inserted_at_byte(
        inserted_at_byte(content, start, open),
        end + open.len(),
        closing_marker(kind),
    )
}

/// Both markers go in at the start of a character (or at the end of the text), where
/// `String::insert_str` accepts them, and the moved end fits in a `usize`.
pub open spec fn markup_fits_text(content: Seq<char>, start: int, end: int, kind: MarkupKind) -> bool {
    let open = opening_marker(kind);
    &&& char_index_of_byte(content, start) >= 0
    &&& end + open.len() <= usize::MAX
    &&& char_index_of_byte(inserted_at_byte(content, start, open), end + open.len()) >= 0
}

/// Whether a style button can put its markers at bytes `start` and `end` of the text.
pub fn markup_fits(content: &str, start: usize, end: usize, kind: MarkupKind) -> (r: bool)
    ensures
        r == markup_fits_text(content@, start as int, end as int, kind),
{
    let open = from_chars(&marker_chars(kind, true));
    if char_index_at_byte(content, start).is_none() {
        return false;
    }
    let n = open.as_str().unicode_len();
    if end > usize::MAX - n {
        return false;
    }
    let mid = insert_at_byte(content, start, open.as_str());
    char_index_at_byte(mid.as_str(), end + n).is_some()
}

/// The text with the markers of a style button put in around the selection from byte `start`
/// to byte `end`: the opening marker at `start`, then the closing marker at `end` moved by the
/// opening marker's length.
pub fn apply_markup(content: &str, start: usize, end: usize, kind: MarkupKind) -> (r: String)
    requires
        markup_fits_text(content@, start as int, end as int, kind),
    ensures
        r@ == markup_applied(content@, start as int, end as int, kind),
{
    let open = from_chars(&marker_chars(kind, true));
    let close = from_chars(&marker_chars(kind, false));
    let n = open.as_str().unicode_len();
    let mid = insert_at_byte(content, start, open.as_str());
    insert_at_byte(mid.as_str(), end + n, close.as_str())
}

} // verus!

verus! {

/// The flags of a run in the style of an inline button (italic, underline or highlight).
pub open spec fn kind_flags(kind: MarkupKind) -> Seq<bool> {
    match kind {
        MarkupKind::Italic => flags_of(true, false, false, false, false),
        MarkupKind::Highlight => flags_of(false, true, false, false, false),
        MarkupKind::Underline => flags_of(false, false, true, false, false),
        MarkupKind::Heading1 => flags_of(false, false, false, true, false),
        MarkupKind::Heading2 => flags_of(false, false, false, false, true),
    }
}

/// One run of text with its flags, or none for an empty text.
pub open spec fn run(t: Seq<char>, flags: Seq<bool>) -> Seq<Segment> {
    if t.len() > 0 {
        seq![(t, flags)]
    } else {
        Seq::empty()
    }
}

/// Characters without `[` are gathered into the current run.
proof fn lemma_scan_plain(
    c: Seq<char>,
    i: int,
    j: int,
    it: bool,
    hl: bool,
    ul: bool,
    h1: bool,
    h2: bool,
    cur: Seq<char>,
    out: Seq<Segment>,
)
    requires
        0 <= i <= j,
        j + 4 <= c.len(),
        forall|k: int| i <= k < j ==> c[k] != '[',
    ensures
        markup_scan(c, i, it, hl, ul, h1, h2, cur, out) == markup_scan(
            c,
            j,
            it,
            hl,
            ul,
            h1,
            h2,
            cur + c.subrange(i, j),
            out,
        ),
    decreases j - i,
{
    if i == j {
        assert(cur + c.subrange(i, j) =~= cur);
    } else {
        assert(c[i] != '[');
        assert(!marker_at(c, i));
        lemma_scan_plain(c, i + 1, j, it, hl, ul, h1, h2, cur.push(c[i]), out);
        assert(cur.push(c[i]) + c.subrange(i + 1, j) =~= cur + c.subrange(i, j));
    }
}

/// The marker `[!x]` for the letter `x`.
pub open spec fn marker(x: char) -> Seq<char> {
    seq!['[', '!', x, ']']
}

/// The style a pair of markers `[!x]` gives the text between them: `i` italics, `l` or `b` the
/// highlight, `u` underline, `H` heading 1, `h` heading 2, and no style for any other letter.
pub open spec fn letter_flags(x: char) -> Seq<bool> {
    if x == 'i' {
        seq![true, false, false, false, false]
    } else if x == 'l' || x == 'b' {
        seq![false, true, false, false, false]
    } else if x == 'u' {
        seq![false, false, true, false, false]
    } else if x == 'H' {
        seq![false, false, false, true, false]
    } else if x == 'h' {
        seq![false, false, false, false, true]
    } else {
        seq![false, false, false, false, false]
    }
}

/// A text put between two markers `[!x]`, in a text without `[` otherwise, reads as the text
/// before them without style, the text between them in the style of `x`, and the text after
/// them without style (a run only where there is text), when what follows the second marker is
/// empty or at least four characters long (a shorter tail after a marker is not read).
pub proof fn law_marker_pair(before: Seq<char>, sel: Seq<char>, after: Seq<char>, x: char)
    requires
        !before.contains('['),
        !sel.contains('['),
        !after.contains('['),
        after.len() == 0 || after.len() >= 4,
    ensures
        markup_segments(before + marker(x) + sel + marker(x) + after) == run(before, no_flags())
            + run(sel, letter_flags(x)) + run(after, no_flags()),
{
    let m = marker(x);
    let c = before + m + sel + m + after;
    let n = c.len() as int;
    let p0 = before.len() as int;
    let p1 = p0 + 4 + sel.len();
    let e = Seq::<char>::empty();
    let none = Seq::<Segment>::empty();
    assert forall|k: int| 0 <= k < p0 implies c[k] != '[' by {
        assert(c[k] == before[k]);
        if before[k] == '[' {
            assert(before.contains('['));
        }
    }
    assert forall|k: int| p0 + 4 <= k < p1 implies c[k] != '[' by {
        assert(c[k] == sel[k - p0 - 4]);
        if sel[k - p0 - 4] == '[' {
            assert(sel.contains('['));
        }
    }
    assert forall|k: int| p1 + 4 <= k < n implies c[k] != '[' by {
        assert(c[k] == after[k - p1 - 4]);
        if after[k - p1 - 4] == '[' {
            assert(after.contains('['));
        }
    }
    assert(c.subrange(0, p0) =~= before);
    assert(c.subrange(p0 + 4, p1) =~= sel);
    assert(c.subrange(p1 + 4, n) =~= after);
    assert(c[p0] == '[' && c[p0 + 1] == '!' && c[p0 + 3] == ']' && c[p0 + 2] == x);
    assert(c[p1] == '[' && c[p1 + 1] == '!' && c[p1 + 3] == ']' && c[p1 + 2] == x);
    let fl = letter_flags(x);
    let it = x == 'i';
    let hl = x == 'l' || x == 'b';
    let ul = x == 'u';
    let h1 = x == 'H';
    let h2 = x == 'h';
    assert(flags_of(it, hl, ul, h1, h2) =~= fl);
    lemma_scan_plain(c, 0, p0, false, false, false, false, false, e, none);
    assert(e + before =~= before);
    let out1 = run(before, no_flags());
    assert(before.len() > 0 ==> out1 == none.push((before, flags_of(false, false, false, false, false))));
    assert(no_flags() =~= flags_of(false, false, false, false, false));
    assert(marker_at(c, p0));
    lemma_scan_plain(c, p0 + 4, p1, it, hl, ul, h1, h2, e, out1);
    assert(e + sel =~= sel);
    let out2 = out1 + run(sel, fl);
    assert(marker_at(c, p1));
    assert(if sel.len() > 0 {
        out1.push((sel, flags_of(it, hl, ul, h1, h2)))
    } else {
        out1
    } =~= out2);
    if after.len() == 0 {
        assert(markup_scan(c, p1 + 4, false, false, false, false, false, e, out2) == out2);
        assert(out2 + run(after, no_flags()) =~= out2);
    } else {
        lemma_scan_plain(c, p1 + 4, n - 4, false, false, false, false, false, e, out2);
        let t = e + c.subrange(p1 + 4, n - 4);
        assert(c[n - 4] != '[');
        assert(!marker_at(c, n - 4));
        assert(t + c.subrange(n - 4, n) =~= after);
        assert(markup_scan(c, n - 3, false, false, false, false, false, after, out2) == out2.push(
            (after, no_flags()),
        ));
        assert(out2.push((after, no_flags())) =~= out2 + run(after, no_flags()));
    }
    assert(markup_segments(c) == markup_scan(c, 0, false, false, false, false, false, e, none));
    assert(none + out1 =~= out1);
}

/// Marking a selection (by character positions) of a text without `[` with the italic,
/// underline or highlight button makes the selection one run in that style, between unstyled runs of the text before and
/// after it (a run only where there is text), when what follows the selection is empty or at
/// least four characters long (a shorter tail after a marker is not read).
pub proof fn law_marked_selection(content: Seq<char>, start: int, end: int, kind: MarkupKind)
    requires
        0 <= start <= end <= content.len(),
        !content.contains('['),
        kind is Italic || kind is Underline || kind is Highlight,
        content.len() - end == 0 || content.len() - end >= 4,
    ensures
        markup_segments(
            content.take(start) + opening_marker(kind) + content.subrange(start, end)
                + closing_marker(kind) + content.skip(end),
        ) == run(content.take(start), no_flags()) + run(
            content.subrange(start, end),
            kind_flags(kind),
        ) + run(content.skip(end), no_flags()),
{
    let before = content.take(start);
    let sel = content.subrange(start, end);
    let after = content.skip(end);
    let m = opening_marker(kind);
    let c = before + m + sel + closing_marker(kind) + after;
    assert(m == closing_marker(kind));
    assert(m.len() == 4);
    let n = c.len() as int;
    let p0 = start;
    let p1 = start + 4 + (end - start);
    let e = Seq::<char>::empty();
    let none = Seq::<Segment>::empty();
    assert forall|k: int| 0 <= k < p0 implies c[k] != '[' by {
        assert(c[k] == content[k]);
    }
    assert forall|k: int| p0 + 4 <= k < p1 implies c[k] != '[' by {
        assert(c[k] == content[start + (k - p0 - 4)]);
    }
    assert forall|k: int| p1 + 4 <= k < n implies c[k] != '[' by {
        assert(c[k] == content[end + (k - p1 - 4)]);
    }
    assert(c.subrange(0, p0) =~= before);
    assert(c.subrange(p0 + 4, p1) =~= sel);
    assert(c.subrange(p1 + 4, n) =~= after);
    assert(c[p0] == '[' && c[p0 + 1] == '!' && c[p0 + 3] == ']' && c[p0 + 2] == m[2]);
    assert(c[p1] == '[' && c[p1 + 1] == '!' && c[p1 + 3] == ']' && c[p1 + 2] == m[2]);
    let fl = kind_flags(kind);
    let (it, hl, ul) = (fl[0], fl[1], fl[2]);
    // Before the opening marker.
    lemma_scan_plain(c, 0, p0, false, false, false, false, false, e, none);
    assert(e + before =~= before);
    let out1 = run(before, no_flags());
    assert(marker_at(c, p0));
    // The selection.
    lemma_scan_plain(c, p0 + 4, p1, it, hl, ul, false, false, e, out1);
    assert(e + sel =~= sel);
    let out2 = out1 + run(sel, fl);
    assert(marker_at(c, p1));
    assert(if sel.len() > 0 {
        out1.push((sel, flags_of(it, hl, ul, false, false)))
    } else {
        out1
    } == out2);
    // After the closing marker.
    if after.len() == 0 {
        assert(markup_scan(c, p1 + 4, false, false, false, false, false, e, out2) == out2);
        assert(out2 + run(after, no_flags()) =~= out2);
    } else {
        lemma_scan_plain(c, p1 + 4, n - 4, false, false, false, false, false, e, out2);
        let t = e + c.subrange(p1 + 4, n - 4);
        assert(c[n - 4] != '[');
        assert(!marker_at(c, n - 4));
        assert(t + c.subrange(n - 4, n) =~= after);
        assert(markup_scan(c, n - 3, false, false, false, false, false, after, out2) == out2.push(
            (after, no_flags()),
        ));
        assert(out2.push((after, no_flags())) =~= out2 + run(after, no_flags()));
    }
    assert(markup_segments(c) == markup_scan(c, 0, false, false, false, false, false, e, none));
}

/// Marking a selection of a text without `[` with a heading button makes the selection, after
/// the space the button puts before it, one run in that heading style; the text before it, with
/// the line break the button puts after it, and the text after it are unstyled runs. As for the
/// other buttons, what follows the selection is empty or at least four characters long.
pub proof fn law_heading_marks_selection(content: Seq<char>, start: int, end: int, kind: MarkupKind)
    requires
        0 <= start <= end <= content.len(),
        !content.contains('['),
        kind is Heading1 || kind is Heading2,
        content.len() - end == 0 || content.len() - end >= 4,
    ensures
        markup_segments(
            content.take(start) + opening_marker(kind) + content.subrange(start, end)
                + closing_marker(kind) + content.skip(end),
        ) == run(content.take(start).push('\n'), no_flags()) + run(
            seq![' '] + content.subrange(start, end),
            kind_flags(kind),
        ) + run(content.skip(end), no_flags()),
{
    let x = if kind is Heading1 {
        'H'
    } else {
        'h'
    };
    let before = content.take(start).push('\n');
    let sel = seq![' '] + content.subrange(start, end);
    let after = content.skip(end);
    assert(opening_marker(kind) =~= seq!['\n'] + marker(x) + seq![' ']);
    assert(closing_marker(kind) =~= marker(x));
    assert(kind_flags(kind) =~= letter_flags(x));
    assert(content.take(start) + opening_marker(kind) + content.subrange(start, end)
        + closing_marker(kind) + after =~= before + marker(x) + sel + marker(x) + after);
    assert(!before.contains('[')) by {
        if before.contains('[') {
            let k = choose|k: int| 0 <= k < before.len() && before[k] == '[';
            assert(content[k] == '[');
        }
    }
    assert(!sel.contains('[')) by {
        if sel.contains('[') {
            let k = choose|k: int| 0 <= k < sel.len() && sel[k] == '[';
            assert(content[start + k - 1] == '[');
        }
    }
    assert(!after.contains('[')) by {
        if after.contains('[') {
            let k = choose|k: int| 0 <= k < after.len() && after[k] == '[';
            assert(content[end + k] == '[');
        }
    }
    law_marker_pair(before, sel, after, x);
}

} // verus!

verus! {

/// Every character is ASCII (one byte in UTF-8).
pub open spec fn is_ascii_text(s: Seq<char>) -> bool {
    forall|i: int| 0 <= i < s.len() ==> (#[trigger] s[i] as u32) < 0x80
}

proof fn lemma_ascii_byte_len(s: Seq<char>, k: int)
    requires
        is_ascii_text(s),
        0 <= k <= s.len(),
    ensures
        byte_len(s.take(k)) == k,
    decreases k,
{
    if k > 0 {
        lemma_ascii_byte_len(s, k - 1);
        assert(s.take(k).drop_last() =~= s.take(k - 1));
        assert(s.take(k).last() == s[k - 1]);
    }
}

proof fn lemma_ascii_boundary_from(s: Seq<char>, b: int, k: int)
    requires
        is_ascii_text(s),
        0 <= k <= b <= s.len(),
    ensures
        boundary_from(s, b, k) == b,
    decreases b - k,
{
    lemma_ascii_byte_len(s, k);
    if k < b {
        lemma_ascii_boundary_from(s, b, k + 1);
    }
}

proof fn lemma_markers_ascii(kind: MarkupKind)
    ensures
        is_ascii_text(opening_marker(kind)),
        is_ascii_text(closing_marker(kind)),
{
    let o = opening_marker(kind);
    let c = closing_marker(kind);
    assert forall|i: int| 0 <= i < o.len() implies (#[trigger] o[i] as u32) < 0x80 by {
        if i == 0 {} else if i == 1 {} else if i == 2 {} else if i == 3 {} else if i == 4 {} else {}
    }
    assert forall|i: int| 0 <= i < c.len() implies (#[trigger] c[i] as u32) < 0x80 by {
        if i == 0 {} else if i == 1 {} else if i == 2 {} else {}
    }
}

/// On ASCII text, bytes are characters: a style button puts the selection from character
/// `start` to character `end` between its markers.
pub proof fn law_ascii_markup_by_characters(
    content: Seq<char>,
    start: int,
    end: int,
    kind: MarkupKind,
)
    requires
        is_ascii_text(content),
        0 <= start <= end <= content.len(),
    ensures
        markup_applied(content, start, end, kind) == content.take(start) + opening_marker(kind)
            + content.subrange(start, end) + closing_marker(kind) + content.skip(end),
{
    let o = opening_marker(kind);
    let c = closing_marker(kind);
    lemma_markers_ascii(kind);
    lemma_ascii_boundary_from(content, start, 0);
    let mid = content.take(start) + o + content.skip(start);
    assert(inserted_at_byte(content, start, o) == mid);
    assert(is_ascii_text(mid)) by {
        assert forall|i: int| 0 <= i < mid.len() implies (#[trigger] mid[i] as u32) < 0x80 by {
            if i < start {
                assert(mid[i] == content[i]);
            } else if i < start + o.len() {
                assert(mid[i] == o[i - start]);
            } else {
                assert(mid[i] == content[i - o.len()]);
            }
        }
    }
    lemma_ascii_boundary_from(mid, end + o.len(), 0);
    assert(mid.take(end + o.len()) + c + mid.skip(end + o.len()) =~= content.take(start) + o
        + content.subrange(start, end) + c + content.skip(end));
}

} // verus!

verus! {

/// The texts of runs put together, in order.
pub open spec fn run_texts(segs: Seq<Segment>) -> Seq<char>
    decreases segs.len(),
{
    if segs.len() == 0 {
        Seq::empty()
    } else {
        run_texts(segs.drop_last()) + segs.last().0
    }
}

/// The text that the runs carry, from index `i` on: every character but the markers `[!x]`
/// read from the left, and but a tail of at most three characters that follows a marker at the
/// end (or a text of three characters).
pub open spec fn kept_from(c: Seq<char>, i: int) -> Seq<char>
    decreases c.len() - i,
{
    if i < 0 || i + 3 >= c.len() {
        Seq::empty()
    } else if marker_at(c, i) {
        kept_from(c, i + 4)
    } else if i + 4 == c.len() {
        c.subrange(i, i + 4)
    } else {
        seq![c[i]] + kept_from(c, i + 1)
    }
}

proof fn lemma_scan_texts(
    c: Seq<char>,
    i: int,
    it: bool,
    hl: bool,
    ul: bool,
    h1: bool,
    h2: bool,
    cur: Seq<char>,
    out: Seq<Segment>,
)
    requires
        0 <= i,
    ensures
        run_texts(markup_scan(c, i, it, hl, ul, h1, h2, cur, out)) == run_texts(out) + cur
            + kept_from(c, i),
    decreases c.len() - i,
{
    if i + 3 >= c.len() {
        if cur.len() > 0 {
            assert(out.push((cur, no_flags())).drop_last() =~= out);
        } else {
            assert(cur =~= Seq::<char>::empty());
        }
        assert(run_texts(out) + cur + Seq::<char>::empty() =~= run_texts(out) + cur);
    } else if marker_at(c, i) {
        let out2 = if cur.len() > 0 {
            out.push((cur, flags_of(it, hl, ul, h1, h2)))
        } else {
            out
        };
        let k = c[i + 2];
        lemma_scan_texts(
            c,
            i + 4,
            if k == 'i' { !it } else { it },
            if k == 'l' || k == 'b' { !hl } else { hl },
            if k == 'u' { !ul } else { ul },
            if k == 'H' { !h1 } else { h1 },
            if k == 'h' { !h2 } else { h2 },
            Seq::empty(),
            out2,
        );
        if cur.len() > 0 {
            assert(out.push((cur, flags_of(it, hl, ul, h1, h2))).drop_last() =~= out);
        } else {
            assert(cur =~= Seq::<char>::empty());
        }
        assert(run_texts(out2) + Seq::<char>::empty() + kept_from(c, i + 4) =~= run_texts(out)
            + cur + kept_from(c, i));
    } else if i + 4 == c.len() {
        lemma_scan_texts(c, i + 1, it, hl, ul, h1, h2, cur + c.subrange(i, i + 4), out);
        assert(run_texts(out) + (cur + c.subrange(i, i + 4)) + kept_from(c, i + 1) =~= run_texts(
            out,
        ) + cur + kept_from(c, i));
    } else {
        lemma_scan_texts(c, i + 1, it, hl, ul, h1, h2, cur.push(c[i]), out);
        assert(run_texts(out) + cur.push(c[i]) + kept_from(c, i + 1) =~= run_texts(out) + cur
            + kept_from(c, i));
    }
}

/// The runs of a text put together give the text without its markers (read from the left),
/// but for a tail of at most three characters after a marker at the end, which is not read,
/// and for a text of three characters, which gives no run; a text of fewer than three
/// characters is one run of itself.
pub proof fn law_runs_keep_text(c: Seq<char>)
    ensures
        run_texts(markup_segments(c)) == if c.len() < 3 {
            c
        } else {
            kept_from(c, 0)
        },
{
    if c.len() < 3 {
        let s = seq![(c, no_flags())];
        assert(s.drop_last() =~= Seq::<Segment>::empty());
        assert(run_texts(Seq::<Segment>::empty()) == Seq::<char>::empty());
        assert(run_texts(s) == run_texts(s.drop_last()) + s.last().0);
        assert(Seq::<char>::empty() + c =~= c);
    } else {
        lemma_scan_texts(
            c,
            0,
            false,
            false,
            false,
            false,
            false,
            Seq::empty(),
            Seq::empty(),
        );
        assert(run_texts(Seq::<Segment>::empty()) == Seq::<char>::empty());
        assert(Seq::<char>::empty() + Seq::<char>::empty() + kept_from(c, 0) =~= kept_from(c, 0));
    }
}

} // verus!

verus! {

/// What a style button writes into an ASCII text without `[` reads back as the selection in
/// that style between unstyled runs of the text around it, when what follows the selection is
/// empty or at least four characters long.
pub proof fn law_button_marks_selection(content: Seq<char>, start: int, end: int, kind: MarkupKind)
    requires
        is_ascii_text(content),
        0 <= start <= end <= content.len(),
        !content.contains('['),
        kind is Italic || kind is Underline || kind is Highlight,
        content.len() - end == 0 || content.len() - end >= 4,
    ensures
        markup_segments(markup_applied(content, start, end, kind)) == run(
            content.take(start),
            no_flags(),
        ) + run(content.subrange(start, end), kind_flags(kind)) + run(
            content.skip(end),
            no_flags(),
        ),
{
    law_ascii_markup_by_characters(content, start, end, kind);
    law_marked_selection(content, start, end, kind);
}

} // verus!
