use structurer::browse::{search_point_ids, timeline_point_ids};
use structurer::dates::{PointDate, PointTime};
use structurer::datetime::{DateTimeField, DateTimeFields};
use structurer::export::{export_title, strip_markup, ExportOptions};
use structurer::filter::{
    any_flag, checked_tags, create_tag, filter_by_tag, tag_flags, title_shown,
};
use structurer::image::{add_image_to_point, delete_image_from_point};
use structurer::markup::{apply_markup, markup_fits, markup_parse_string, markup_style, MarkupKind};
use structurer::model::{ImageStruct, Point, Title};

fn s(x: &str) -> String {
    x.to_string()
}

fn point(id: &str, content: &str, date: Option<PointDate>, time: Option<PointTime>) -> Point {
    Point { id: s(id), content: s(content), source: s(""), images: vec![], date, time }
}

#[test]
fn date_checked_printed_and_parsed() {
    let d = PointDate::new(2024, 2, 29).unwrap();
    assert_eq!(d.to_text(), "2024-02-29");
    assert!(PointDate::new(2023, 2, 29).is_none());
    assert!(PointDate::new(2024, 4, 31).is_none());
    assert!(PointDate::new(2024, 13, 1).is_none());
    assert_eq!(PointDate::new(7, 1, 2).unwrap().to_text(), "0007-01-02");
    let p = PointDate::parse("1999-12-31").unwrap();
    assert_eq!((p.year(), p.month(), p.day()), (1999, 12, 31));
    assert!(PointDate::parse("31/12/1999").is_none());
    assert_eq!(PointDate::parse(&d.to_text()), Some(d));
}

#[test]
fn time_checked_printed_and_parsed() {
    let t = PointTime::new(7, 8, 9).unwrap();
    assert_eq!(t.to_text(), "07:08:09");
    assert!(PointTime::new(24, 0, 0).is_none());
    assert!(PointTime::new(0, 60, 0).is_none());
    let p = PointTime::parse("23:59:58").unwrap();
    assert_eq!((p.hour(), p.minute(), p.second()), (23, 59, 58));
    assert!(PointTime::parse("noon").is_none());
    assert_eq!(PointTime::parse(&t.to_text()), Some(t));
}

#[test]
fn form_fields_step_within_their_ranges() {
    let mut f = DateTimeFields::default();
    assert_eq!(
        f,
        DateTimeFields { year: 2024, month: 1, day: 1, hour: 0, minute: 0, second: 0 }
    );
    f.step_down(DateTimeField::Month);
    assert_eq!(f.month, 1);
    f.step_up(DateTimeField::Month);
    assert_eq!(f.month, 2);
    f.step_down(DateTimeField::Year);
    assert_eq!(f.year, 2023);
    f.step_down(DateTimeField::Hour);
    assert_eq!(f.hour, 0);
    f.hour = 23;
    f.step_up(DateTimeField::Hour);
    assert_eq!(f.hour, 23);
    f.second = 58;
    f.step_up(DateTimeField::Second);
    f.step_up(DateTimeField::Second);
    assert_eq!(f.second, 59);
}

#[test]
fn form_fields_clamped() {
    let mut f = DateTimeFields { year: 5, month: 0, day: 40, hour: 30, minute: 61, second: 99 };
    f.clamp();
    assert_eq!(
        f,
        DateTimeFields { year: 5, month: 1, day: 31, hour: 23, minute: 59, second: 59 }
    );
}

#[test]
fn form_suggests_the_last_day_of_the_month() {
    let f = DateTimeFields { year: 2023, month: 2, day: 30, hour: 0, minute: 0, second: 0 };
    assert_eq!(f.suggested_day(), Some(28));
    let g = DateTimeFields { year: 2024, month: 2, day: 30, hour: 0, minute: 0, second: 0 };
    assert_eq!(g.suggested_day(), Some(29));
    let h = DateTimeFields { year: 2024, month: 4, day: 30, hour: 0, minute: 0, second: 0 };
    assert_eq!(h.suggested_day(), None);
}

#[test]
fn form_confirmed_only_with_a_real_date_and_time() {
    let f = DateTimeFields { year: 2024, month: 6, day: 7, hour: 8, minute: 9, second: 10 };
    let (d, t) = f.confirmed().unwrap();
    assert_eq!(d.to_text(), "2024-06-07");
    assert_eq!(t.to_text(), "08:09:10");
    let g = DateTimeFields { day: 31, ..f };
    assert!(g.confirmed().is_none());
}

#[test]
fn markup_stripped_for_export() {
    assert_eq!(strip_markup("[!i]a[!i] [!l]b[!l][!H]c[!H][!x]"), "a bc[!x]");
}

#[test]
fn title_exported_with_options() {
    let mut t = Title::default();
    t.name = s("Trip");
    t.image = ImageStruct { path: s("t.png"), description: s("") };
    t.point_ids = vec![s("b"), s("a")];
    let mut a = point("a", "[!i]first[!i]", PointDate::new(2020, 1, 2), None);
    a.source = s("book");
    a.images = vec![ImageStruct { path: s("x.png"), description: s("an x") }];
    let b = point("b", "second", None, None);
    let points = vec![a, b];
    let all = ExportOptions { include_images: true, include_sources: true, include_dates: true };
    assert_eq!(
        export_title(&t, &points, &all),
        "Trip\nTitle image: t.png\nsecond\nSource: book\nImage: x.png\nImage description: an x\n2020-01-02\nfirst"
    );
    let none = ExportOptions { include_images: false, include_sources: false, include_dates: false };
    assert_eq!(export_title(&t, &points, &none), "Trip\nsecond\nfirst");
}

#[test]
fn search_finds_points_by_text() {
    let points = vec![
        point("a", "apples and pears", None, None),
        point("b", "plums", None, None),
        point("c", "pear", None, None),
    ];
    assert_eq!(search_point_ids(&points, "pear"), vec![s("a"), s("c")]);
    assert_eq!(search_point_ids(&points, ""), vec![s("a"), s("b"), s("c")]);
    assert_eq!(search_point_ids(&points, "kiwi"), Vec::<String>::new());
}

#[test]
fn timeline_orders_dated_points() {
    let points = vec![
        point("late", "", PointDate::new(2024, 3, 1), None),
        point("undated", "", None, PointTime::new(1, 0, 0)),
        point("noon", "", PointDate::new(2024, 1, 1), PointTime::new(12, 0, 0)),
        point("morning", "", PointDate::new(2024, 1, 1), PointTime::new(8, 0, 0)),
        point("day", "", PointDate::new(2024, 1, 1), None),
        point("early", "", PointDate::new(2023, 12, 31), PointTime::new(23, 0, 0)),
    ];
    assert_eq!(
        timeline_point_ids(&points),
        vec![s("early"), s("day"), s("morning"), s("noon"), s("late")]
    );
}

#[test]
fn timeline_keeps_the_order_of_equal_points() {
    let points = vec![
        point("x", "", PointDate::new(2024, 1, 1), None),
        point("y", "", PointDate::new(2024, 1, 1), None),
    ];
    assert_eq!(timeline_point_ids(&points), vec![s("x"), s("y")]);
}

#[test]
fn selection_marked_by_each_button() {
    assert_eq!(apply_markup("one two", 4, 7, MarkupKind::Italic), "one [!i]two[!i]");
    assert_eq!(apply_markup("abc", 0, 0, MarkupKind::Underline), "[!u][!u]abc");
    assert_eq!(apply_markup("abc", 1, 2, MarkupKind::Highlight), "a[!l]b[!l]c");
    assert_eq!(apply_markup("abc", 0, 3, MarkupKind::Heading1), "\n[!H] abc[!H]");
    assert_eq!(apply_markup("abc", 3, 3, MarkupKind::Heading2), "abc\n[!h] [!h]");
}

#[test]
fn marked_selection_parses_as_one_styled_run() {
    let text = apply_markup("plain words here", 6, 11, MarkupKind::Underline);
    assert_eq!(
        markup_parse_string(text),
        vec![
            (s("plain "), vec![false, false, false, false, false]),
            (s("words"), vec![false, false, true, false, false]),
            (s(" here"), vec![false, false, false, false, false]),
        ]
    );
}

#[test]
fn short_tail_after_a_marker_is_not_read() {
    assert_eq!(
        markup_parse_string(s("[!i]ab[!i]cd")),
        vec![(s("ab"), vec![true, false, false, false, false])]
    );
}

#[test]
fn style_of_a_run() {
    let st = markup_style(&vec![true, false, true, true, false]);
    assert!(st.italics && !st.highlighted && st.underlined);
    assert_eq!(st.font_size, 30);
    assert_eq!(markup_style(&vec![false, true, false, true, true]).font_size, 25);
    assert_eq!(markup_style(&vec![false; 5]).font_size, 20);
}

#[test]
fn image_line_written_before_the_first_other_line() {
    let image = ImageStruct { path: s("p.png"), description: s("d") };
    assert_eq!(
        add_image_to_point("Image|--|old|--|x\nDate@\ntext", &image),
        "Image|--|p.png|--|d\nDate@\ntext"
    );
    assert_eq!(add_image_to_point("", &image), "");
}

#[test]
fn only_the_named_image_line_deleted() {
    let image = ImageStruct { path: s("p.png"), description: s("d") };
    assert_eq!(
        delete_image_from_point("Image|--|p.png|--|d\nDate@\nImage|--|q|--|e\ntext", &image),
        "Date@\nImage|--|q|--|e\ntext"
    );
}

#[test]
fn first_of_two_equal_image_lines_deleted() {
    let image = ImageStruct { path: s("q"), description: s("any") };
    assert_eq!(
        delete_image_from_point("x\nImage|--|q|--|a\ny|--|q|--|z\nImage|--|q|--|b", &image),
        "x\ny|--|q|--|z\nImage|--|q|--|b"
    );
}

#[test]
fn unnamed_image_leaves_the_file() {
    let image = ImageStruct { path: s("none"), description: s("d") };
    assert_eq!(
        delete_image_from_point("Date@\nImage|--|q|--|e\ntext", &image),
        "Date@\nImage|--|q|--|e\ntext"
    );
}

#[test]
fn checked_tags_follow_their_flags() {
    let all = vec![s("a"), s("b"), s("c")];
    assert_eq!(checked_tags(&all, &vec![true, false, true]), vec![s("a"), s("c")]);
    assert_eq!(checked_tags(&all, &vec![false, true]), vec![s("b")]);
    let flags = tag_flags(&all, &vec![s("c"), s("a"), s("z")]);
    assert_eq!(flags, vec![true, false, true]);
    assert_eq!(checked_tags(&all, &flags), vec![s("a"), s("c")]);
}

#[test]
fn titles_shown_by_the_tag_filter() {
    let tags = vec![s("a"), s("b")];
    assert!(title_shown(&tags, &vec![s("a")], true));
    assert!(!title_shown(&tags, &vec![s("a"), s("c")], true));
    assert!(title_shown(&tags, &vec![s("c")], false));
    assert!(any_flag(&vec![false, true]));
    assert!(!any_flag(&vec![false, false]));
    assert!(!any_flag(&vec![]));
}

#[test]
fn clicking_a_tag_filters_by_it() {
    let all = vec![s("a"), s("b"), s("c")];
    let mut flags = vec![false, false, false];
    let mut in_filter = vec![s("stale")];
    filter_by_tag(&all, &mut flags, &mut in_filter, "b");
    assert_eq!(flags, vec![false, true, false]);
    assert_eq!(in_filter, vec![s("b")]);
    filter_by_tag(&all, &mut flags, &mut in_filter, "b");
    assert_eq!(in_filter, vec![s("b")]);
    filter_by_tag(&all, &mut flags, &mut in_filter, "c");
    assert_eq!(flags, vec![false, true, true]);
    assert_eq!(in_filter, vec![s("b"), s("c")]);
}

#[test]
fn new_tag_created_only_when_named() {
    let mut all = vec![s("a")];
    let mut filter = vec![false];
    let mut title = vec![false];
    assert!(!create_tag(&mut all, &mut filter, &mut title, ""));
    assert_eq!(all, vec![s("a")]);
    assert!(create_tag(&mut all, &mut filter, &mut title, "new"));
    assert_eq!(all, vec![s("a"), s("new")]);
    assert_eq!(filter, vec![false, false]);
    assert_eq!(title, vec![false, true]);
}

#[test]
fn selection_marked_at_byte_positions() {
    // "é" takes two bytes: byte 2 starts "a", byte 3 ends the text.
    assert!(markup_fits("éa", 2, 3, MarkupKind::Italic));
    assert_eq!(apply_markup("éa", 2, 3, MarkupKind::Italic), "é[!i]a[!i]");
    assert!(!markup_fits("éa", 1, 2, MarkupKind::Italic));
    assert!(!markup_fits("ab", 0, 3, MarkupKind::Italic));
    assert!(markup_fits("ab", 0, 2, MarkupKind::Heading1));
    assert_eq!(apply_markup("ab", 0, 2, MarkupKind::Heading1), "\n[!H] ab[!H]");
}

#[test]
fn leap_second_kept_through_text() {
    let t = PointTime::parse("23:59:60").unwrap();
    assert!(t.is_leap_second());
    assert_eq!(t.second(), 59);
    assert_eq!(t.to_text(), "23:59:60");
    assert_eq!(PointTime::parse(&t.to_text()), Some(t));
    assert!(PointTime::parse("12:30:61").is_none());
    assert_eq!(PointTime::parse("12:30:60").unwrap().to_text(), "12:30:60");
    assert!(!PointTime::new(23, 59, 59).unwrap().is_leap_second());
}

#[test]
fn leap_second_comes_after_its_second_on_the_timeline() {
    let points = vec![
        point("leap", "", PointDate::new(2016, 12, 31), PointTime::parse("23:59:60")),
        point("plain", "", PointDate::new(2016, 12, 31), PointTime::new(23, 59, 59)),
    ];
    assert_eq!(timeline_point_ids(&points), vec![s("plain"), s("leap")]);
}

#[test]
fn clicking_a_tag_already_filtered_needs_no_flag_per_tag() {
    let all = vec![s("a"), s("b")];
    let mut flags = vec![true];
    let mut in_filter = vec![s("a")];
    filter_by_tag(&all, &mut flags, &mut in_filter, "a");
    assert_eq!(flags, vec![true]);
    assert_eq!(in_filter, vec![s("a")]);
}
