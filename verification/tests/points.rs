use structurer::dates::{PointDate, PointTime};
use structurer::model::{ImageStruct, Point, Title};
use structurer::point::{
    add_point, add_point_with_id, change_point_position, delete_point, get_all_points,
    get_point_content_from_file, load_points_from_title_id, move_item, save_point,
};

fn image(path: &str, description: &str) -> ImageStruct {
    ImageStruct { path: path.to_string(), description: description.to_string() }
}

fn sample_point() -> Point {
    Point {
        id: "p1".to_string(),
        content: "Hello".to_string(),
        source: String::new(),
        images: vec![image("a.png", "first"), image("b.png", "")],
        date: PointDate::new(2024, 5, 6),
        time: PointTime::new(7, 8, 9),
    }
}

fn is_uuid(s: &str) -> bool {
    let cs: Vec<char> = s.chars().collect();
    cs.len() == 36
        && cs.iter().enumerate().all(|(i, c)| {
            if i == 8 || i == 13 || i == 18 || i == 23 {
                *c == '-'
            } else {
                c.is_ascii_hexdigit() && !c.is_ascii_uppercase()
            }
        })
}

#[test]
fn point_saved_with_images_date_time_and_text() {
    assert_eq!(
        save_point(&sample_point()),
        "Image@a.png@first\nImage@b.png@\nDate@2024-05-06\nTime@07:08:09\nHello"
    );
}

#[test]
fn point_saved_without_date_or_time() {
    let p = Point {
        id: "p2".to_string(),
        content: "Text".to_string(),
        source: String::new(),
        images: vec![],
        date: None,
        time: None,
    };
    assert_eq!(save_point(&p), "Date@\nTime@\nText");
}

#[test]
fn point_read_back_after_save() {
    let p = sample_point();
    let back = get_point_content_from_file(&save_point(&p), "p1");
    assert_eq!(back.id, "p1");
    assert_eq!(back.images, p.images);
    assert_eq!(back.date, p.date);
    assert_eq!(back.time, p.time);
    assert_eq!(back.content, "Hello\n");
    assert_eq!(back.source, "");
}

#[test]
fn point_read_skips_lines_with_empty_first_field() {
    let p = get_point_content_from_file("line one\n\n@hidden\nline two", "x");
    assert_eq!(p.content, "line one\nline two\n");
    assert!(p.images.is_empty());
    assert_eq!(p.date, None);
    assert_eq!(p.time, None);
}

#[test]
fn point_read_ignores_malformed_image_and_bad_date() {
    let p = get_point_content_from_file("Image@only\nDate@2024-13-01\nTime@25:00:00\nText", "x");
    assert!(p.images.is_empty());
    assert_eq!(p.date, None);
    assert_eq!(p.time, None);
    assert_eq!(p.content, "Text\n");
}

#[test]
fn point_read_keeps_the_last_date() {
    let p = get_point_content_from_file("Date@2020-01-02\nDate@2021-03-04", "x");
    let d = p.date.unwrap();
    assert_eq!((d.year(), d.month(), d.day()), (2021, 3, 4));
}

#[test]
fn point_added_with_a_given_identifier() {
    let np = add_point_with_id("dir", "t1", "t1@T@p0\nt2@U", "p0@", "p9").unwrap();
    assert_eq!(np.point.id, "p9");
    assert_eq!(np.point.content, "New point");
    assert_eq!(np.point_file, "New point");
    assert_eq!(np.library, "t1@T@p0@p9\nt2@U");
    assert_eq!(np.sources, "p0@\np9@");
}

#[test]
fn point_not_added_without_title_or_directory() {
    assert!(add_point_with_id("dir", "", "t1@T", "", "p9").is_none());
    assert!(add_point_with_id("", "t1", "t1@T", "", "p9").is_none());
    assert!(add_point("", "t1", "t1@T", "").is_none());
}

#[test]
fn point_added_gets_a_fresh_uuid() {
    let a = add_point("dir", "t1", "t1@T", "").unwrap();
    let b = add_point("dir", "t1", "t1@T", "").unwrap();
    assert!(is_uuid(&a.point.id));
    assert!(is_uuid(&b.point.id));
    assert_ne!(a.point.id, b.point.id);
    assert_eq!(a.library, format!("t1@T@{}", a.point.id));
}

#[test]
fn point_deleted_from_library_and_sources() {
    let (library, sources) = delete_point("t1@T@p1@p2\nt2@U@p1", "p1@src\np2@s", "p1");
    assert_eq!(library, "t1@T@p2\nt2@U");
    assert_eq!(sources, "p2@s");
    assert!(!load_points_from_title_id(&library, "t1").contains(&"p1".to_string()));
}

#[test]
fn points_of_a_title_loaded_in_order() {
    assert_eq!(
        load_points_from_title_id("t1@T@p1@p2\nt2@U@p3", "t1"),
        vec!["p1".to_string(), "p2".to_string()]
    );
    assert_eq!(load_points_from_title_id("t1@T@p1@p2\nt2@U@p3", "t3"), Vec::<String>::new());
    assert_eq!(load_points_from_title_id("t1@T", "t1"), Vec::<String>::new());
}

#[test]
fn item_moved_forward_and_back() {
    let mut v = vec![1, 2, 3, 4];
    move_item(&mut v, 0, 2);
    assert_eq!(v, vec![2, 3, 1, 4]);
    move_item(&mut v, 3, 1);
    assert_eq!(v, vec![2, 4, 3, 1]);
}

#[test]
fn point_position_changed_in_title_and_library() {
    let mut title = Title::default();
    title.id = "t1".to_string();
    title.name = "T".to_string();
    title.point_ids = vec!["a".to_string(), "b".to_string(), "c".to_string()];
    let library = change_point_position(&mut title, "t1@T@a@b@c\nt2@U@d", 0, 5);
    assert_eq!(title.point_ids, vec!["b".to_string(), "c".to_string(), "a".to_string()]);
    assert_eq!(library, "t1@T@b@c@a\nt2@U@d");
    let library = change_point_position(&mut title, &library, 2, 0);
    assert_eq!(title.point_ids, vec!["a".to_string(), "b".to_string(), "c".to_string()]);
    assert_eq!(library, "t1@T@a@b@c\nt2@U@d");
}

#[test]
fn all_points_listed_once_in_order_of_mention() {
    let mut t1 = Title::default();
    t1.point_ids = vec!["a".to_string(), "b".to_string()];
    let mut t2 = Title::default();
    t2.point_ids = vec!["b".to_string(), "c".to_string(), "a".to_string()];
    assert_eq!(
        get_all_points(&vec![t1, t2]),
        vec!["a".to_string(), "b".to_string(), "c".to_string()]
    );
}

#[test]
fn leap_second_saved_and_read_back() {
    let mut p = sample_point();
    p.time = PointTime::parse("23:59:60");
    let text = save_point(&p);
    assert!(text.contains("Time@23:59:60"));
    let back = get_point_content_from_file(&text, "p1");
    assert_eq!(back.time, p.time);
}

#[test]
fn carriage_return_inside_a_line_reads_back() {
    let mut p = sample_point();
    p.content = "a\rb\nc".to_string();
    let back = get_point_content_from_file(&save_point(&p), "p1");
    assert_eq!(back.content, "a\rb\nc\n");
    assert_eq!(back.images, p.images);
}

#[test]
fn carriage_return_before_a_newline_is_dropped_on_reading() {
    let mut p = sample_point();
    p.content = "a\r\nb".to_string();
    let back = get_point_content_from_file(&save_point(&p), "p1");
    assert_eq!(back.content, "a\nb\n");
}
