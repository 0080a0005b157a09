use structurer::library::{load_from_library, load_from_titles, load_titles};
use structurer::link::{
    all_titles_links, get_linked_pairs, link_unlink_title, links_match_titles, links_resolve,
    title_is_linked_with,
};
use structurer::model::{ImageStruct, Title};
use structurer::share::{
    point_is_shared_with, remove_point_from_titles, share_in_titles, share_line_count,
    share_unshare_point,
};
use structurer::source::{get_point_source, source_is_link, update_source};
use structurer::tag::{add_tags_to_titles, get_all_tags};
use structurer::title::{
    add_title, add_title_with_id, change_title_name, change_title_position, confirmed_title_name,
    delete_title, save_title, title_lines_have_names, ProjectFiles,
};

fn s(x: &str) -> String {
    x.to_string()
}

fn titled(id: &str, name: &str) -> Title {
    let mut t = Title::default();
    t.id = s(id);
    t.name = s(name);
    t
}

fn files() -> ProjectFiles {
    ProjectFiles {
        library: s("t1@One@p1@p2\nt2@Two@p2@p3"),
        sources: s("p1@a\np2@b\np3@c"),
        images: s("t1@i.png@pic\nt2@@"),
        links: s("t1|--|t2\nt2|--|t1"),
        tags: s("t1@x\nt2@y"),
    }
}

#[test]
fn source_updated_and_read_back() {
    let sources = update_source("p1|--|old\np2|--|x", "p1", "new");
    assert_eq!(sources, "p1|--|new\np2|--|x");
    assert_eq!(get_point_source(&sources, "p1"), "new");
    assert_eq!(get_point_source(&sources, "p2"), "x");
}

#[test]
fn source_missing_reads_as_not_set() {
    assert_eq!(get_point_source("p1|--|a", "p9"), "No source set yet.");
    assert_eq!(get_point_source("p1@", "p1"), "No source set yet.");
}

#[test]
fn source_update_of_an_unknown_point_changes_nothing() {
    assert_eq!(update_source("p1|--|a\n", "p2", "b"), "p1|--|a");
}

#[test]
fn shares_read_per_title_line() {
    assert_eq!(
        point_is_shared_with("t1@A@p1\nt2@B\nonly\nt3@C@p2@p1", "p1"),
        vec![true, false, true]
    );
}

#[test]
fn shares_written_and_read_back() {
    let lib = share_unshare_point("t1@A@p1\nt2@B\nt3@C@p2@p1", "p1", &vec![false, true, true]);
    assert_eq!(lib, "t1@A\nt2@B@p1\nt3@C@p2@p1");
    assert_eq!(point_is_shared_with(&lib, "p1"), vec![false, true, true]);
}

#[test]
fn share_drops_lines_that_are_not_title_lines() {
    let lib = share_unshare_point("t1@A\nloose\n@x@y\nt2@B@p1", "p1", &vec![true, false]);
    assert_eq!(lib, "t1@A@p1\nt2@B");
}

#[test]
fn links_of_all_titles() {
    assert_eq!(
        all_titles_links("t1|--|t2\nt2|--|t1|--|t3\n\nt3\nt4|--|"),
        vec![
            (s("t1"), vec![s("t2")]),
            (s("t2"), vec![s("t1"), s("t3")]),
            (s("t3"), vec![]),
            (s("t4"), vec![]),
        ]
    );
}

#[test]
fn links_of_one_title_per_line() {
    assert_eq!(
        title_is_linked_with("t1|--|t2\nt2|--|t1|--|t3\n\nt3", "t1"),
        vec![true, true, false]
    );
}

#[test]
fn linked_pairs_listed_once() {
    let titles = vec![titled("t1", "A"), titled("t2", "B"), titled("t3", "C")];
    let links = "t1|--|t2\nt2|--|t1|--|t3\nt3";
    assert!(links_resolve(links, &titles));
    assert_eq!(get_linked_pairs(links, &titles), vec![(0, 1), (1, 2)]);
}

#[test]
fn links_to_unknown_titles_do_not_resolve() {
    let titles = vec![titled("t1", "A")];
    assert!(!links_resolve("t1|--|t9", &titles));
}

#[test]
fn title_linked_and_unlinked_then_read_back() {
    let mut titles = vec![titled("t1", "A"), titled("t2", "B"), titled("t3", "C")];
    titles[0].links = vec![true, false, true];
    let links = "t1|--|t2\nt2|--|t1|--|t3\nt3";
    assert!(links_match_titles(links, 0, &titles));
    let out = link_unlink_title(links, 0, &titles);
    assert_eq!(out, "t1|--|t3\nt2|--|t3\nt3|--|t1");
    assert_eq!(title_is_linked_with(&out, "t1"), vec![true, false, true]);
}

#[test]
fn links_that_do_not_match_the_titles_are_refused() {
    let mut titles = vec![titled("t1", "A"), titled("t2", "B")];
    titles[0].links = vec![true, true];
    assert!(!links_match_titles("t2\nt1", 0, &titles));
    assert!(!links_match_titles("t1\nt2", 5, &titles));
    titles[0].links = vec![true];
    assert!(!links_match_titles("t1\nt2", 0, &titles));
}

#[test]
fn tags_listed_once_in_order() {
    assert_eq!(get_all_tags("t1@a@b\nt2@b@c@\nt3"), vec![s("a"), s("b"), s("c")]);
    assert_eq!(get_all_tags(""), Vec::<String>::new());
}

#[test]
fn tags_given_to_titles_in_order() {
    let mut titles = vec![titled("t1", "A"), titled("t2", "B"), titled("t3", "C")];
    add_tags_to_titles("t1@a@b\nt2@b@c@\nt3", &mut titles);
    assert_eq!(titles[0].tags, vec![s("a"), s("b")]);
    assert_eq!(titles[1].tags, vec![s("b"), s("c")]);
    assert_eq!(titles[2].tags, Vec::<String>::new());
}

#[test]
fn titles_loaded_from_library_lines() {
    let titles = load_titles("t1@One@p1@p2\nloose\nt2@Two");
    assert_eq!(titles.len(), 2);
    assert_eq!((titles[0].id.as_str(), titles[0].name.as_str()), ("t1", "One"));
    assert_eq!(titles[0].point_ids, vec![s("p1"), s("p2")]);
    assert_eq!((titles[1].id.as_str(), titles[1].name.as_str()), ("t2", "Two"));
    assert!(titles[1].point_ids.is_empty());
}

#[test]
fn project_loaded_with_images_links_and_tags() {
    let f = files();
    let loaded = load_from_library(&f.library, &f.images, &f.links, &f.tags).unwrap();
    assert_eq!(loaded.titles.len(), 2);
    assert_eq!(
        loaded.titles[0].image,
        ImageStruct { path: s("i.png"), description: s("pic") }
    );
    assert_eq!(loaded.titles[1].image, ImageStruct { path: s(""), description: s("") });
    assert_eq!(loaded.linked_pairs, vec![(0, 1)]);
    assert_eq!(loaded.all_tags, vec![s("x"), s("y")]);
    assert_eq!(loaded.tags_actively_filtering, vec![false, false]);
    assert_eq!(loaded.titles[0].tags, vec![s("x")]);
    assert_eq!(loaded.titles[1].tags, vec![s("y")]);
}

#[test]
fn project_not_loaded_when_a_link_is_unknown() {
    let f = files();
    assert!(load_from_library(&f.library, &f.images, "t1|--|t9", &f.tags).is_none());
    assert!(load_from_titles(vec![titled("t1", "A")], "", "t1|--|t2", "").is_none());
}

#[test]
fn title_added_with_a_given_identifier() {
    let nt = add_title_with_id(&files(), "t9");
    assert_eq!(nt.id, "t9");
    assert_eq!(nt.title_file, "New title\nVersion:1");
    assert_eq!(nt.library, "t1@One@p1@p2\nt2@Two@p2@p3\nt9@New title");
    assert_eq!(nt.links, "t1|--|t2\nt2|--|t1\nt9");
    assert_eq!(nt.images, "t1@i.png@pic\nt2@@\nt9@");
    assert_eq!(nt.tags, "t1@x\nt2@y\nt9@");
}

#[test]
fn title_added_gets_a_fresh_uuid() {
    let a = add_title(&files());
    let b = add_title(&files());
    assert_eq!(a.id.chars().count(), 36);
    assert_ne!(a.id, b.id);
    assert!(a.library.ends_with(&format!("\n{}@New title", a.id)));
    assert_eq!(a.title_file, "New title\nVersion:1");
}

#[test]
fn title_deleted_with_its_own_points() {
    let d = delete_title(&files(), "t1");
    assert_eq!(d.orphaned_points, vec![s("p1")]);
    assert_eq!(d.removed_files, vec![s("p1"), s("t1")]);
    assert_eq!(d.files.library, "t2@Two@p2@p3");
    assert_eq!(d.files.sources, "p2@b\np3@c");
    assert_eq!(d.files.images, "t2@@");
    assert_eq!(d.files.tags, "t2@y");
    assert_eq!(d.files.links, "t1|--|t2\nt2|--|t1");
}

#[test]
fn title_saved_to_images_tags_and_library() {
    let mut t = titled("t2", "Renamed");
    t.image = ImageStruct { path: s("new.png"), description: s("d") };
    t.tags = vec![s("u"), s("v")];
    let saved = save_title("dir", &files(), &t).unwrap();
    assert_eq!(saved.images, "t1@i.png@pic\nt2@new.png@d");
    assert_eq!(saved.tags, "t1@x\nt2@u@v");
    assert_eq!(saved.library, "t1@One@p1@p2\nt2@Renamed@p2@p3");
}

#[test]
fn title_not_saved_without_directory_or_identifier() {
    assert!(save_title("", &files(), &titled("t1", "A")).is_none());
    assert!(save_title("dir", &files(), &titled("", "A")).is_none());
}

#[test]
fn title_renamed_in_its_file_and_library() {
    let (file, library) = change_title_name("Old\nmore", "t1@Old@p1\nt2@Two", "t1", "New");
    assert_eq!(file, "New\nmore");
    assert_eq!(library, "t1@New@p1\nt2@Two");
    let titles = load_titles(&library);
    assert_eq!(titles[0].name, "New");
    assert_eq!(titles[0].point_ids, vec![s("p1")]);
    assert_eq!(titles[1].name, "Two");
}

#[test]
fn title_file_rename_keeps_an_empty_file_empty() {
    let (file, _) = change_title_name("", "t1@Old", "t1", "New");
    assert_eq!(file, "");
}

#[test]
fn title_position_changed_with_links_reread() {
    let mut titles = vec![titled("t1", "A"), titled("t2", "B"), titled("t3", "C")];
    let to = change_title_position(&mut titles, "t1|--|t3\nt2\nt3|--|t1", 0, 9);
    assert_eq!(to, 2);
    let ids: Vec<&str> = titles.iter().map(|t| t.id.as_str()).collect();
    assert_eq!(ids, vec!["t2", "t3", "t1"]);
    assert_eq!(titles[2].links, vec![true, false, true]);
}

#[test]
fn sharing_in_memory_follows_the_checklist() {
    let mut titles = vec![titled("t1", "A"), titled("t2", "B"), titled("t3", "C")];
    titles[0].point_ids = vec![s("p1"), s("p2"), s("p1")];
    titles[1].point_ids = vec![s("p2")];
    titles[2].point_ids = vec![s("p1")];
    share_in_titles(&mut titles, "p1", &vec![false, true]);
    assert_eq!(titles[0].point_ids, vec![s("p2")]);
    assert_eq!(titles[1].point_ids, vec![s("p2"), s("p1")]);
    assert_eq!(titles[2].point_ids, vec![s("p1")]);
    remove_point_from_titles(&mut titles, "p2");
    assert!(titles[0].point_ids.is_empty());
    assert_eq!(titles[1].point_ids, vec![s("p1")]);
    assert_eq!(titles[1].name, "B");
    assert_eq!(share_line_count("t1@A\nloose\n@x@y\nt2@B@p1\n"), 2);
}

#[test]
fn source_read_as_a_web_address() {
    assert!(source_is_link("https://example.org"));
    assert!(source_is_link("see www.example.org"));
    assert!(!source_is_link("a book"));
    assert!(!source_is_link("No source set yet."));
}

#[test]
fn title_name_never_empty() {
    assert_eq!(confirmed_title_name(""), "New title");
    assert_eq!(confirmed_title_name("Trip"), "Trip");
}

#[test]
fn title_lines_checked_for_names() {
    assert!(title_lines_have_names("t1@A@p\nt2", "t1"));
    assert!(!title_lines_have_names("t1@A@p\nt2", "t2"));
    assert!(title_lines_have_names("", "t2"));
}

#[test]
fn added_title_reads_back_last() {
    let nt = add_title_with_id(&files(), "t9");
    let titles = load_titles(&nt.library);
    assert_eq!(titles.len(), 3);
    assert_eq!(titles[2].id, "t9");
    assert_eq!(titles[2].name, "New title");
    assert!(titles[2].point_ids.is_empty());
    assert_eq!(titles[0].id, "t1");
}

#[test]
fn saved_title_image_reads_back() {
    let f = files();
    let mut t = titled("t2", "Two");
    t.image = ImageStruct { path: s("new.png"), description: s("d") };
    let saved = save_title("dir", &f, &t).unwrap();
    let loaded = load_from_library(&saved.library, &saved.images, &f.links, &saved.tags).unwrap();
    assert_eq!(loaded.titles[1].image, ImageStruct { path: s("new.png"), description: s("d") });
    assert_eq!(loaded.titles[0].image, ImageStruct { path: s("i.png"), description: s("pic") });
}

#[test]
fn saved_title_tags_read_back() {
    let f = files();
    let mut t = titled("t1", "One");
    t.tags = vec![s("u"), s(""), s("v")];
    let saved = save_title("dir", &f, &t).unwrap();
    assert_eq!(saved.tags, "t1@u@@v\nt2@y");
    let loaded = load_from_library(&saved.library, &saved.images, &f.links, &saved.tags).unwrap();
    assert_eq!(loaded.titles[0].tags, vec![s("u"), s("v")]);
    assert_eq!(loaded.titles[1].tags, vec![s("y")]);
}

#[test]
fn sharing_keeps_memory_and_library_in_agreement() {
    let library = "t1@A@p1@p2\nt2@B@p3";
    let mut titles = load_titles(library);
    let checklist = vec![false, true];
    let new_library = share_unshare_point(library, "p1", &checklist);
    share_in_titles(&mut titles, "p1", &checklist);
    let reread = load_titles(&new_library);
    assert_eq!(reread.len(), titles.len());
    for (a, b) in reread.iter().zip(titles.iter()) {
        assert_eq!(a.id, b.id);
        assert_eq!(a.point_ids, b.point_ids);
    }
    assert_eq!(titles[1].point_ids, vec![s("p3"), s("p1")]);
}

#[test]
fn deleted_title_file_removed_after_its_points() {
    let d = delete_title(&files(), "t2");
    assert_eq!(d.orphaned_points, vec![s("p3")]);
    assert_eq!(d.removed_files, vec![s("p3"), s("t2")]);
    let lone = ProjectFiles {
        library: s("t1@One"),
        sources: String::new(),
        images: s("t1@@"),
        links: s("t1"),
        tags: s("t1@"),
    };
    assert_eq!(delete_title(&lone, "t1").removed_files, vec![s("t1")]);
}

#[test]
fn source_with_bars_and_carriage_returns_read_back() {
    let sources = update_source("a|b|--|old\nx|--|y", "a|b", "s|t");
    assert_eq!(sources, "a|b|--|s|t\nx|--|y");
    assert_eq!(get_point_source(&sources, "a|b"), "s|t");
    let sources = update_source("p1|--|o\r\np2|--|x", "p2", "n\rm");
    assert_eq!(sources, "p1|--|o\np2|--|n\rm");
    assert_eq!(get_point_source(&sources, "p2"), "n\rm");
}

#[test]
fn source_after_an_identifier_ending_in_part_of_the_separator_is_lost() {
    let sources = update_source("a|--", "a|--", "s");
    assert_eq!(sources, "a|--|--|s");
    assert_eq!(get_point_source(&sources, "a|--"), "No source set yet.");
}

#[test]
fn shares_with_carriage_returns_inside_read_back() {
    let lib = share_unshare_point("t1@N\ra@p1\nt2@B", "p\r1", &vec![true, true]);
    assert_eq!(lib, "t1@N\ra@p1@p\r1\nt2@B@p\r1");
    assert_eq!(point_is_shared_with(&lib, "p\r1"), vec![true, true]);
}

#[test]
fn titles_with_bars_in_their_identifiers_linked_and_read_back() {
    let mut titles = vec![titled("a|b", "A"), titled("c|d", "C")];
    titles[0].links = vec![true, false];
    let links = "a|b|--|c|d\nc|d|--|a|b";
    assert!(links_match_titles(links, 0, &titles));
    let out = link_unlink_title(links, 0, &titles);
    assert_eq!(out, "a|b\nc|d");
    assert_eq!(title_is_linked_with(&out, "a|b"), vec![true, false]);
    titles[0].links = vec![true, true];
    let out = link_unlink_title(&out, 0, &titles);
    assert_eq!(out, "a|b|--|c|d\nc|d|--|a|b");
    assert_eq!(title_is_linked_with(&out, "a|b"), vec![true, true]);
}

#[test]
fn title_data_with_carriage_returns_inside_reads_back() {
    let (_, library) = change_title_name("Old", "t1@Old@p1\nt2@Two", "t1", "Ne\rw");
    assert_eq!(library, "t1@Ne\rw@p1\nt2@Two");
    assert_eq!(load_titles(&library)[0].name, "Ne\rw");
    let f = files();
    let mut t = titled("t1", "One");
    t.tags = vec![s("u\rv"), s("w")];
    t.image = ImageStruct { path: s("a\rb.png"), description: s("d") };
    let saved = save_title("dir", &f, &t).unwrap();
    let loaded = load_from_library(&saved.library, &saved.images, &f.links, &saved.tags).unwrap();
    assert_eq!(loaded.titles[0].tags, vec![s("u\rv"), s("w")]);
    assert_eq!(loaded.titles[0].image, ImageStruct { path: s("a\rb.png"), description: s("d") });
}

#[test]
fn title_added_after_a_library_with_carriage_returns_inside() {
    let mut f = files();
    f.library = s("t1@O\rne@p1\r\nt2@Two");
    let nt = add_title_with_id(&f, "t9");
    let titles = load_titles(&nt.library);
    assert_eq!(titles.len(), 3);
    assert_eq!(titles[0].name, "O\rne");
    assert_eq!(titles[2].id, "t9");
}
