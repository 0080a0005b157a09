//! The values that the project files describe: titles, points and their images.
use crate::dates::{PointDate, PointTime};
use vstd::prelude::*;

verus! {

/// An image attached to a title or a point: a file path and a description.
#[derive(Clone, Debug, PartialEq, Eq)]
pub struct ImageStruct {
    pub path: String,
    pub description: String,
}

/// A point: a piece of text with its source, images, date and time.
#[derive(Clone, Debug, PartialEq, Eq)]
pub struct Point {
    pub id: String,
    pub content: String,
    pub source: String,
    pub images: Vec<ImageStruct>,
    pub date: Option<PointDate>,
    pub time: Option<PointTime>,
}

/// A title: a named page of points, with one link flag per title of the project, an image and
/// tags.
#[derive(Clone, Debug, PartialEq, Eq)]
pub struct Title {
    pub name: String,
    pub id: String,
    pub point_ids: Vec<String>,
    pub links: Vec<bool>,
    pub image: ImageStruct,
    pub tags: Vec<String>,
}

/// The views of a sequence of strings.
pub open spec fn string_views(v: Seq<String>) -> Seq<Seq<char>> {
    v.map_values(|s: String| s@)
}

/// The identifiers of the titles.
pub open spec fn title_ids(ts: Seq<Title>) -> Seq<Seq<char>> {
    ts.map_values(|t: Title| t.id@)
}

/// The views of a sequence of images, as (path, description).
pub open spec fn image_views(v: Seq<ImageStruct>) -> Seq<(Seq<char>, Seq<char>)> {
    v.map_values(|i: ImageStruct| (i.path@, i.description@))
}

/// The view of an optional date.
pub open spec fn date_view(d: Option<PointDate>) -> Option<(i32, u32, u32)> {
    match d {
        Some(x) => Some(x@),
        None => None,
    }
}

/// The view of an optional time.
pub open spec fn time_view(t: Option<PointTime>) -> Option<(u32, u32, u32, bool)> {
    match t {
        Some(x) => Some(x@),
        None => None,
    }
}

impl Default for ImageStruct {
    fn default() -> (r: Self)
        ensures
            r.path@ == Seq::<char>::empty(),
            r.description@ == Seq::<char>::empty(),
    {
        ImageStruct { path: String::new(), description: String::new() }
    }
}

impl Default for Point {
    fn default() -> (r: Self)
        ensures
            r.id@ == Seq::<char>::empty(),
            r.content@ == Seq::<char>::empty(),
            r.source@ == Seq::<char>::empty(),
            r.images@ == Seq::<ImageStruct>::empty(),
            r.date is None,
            r.time is None,
    {
        Point {
            id: String::new(),
            content: String::new(),
            source: String::new(),
            images: Vec::new(),
            date: None,
            time: None,
        }
    }
}

impl Default for Title {
    fn default() -> (r: Self)
        ensures
            r.name@ == Seq::<char>::empty(),
            r.id@ == Seq::<char>::empty(),
            r.point_ids@ == Seq::<String>::empty(),
            r.links@ == Seq::<bool>::empty(),
            r.image.path@ == Seq::<char>::empty(),
            r.image.description@ == Seq::<char>::empty(),
            r.tags@ == Seq::<String>::empty(),
    {
        Title {
            name: String::new(),
            id: String::new(),
            point_ids: Vec::new(),
            links: Vec::new(),
            image: ImageStruct::default(),
            tags: Vec::new(),
        }
    }
}

} // verus!
