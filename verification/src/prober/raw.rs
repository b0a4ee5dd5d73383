//! What a probe reports: the fields of its JSON that the library reads.

use vstd::prelude::*;

verus! {

/// A whole report.
#[derive(Clone, Debug)]
pub struct Probe {
    pub streams: Vec<Stream>,
    pub chapters: Vec<Chapter>,
    pub format: Option<Format>,
}

/// One stream of the file.
#[derive(Clone, Debug)]
pub struct Stream {
    pub codec_type: Option<String>,
    pub codec_name: Option<String>,
    pub duration: Option<String>,
    pub disposition: Disposition,
}

/// How a stream is meant to be used.
#[derive(Clone, Debug)]
pub struct Disposition {
    /// 1 for a picture attached to the file: its cover.
    pub attached_pic: i32,
}

/// One chapter marker.
#[derive(Clone, Debug)]
pub struct Chapter {
    pub start_time: Option<String>,
    pub end_time: Option<String>,
    pub tags: Tags,
}

/// The tags of a chapter.
#[derive(Clone, Debug)]
pub struct Tags {
    pub title: Option<String>,
}

/// The container.
#[derive(Clone, Debug)]
pub struct Format {
    pub duration: Option<String>,
    pub tags: FormatTags,
}

/// The tags of the container.
#[derive(Clone, Debug)]
pub struct FormatTags {
    pub track: Option<String>,
    pub title: Option<String>,
}

} // verus!
