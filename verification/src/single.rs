//! One file, turned into a feed by itself, without a server or an index.

use vstd::prelude::*;
use vstd::string::StringExecFns;
use vstd::utf8::encode_utf8;
use crate::config::{trim_slashes, without_slashes};
use crate::feed::{episode_guid, episode_material, numbers_fit, pubdate, pubdate_epoch, pubdates_fit, FeedBook, FeedEpisode};
use crate::http::feed_url;
use crate::outside::blake3_hex;
use crate::scanner::{file_stem, slug_of, slugify, stem_or_book};
use crate::splitter::{episode_file_name, episode_name, SplitEpisode};

verus! {

/// The extension of the episodes.
pub const EPISODE_EXT: &'static str = "m4a";

/// The address of an episode.
pub open spec fn file_url(base: Seq<char>, id: Seq<char>, idx: int) -> Seq<char> {
    base + "/audio/"@ + id + "/"@ + episode_name(idx, EPISODE_EXT@)
}

/// Whether `f` is what the feed says of a produced episode, one of `n`.
pub open spec fn is_single_episode(
    f: FeedEpisode,
    ep: SplitEpisode,
    title: Seq<char>,
    base: Seq<char>,
    id: Seq<char>,
    mtime: int,
    n: int,
) -> bool {
    &&& f.idx == ep.idx
    &&& f.guid@ == blake3_hex(encode_utf8(episode_material(id, ep.idx as int, mtime)))
    &&& f.pubdate_epoch == pubdate(mtime, ep.idx as int, n)
    &&& f.title@ == title
    &&& f.audio_url@ == file_url(base, id, ep.idx as int)
    &&& f.byte_length == ep.byte_length
    &&& f.duration == ep.duration
    &&& f.mime_type@ == "audio/mp4"@
}

/// The feed of the file `input`, given its produced episodes and their titles. It is called like
/// the file; its addresses lie below `base_url`.
pub fn single_feed(
    input: &str,
    base_url: &str,
    mtime: i64,
    episodes: &Vec<SplitEpisode>,
    titles: &Vec<String>,
) -> (r: FeedBook)
    requires
        episodes.len() == titles.len(),
        pubdates_fit(mtime as int, episodes.len() as int),
        forall|i: int| 0 <= i < episodes.len() ==> (#[trigger] episodes@[i]).idx < episodes.len(),
    ensures
        r.id@ == slug_of(stem_or_book(input@)),
        r.title@ == stem_or_book(input@),
        r.author is None,
        r.description is None,
        r.cover_url is None,
        r.source_mtime == mtime,
        r.self_url@ == feed_url(trim_slashes(base_url@), r.id@),
        r.episodes@.len() == episodes@.len(),
        forall|i: int|
            0 <= i < episodes@.len() ==> is_single_episode(
                #[trigger] r.episodes@[i],
                episodes@[i],
                titles@[i]@,
                trim_slashes(base_url@),
                r.id@,
                mtime as int,
                episodes@.len() as int,
            ),
        numbers_fit(r),
        r.self_url@ == trim_slashes(base_url@) + "/feed/"@ + r.id@ + ".xml"@,
        forall|i: int|
            0 <= i < episodes@.len() ==> {
                &&& (#[trigger] r.episodes@[i]).idx == episodes@[i].idx
                &&& r.episodes@[i].title@ == titles@[i]@
                &&& r.episodes@[i].byte_length == episodes@[i].byte_length
                &&& r.episodes@[i].duration == episodes@[i].duration
                &&& r.episodes@[i].mime_type@ == "audio/mp4"@
                &&& r.episodes@[i].guid@ == blake3_hex(
                    encode_utf8(episode_material(r.id@, episodes@[i].idx as int, mtime as int)),
                )
                &&& r.episodes@[i].pubdate_epoch == mtime - (episodes@.len() - 1 - episodes@[i].idx) * 60
                &&& r.episodes@[i].audio_url@ == trim_slashes(base_url@) + "/audio/"@ + r.id@ + "/"@ + episode_name(
                    episodes@[i].idx as int,
                    "m4a"@,
                )
            },
{
    let base = without_slashes(base_url);
    let title = file_stem(input);
    let id = slugify(title.as_str());
    let n: usize = episodes.len();
    let mut list: Vec<FeedEpisode> = Vec::new();
    let mut i: usize = 0;
    while i < n
        invariant
            i <= n,
            n == episodes.len(),
            episodes.len() == titles.len(),
            pubdates_fit(mtime as int, n as int),
            forall|j: int| 0 <= j < episodes.len() ==> (#[trigger] episodes@[j]).idx < n,
            list@.len() == i,
            forall|j: int|
                0 <= j < i ==> is_single_episode(
                    #[trigger] list@[j],
                    episodes@[j],
                    titles@[j]@,
                    base@,
                    id@,
                    mtime as int,
                    n as int,
                ),
        decreases n - i,
    {
        let ep = &episodes[i];
        assert(episodes@[i as int].idx < n);
        let mut url = base.clone();
        url.append("/audio/");
        url.append(id.as_str());
        url.append("/");
        let name = episode_file_name(ep.idx, EPISODE_EXT);
        url.append(name.as_str());
        list.push(
            FeedEpisode {
                idx: ep.idx,
                guid: episode_guid(id.as_str(), ep.idx, mtime),
                pubdate_epoch: pubdate_epoch(mtime, ep.idx, n),
                title: titles[i].clone(),
                audio_url: url,
                byte_length: ep.byte_length,
                duration: ep.duration,
                mime_type: "audio/mp4".to_owned(),
            },
        );
        i = i + 1;
    }
    let mut self_url = base;
    self_url.append("/feed/");
    self_url.append(id.as_str());
    self_url.append(".xml");
    let r = FeedBook {
        id,
        title,
        author: None,
        description: None,
        cover_url: None,
        source_mtime: mtime,
        self_url,
        episodes: list,
    };
    proof {
        assert forall|j: int| 0 <= j < r.episodes@.len() implies (#[trigger] r.episodes@[j]).idx
            < usize::MAX by {
            assert(episodes@[j].idx < n);
        }
        assert forall|j: int| 0 <= j < episodes@.len() implies is_single_episode(
            #[trigger] r.episodes@[j],
            episodes@[j],
            titles@[j]@,
            trim_slashes(base_url@),
            r.id@,
            mtime as int,
            episodes@.len() as int,
        ) by {}
    }
    r
}

} // verus!
