use podspine::feed::selfcheck::{check, SelfCheckError};
use podspine::feed::{
    build_channel, episode_guid, format_itunes_duration, format_rfc2822, pubdate_epoch, render,
    render_checked, to_xml, track_guid, Channel, ChannelHead, FeedBook, FeedEpisode,
};
use podspine::ticks::TICKS_PER_SEC;

fn sample_book(n: usize, mtime: i64) -> FeedBook {
    let id = "book-1";
    let episodes = (0..n)
        .map(|idx| FeedEpisode {
            idx,
            guid: episode_guid(id, idx, mtime),
            pubdate_epoch: pubdate_epoch(mtime, idx, n),
            title: format!("Chapter {}", idx + 1),
            audio_url: format!("http://host/audio/book/{:03}.m4a", idx + 1),
            byte_length: 1000 + idx as u64,
            duration: 61 * TICKS_PER_SEC * (idx as i128 + 1),
            mime_type: "audio/mp4".to_string(),
        })
        .collect();
    FeedBook {
        id: id.to_string(),
        title: "A Test Book".to_string(),
        author: Some("An Author".to_string()),
        description: Some("A description".to_string()),
        cover_url: Some("http://host/cover.jpg".to_string()),
        source_mtime: mtime,
        self_url: "http://host/feed/book.xml".to_string(),
        episodes,
    }
}

fn sample(n: usize) -> FeedBook {
    sample_book(n, 1_700_000_000)
}

fn errors_of(channel: &Channel) -> Vec<SelfCheckError> {
    match check(channel) {
        Ok(_) => panic!("the channel passed"),
        Err(errors) => errors,
    }
}

fn has(errors: &[SelfCheckError], want: impl Fn(&SelfCheckError) -> bool) -> bool {
    errors.iter().any(want)
}

#[test]
fn guid_is_stable_and_mtime_sensitive() {
    assert_eq!(episode_guid("b", 0, 100), episode_guid("b", 0, 100));
    assert_ne!(episode_guid("b", 0, 100), episode_guid("b", 0, 101));
    assert_ne!(episode_guid("b", 0, 100), episode_guid("b", 1, 100));
    assert_ne!(episode_guid("a", 0, 100), episode_guid("b", 0, 100));
    assert_eq!(
        episode_guid("b", 2, -7),
        blake3::hash(b"b:2:-7").to_hex().to_string()
    );
}

#[test]
fn track_guids_separate_names_that_differ_outside_utf8() {
    let odd_a: &[u8] = b"track\xff.mp3";
    let odd_b: &[u8] = b"track\xfe.mp3";
    assert_ne!(track_guid("book", odd_a, 7), track_guid("book", odd_b, 7));

    assert_eq!(
        track_guid("book", b"01.mp3", 7),
        track_guid("book", b"01.mp3", 7)
    );
    assert_ne!(
        track_guid("book", b"01.mp3", 7),
        track_guid("book", b"01.mp3", 8)
    );
    assert_ne!(
        track_guid("book", b"01.mp3", 7),
        track_guid("book", b"02.mp3", 7)
    );
    assert_ne!(track_guid("a", b"01.mp3", 7), track_guid("b", b"01.mp3", 7));

    assert_eq!(
        track_guid("book", b"01.mp3", 7),
        blake3::hash(b"book:01.mp3:7").to_hex().to_string()
    );
}

#[test]
fn duration_is_hh_mm_ss() {
    assert_eq!(format_itunes_duration(0), "00:00:00");
    assert_eq!(format_itunes_duration(61 * TICKS_PER_SEC), "00:01:01");
    assert_eq!(format_itunes_duration(3661 * TICKS_PER_SEC), "01:01:01");
    assert_eq!(format_itunes_duration(-5 * TICKS_PER_SEC), "00:00:00");
    assert_eq!(format_itunes_duration(TICKS_PER_SEC / 2), "00:00:01");
    assert_eq!(format_itunes_duration(TICKS_PER_SEC / 2 - 1), "00:00:00");
    assert_eq!(format_itunes_duration(360_000 * TICKS_PER_SEC), "100:00:00");
}

#[test]
fn pubdates_are_monotonic_oldest_first_and_in_the_past() {
    let anchor = 1_700_000_000;
    let n = 5;
    let epochs: Vec<i64> = (0..n).map(|i| pubdate_epoch(anchor, i, n)).collect();
    for w in epochs.windows(2) {
        assert!(
            w[0] < w[1],
            "pubDates must strictly increase with chapter idx"
        );
    }
    assert_eq!(
        *epochs.last().unwrap(),
        anchor,
        "last episode anchored to mtime"
    );
    assert!(
        epochs.iter().all(|&e| e <= anchor),
        "all pubDates <= anchor (past)"
    );
    assert_eq!(epochs[0], anchor - 240);
}

#[test]
fn items_publish_the_stored_guid_and_pubdate() {
    let mut book = sample_book(3, 1_700_000_000);
    let stored: Vec<(String, i64)> = book
        .episodes
        .iter()
        .map(|ep| (ep.guid.clone(), ep.pubdate_epoch))
        .collect();
    book.source_mtime = -1;

    let channel = build_channel(&book);
    for (item, (guid, epoch)) in channel.items.iter().zip(&stored) {
        assert_eq!(&item.guid.as_ref().expect("guid present").value, guid);
        assert_eq!(item.pub_date, Some(format_rfc2822(*epoch)));
    }
    let newest = stored.last().expect("three episodes").1;
    assert_eq!(channel.head.pub_date, format_rfc2822(newest));
    assert_eq!(channel.head.last_build_date, format_rfc2822(newest));
    render_checked(&book).expect("a refreshed book still renders a valid feed");
}

#[test]
fn channel_items_carry_required_tags() {
    let book = sample_book(3, 1_700_000_000);
    let channel = build_channel(&book);
    assert_eq!(channel.items.len(), 3);

    for (i, item) in channel.items.iter().enumerate() {
        let enc = item.enclosure.as_ref().expect("enclosure present");
        assert!(!enc.length.is_empty(), "enclosure length non-empty");
        assert_eq!(enc.length, (1000 + i).to_string());
        assert_eq!(enc.mime_type, "audio/mp4");

        let it = item.itunes.as_ref().expect("itunes ext present");
        assert_eq!(it.episode, Some((i + 1).to_string()));
        assert!(it.duration.is_some(), "itunes:duration present");

        let guid = item.guid.as_ref().expect("guid present");
        assert!(!guid.permalink, "guid is not a permalink");
        assert_eq!(guid.value, episode_guid(&book.id, i, book.source_mtime));
    }
}

#[test]
fn rendered_xml_has_namespaces_and_required_elements() {
    let xml = render(&sample_book(2, 1_700_000_000));
    assert_eq!(
        xml.matches("xmlns:itunes").count(),
        1,
        "exactly one itunes ns"
    );
    assert!(xml.contains("xmlns:podcast"), "podcast namespace declared");
    assert!(xml.contains("<itunes:duration>"));
    assert!(xml.contains("<itunes:episode>"));
    assert!(xml.contains("<enclosure "));
    assert!(xml.contains("length=\"1000\""));
    assert!(xml.contains("<pubDate>"));
    assert!(xml.contains("<guid"));
}

#[test]
fn rendered_pubdates_are_present_for_every_item() {
    let xml = render(&sample_book(4, 1_700_000_000));
    assert_eq!(
        xml.matches("<pubDate>").count(),
        4 + 1,
        "one per item + channel"
    );
}

#[test]
fn valid_feed_passes() {
    let channel = build_channel(&sample(3));
    let report = check(&channel).expect("valid feed passes");
    assert_eq!(report.items_checked, 3);
}

fn empty_channel() -> Channel {
    Channel {
        head: ChannelHead {
            title: String::new(),
            link: String::new(),
            description: String::new(),
            language: String::new(),
            pub_date: String::new(),
            last_build_date: String::new(),
            author: None,
            image: None,
            summary: None,
            block: String::new(),
            namespaces: Vec::new(),
        },
        items: Vec::new(),
    }
}

#[test]
fn empty_channel_is_rejected() {
    let errors = errors_of(&empty_channel());
    assert_eq!(errors.len(), 1);
    assert!(matches!(errors[0], SelfCheckError::NoItems));
}

#[test]
fn broken_pubdate_order_is_rejected() {
    let mut channel = build_channel(&sample(3));
    channel.items[1].pub_date = Some("Thu, 01 Jan 1970 00:00:00 +0000".to_string());

    let errors = errors_of(&channel);
    assert!(
        has(&errors, |e| matches!(
            e,
            SelfCheckError::NonMonotonicPubDates { episode: 2 }
        )),
        "expected NonMonotonicPubDates for episode 2, got {errors:?}"
    );
}

#[test]
fn missing_enclosure_length_is_rejected() {
    for bad in ["", " ", "0"] {
        let mut channel = build_channel(&sample(2));
        channel.items[0].enclosure.as_mut().unwrap().length = bad.to_string();

        let errors = errors_of(&channel);
        assert!(
            has(&errors, |e| matches!(
                e,
                SelfCheckError::MissingEnclosureLength { idx: 0 }
            )),
            "expected MissingEnclosureLength at idx 0, got {errors:?}"
        );
    }
}

#[test]
fn missing_itunes_duration_is_rejected() {
    let mut channel = build_channel(&sample(2));
    channel.items[0].itunes.as_mut().unwrap().duration = None;

    let errors = errors_of(&channel);
    assert!(
        has(&errors, |e| matches!(
            e,
            SelfCheckError::MissingItunesDuration { idx: 0 }
        )),
        "expected MissingItunesDuration at idx 0, got {errors:?}"
    );
}

#[test]
fn render_checked_returns_xml_for_a_valid_book() {
    let xml = render_checked(&sample(2)).expect("valid book renders");
    assert!(xml.contains("<itunes:duration>"));
}

#[test]
fn missing_enclosure_is_rejected() {
    let mut channel = build_channel(&sample(2));
    channel.items[0].enclosure = None;
    let errors = errors_of(&channel);
    assert!(
        has(&errors, |e| matches!(
            e,
            SelfCheckError::MissingEnclosure { idx: 0 }
        )),
        "{errors:?}"
    );
}

#[test]
fn empty_enclosure_url_is_rejected() {
    let mut channel = build_channel(&sample(2));
    channel.items[0].enclosure.as_mut().unwrap().url = String::new();
    let errors = errors_of(&channel);
    assert!(
        has(&errors, |e| matches!(
            e,
            SelfCheckError::MissingEnclosureUrl { idx: 0 }
        )),
        "{errors:?}"
    );
}

#[test]
fn missing_itunes_episode_is_rejected() {
    let mut channel = build_channel(&sample(2));
    channel.items[0].itunes.as_mut().unwrap().episode = None;
    let errors = errors_of(&channel);
    assert!(
        has(&errors, |e| matches!(
            e,
            SelfCheckError::MissingItunesEpisode { idx: 0 }
        )),
        "{errors:?}"
    );
}

#[test]
fn invalid_pubdate_is_rejected() {
    let mut channel = build_channel(&sample(2));
    channel.items[0].pub_date = Some("not a real date".to_string());
    let errors = errors_of(&channel);
    assert!(
        has(&errors, |e| matches!(
            e,
            SelfCheckError::BadPubDate { idx: 0, value } if value == "not a real date"
        )),
        "{errors:?}"
    );
}

#[test]
fn render_checked_refuses_a_book_without_episodes() {
    let errors = render_checked(&sample(0)).unwrap_err();
    assert!(matches!(errors[0], SelfCheckError::NoItems));
}

#[test]
fn dates_are_written_as_rfc_2822() {
    assert_eq!(format_rfc2822(0), "Thu, 01 Jan 1970 00:00:00 +0000");
    assert_eq!(format_rfc2822(1_700_000_000), "Tue, 14 Nov 2023 22:13:20 +0000");
    assert_eq!(format_rfc2822(i64::MAX), "");
    assert_eq!(
        podspine::feed::format_itunes_duration(i128::MAX),
        format!("{}:{:02}:{:02}", i64::MAX / 3600, i64::MAX % 3600 / 60, i64::MAX % 60)
    );
}

#[test]
fn printed_channels_hold_head_and_items() {
    let xml = to_xml(build_channel(&sample(1)));
    assert!(xml.contains("<title>A Test Book</title>"));
    assert!(xml.contains("<itunes:block>Yes</itunes:block>"));
    assert!(xml.contains("<itunes:author>An Author</itunes:author>"));
    assert!(xml.contains("<link>http://host/feed/book.xml</link>"));
    assert!(xml.contains("<language>en</language>"));
    assert!(xml.contains("http://host/audio/book/001.m4a"));
    assert!(xml.contains("isPermaLink=\"false\""));
    assert!(xml.contains("href=\"http://host/cover.jpg\""));
    assert_eq!(xml.matches("<item>").count(), 1);
}
