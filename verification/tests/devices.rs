//! Who is reading: what a request says of its device, and who is connected.

use narrator::api::device::{
    clean_id, query_value, Connected, Device, Roster, DEVICE_HEADER, DEVICE_NAME_HEADER, DEVICE_NAME_QUERY,
    DEVICE_QUERY, MAX_ID, MAX_NAME,
};
use narrator::api::{
    accepts_gzip, is_hashed_asset, ok, parse_range, ranged, web_cache_control, Offer, NOTE_BODY_LIMIT,
};

/// The device that a request with these headers names.
fn from_headers(headers: &[(&str, &str)]) -> Device {
    let find = |k: &str| headers.iter().find(|h| h.0 == k).map(|h| h.1);
    Device::from_headers(find(DEVICE_HEADER), find(DEVICE_NAME_HEADER))
}

fn from_parts(headers: &[(&str, &str)], query: Option<&str>) -> Device {
    let find = |k: &str| headers.iter().find(|h| h.0 == k).map(|h| h.1);
    Device::from_parts(find(DEVICE_HEADER), find(DEVICE_NAME_HEADER), query)
}

#[test]
fn no_headers_is_the_legacy_device_not_an_error() {
    let d = from_headers(&[]);
    assert_eq!(d, Device::legacy());
    assert!(!d.known());
}

#[test]
fn a_uuid_survives_intact() {
    let id = "2f8a1c94-7b3d-4e21-9c55-0a1b2c3d4e5f";
    let d = from_headers(&[(DEVICE_HEADER, id)]);
    assert_eq!(d.id, id);
    assert!(d.known());
}

#[test]
fn an_id_is_cleaned_rather_than_refused() {
    // Quotes, spaces and slashes all go; what is left is still a usable
    // identity, which is the point.
    let d = from_headers(&[(DEVICE_HEADER, "ab c\"d/e.f-1_2")]);
    assert_eq!(d.id, "abcdef-1_2");
    assert!(d.known());
}

#[test]
fn an_absurd_id_is_truncated_not_trusted() {
    let long = "a".repeat(500);
    let d = from_headers(&[(DEVICE_HEADER, &long)]);
    assert_eq!(d.id.len(), MAX_ID);
}

#[test]
fn an_id_that_cleans_to_nothing_is_the_legacy_device() {
    let d = from_headers(&[(DEVICE_HEADER, "!!!///")]);
    assert!(!d.known());
    assert_eq!(d.id, "");
}

#[test]
fn a_name_keeps_its_spaces_and_loses_its_edges() {
    let d = from_headers(&[
        (DEVICE_HEADER, "x1"),
        (DEVICE_NAME_HEADER, "  Fernando's iPhone  "),
    ]);
    assert_eq!(d.name, "Fernando's iPhone");
}

#[test]
fn a_name_is_capped() {
    let d = from_headers(&[(DEVICE_NAME_HEADER, &"n".repeat(200))]);
    assert_eq!(d.name.len(), MAX_NAME);
}

#[test]
fn the_query_answers_when_there_is_no_header() {
    let d = from_parts(&[], Some("device=abc123&device_name=iPhone"));
    assert_eq!(d.id, "abc123");
    assert_eq!(d.name, "iPhone");
}

#[test]
fn a_header_beats_a_query() {
    let d = from_parts(&[(DEVICE_HEADER, "fromheader")], Some("device=fromquery"));
    assert_eq!(d.id, "fromheader");
}

#[test]
fn a_percent_encoded_name_comes_back_whole() {
    let d = from_parts(&[], Some("device=x&device_name=Fernando%27s%20iPad"));
    assert_eq!(d.name, "Fernando's iPad");
}

#[test]
fn an_unmodelled_query_key_does_not_lose_the_id() {
    // A parameter that nobody knows must not cost the device its identity.
    let d = from_parts(&[], Some("since=7&device=keepme&weird"));
    assert_eq!(d.id, "keepme");
}

#[test]
fn no_query_at_all_is_the_legacy_device() {
    assert!(!from_parts(&[], None).known());
}

#[test]
fn a_clean_id_cleans_to_itself() {
    let once = clean_id("ab c\"d/e.f-1_2\u{7}\u{e9}");
    assert_eq!(clean_id(&once), once);
    assert_eq!(query_value("device=%41%42", DEVICE_QUERY), "AB");
    assert_eq!(query_value("device=%41%42", DEVICE_NAME_QUERY), "");
}

// ------------------------------------------------------------------- the roster

fn dev(id: &str) -> Device {
    Device { id: id.into(), name: "iPhone".into() }
}

const MINUTE: u64 = 60_000_000_000;

#[test]
fn an_anonymous_device_is_never_on_the_roster() {
    // It cannot be taken off it either, so putting it on would leave a phantom
    // reader to be rendered for, forever.
    let mut r = Roster::new();
    r.touch(&Device::legacy(), Some("b.epub".into()), 1);
    assert!(r.is_empty());
    assert!(Connected::new(&mut Roster::new(), &Device::legacy(), None, 1).is_none());
}

#[test]
fn a_stream_holds_a_device_and_dropping_it_lets_go() {
    let mut r = Roster::new();
    let c = Connected::new(&mut r, &dev("a"), Some("book.epub".into()), 1).expect("connected");
    assert_eq!(r.len(), 1);
    assert_eq!(r.active(MINUTE, 1)[0].1.book.as_deref(), Some("book.epub"));
    c.leave(&mut r);
    assert!(r.is_empty(), "leaving is the only way off the roster");
}

#[test]
fn touching_keeps_the_book_when_a_later_call_does_not_name_one() {
    // A poll carries a device and no book; it must not blank what opening one
    // established.
    let mut r = Roster::new();
    r.touch(&dev("a"), Some("book.epub".into()), 1);
    r.touch(&dev("a"), None, 2);
    assert_eq!(r.active(MINUTE, 2)[0].1.book.as_deref(), Some("book.epub"));
}

#[test]
fn active_is_newest_first_and_forgets_nobody_inside_the_window() {
    let mut r = Roster::new();
    r.touch(&dev("a"), None, 1);
    r.touch(&dev("b"), None, 2);
    let a = r.active(MINUTE, 3);
    assert_eq!(a.len(), 2);
    assert_eq!(a[0].0, "b", "b was touched last");
}

#[test]
fn a_window_of_nothing_hides_everyone() {
    let mut r = Roster::new();
    r.touch(&dev("a"), None, 0);
    assert!(r.active(1_000_000, 5_000_000).is_empty());
    assert_eq!(r.len(), 1, "still connected, just not recently heard from");
}

#[test]
fn a_device_stands_once_on_the_roster() {
    let mut r = Roster::new();
    r.touch(&dev("a"), None, 1);
    r.touch(&dev("a"), None, 9);
    assert_eq!(r.len(), 1);
    let (_, p) = &r.active(MINUTE, 9)[0];
    assert_eq!((p.since, p.last_seen), (1, 9));
    r.drop_device("b");
    assert_eq!(r.len(), 1);
    r.drop_device("a");
    assert!(r.is_empty());
}

// -------------------------------------------------------------------- responses

#[test]
fn ranges_parse_the_forms_ios_actually_sends() {
    assert_eq!(parse_range("bytes=0-", 100), Some(Ok((0, 99))));
    assert_eq!(parse_range("bytes=0-0", 100), Some(Ok((0, 0))));
    assert_eq!(parse_range("bytes=10-19", 100), Some(Ok((10, 19))));
    assert_eq!(parse_range("bytes=-10", 100), Some(Ok((90, 99))));
    assert_eq!(parse_range("bytes=90-1000", 100), Some(Ok((90, 99))));
    assert_eq!(parse_range("bytes=100-", 100), Some(Err(())));
    assert_eq!(parse_range("bytes=50-20", 100), Some(Err(())));
    // An unknown unit is ignored, not rejected.
    assert_eq!(parse_range("items=0-5", 100), None);
    assert_eq!(parse_range("nonsense", 100), None);
}

#[test]
fn a_window_is_answered_with_its_bytes() {
    let whole = ranged(100, false, "");
    assert_eq!((whole.status, whole.start, whole.len, whole.body), (200, 0, 100, true));
    let part = ranged(100, false, "bytes=10-19");
    assert_eq!((part.status, part.start, part.len), (206, 10, 10));
    assert_eq!(part.content_range.as_deref(), Some("bytes 10-19/100"));
    let bad = ranged(100, false, "bytes=100-");
    assert_eq!(bad.status, 416);
    assert_eq!(bad.content_range.as_deref(), Some("bytes */100"));
    assert!(!ranged(100, true, "bytes=10-19").body);
}

#[test]
fn only_vites_hashed_output_is_pinned_forever() {
    // The three files that a build puts in assets.
    for p in [
        "/assets/index-uhN6I5NN.js",
        "/assets/index-CO5pRAZL.css",
        "/assets/flush-5A8NmuWf.js",
    ] {
        assert!(is_hashed_asset(p), "{p} should be immutable");
    }
    // A hash that holds a `-` still lines up, because the separator is found by
    // counting back from the extension.
    assert!(is_hashed_asset("/assets/index-CO5p-AZL.js"));
    // Everything the shell is made of, and anything under assets/ that does not
    // carry a hash: a revalidation, not a year.
    for p in [
        "/",
        "/index.html",
        "/sw.js",
        "/registerSW.js",
        "/workbox-c85e56c8.js",
        "/manifest.webmanifest",
        "/icon-512.png",
        "/some/deep/route",
        "/assets/logo.svg",
        "/assets/index.js",
        "/assets/index-short.js",
        "/assets/noextension",
        "/assets/index-uhN6I5NN.js.map",
    ] {
        assert!(!is_hashed_asset(p), "{p} should not be immutable");
    }
}

#[test]
fn the_shell_revalidates_and_the_assets_do_not() {
    assert_eq!(web_cache_control("/"), "no-cache");
    assert_eq!(web_cache_control("/sw.js"), "no-cache");
    assert_eq!(
        web_cache_control("/assets/index-uhN6I5NN.js"),
        "public, max-age=31536000, immutable"
    );
}

#[test]
fn gzip_is_sent_to_those_that_take_it() {
    assert_eq!(accepts_gzip("gzip, br"), Offer::Taken);
    assert_eq!(accepts_gzip("br"), Offer::Nothing);
    assert_eq!(accepts_gzip(""), Offer::Nothing);
    assert_eq!(accepts_gzip("gzip;q=0"), Offer::Weighed("0".to_string()));
    assert!(ok().ok);
    assert_eq!(NOTE_BODY_LIMIT, 64 * 1024 * 1024);
}
