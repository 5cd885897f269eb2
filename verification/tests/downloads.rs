use imgpipe::download::{collect_downloads, last_segment_of, plan_downloads, DownloadJob};
use imgpipe::text::{join_path, str_starts_with};
use imgpipe::urls::UrlEntry;

#[test]
fn last_segment_takes_the_final_nonempty_piece() {
    assert_eq!(last_segment_of("/img/x.jpg"), Some("x.jpg".to_string()));
    assert_eq!(last_segment_of("/a//"), Some("a".to_string()));
    assert_eq!(last_segment_of("plain"), Some("plain".to_string()));
    assert_eq!(last_segment_of("/"), None);
    assert_eq!(last_segment_of("///"), None);
    assert_eq!(last_segment_of(""), None);
}

#[test]
fn plan_keeps_segmented_urls_and_sets_aside_the_rest() {
    let entries = vec![
        UrlEntry {
            url: "https://example.com/pics/cat.jpg".to_string(),
            path: "/pics/cat.jpg".to_string(),
        },
        UrlEntry {
            url: "https://example.com/".to_string(),
            path: "/".to_string(),
        },
        UrlEntry {
            url: "https://example.com/dog.png".to_string(),
            path: "/dog.png".to_string(),
        },
    ];
    let (jobs, skipped) = plan_downloads(&entries);
    assert_eq!(jobs.len(), 2);
    assert_eq!(jobs[0].url, "https://example.com/pics/cat.jpg");
    assert_eq!(jobs[0].filename, "cat.jpg");
    assert_eq!(jobs[1].filename, "dog.png");
    assert_eq!(skipped.len(), 1);
    assert_eq!(skipped[0].url, "https://example.com/");
}

#[test]
fn one_failed_fetch_does_not_block_the_others() {
    // Three URLs, one of which fails: exactly two files appear.
    let jobs = vec![
        DownloadJob {
            url: "https://example.com/a.jpg".to_string(),
            filename: "a.jpg".to_string(),
        },
        DownloadJob {
            url: "https://example.com/missing.jpg".to_string(),
            filename: "missing.jpg".to_string(),
        },
        DownloadJob {
            url: "https://example.com/b.jpg".to_string(),
            filename: "b.jpg".to_string(),
        },
    ];
    let outcomes = vec![Some(vec![1u8, 2, 3]), None, Some(vec![9u8])];
    let saved = collect_downloads(&jobs, outcomes);
    assert_eq!(saved.len(), 2);
    assert_eq!(saved[0].name, "a.jpg");
    assert_eq!(saved[0].bytes, vec![1u8, 2, 3]);
    assert_eq!(saved[1].name, "b.jpg");
    assert_eq!(saved[1].bytes, vec![9u8]);
}

#[test]
fn distinct_segments_give_one_file_each() {
    let jobs = vec![
        DownloadJob {
            url: "https://a.net/x.jpg".to_string(),
            filename: "x.jpg".to_string(),
        },
        DownloadJob {
            url: "https://b.net/y.jpg".to_string(),
            filename: "y.jpg".to_string(),
        },
    ];
    let outcomes = vec![Some(vec![7u8]), Some(vec![8u8])];
    let saved = collect_downloads(&jobs, outcomes);
    assert_eq!(saved.len(), 2);
    assert_ne!(saved[0].name, saved[1].name);
    assert_eq!(saved[0].bytes, vec![7u8]);
    assert_eq!(saved[1].bytes, vec![8u8]);
}

#[test]
fn path_join_and_prefix_helpers() {
    assert_eq!(join_path("download_path", "cat.jpg"), "download_path/cat.jpg");
    assert!(str_starts_with("abc123.jpg", "abc1"));
    assert!(!str_starts_with("abc", "abc1"));
    assert!(str_starts_with("anything", ""));
}
