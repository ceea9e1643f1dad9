use transg::stats::{Category, TorrentState, ALL, DOWNLOADING, ERROR, FOLDER, SEEDING, SEPARATOR, STOPPED};
use transg::ui::{
    category_icon, count_label, deletion_message, filter_for, first_selected, folder_choices, peers_label,
    priority_label, selected_ids, sort_order, sort_order_text, status_icon, torrent_matches, tracker_rows,
    SortOrder, TorrentFilter,
};
use transg::{Tracker, TrackerStats};

fn cat(status: i64, is_folder: bool, dir: &str) -> Category {
    Category { name: "c".to_string(), count: 0, status, is_folder, download_dir: dir.to_string() }
}

fn state(status: i64, error: i64, dir: &str) -> TorrentState {
    TorrentState { status, error, download_dir: dir.to_string() }
}

#[test]
fn icons_and_labels() {
    assert_eq!(status_icon(STOPPED), "media-playback-stop");
    assert_eq!(status_icon(1), "view-refresh");
    assert_eq!(status_icon(2), "view-refresh");
    assert_eq!(status_icon(3), "network-receive");
    assert_eq!(status_icon(DOWNLOADING), "arrow-down-symbolic");
    assert_eq!(status_icon(5), "network-transmit");
    assert_eq!(status_icon(SEEDING), "arrow-up-symbolic");
    assert_eq!(category_icon(ALL), "window-restore-symbolic");
    assert_eq!(category_icon(STOPPED), "media-playback-stop-symbolic");
    assert_eq!(category_icon(DOWNLOADING), "arrow-down-symbolic");
    assert_eq!(priority_label(-1), "Low");
    assert_eq!(priority_label(0), "Normal");
    assert_eq!(priority_label(1), "High");
    assert_eq!(priority_label(7), "Normal");
    assert_eq!(peers_label(0), "");
    assert_eq!(peers_label(-3), "");
    assert_eq!(peers_label(12), "12");
    assert_eq!(count_label(0), "(0)");
    assert_eq!(count_label(1234), "(1234)");
}

#[test]
fn filters() {
    assert!(matches!(filter_for(None), TorrentFilter::All));
    assert!(matches!(filter_for(Some(&cat(ALL, false, ""))), TorrentFilter::All));
    assert!(matches!(filter_for(Some(&cat(SEPARATOR, false, ""))), TorrentFilter::All));
    assert!(matches!(filter_for(Some(&cat(ERROR, false, ""))), TorrentFilter::Errors));
    assert!(matches!(filter_for(Some(&cat(SEEDING, false, ""))), TorrentFilter::Status(SEEDING)));
    match filter_for(Some(&cat(FOLDER, true, "/d"))) {
        TorrentFilter::Folder(d) => assert_eq!(d, "/d"),
        _ => panic!("expected a folder filter"),
    }
    let t = state(SEEDING, 0, "/d");
    assert!(torrent_matches(&TorrentFilter::All, &t));
    assert!(torrent_matches(&TorrentFilter::Folder("/d".to_string()), &t));
    assert!(!torrent_matches(&TorrentFilter::Folder("/e".to_string()), &t));
    assert!(torrent_matches(&TorrentFilter::Status(SEEDING), &t));
    assert!(!torrent_matches(&TorrentFilter::Status(STOPPED), &t));
    assert!(!torrent_matches(&TorrentFilter::Errors, &t));
    assert!(torrent_matches(&TorrentFilter::Errors, &state(STOPPED, 3, "")));
    assert!(!torrent_matches(&TorrentFilter::Errors, &state(STOPPED, -3, "")));
}

#[test]
fn sort_orders() {
    // ascending: a row ranks before every row that is not smaller than it
    assert_eq!(sort_order(1, 2, false), SortOrder::Smaller);
    assert_eq!(sort_order(2, 1, false), SortOrder::Larger);
    assert_eq!(sort_order(2, 2, false), SortOrder::Smaller);
    assert_eq!(sort_order(2, 1, true), SortOrder::Smaller);
    assert_eq!(sort_order(1, 2, true), SortOrder::Larger);
    assert_eq!(sort_order(2, 2, true), SortOrder::Equal);
    assert_eq!(sort_order_text("a", "b", false), SortOrder::Smaller);
    assert_eq!(sort_order_text("b", "a", true), SortOrder::Smaller);
    assert_eq!(sort_order_text("B", "a", true), SortOrder::Larger);
    assert_eq!(sort_order_text("x", "x", true), SortOrder::Equal);
}

#[test]
fn selections() {
    assert_eq!(selected_ids(&vec![10, 20, 30], &vec![true, false, true]), vec![10, 30]);
    assert_eq!(selected_ids(&vec![], &vec![]), Vec::<i64>::new());
    let sel = vec![false, false, true, true];
    assert_eq!(first_selected(&sel, 0, 3), Some(2));
    assert_eq!(first_selected(&sel, 3, 5), Some(3));
    assert_eq!(first_selected(&sel, 0, 1), None);
    assert_eq!(first_selected(&sel, 4, 2), None);
}

#[test]
fn deletion_messages() {
    assert_eq!(
        deletion_message(&vec!["Linux ISO".to_string()], true),
        "Do you want to delete 'Linux ISO' with all local data?"
    );
    assert_eq!(deletion_message(&vec!["A".to_string()], false), "Do you want to delete 'A' ?");
    assert_eq!(
        deletion_message(&vec!["A".to_string(), "B".to_string()], true),
        "Do you want to delete 2 torrents and all their data?"
    );
    assert_eq!(deletion_message(&vec![], false), "Do you want to delete 0 torrents?");
}

#[test]
fn folder_menu() {
    let cats = vec![cat(ALL, false, ""), cat(FOLDER, true, "/a"), cat(SEEDING, false, "x"), cat(FOLDER, true, "/b")];
    assert_eq!(folder_choices(&cats), vec!["/a", "/b"]);
}

#[test]
fn trackers_pair_with_stats() {
    let trackers = vec![
        Tracker { id: 1, announce: "http://t1/a".to_string(), scrape: "http://t1/s".to_string(), tier: 0 },
        Tracker { id: 2, announce: "http://t2/a".to_string(), scrape: "".to_string(), tier: 1 },
    ];
    let stats = vec![TrackerStats {
        leecher_count: 4,
        id: 1,
        host: "t1".to_string(),
        scrape: "http://t1/s".to_string(),
        seeder_count: 9,
        last_announce_peer_count: 13,
        last_announce_result: "Success".to_string(),
        last_announce_time: 1_600_000_000,
    }];
    let rows = tracker_rows(&trackers, &stats);
    assert_eq!(rows.len(), 1);
    assert_eq!(rows[0].id, 1);
    assert_eq!(rows[0].announce, "http://t1/a");
    assert_eq!(rows[0].host, "t1");
    assert_eq!(rows[0].seeder_count, 9);
    assert_eq!(rows[0].last_announce_time, 1_600_000_000);
}
