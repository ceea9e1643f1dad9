use transg::stats::{
    empty_group_stats, process_folder, tally_torrents, update_categories, update_torrent_stats, Category,
    TorrentGroupStats, TorrentState, ALL, DOWNLOADING, DOWN_QUEUED, ERROR, FOLDER, SEEDING, SEED_QUEUED,
    SEPARATOR, STOPPED, VERIFYING, VERIFY_QUEUED,
};

fn row(status: i64, error: i64, dir: &str) -> TorrentState {
    TorrentState { status, error, download_dir: dir.to_string() }
}

fn cat(name: &str, status: i64, is_folder: bool, dir: &str) -> Category {
    Category { name: name.to_string(), count: 99, status, is_folder, download_dir: dir.to_string() }
}

#[test]
fn process_folder_examples() {
    assert_eq!(process_folder("/home/u/Downloads/movies".to_string()), "movies");
    assert_eq!(process_folder("/data/torrents/linux".to_string()), "torrents/linux");
    assert_eq!(process_folder("plain".to_string()), "plain");
    assert_eq!(process_folder("/top".to_string()), "/top");
    assert_eq!(process_folder("a/".to_string()), "a/");
    assert_eq!(process_folder("Downloads/x".to_string()), "x");
    assert_eq!(process_folder("".to_string()), "");
}

#[test]
fn empty_stats_are_zero() {
    let s = empty_group_stats();
    assert_eq!(s.num_total, 0);
    assert_eq!(s.num_error, 0);
    assert!(s.folders.is_empty());
}

#[test]
fn tally_counts_statuses_errors_and_folders() {
    let rows = vec![
        row(STOPPED, 0, "/a"),
        row(DOWNLOADING, 1, "/b"),
        row(DOWNLOADING, 0, "/a"),
        row(SEEDING, 0, "/a"),
        row(SEED_QUEUED, 2, "/c"),
        row(VERIFYING, 0, "/b"),
        row(VERIFY_QUEUED, 0, "/b"),
        row(DOWN_QUEUED, 0, "/b"),
        row(42, 0, "/b"),
    ];
    let s = tally_torrents(&rows);
    assert_eq!(s.num_total, 9);
    assert_eq!(s.num_error, 2);
    assert_eq!(s.num_stopped, 1);
    assert_eq!(s.num_downloading, 2);
    assert_eq!(s.num_seeding, 1);
    assert_eq!(s.num_queue_up, 1);
    assert_eq!(s.num_checking, 1);
    assert_eq!(s.num_queue_checking, 1);
    assert_eq!(s.num_queue_down, 1);
    // a folder counts one more than its torrents
    assert_eq!(
        s.folders,
        vec![("/a".to_string(), 4), ("/b".to_string(), 6), ("/c".to_string(), 2)]
    );
}

fn stats_with(folders: Vec<(&str, u64)>) -> TorrentGroupStats {
    let mut s = empty_group_stats();
    s.num_total = 10;
    s.num_downloading = 3;
    s.num_error = 1;
    s.num_seeding = 4;
    s.folders = folders.into_iter().map(|(d, n)| (d.to_string(), n)).collect();
    s
}

#[test]
fn update_categories_refreshes_counts_and_folders() {
    let s = stats_with(vec![("/x", 3), ("/y/Downloads/z", 2)]);
    let cats = vec![
        cat("All", ALL, false, ""),
        cat("Downloading", DOWNLOADING, false, ""),
        cat("Error", ERROR, false, ""),
        cat("", SEPARATOR, false, ""),
        cat("x", FOLDER, true, "/x"),
        cat("gone", FOLDER, true, "/gone"),
        cat("x again", FOLDER, true, "/x"),
    ];
    let r = update_categories(&s, cats);
    let view: Vec<(String, u64, i64, bool, String)> = r
        .iter()
        .map(|c| (c.name.clone(), c.count, c.status, c.is_folder, c.download_dir.clone()))
        .collect();
    assert_eq!(
        view,
        vec![
            ("All".to_string(), 10, ALL, false, "".to_string()),
            ("Downloading".to_string(), 3, DOWNLOADING, false, "".to_string()),
            ("Error".to_string(), 1, ERROR, false, "".to_string()),
            ("".to_string(), 0, SEPARATOR, false, "".to_string()),
            ("x".to_string(), 3, FOLDER, true, "/x".to_string()),
            ("z".to_string(), 2, FOLDER, true, "/y/Downloads/z".to_string()),
        ]
    );
}

#[test]
fn update_torrent_stats_end_to_end() {
    let rows = vec![row(SEEDING, 0, "/m/n"), row(SEEDING, 0, "/m/n"), row(STOPPED, 0, "/p")];
    let cats = vec![cat("All", ALL, false, ""), cat("Seeding", SEEDING, false, ""), cat("old", FOLDER, true, "/old")];
    let r = update_torrent_stats(&rows, cats);
    assert_eq!(r.len(), 4);
    assert_eq!((r[0].count, r[1].count), (3, 2));
    let folders: Vec<(String, u64, String)> =
        r[2..].iter().map(|c| (c.name.clone(), c.count, c.download_dir.clone())).collect();
    // new folders come in the order of their first torrent
    assert_eq!(
        folders,
        vec![("m/n".to_string(), 3, "/m/n".to_string()), ("/p".to_string(), 2, "/p".to_string())]
    );
    assert!(r[2..].iter().all(|c| c.is_folder && c.status == FOLDER));
}

#[test]
fn initial_sidebar() {
    let cats = transg::stats::initial_categories();
    let names: Vec<&str> = cats.iter().map(|c| c.name.as_str()).collect();
    assert_eq!(
        names,
        vec![
            "All",
            "Paused",
            "Verification queued",
            "Checking",
            "Download queued",
            "Downloading",
            "Seeding queued",
            "Seeding",
            "Error",
            "-"
        ]
    );
    let statuses: Vec<i64> = cats.iter().map(|c| c.status).collect();
    assert_eq!(statuses, vec![ALL, STOPPED, VERIFY_QUEUED, VERIFYING, DOWN_QUEUED, DOWNLOADING, SEED_QUEUED, SEEDING, ERROR, SEPARATOR]);
    assert!(cats.iter().all(|c| c.count == 0 && !c.is_folder && c.download_dir.is_empty()));
}

#[test]
fn recount_every_fourth_update() {
    let due: Vec<u64> = (0..10).filter(|n| transg::stats::recount_due(*n)).collect();
    assert_eq!(due, vec![0, 4, 8]);
}

#[test]
fn tally_totals_add_up() {
    let rows = vec![row(STOPPED, 0, "/a"), row(SEEDING, 0, "/b"), row(DOWNLOADING, 0, "/a"), row(SEEDING, 1, "/c")];
    let s = tally_torrents(&rows);
    let statuses = s.num_stopped
        + s.num_queue_checking
        + s.num_checking
        + s.num_queue_down
        + s.num_downloading
        + s.num_queue_up
        + s.num_seeding;
    assert_eq!(statuses, s.num_total);
    let folder_sum: u64 = s.folders.iter().map(|f| f.1).sum();
    assert_eq!(folder_sum, rows.len() as u64 + s.folders.len() as u64);
}
