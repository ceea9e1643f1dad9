//! The decisions of the user interface: icons and labels, the filter a
//! sidebar category selects, the order of the sort menu, the confirmation
//! text of a removal and the rows of the details pane.
use vstd::prelude::*;
use crate::rpc::{Tracker, TrackerStats};
use crate::stats::{Category, TorrentState, count_errors, count_in_dir, count_status, ALL, DOWNLOADING, DOWN_QUEUED, ERROR, FOLDER, SEEDING,
    SEED_QUEUED, SEPARATOR, STOPPED, VERIFYING, VERIFY_QUEUED};
use crate::text::{int_text, nat_text, push_char, push_i64, push_str, push_u64, text_lt, text_less, chars_of,
    text_of};

verus! {

/// The icon of a torrent's status in the list.
pub open spec fn status_icon_model(status: i64) -> Seq<char> {
    if status == STOPPED {
        "media-playback-stop"@
    } else if status == VERIFY_QUEUED || status == VERIFYING {
        "view-refresh"@
    } else if status == DOWN_QUEUED {
        "network-receive"@
    } else if status == DOWNLOADING {
        "arrow-down-symbolic"@
    } else if status == SEED_QUEUED {
        "network-transmit"@
    } else if status == SEEDING {
        "arrow-up-symbolic"@
    } else {
        "dialog-question"@
    }
}

pub fn status_icon(status: i64) -> (r: String)
    ensures
        r@ == status_icon_model(status),
{
    if status == STOPPED {
        text_of("media-playback-stop")
    } else if status == VERIFY_QUEUED || status == VERIFYING {
        text_of("view-refresh")
    } else if status == DOWN_QUEUED {
        text_of("network-receive")
    } else if status == DOWNLOADING {
        text_of("arrow-down-symbolic")
    } else if status == SEED_QUEUED {
        text_of("network-transmit")
    } else if status == SEEDING {
        text_of("arrow-up-symbolic")
    } else {
        text_of("dialog-question")
    }
}

/// The icon of a sidebar category.
pub open spec fn category_icon_model(status: i64) -> Seq<char> {
    if status == ALL {
        "window-restore-symbolic"@
    } else if status == STOPPED {
        "media-playback-stop-symbolic"@
    } else if status == VERIFY_QUEUED || status == VERIFYING {
        "view-refresh-symbolic"@
    } else if status == DOWN_QUEUED {
        "network-receive-symbolic"@
    } else if status == DOWNLOADING {
        "arrow-down-symbolic"@
    } else if status == SEED_QUEUED {
        "network-transmit-symbolic"@
    } else if status == SEEDING {
        "arrow-up-symbolic"@
    } else if status == FOLDER {
        "folder-symbolic"@
    } else if status == ERROR {
        "dialog-error-symbolic"@
    } else if status == SEPARATOR {
        seq![]
    } else {
        "dialog-question-symbolic"@
    }
}

pub fn category_icon(status: i64) -> (r: String)
    ensures
        r@ == category_icon_model(status),
{
    if status == ALL {
        text_of("window-restore-symbolic")
    } else if status == STOPPED {
        text_of("media-playback-stop-symbolic")
    } else if status == VERIFY_QUEUED || status == VERIFYING {
        text_of("view-refresh-symbolic")
    } else if status == DOWN_QUEUED {
        text_of("network-receive-symbolic")
    } else if status == DOWNLOADING {
        text_of("arrow-down-symbolic")
    } else if status == SEED_QUEUED {
        text_of("network-transmit-symbolic")
    } else if status == SEEDING {
        text_of("arrow-up-symbolic")
    } else if status == FOLDER {
        text_of("folder-symbolic")
    } else if status == ERROR {
        text_of("dialog-error-symbolic")
    } else if status == SEPARATOR {
        String::new()
    } else {
        text_of("dialog-question-symbolic")
    }
}

/// The label of a file's download priority.
pub open spec fn priority_label_model(priority: i8) -> Seq<char> {
    if priority == -1 {
        "Low"@
    } else if priority == 1 {
        "High"@
    } else {
        "Normal"@
    }
}

pub fn priority_label(priority: i8) -> (r: String)
    ensures
        r@ == priority_label_model(priority),
{
    if priority == -1 {
        text_of("Low")
    } else if priority == 0 {
        text_of("Normal")
    } else if priority == 1 {
        text_of("High")
    } else {
        text_of("Normal")
    }
}

/// The number of connected peers, empty when there are none.
pub fn peers_label(n: i64) -> (r: String)
    ensures
        r@ == (if n > 0 { int_text(n as int) } else { seq![] }),
{
    let mut s = String::new();
    if n > 0 {
        push_i64(&mut s, n);
        assert(s@ =~= int_text(n as int));
    }
    s
}

/// The count of a sidebar category, in parentheses.
pub fn count_label(count: u64) -> (r: String)
    ensures
        r@ == seq!['('] + nat_text(count as nat) + seq![')'],
{
    let mut s = String::new();
    push_char(&mut s, '(');
    push_u64(&mut s, count);
    push_char(&mut s, ')');
    assert(s@ =~= seq!['('] + nat_text(count as nat) + seq![')']);
    s
}

/// Which torrents the list shows.
pub enum TorrentFilter {
    All,
    /// Torrents downloading to this folder.
    Folder(String),
    /// Torrents in error.
    Errors,
    /// Torrents with this status.
    Status(i64),
}

/// The filter that selecting a sidebar category sets: all torrents for
/// "All", a separator or no selection; the folder's torrents for a folder;
/// the torrents in error for "Error"; otherwise those of the status.
pub fn filter_for(selected: Option<&Category>) -> (r: TorrentFilter)
    ensures
        match selected {
            None => r == TorrentFilter::All,
            Some(c) => if c.status == ALL || c.status == SEPARATOR {
                r == TorrentFilter::All
            } else if c.is_folder {
                r matches TorrentFilter::Folder(d) && d@ == c.download_dir@
            } else if c.status == ERROR {
                r == TorrentFilter::Errors
            } else {
                r == TorrentFilter::Status(c.status)
            },
        },
{
    match selected {
        None => TorrentFilter::All,
        Some(c) => {
            if c.status == ALL || c.status == SEPARATOR {
                TorrentFilter::All
            } else if c.is_folder {
                TorrentFilter::Folder(c.download_dir.clone())
            } else if c.status == ERROR {
                TorrentFilter::Errors
            } else {
                TorrentFilter::Status(c.status)
            }
        },
    }
}

/// Whether the list shows a torrent under a filter (a torrent is in error
/// when its error code is positive).
pub open spec fn shows(f: TorrentFilter, t: TorrentState) -> bool {
    match f {
        TorrentFilter::All => true,
        TorrentFilter::Folder(d) => t.download_dir@ == d@,
        TorrentFilter::Errors => t.error > 0,
        TorrentFilter::Status(s) => t.status == s,
    }
}

pub fn torrent_matches(f: &TorrentFilter, t: &TorrentState) -> (r: bool)
    ensures
        r == shows(*f, *t),
{
    match f {
        TorrentFilter::All => true,
        TorrentFilter::Folder(d) => t.download_dir == *d,
        TorrentFilter::Errors => t.error > 0,
        TorrentFilter::Status(s) => t.status == *s,
    }
}

/// The place of one row against another in a sort.
#[derive(Clone, Copy, PartialEq, Eq, Structural, Debug)]
pub enum SortOrder {
    Smaller,
    Equal,
    Larger,
}

/// The sort menu's comparison: descending sorts put larger values first;
/// ascending ones rank a row before every row that is not smaller (so two
/// equal rows each rank before the other).
pub open spec fn sort_order_model(x_gt_y: bool, x_lt_y: bool, desc: bool) -> SortOrder {
    if desc == x_gt_y {
        SortOrder::Smaller
    } else if desc == x_lt_y {
        SortOrder::Larger
    } else {
        SortOrder::Equal
    }
}

/// Compares two numeric properties for the sort menu.
pub fn sort_order(x: i64, y: i64, desc: bool) -> (r: SortOrder)
    ensures
        r == sort_order_model(x > y, x < y, desc),
{
    if desc == (x > y) {
        SortOrder::Smaller
    } else if desc == (x < y) {
        SortOrder::Larger
    } else {
        SortOrder::Equal
    }
}

/// Compares two text properties for the sort menu, in the order of `text_lt`.
pub fn sort_order_text(x: &str, y: &str, desc: bool) -> (r: SortOrder)
    ensures
        r == sort_order_model(text_lt(y@, x@), text_lt(x@, y@), desc),
{
    let a = chars_of(x);
    let b = chars_of(y);
    let gt = text_less(&b, &a);
    let lt = text_less(&a, &b);
    if desc == gt {
        SortOrder::Smaller
    } else if desc == lt {
        SortOrder::Larger
    } else {
        SortOrder::Equal
    }
}

/// The ids of the selected rows, in order.
pub fn selected_ids(ids: &Vec<i64>, selected: &Vec<bool>) -> (r: Vec<i64>)
    requires
        ids.len() == selected.len(),
    ensures
        r@ == selected_ids_model(ids@, selected@),
{
    let mut r: Vec<i64> = Vec::new();
    let mut i: usize = 0;
    assert(ids@.take(0) =~= seq![]);
    while i < ids.len()
        invariant
            i <= ids.len(),
            ids.len() == selected.len(),
            r@ == selected_ids_model(ids@.take(i as int), selected@.take(i as int)),
        decreases ids.len() - i,
    {
        proof {
            assert(ids@.take(i as int + 1).drop_last() =~= ids@.take(i as int));
            assert(selected@.take(i as int + 1).drop_last() =~= selected@.take(i as int));
        }
        if selected[i] {
            r.push(ids[i]);
        }
        i = i + 1;
    }
    assert(ids@.take(ids.len() as int) =~= ids@);
    assert(selected@.take(ids.len() as int) =~= selected@);
    r
}

/// The ids whose flag is set, in order.
pub open spec fn selected_ids_model(ids: Seq<i64>, selected: Seq<bool>) -> Seq<i64>
    decreases ids.len(),
{
    if ids.len() == 0 {
        seq![]
    } else {
        let prev = selected_ids_model(ids.drop_last(), selected.drop_last());
        if selected.last() {
            prev.push(ids.last())
        } else {
            prev
        }
    }
}

/// The question asked before removing torrents: the torrent's name when
/// there is one, otherwise how many; and whether their data goes too.
pub open spec fn deletion_message_model(names: Seq<Seq<char>>, with_data: bool) -> Seq<char> {
    if names.len() == 1 {
        "Do you want to delete '"@ + names[0] + "' "@ + (if with_data { "with all local data?"@ } else { "?"@ })
    } else {
        "Do you want to delete "@ + nat_text(names.len()) + " "@ + (if with_data {
            "torrents and all their data?"@
        } else {
            "torrents?"@
        })
    }
}

pub fn deletion_message(names: &Vec<String>, with_data: bool) -> (r: String)
    ensures
        r@ == deletion_message_model(names@.map_values(|s: String| s@), with_data),
{
    let mut s = String::new();
    if names.len() == 1 {
        push_str(&mut s, "Do you want to delete '");
        push_str(&mut s, names[0].as_str());
        push_str(&mut s, "' ");
        if with_data {
            push_str(&mut s, "with all local data?");
        } else {
            push_str(&mut s, "?");
        }
    } else {
        push_str(&mut s, "Do you want to delete ");
        push_u64(&mut s, names.len() as u64);
        push_str(&mut s, " ");
        if with_data {
            push_str(&mut s, "torrents and all their data?");
        } else {
            push_str(&mut s, "torrents?");
        }
    }
    assert(s@ =~= deletion_message_model(names@.map_values(|s: String| s@), with_data));
    s
}

/// The first selected row among positions `pos..=pos + n` (a position past
/// the end of the list is not selected). The scan counts in `u32`, so the
/// range must end below `u32::MAX` unless a selected row stops it earlier.
pub fn first_selected(selected: &Vec<bool>, pos: u32, n: u32) -> (r: Option<u32>)
    requires
        pos + n <= u32::MAX,
        pos + n == u32::MAX ==> exists|j: int|
            pos <= j <= pos + n && j < selected.len() && #[trigger] selected@[j],
    ensures
        match r {
            Some(i) => pos <= i <= pos + n && i < selected.len() && selected@[i as int] && forall|j: int|
                pos <= j < i ==> !(j < selected.len() && #[trigger] selected@[j]),
            None => forall|j: int| pos <= j <= pos + n ==> !(j < selected.len() && #[trigger] selected@[j]),
        },
{
    let last: u64 = pos as u64 + n as u64;
    let mut i: u64 = pos as u64;
    while i <= last
        invariant
            pos <= i <= last + 1,
            last == pos + n,
            last <= u32::MAX,
            last == u32::MAX ==> exists|j: int|
                pos <= j <= last && j < selected.len() && #[trigger] selected@[j],
            forall|j: int| pos <= j < i ==> !(j < selected.len() && #[trigger] selected@[j]),
        decreases last + 1 - i,
    {
        if (i as usize) < selected.len() && selected[i as usize] {
            return Some(i as u32);
        }
        i = i + 1;
    }
    None
}

/// The folders of the sidebar, in order: where a torrent can be moved.
pub open spec fn folder_choices_model(cats: Seq<Category>) -> Seq<Seq<char>>
    decreases cats.len(),
{
    if cats.len() == 0 {
        seq![]
    } else {
        let prev = folder_choices_model(cats.drop_last());
        if cats.last().is_folder {
            prev.push(cats.last().download_dir@)
        } else {
            prev
        }
    }
}

pub fn folder_choices(cats: &Vec<Category>) -> (r: Vec<String>)
    ensures
        r@.map_values(|s: String| s@) == folder_choices_model(cats@),
{
    let mut r: Vec<String> = Vec::new();
    let mut i: usize = 0;
    assert(cats@.take(0) =~= seq![]);
    assert(r@.map_values(|s: String| s@) =~= seq![]);
    while i < cats.len()
        invariant
            i <= cats.len(),
            r@.map_values(|s: String| s@) == folder_choices_model(cats@.take(i as int)),
        decreases cats.len() - i,
    {
        proof {
            assert(cats@.take(i as int + 1).drop_last() =~= cats@.take(i as int));
        }
        let ghost before = r@;
        if cats[i].is_folder {
            r.push(cats[i].download_dir.clone());
            assert(r@.map_values(|s: String| s@) =~= before.map_values(|s: String| s@).push(cats@[i as int].download_dir@));
        }
        i = i + 1;
    }
    assert(cats@.take(cats.len() as int) =~= cats@);
    r
}

/// A row of the trackers table: a tracker with what it last reported.
pub struct TrackerRow {
    pub id: u64,
    pub announce: String,
    pub tier: u64,
    pub leecher_count: i64,
    pub host: String,
    pub scrape: String,
    pub seeder_count: i64,
    pub last_announce_peer_count: u64,
    pub last_announce_result: String,
    pub last_announce_time: u64,
}

/// The trackers paired, position by position, with their statistics; extra
/// entries of the longer list are left out.
pub fn tracker_rows(trackers: &Vec<Tracker>, stats: &Vec<TrackerStats>) -> (r: Vec<TrackerRow>)
    ensures
        r@.len() == if trackers@.len() < stats@.len() { trackers@.len() } else { stats@.len() },
        forall|i: int|
            0 <= i < r@.len() ==> {
                let t = trackers@[i];
                let ts = stats@[i];
                let row = #[trigger] r@[i];
                &&& row.id == t.id && row.announce@ == t.announce@ && row.tier == t.tier
                &&& row.scrape@ == t.scrape@
                &&& row.leecher_count == ts.leecher_count && row.host@ == ts.host@
                &&& row.seeder_count == ts.seeder_count
                &&& row.last_announce_peer_count == ts.last_announce_peer_count
                &&& row.last_announce_result@ == ts.last_announce_result@
                &&& row.last_announce_time == ts.last_announce_time
            },
{
    let n = if trackers.len() < stats.len() { trackers.len() } else { stats.len() };
    let mut r: Vec<TrackerRow> = Vec::new();
    let mut i: usize = 0;
    while i < n
        invariant
            i <= n,
            n <= trackers.len(),
            n <= stats.len(),
            n == if trackers@.len() < stats@.len() { trackers@.len() } else { stats@.len() },
            r@.len() == i,
            forall|q: int|
                0 <= q < i ==> {
                    let t = trackers@[q];
                    let ts = stats@[q];
                    let row = #[trigger] r@[q];
                    &&& row.id == t.id && row.announce@ == t.announce@ && row.tier == t.tier
                    &&& row.scrape@ == t.scrape@
                    &&& row.leecher_count == ts.leecher_count && row.host@ == ts.host@
                    &&& row.seeder_count == ts.seeder_count
                    &&& row.last_announce_peer_count == ts.last_announce_peer_count
                    &&& row.last_announce_result@ == ts.last_announce_result@
                    &&& row.last_announce_time == ts.last_announce_time
                },
        decreases n - i,
    {
        let t = &trackers[i];
        let ts = &stats[i];
        r.push(TrackerRow {
            id: t.id,
            announce: t.announce.clone(),
            tier: t.tier,
            leecher_count: ts.leecher_count,
            host: ts.host.clone(),
            scrape: t.scrape.clone(),
            seeder_count: ts.seeder_count,
            last_announce_peer_count: ts.last_announce_peer_count,
            last_announce_result: ts.last_announce_result.clone(),
            last_announce_time: ts.last_announce_time,
        });
        i = i + 1;
    }
    r
}

/// How many of the torrents a filter shows.
pub open spec fn count_shown(f: TorrentFilter, rows: Seq<TorrentState>) -> nat
    decreases rows.len(),
{
    if rows.len() == 0 {
        0
    } else {
        count_shown(f, rows.drop_last()) + if shows(f, rows.last()) {
            1nat
        } else {
            0nat
        }
    }
}

/// The list under a filter agrees with the counts of the sidebar: "All"
/// shows every torrent, a folder filter exactly the torrents counted in that
/// folder (not those of other folders that share a prefix with it), a status
/// filter exactly the torrents counted under that status, and the error
/// filter no more torrents than are counted in error (it shows those with a
/// positive error code; the count takes every non-zero code).
pub proof fn lemma_filter_counts(rows: Seq<TorrentState>, d: String, status: i64)
    ensures
        count_shown(TorrentFilter::All, rows) == rows.len(),
        count_shown(TorrentFilter::Folder(d), rows) == count_in_dir(rows, d@),
        count_shown(TorrentFilter::Status(status), rows) == count_status(rows, status),
        count_shown(TorrentFilter::Errors, rows) <= count_errors(rows),
    decreases rows.len(),
{
    if rows.len() > 0 {
        lemma_filter_counts(rows.drop_last(), d, status);
    }
}

} // verus!
