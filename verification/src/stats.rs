//! Per-status and per-folder statistics of the torrent list, and the sidebar
//! categories that show them.
use vstd::prelude::*;
use crate::text::{chars_of, push_char, push_str, split_chars, split_text, strings_view};

verus! {

/// Torrent status codes of the Transmission RPC protocol.
pub const STOPPED: i64 = 0;
pub const VERIFY_QUEUED: i64 = 1;
pub const VERIFYING: i64 = 2;
pub const DOWN_QUEUED: i64 = 3;
pub const DOWNLOADING: i64 = 4;
pub const SEED_QUEUED: i64 = 5;
pub const SEEDING: i64 = 6;
/// Pseudo-statuses of the sidebar categories.
pub const ALL: i64 = -1;
pub const SEPARATOR: i64 = -2;
pub const FOLDER: i64 = -3;
pub const ERROR: i64 = -4;

/// Counts of torrents by status, with errors, and by download folder.
pub struct TorrentGroupStats {
    pub num_total: u64,
    pub num_downloading: u64,
    pub num_queue_down: u64,
    pub num_queue_up: u64,
    pub num_seeding: u64,
    pub num_checking: u64,
    pub num_stopped: u64,
    pub num_queue_checking: u64,
    pub num_error: u64,
    /// Download folders with their counts, each folder once, in the order in
    /// which the folders first occur.
    pub folders: Vec<(String, u64)>,
}

/// Statistics with every count zero and no folder.
pub fn empty_group_stats() -> (r: TorrentGroupStats)
    ensures
        r.num_total == 0,
        r.num_downloading == 0,
        r.num_queue_down == 0,
        r.num_queue_up == 0,
        r.num_seeding == 0,
        r.num_checking == 0,
        r.num_stopped == 0,
        r.num_queue_checking == 0,
        r.num_error == 0,
        r.folders@.len() == 0,
{
    TorrentGroupStats {
        num_total: 0,
        num_downloading: 0,
        num_queue_down: 0,
        num_queue_up: 0,
        num_checking: 0,
        num_queue_checking: 0,
        num_stopped: 0,
        num_seeding: 0,
        num_error: 0,
        folders: Vec::new(),
    }
}

/// The word whose folders are shown without their parent.
pub open spec fn downloads_word() -> Seq<char> {
    seq!['D', 'o', 'w', 'n', 'l', 'o', 'a', 'd', 's']
}

/// The short name of a download folder: its last two path components, or
/// only the last one when the one before is `Downloads`; a path without a
/// `/` is kept whole.
pub open spec fn folder_label(s: Seq<char>) -> Seq<char> {
    let parts = split_text(s, '/');
    if parts.len() > 1 {
        if parts[parts.len() - 2] == downloads_word() {
            parts.last()
        } else {
            parts[parts.len() - 2] + seq!['/'] + parts.last()
        }
    } else {
        s
    }
}

/// Shortens a download folder for display.
pub fn process_folder(s: String) -> (r: String)
    ensures
        r@ == folder_label(s@),
{
    let parts = split_chars(s.as_str(), '/');
    proof {
        assert(strings_view(parts@).len() == parts@.len());
    }
    if parts.len() > 1 {
        let n = parts.len();
        let before = &parts[n - 2];
        let last = &parts[n - 1];
        let mut downloads = String::new();
        push_str(&mut downloads, "Downloads");
        proof {
            reveal_strlit("Downloads");
            assert(downloads@ =~= downloads_word());
            assert(strings_view(parts@)[n - 2] == before@);
            assert(strings_view(parts@)[n - 1] == last@);
        }
        if *before == downloads {
            last.clone()
        } else {
            let mut r = String::new();
            push_str(&mut r, before.as_str());
            push_char(&mut r, '/');
            push_str(&mut r, last.as_str());
            r
        }
    } else {
        s
    }
}

/// What the statistics read from a torrent of the list.
pub struct TorrentState {
    pub status: i64,
    /// Non-zero when the torrent is in error.
    pub error: i64,
    pub download_dir: String,
}

pub open spec fn count_status(rows: Seq<TorrentState>, status: i64) -> nat
    decreases rows.len(),
{
    if rows.len() == 0 {
        0
    } else {
        count_status(rows.drop_last(), status) + if rows.last().status == status { 1nat } else { 0nat }
    }
}

pub open spec fn count_errors(rows: Seq<TorrentState>) -> nat
    decreases rows.len(),
{
    if rows.len() == 0 {
        0
    } else {
        count_errors(rows.drop_last()) + if rows.last().error != 0 { 1nat } else { 0nat }
    }
}

pub open spec fn count_in_dir(rows: Seq<TorrentState>, dir: Seq<char>) -> nat
    decreases rows.len(),
{
    if rows.len() == 0 {
        0
    } else {
        count_in_dir(rows.drop_last(), dir) + if rows.last().download_dir@ == dir { 1nat } else { 0nat }
    }
}

/// `s` counts the torrents `rows`: all of them, those in error, those of each
/// status and those of each download folder. A folder's count is one more
/// than its number of torrents (the first torrent of a folder counts twice).
pub open spec fn tallies(s: TorrentGroupStats, rows: Seq<TorrentState>) -> bool {
    &&& s.num_total == rows.len()
    &&& s.num_error == count_errors(rows)
    &&& s.num_stopped == count_status(rows, STOPPED)
    &&& s.num_queue_checking == count_status(rows, VERIFY_QUEUED)
    &&& s.num_checking == count_status(rows, VERIFYING)
    &&& s.num_queue_down == count_status(rows, DOWN_QUEUED)
    &&& s.num_downloading == count_status(rows, DOWNLOADING)
    &&& s.num_queue_up == count_status(rows, SEED_QUEUED)
    &&& s.num_seeding == count_status(rows, SEEDING)
    &&& forall|i: int, j: int|
        0 <= i < j < s.folders@.len() ==> #[trigger] s.folders@[i].0@ != #[trigger] s.folders@[j].0@
    &&& forall|i: int|
        0 <= i < s.folders@.len() ==> count_in_dir(rows, #[trigger] s.folders@[i].0@) > 0
            && s.folders@[i].1 == count_in_dir(rows, s.folders@[i].0@) + 1
    &&& forall|dir: Seq<char>|
        count_in_dir(rows, dir) > 0 ==> exists|i: int|
            0 <= i < s.folders@.len() && #[trigger] s.folders@[i].0@ == dir
    &&& s.folders@.map_values(|e: (String, u64)| e.0@) == first_dirs(rows)
}

/// The download folders of the torrents, each once, in the order in which
/// they first occur.
pub open spec fn first_dirs(rows: Seq<TorrentState>) -> Seq<Seq<char>>
    decreases rows.len(),
{
    if rows.len() == 0 {
        seq![]
    } else if count_in_dir(rows.drop_last(), rows.last().download_dir@) > 0 {
        first_dirs(rows.drop_last())
    } else {
        first_dirs(rows.drop_last()).push(rows.last().download_dir@)
    }
}

proof fn lemma_counts_bounded(rows: Seq<TorrentState>, status: i64, dir: Seq<char>)
    ensures
        count_status(rows, status) <= rows.len(),
        count_errors(rows) <= rows.len(),
        count_in_dir(rows, dir) <= rows.len(),
    decreases rows.len(),
{
    if rows.len() > 0 {
        lemma_counts_bounded(rows.drop_last(), status, dir);
    }
}

/// Counts the torrents of the list by status, error and download folder.
pub fn tally_torrents(rows: &Vec<TorrentState>) -> (r: TorrentGroupStats)
    requires
        rows.len() < u64::MAX,
    ensures
        tallies(r, rows@),
{
    let mut st = empty_group_stats();
    let mut k: usize = 0;
    assert(rows@.take(0) =~= seq![]);
    assert(st.folders@.map_values(|e: (String, u64)| e.0@) =~= Seq::<Seq<char>>::empty());
    while k < rows.len()
        invariant
            k <= rows.len(),
            rows.len() < u64::MAX,
            tallies(st, rows@.take(k as int)),
        decreases rows.len() - k,
    {
        let row = &rows[k];
        let ghost pre = rows@.take(k as int);
        let ghost post = rows@.take(k as int + 1);
        proof {
            assert(post.drop_last() =~= pre);
            assert(post.last() == *row);
            lemma_counts_bounded(pre, row.status, row.download_dir@);
        }
        if row.error != 0 {
            st.num_error = st.num_error + 1;
        }
        st.num_total = st.num_total + 1;
        if row.status == STOPPED {
            st.num_stopped = st.num_stopped + 1;
        } else if row.status == VERIFY_QUEUED {
            st.num_queue_checking = st.num_queue_checking + 1;
        } else if row.status == VERIFYING {
            st.num_checking = st.num_checking + 1;
        } else if row.status == DOWN_QUEUED {
            st.num_queue_down = st.num_queue_down + 1;
        } else if row.status == DOWNLOADING {
            st.num_downloading = st.num_downloading + 1;
        } else if row.status == SEED_QUEUED {
            st.num_queue_up = st.num_queue_up + 1;
        } else if row.status == SEEDING {
            st.num_seeding = st.num_seeding + 1;
        }
        let mut f: usize = 0;
        while f < st.folders.len() && st.folders[f].0 != row.download_dir
            invariant
                f <= st.folders.len(),
                forall|i: int| 0 <= i < f ==> #[trigger] st.folders@[i].0@ != row.download_dir@,
            decreases st.folders.len() - f,
        {
            f = f + 1;
        }
        let ghost old_folders = st.folders@;
        assert(forall|dir: Seq<char>|
            count_in_dir(pre, dir) > 0 ==> exists|i: int|
                0 <= i < old_folders.len() && #[trigger] old_folders[i].0@ == dir);
        if f < st.folders.len() {
            let entry = (st.folders[f].0.clone(), st.folders[f].1 + 1);
            proof {
                lemma_counts_bounded(pre, row.status, st.folders@[f as int].0@);
            }
            st.folders.set(f, entry);
            proof {
                assert(count_in_dir(pre, row.download_dir@) > 0);
                assert(st.folders@.map_values(|e: (String, u64)| e.0@) =~= old_folders.map_values(
                    |e: (String, u64)| e.0@,
                ));
            }
        } else {
            proof {
                if count_in_dir(pre, row.download_dir@) > 0 {
                    let i = choose|i: int| 0 <= i < old_folders.len() && #[trigger] old_folders[i].0@ == row.download_dir@;
                    assert(st.folders@[i].0@ != row.download_dir@);
                }
            }
            st.folders.push((row.download_dir.clone(), 2));
            proof {
                assert(st.folders@.map_values(|e: (String, u64)| e.0@) =~= old_folders.map_values(
                    |e: (String, u64)| e.0@,
                ).push(row.download_dir@));
            }
        }
        proof {
            assert forall|i: int|
                0 <= i < st.folders@.len() implies count_in_dir(post, #[trigger] st.folders@[i].0@)
                > 0 && st.folders@[i].1 == count_in_dir(post, st.folders@[i].0@) + 1 by {
                if i < old_folders.len() {
                    assert(st.folders@[i].0@ == old_folders[i].0@);
                } else {
                    assert(count_in_dir(pre, row.download_dir@) == 0);
                }
            }
            assert forall|dir: Seq<char>| count_in_dir(post, dir) > 0 implies exists|i: int|
                0 <= i < st.folders@.len() && #[trigger] st.folders@[i].0@ == dir by {
                if dir == row.download_dir@ {
                    assert(st.folders@[f as int].0@ == dir);
                } else {
                    assert(count_in_dir(post, dir) == count_in_dir(pre, dir));
                    let i = choose|i: int| 0 <= i < old_folders.len() && #[trigger] old_folders[i].0@ == dir;
                    assert(st.folders@[i].0@ == dir);
                }
            }
            assert forall|i: int, j: int|
                0 <= i < j < st.folders@.len() implies #[trigger] st.folders@[i].0@
                != #[trigger] st.folders@[j].0@ by {
                if j < old_folders.len() {
                    assert(st.folders@[i].0@ == old_folders[i].0@);
                    assert(st.folders@[j].0@ == old_folders[j].0@);
                }
            }
        }
        k = k + 1;
    }
    assert(rows@.take(rows.len() as int) =~= rows@);
    st
}

/// An entry of the sidebar: a status filter, a separator or a folder.
pub struct Category {
    pub name: String,
    pub count: u64,
    pub status: i64,
    pub is_folder: bool,
    pub download_dir: String,
}

/// A category as plain values: name, count, status, folder flag, folder.
pub type CategoryView = (Seq<char>, u64, i64, bool, Seq<char>);

pub open spec fn category_view(c: Category) -> CategoryView {
    (c.name@, c.count, c.status, c.is_folder, c.download_dir@)
}

pub open spec fn categories_view(cs: Seq<Category>) -> Seq<CategoryView> {
    cs.map_values(|c: Category| category_view(c))
}

/// The count a status category shows (zero for a separator or an unknown
/// status).
pub open spec fn status_count(s: TorrentGroupStats, status: i64) -> u64 {
    if status == ALL {
        s.num_total
    } else if status == STOPPED {
        s.num_stopped
    } else if status == VERIFY_QUEUED {
        s.num_queue_checking
    } else if status == VERIFYING {
        s.num_checking
    } else if status == DOWN_QUEUED {
        s.num_queue_down
    } else if status == DOWNLOADING {
        s.num_downloading
    } else if status == SEED_QUEUED {
        s.num_queue_up
    } else if status == SEEDING {
        s.num_seeding
    } else if status == ERROR {
        s.num_error
    } else {
        0
    }
}

/// The count of `dir` in a folder table.
pub open spec fn folder_lookup(f: Seq<(String, u64)>, dir: Seq<char>) -> Option<u64>
    decreases f.len(),
{
    if f.len() == 0 {
        None
    } else if f[0].0@ == dir {
        Some(f[0].1)
    } else {
        folder_lookup(f.drop_first(), dir)
    }
}

/// Whether some folder category of `cats` shows the folder `dir`.
pub open spec fn shows_folder(cats: Seq<Category>, dir: Seq<char>) -> bool {
    exists|i: int| 0 <= i < cats.len() && #[trigger] cats[i].is_folder && cats[i].download_dir@ == dir
}

/// The existing categories after a refresh: a status category gets its new
/// count; a folder category is kept, with the folder's count, when the folder
/// still has torrents and no earlier category shows it; otherwise it goes.
pub open spec fn refreshed(s: TorrentGroupStats, cats: Seq<Category>) -> Seq<CategoryView>
    decreases cats.len(),
{
    if cats.len() == 0 {
        seq![]
    } else {
        let prev = refreshed(s, cats.drop_last());
        let c = cats.last();
        if !c.is_folder {
            prev.push((c.name@, status_count(s, c.status), c.status, false, c.download_dir@))
        } else {
            match folder_lookup(s.folders@, c.download_dir@) {
                Some(n) => if shows_folder(cats.drop_last(), c.download_dir@) {
                    prev
                } else {
                    prev.push((c.name@, n, c.status, true, c.download_dir@))
                },
                None => prev,
            }
        }
    }
}

/// New folder categories for the folders of `f` that no category of `cats`
/// shows, in the order of `f`.
pub open spec fn new_folder_categories(f: Seq<(String, u64)>, cats: Seq<Category>) -> Seq<CategoryView>
    decreases f.len(),
{
    if f.len() == 0 {
        seq![]
    } else {
        let prev = new_folder_categories(f.drop_last(), cats);
        let e = f.last();
        if shows_folder(cats, e.0@) {
            prev
        } else {
            prev.push((folder_label(e.0@), e.1, FOLDER, true, e.0@))
        }
    }
}

/// Each folder occurs once in the folder table.
pub open spec fn distinct_folders(f: Seq<(String, u64)>) -> bool {
    forall|i: int, j: int| 0 <= i < j < f.len() ==> #[trigger] f[i].0@ != #[trigger] f[j].0@
}

proof fn lemma_folder_lookup(f: Seq<(String, u64)>, dir: Seq<char>, k: int)
    requires
        distinct_folders(f),
        -1 <= k < f.len(),
        k >= 0 ==> f[k].0@ == dir,
        k < 0 ==> forall|i: int| 0 <= i < f.len() ==> #[trigger] f[i].0@ != dir,
    ensures
        k >= 0 ==> folder_lookup(f, dir) == Some(f[k].1),
        k < 0 ==> folder_lookup(f, dir) is None,
    decreases f.len(),
{
    if f.len() > 0 {
        if k == 0 {
        } else {
            let t = f.drop_first();
            assert forall|i: int, j: int| 0 <= i < j < t.len() implies #[trigger] t[i].0@ != #[trigger] t[j].0@ by {
                assert(t[i] == f[i + 1]);
                assert(t[j] == f[j + 1]);
            }
            if k > 0 {
                assert(f[0].0@ != dir);
                lemma_folder_lookup(t, dir, k - 1);
            } else {
                assert(f[0].0@ != dir);
                assert forall|i: int| 0 <= i < t.len() implies #[trigger] t[i].0@ != dir by {
                    assert(t[i] == f[i + 1]);
                }
                lemma_folder_lookup(t, dir, -1);
            }
        }
    }
}

/// The count a status category shows.
fn count_for_status(s: &TorrentGroupStats, status: i64) -> (r: u64)
    ensures
        r == status_count(*s, status),
{
    if status == ALL {
        s.num_total
    } else if status == STOPPED {
        s.num_stopped
    } else if status == VERIFY_QUEUED {
        s.num_queue_checking
    } else if status == VERIFYING {
        s.num_checking
    } else if status == DOWN_QUEUED {
        s.num_queue_down
    } else if status == DOWNLOADING {
        s.num_downloading
    } else if status == SEED_QUEUED {
        s.num_queue_up
    } else if status == SEEDING {
        s.num_seeding
    } else if status == ERROR {
        s.num_error
    } else {
        0
    }
}

/// Refreshes the sidebar categories from new statistics: status categories
/// get their counts, folder categories their folder's count or are dropped
/// when the folder has no torrent left, and a category is added at the end
/// for each folder not shown yet.
pub fn update_categories(s: &TorrentGroupStats, cats: Vec<Category>) -> (r: Vec<Category>)
    requires
        distinct_folders(s.folders@),
    ensures
        categories_view(r@) == refreshed(*s, cats@) + new_folder_categories(s.folders@, cats@),
{
    let nf = s.folders.len();
    let mut used: Vec<bool> = Vec::new();
    let mut k: usize = 0;
    while k < nf
        invariant
            k <= nf,
            nf == s.folders.len(),
            used.len() == k,
            forall|i: int| 0 <= i < k ==> !#[trigger] used@[i],
        decreases nf - k,
    {
        used.push(false);
        k = k + 1;
    }
    let mut out: Vec<Category> = Vec::new();
    let mut i: usize = 0;
    assert(cats@.take(0) =~= seq![]);
    assert(categories_view(out@) =~= seq![]);
    while i < cats.len()
        invariant
            i <= cats.len(),
            nf == s.folders.len(),
            used.len() == nf,
            distinct_folders(s.folders@),
            forall|q: int| 0 <= q < nf ==> #[trigger] used@[q] == shows_folder(
                cats@.take(i as int),
                s.folders@[q].0@,
            ),
            categories_view(out@) == refreshed(*s, cats@.take(i as int)),
        decreases cats.len() - i,
    {
        let c = &cats[i];
        let ghost pre = cats@.take(i as int);
        let ghost post = cats@.take(i as int + 1);
        let ghost old_out = categories_view(out@);
        proof {
            assert(post.drop_last() =~= pre);
            assert(post.last() == *c);
        }
        if !c.is_folder {
            let n = count_for_status(s, c.status);
            out.push(Category {
                name: c.name.clone(),
                count: n,
                status: c.status,
                is_folder: false,
                download_dir: c.download_dir.clone(),
            });
            proof {
                assert(categories_view(out@) =~= old_out.push(
                    (c.name@, status_count(*s, c.status), c.status, false, c.download_dir@),
                ));
            }
        } else {
            let mut f: usize = 0;
            while f < nf && s.folders[f].0 != c.download_dir
                invariant
                    f <= nf,
                    nf == s.folders.len(),
                    forall|q: int| 0 <= q < f ==> #[trigger] s.folders@[q].0@ != c.download_dir@,
                decreases nf - f,
            {
                f = f + 1;
            }
            proof {
                if f < nf {
                    lemma_folder_lookup(s.folders@, c.download_dir@, f as int);
                } else {
                    lemma_folder_lookup(s.folders@, c.download_dir@, -1);
                }
            }
            if f < nf && !used[f] {
                out.push(Category {
                    name: c.name.clone(),
                    count: s.folders[f].1,
                    status: c.status,
                    is_folder: true,
                    download_dir: c.download_dir.clone(),
                });
                used.set(f, true);
                proof {
                    assert(categories_view(out@) =~= old_out.push(
                        (c.name@, s.folders@[f as int].1, c.status, true, c.download_dir@),
                    ));
                }
            }
        }
        proof {
            assert forall|q: int| 0 <= q < nf implies #[trigger] used@[q] == shows_folder(
                post,
                s.folders@[q].0@,
            ) by {
                let dir = s.folders@[q].0@;
                if shows_folder(pre, dir) {
                    let w = choose|w: int| 0 <= w < pre.len() && #[trigger] pre[w].is_folder && pre[w].download_dir@ == dir;
                    assert(post[w] == pre[w]);
                }
                if shows_folder(post, dir) {
                    let w = choose|w: int| 0 <= w < post.len() && #[trigger] post[w].is_folder && post[w].download_dir@ == dir;
                    if w < pre.len() {
                        assert(pre[w] == post[w]);
                    }
                }
            }
        }
        i = i + 1;
    }
    assert(cats@.take(cats.len() as int) =~= cats@);
    let ghost base = categories_view(out@);
    let mut k: usize = 0;
    assert(s.folders@.take(0) =~= seq![]);
    assert(base + new_folder_categories(s.folders@.take(0), cats@) =~= base);
    while k < nf
        invariant
            k <= nf,
            nf == s.folders.len(),
            used.len() == nf,
            forall|q: int| 0 <= q < nf ==> #[trigger] used@[q] == shows_folder(cats@, s.folders@[q].0@),
            categories_view(out@) == base + new_folder_categories(s.folders@.take(k as int), cats@),
        decreases nf - k,
    {
        let ghost pre = s.folders@.take(k as int);
        let ghost post = s.folders@.take(k as int + 1);
        let ghost old_out = categories_view(out@);
        proof {
            assert(post.drop_last() =~= pre);
            assert(post.last() == s.folders@[k as int]);
        }
        if !used[k] {
            let key = &s.folders[k].0;
            let label = process_folder(key.clone());
            out.push(Category {
                name: label,
                count: s.folders[k].1,
                status: FOLDER,
                is_folder: true,
                download_dir: key.clone(),
            });
            proof {
                assert(categories_view(out@) =~= old_out.push(
                    (folder_label(key@), s.folders@[k as int].1, FOLDER, true, key@),
                ));
            }
        }
        k = k + 1;
    }
    assert(s.folders@.take(nf as int) =~= s.folders@);
    out
}

/// Recounts the torrent list and refreshes the sidebar categories with the
/// counts; folders new to the sidebar are added in the order in which they
/// first occur in the list.
pub fn update_torrent_stats(rows: &Vec<TorrentState>, cats: Vec<Category>) -> (r: Vec<Category>)
    requires
        rows.len() < u64::MAX,
    ensures
        exists|st: TorrentGroupStats|
            tallies(st, rows@) && categories_view(r@) == refreshed(st, cats@)
                + new_folder_categories(st.folders@, cats@),
        forall|j: int|
            0 <= j < r@.len() ==> if (#[trigger] r@[j]).is_folder {
                r@[j].count == count_in_dir(rows@, r@[j].download_dir@) + 1
            } else {
                r@[j].count == torrents_counted(rows@, r@[j].status)
            },
{
    let ghost cats0 = cats@;
    let st = tally_torrents(rows);
    let r = update_categories(&st, cats);
    proof {
        lemma_sidebar_counts(st, rows@, cats0);
        assert forall|j: int| 0 <= j < r@.len() implies if (#[trigger] r@[j]).is_folder {
            r@[j].count == count_in_dir(rows@, r@[j].download_dir@) + 1
        } else {
            r@[j].count == torrents_counted(rows@, r@[j].status)
        } by {
            assert(categories_view(r@)[j] == category_view(r@[j]));
        }
    }
    assert(tallies(st, rows@) && categories_view(r@) == refreshed(st, cats@) + new_folder_categories(
        st.folders@,
        cats@,
    ));
    r
}

/// The sidebar before the first count: "All", one category per status,
/// "Error" and a separator, every count zero.
pub open spec fn initial_categories_model() -> Seq<CategoryView> {
    seq![
        ("All"@, 0u64, ALL, false, seq![]),
        ("Paused"@, 0u64, STOPPED, false, seq![]),
        ("Verification queued"@, 0u64, VERIFY_QUEUED, false, seq![]),
        ("Checking"@, 0u64, VERIFYING, false, seq![]),
        ("Download queued"@, 0u64, DOWN_QUEUED, false, seq![]),
        ("Downloading"@, 0u64, DOWNLOADING, false, seq![]),
        ("Seeding queued"@, 0u64, SEED_QUEUED, false, seq![]),
        ("Seeding"@, 0u64, SEEDING, false, seq![]),
        ("Error"@, 0u64, ERROR, false, seq![]),
        ("-"@, 0u64, SEPARATOR, false, seq![]),
    ]
}

fn status_category(name: &str, status: i64) -> (r: Category)
    ensures
        category_view(r) == (name@, 0u64, status, false, Seq::<char>::empty()),
{
    let mut n = String::new();
    push_str(&mut n, name);
    let d = String::new();
    proof {
        assert(n@ =~= name@);
        assert(d@ =~= Seq::<char>::empty());
    }
    Category { name: n, count: 0, status, is_folder: false, download_dir: d }
}

/// The categories the sidebar starts with.
pub fn initial_categories() -> (r: Vec<Category>)
    ensures
        categories_view(r@) == initial_categories_model(),
{
    let mut v: Vec<Category> = Vec::new();
    v.push(status_category("All", ALL));
    v.push(status_category("Paused", STOPPED));
    v.push(status_category("Verification queued", VERIFY_QUEUED));
    v.push(status_category("Checking", VERIFYING));
    v.push(status_category("Download queued", DOWN_QUEUED));
    v.push(status_category("Downloading", DOWNLOADING));
    v.push(status_category("Seeding queued", SEED_QUEUED));
    v.push(status_category("Seeding", SEEDING));
    v.push(status_category("Error", ERROR));
    v.push(status_category("-", SEPARATOR));
    assert(categories_view(v@) =~= initial_categories_model());
    v
}

/// Whether the sidebar is recounted after partial update number `n`: after
/// every fourth one.
pub fn recount_due(n: u64) -> (r: bool)
    ensures
        r == (n % 4 == 0),
{
    n % 4 == 0
}

/// Every torrent whose status is one of the seven known ones is counted under
/// exactly one of them: when all statuses are known, the seven status counts
/// add up to the number of torrents.
pub proof fn lemma_status_counts_partition(rows: Seq<TorrentState>)
    requires
        forall|i: int| 0 <= i < rows.len() ==> STOPPED <= #[trigger] rows[i].status <= SEEDING,
    ensures
        count_status(rows, STOPPED) + count_status(rows, VERIFY_QUEUED) + count_status(rows, VERIFYING)
            + count_status(rows, DOWN_QUEUED) + count_status(rows, DOWNLOADING) + count_status(
            rows,
            SEED_QUEUED,
        ) + count_status(rows, SEEDING) == rows.len(),
    decreases rows.len(),
{
    if rows.len() > 0 {
        let init = rows.drop_last();
        assert forall|i: int| 0 <= i < init.len() implies STOPPED <= #[trigger] init[i].status <= SEEDING by {
            assert(init[i] == rows[i]);
        }
        lemma_status_counts_partition(init);
        assert(rows[rows.len() - 1] == rows.last());
    }
}

/// A tally of torrents whose statuses are all known splits its total among
/// the seven status counts.
pub proof fn lemma_tally_partition(s: TorrentGroupStats, rows: Seq<TorrentState>)
    requires
        tallies(s, rows),
        forall|i: int| 0 <= i < rows.len() ==> STOPPED <= #[trigger] rows[i].status <= SEEDING,
    ensures
        s.num_stopped + s.num_queue_checking + s.num_checking + s.num_queue_down + s.num_downloading
            + s.num_queue_up + s.num_seeding == s.num_total,
{
    lemma_status_counts_partition(rows);
}

/// Sum of the counts of a folder table.
pub open spec fn folder_total(f: Seq<(String, u64)>) -> nat
    decreases f.len(),
{
    if f.len() == 0 {
        0
    } else {
        folder_total(f.drop_last()) + f.last().1 as nat
    }
}

/// Sum of the numbers of torrents in the folders `dirs`.
spec fn dir_counts(dirs: Seq<Seq<char>>, rows: Seq<TorrentState>) -> nat
    decreases dirs.len(),
{
    if dirs.len() == 0 {
        0
    } else {
        dir_counts(dirs.drop_last(), rows) + count_in_dir(rows, dirs.last())
    }
}

spec fn table_dirs(f: Seq<(String, u64)>) -> Seq<Seq<char>> {
    f.map_values(|e: (String, u64)| e.0@)
}

proof fn lemma_dir_counts_empty(dirs: Seq<Seq<char>>, rows: Seq<TorrentState>)
    requires
        rows.len() == 0,
    ensures
        dir_counts(dirs, rows) == 0,
    decreases dirs.len(),
{
    if dirs.len() > 0 {
        lemma_dir_counts_empty(dirs.drop_last(), rows);
    }
}

proof fn lemma_dir_counts_push(dirs: Seq<Seq<char>>, rows: Seq<TorrentState>, t: TorrentState)
    requires
        forall|i: int, j: int| 0 <= i < j < dirs.len() ==> #[trigger] dirs[i] != #[trigger] dirs[j],
    ensures
        dir_counts(dirs, rows.push(t)) == dir_counts(dirs, rows) + if dirs.contains(t.download_dir@) {
            1nat
        } else {
            0nat
        },
    decreases dirs.len(),
{
    if dirs.len() > 0 {
        let init = dirs.drop_last();
        let d = dirs.last();
        lemma_dir_counts_push(init, rows, t);
        assert(rows.push(t).drop_last() =~= rows);
        let c = t.download_dir@;
        if dirs.contains(c) {
            let k = choose|k: int| 0 <= k < dirs.len() && dirs[k] == c;
            if d == c {
                assert(!init.contains(c)) by {
                    if init.contains(c) {
                        let q = choose|q: int| 0 <= q < init.len() && init[q] == c;
                        assert(dirs[q] == c && dirs[dirs.len() - 1] == c);
                    }
                }
            } else {
                assert(init[k] == c);
            }
        } else {
            assert(!init.contains(c)) by {
                if init.contains(c) {
                    let q = choose|q: int| 0 <= q < init.len() && init[q] == c;
                    assert(dirs[q] == c);
                }
            }
        }
    }
}

proof fn lemma_dir_counts_cover(dirs: Seq<Seq<char>>, rows: Seq<TorrentState>)
    requires
        forall|i: int, j: int| 0 <= i < j < dirs.len() ==> #[trigger] dirs[i] != #[trigger] dirs[j],
        forall|i: int| 0 <= i < rows.len() ==> dirs.contains(#[trigger] rows[i].download_dir@),
    ensures
        dir_counts(dirs, rows) == rows.len(),
    decreases rows.len(),
{
    if rows.len() == 0 {
        lemma_dir_counts_empty(dirs, rows);
    } else {
        let init = rows.drop_last();
        let t = rows.last();
        assert forall|i: int| 0 <= i < init.len() implies dirs.contains(#[trigger] init[i].download_dir@) by {
            assert(init[i] == rows[i]);
        }
        lemma_dir_counts_cover(dirs, init);
        lemma_dir_counts_push(dirs, init, t);
        assert(init.push(t) =~= rows);
        assert(rows[rows.len() - 1] == t);
    }
}

proof fn lemma_folder_total(f: Seq<(String, u64)>, rows: Seq<TorrentState>)
    requires
        forall|i: int| 0 <= i < f.len() ==> (#[trigger] f[i]).1 == count_in_dir(rows, f[i].0@) + 1,
    ensures
        folder_total(f) == dir_counts(table_dirs(f), rows) + f.len(),
    decreases f.len(),
{
    if f.len() > 0 {
        let init = f.drop_last();
        assert forall|i: int| 0 <= i < init.len() implies (#[trigger] init[i]).1 == count_in_dir(rows, init[i].0@) + 1 by {
            assert(init[i] == f[i]);
        }
        lemma_folder_total(init, rows);
        assert(table_dirs(init) =~= table_dirs(f).drop_last());
        assert(f[f.len() - 1] == f.last());
    }
}

/// Every torrent is counted in exactly one folder: the counts of the folder
/// table add up to the number of torrents plus the number of folders (each
/// folder's count being one more than its number of torrents).
pub proof fn lemma_folder_counts_total(s: TorrentGroupStats, rows: Seq<TorrentState>)
    requires
        tallies(s, rows),
    ensures
        folder_total(s.folders@) == rows.len() + s.folders@.len(),
{
    let f = s.folders@;
    let dirs = table_dirs(f);
    assert forall|i: int| 0 <= i < f.len() implies (#[trigger] f[i]).1 == count_in_dir(rows, f[i].0@) + 1 by {
        assert(count_in_dir(rows, s.folders@[i].0@) > 0);
    }
    lemma_folder_total(f, rows);
    assert forall|i: int, j: int| 0 <= i < j < dirs.len() implies #[trigger] dirs[i] != #[trigger] dirs[j] by {
        assert(s.folders@[i].0@ != s.folders@[j].0@);
    }
    assert forall|i: int| 0 <= i < rows.len() implies dirs.contains(#[trigger] rows[i].download_dir@) by {
        let d = rows[i].download_dir@;
        lemma_count_in_dir_positive(rows, i);
        let k = choose|k: int| 0 <= k < s.folders@.len() && #[trigger] s.folders@[k].0@ == d;
        assert(dirs[k] == d);
    }
    lemma_dir_counts_cover(dirs, rows);
}

proof fn lemma_count_in_dir_positive(rows: Seq<TorrentState>, i: int)
    requires
        0 <= i < rows.len(),
    ensures
        count_in_dir(rows, rows[i].download_dir@) > 0,
    decreases rows.len(),
{
    if i < rows.len() - 1 {
        let init = rows.drop_last();
        assert(init[i] == rows[i]);
        lemma_count_in_dir_positive(init, i);
    }
}

/// How many folder categories of `r` show the folder `dir`.
pub open spec fn folder_shown(r: Seq<CategoryView>, dir: Seq<char>) -> nat
    decreases r.len(),
{
    if r.len() == 0 {
        0
    } else {
        folder_shown(r.drop_last(), dir) + if r.last().3 && r.last().4 == dir {
            1nat
        } else {
            0nat
        }
    }
}

/// Whether the folder table has an entry for `dir`.
spec fn in_table(f: Seq<(String, u64)>, dir: Seq<char>) -> bool {
    exists|i: int| 0 <= i < f.len() && #[trigger] f[i].0@ == dir
}

proof fn lemma_folder_shown_add(a: Seq<CategoryView>, b: Seq<CategoryView>, dir: Seq<char>)
    ensures
        folder_shown(a + b, dir) == folder_shown(a, dir) + folder_shown(b, dir),
    decreases b.len(),
{
    if b.len() == 0 {
        assert(a + b =~= a);
    } else {
        lemma_folder_shown_add(a, b.drop_last(), dir);
        assert((a + b).drop_last() =~= a + b.drop_last());
        assert((a + b).last() == b.last());
    }
}

proof fn lemma_lookup_in_table(f: Seq<(String, u64)>, dir: Seq<char>)
    requires
        distinct_folders(f),
    ensures
        folder_lookup(f, dir) is Some <==> in_table(f, dir),
        in_table(f, dir) ==> exists|k: int|
            0 <= k < f.len() && #[trigger] f[k].0@ == dir && folder_lookup(f, dir) == Some(f[k].1),
{
    if in_table(f, dir) {
        let k = choose|k: int| 0 <= k < f.len() && #[trigger] f[k].0@ == dir;
        lemma_folder_lookup(f, dir, k);
    } else {
        lemma_folder_lookup(f, dir, -1);
    }
}

/// The folder categories that survive a refresh: one for each folder of the
/// table that some category showed, with the table's count.
proof fn lemma_refreshed_folders(s: TorrentGroupStats, cats: Seq<Category>, dir: Seq<char>)
    requires
        distinct_folders(s.folders@),
    ensures
        folder_shown(refreshed(s, cats), dir) == if in_table(s.folders@, dir) && shows_folder(cats, dir) {
            1nat
        } else {
            0nat
        },
        forall|i: int|
            0 <= i < refreshed(s, cats).len() && (#[trigger] refreshed(s, cats)[i]).3 ==> folder_lookup(
                s.folders@,
                refreshed(s, cats)[i].4,
            ) == Some(refreshed(s, cats)[i].1),
    decreases cats.len(),
{
    if cats.len() > 0 {
        let init = cats.drop_last();
        let c = cats.last();
        let prev = refreshed(s, init);
        lemma_refreshed_folders(s, init, dir);
        lemma_refreshed_folders(s, init, c.download_dir@);
        lemma_lookup_in_table(s.folders@, dir);
        lemma_lookup_in_table(s.folders@, c.download_dir@);
        assert(shows_folder(cats, dir) <==> shows_folder(init, dir) || (c.is_folder && c.download_dir@ == dir)) by {
            if shows_folder(cats, dir) {
                let i = choose|i: int| 0 <= i < cats.len() && #[trigger] cats[i].is_folder && cats[i].download_dir@ == dir;
                if i < init.len() {
                    assert(init[i] == cats[i]);
                }
            }
            if shows_folder(init, dir) {
                let i = choose|i: int| 0 <= i < init.len() && #[trigger] init[i].is_folder && init[i].download_dir@ == dir;
                assert(cats[i] == init[i]);
            }
            if c.is_folder && c.download_dir@ == dir {
                assert(cats[cats.len() - 1] == c);
            }
        }
        let r = refreshed(s, cats);
        if r.len() == prev.len() + 1 {
            assert(r.drop_last() =~= prev);
            assert forall|i: int| 0 <= i < r.len() && (#[trigger] r[i]).3 implies folder_lookup(
                s.folders@,
                r[i].4,
            ) == Some(r[i].1) by {
                if i < prev.len() {
                    assert(r[i] == prev[i]);
                }
            }
        }
    }
}

/// The folder categories added after a refresh: one for each folder of the
/// table that no category showed, with the table's count.
proof fn lemma_new_folders(f: Seq<(String, u64)>, cats: Seq<Category>, dir: Seq<char>)
    requires
        distinct_folders(f),
    ensures
        folder_shown(new_folder_categories(f, cats), dir) == if in_table(f, dir) && !shows_folder(cats, dir) {
            1nat
        } else {
            0nat
        },
        forall|i: int|
            0 <= i < new_folder_categories(f, cats).len() ==> (#[trigger] new_folder_categories(f, cats)[i]).3
                && folder_lookup(f, new_folder_categories(f, cats)[i].4) == Some(
                new_folder_categories(f, cats)[i].1,
            ),
    decreases f.len(),
{
    if f.len() > 0 {
        let init = f.drop_last();
        let e = f.last();
        assert(distinct_folders(init)) by {
            assert forall|i: int, j: int| 0 <= i < j < init.len() implies #[trigger] init[i].0@ != #[trigger] init[j].0@ by {
                assert(init[i] == f[i] && init[j] == f[j]);
            }
        }
        lemma_new_folders(init, cats, dir);
        let prev = new_folder_categories(init, cats);
        assert(f[f.len() - 1] == e);
        assert(in_table(f, dir) <==> in_table(init, dir) || e.0@ == dir) by {
            if in_table(f, dir) {
                let i = choose|i: int| 0 <= i < f.len() && #[trigger] f[i].0@ == dir;
                if i < init.len() {
                    assert(init[i] == f[i]);
                }
            }
            if in_table(init, dir) {
                let i = choose|i: int| 0 <= i < init.len() && #[trigger] init[i].0@ == dir;
                assert(f[i] == init[i]);
            }
        }
        assert(!in_table(init, e.0@)) by {
            if in_table(init, e.0@) {
                let i = choose|i: int| 0 <= i < init.len() && #[trigger] init[i].0@ == e.0@;
                assert(f[i] == init[i]);
            }
        }
        assert forall|i: int| 0 <= i < prev.len() implies (#[trigger] prev[i]).3 && folder_lookup(f, prev[i].4)
            == Some(prev[i].1) by {
            let d = prev[i].4;
            lemma_lookup_in_table(init, d);
            let k = choose|k: int| 0 <= k < init.len() && #[trigger] init[k].0@ == d && folder_lookup(init, d) == Some(init[k].1);
            assert(f[k] == init[k]);
            lemma_folder_lookup(f, d, k);
        }
        let r = new_folder_categories(f, cats);
        if !shows_folder(cats, e.0@) {
            assert(r.drop_last() =~= prev);
            lemma_folder_lookup(f, e.0@, f.len() - 1);
            assert forall|i: int| 0 <= i < r.len() implies (#[trigger] r[i]).3 && folder_lookup(f, r[i].4)
                == Some(r[i].1) by {
                if i < prev.len() {
                    assert(r[i] == prev[i]);
                }
            }
        }
    }
}

/// After the sidebar is refreshed from a folder table, each folder of the
/// table is shown by exactly one folder category, no other folder is shown,
/// and every folder category shows the table's count for its folder.
pub proof fn lemma_each_folder_shown_once(s: TorrentGroupStats, cats: Seq<Category>)
    requires
        distinct_folders(s.folders@),
    ensures
        ({
            let r = refreshed(s, cats) + new_folder_categories(s.folders@, cats);
            &&& forall|dir: Seq<char>|
                #[trigger] folder_shown(r, dir) == if folder_lookup(s.folders@, dir) is Some {
                    1nat
                } else {
                    0nat
                }
            &&& forall|i: int|
                0 <= i < r.len() && (#[trigger] r[i]).3 ==> folder_lookup(s.folders@, r[i].4) == Some(r[i].1)
        }),
{
    let a = refreshed(s, cats);
    let b = new_folder_categories(s.folders@, cats);
    let r = a + b;
    assert forall|dir: Seq<char>|
        #[trigger] folder_shown(r, dir) == if folder_lookup(s.folders@, dir) is Some {
            1nat
        } else {
            0nat
        } by {
        lemma_folder_shown_add(a, b, dir);
        lemma_refreshed_folders(s, cats, dir);
        lemma_new_folders(s.folders@, cats, dir);
        lemma_lookup_in_table(s.folders@, dir);
    }
    lemma_refreshed_folders(s, cats, seq![]);
    lemma_new_folders(s.folders@, cats, seq![]);
    assert forall|i: int| 0 <= i < r.len() && (#[trigger] r[i]).3 implies folder_lookup(s.folders@, r[i].4)
        == Some(r[i].1) by {
        if i < a.len() {
            assert(r[i] == a[i]);
        } else {
            assert(r[i] == b[i - a.len()]);
        }
    }
}

/// How many torrents of `rows` a status category counts: all of them for
/// "All", those in error for "Error", those with its status for one of the
/// seven statuses, and none for anything else (the separator).
pub open spec fn torrents_counted(rows: Seq<TorrentState>, status: i64) -> nat {
    if status == ALL {
        rows.len()
    } else if status == ERROR {
        count_errors(rows)
    } else if STOPPED <= status <= SEEDING {
        count_status(rows, status)
    } else {
        0
    }
}

proof fn lemma_refreshed_status_counts(s: TorrentGroupStats, cats: Seq<Category>)
    ensures
        forall|j: int|
            0 <= j < refreshed(s, cats).len() && !(#[trigger] refreshed(s, cats)[j]).3 ==> refreshed(s, cats)[j].1
                == status_count(s, refreshed(s, cats)[j].2),
    decreases cats.len(),
{
    if cats.len() > 0 {
        let init = cats.drop_last();
        lemma_refreshed_status_counts(s, init);
        let prev = refreshed(s, init);
        let r = refreshed(s, cats);
        if r.len() == prev.len() + 1 {
            assert forall|j: int| 0 <= j < r.len() && !(#[trigger] r[j]).3 implies r[j].1 == status_count(s, r[j].2) by {
                if j < prev.len() {
                    assert(r[j] == prev[j]);
                }
            }
        } else {
            assert(r == prev);
        }
    }
}

/// Every count of the refreshed sidebar is the number of torrents it stands
/// for: a status category counts the torrents of its status ("Checking" the
/// torrents being verified, "Verification queued" those waiting for it, and
/// so on), "All" every torrent, "Error" those in error; a folder category
/// counts its folder's torrents, plus one.
pub proof fn lemma_sidebar_counts(s: TorrentGroupStats, rows: Seq<TorrentState>, cats: Seq<Category>)
    requires
        tallies(s, rows),
    ensures
        ({
            let r = refreshed(s, cats) + new_folder_categories(s.folders@, cats);
            forall|j: int|
                0 <= j < r.len() ==> if (#[trigger] r[j]).3 {
                    r[j].1 == count_in_dir(rows, r[j].4) + 1
                } else {
                    r[j].1 == torrents_counted(rows, r[j].2)
                }
        }),
{
    let a = refreshed(s, cats);
    let b = new_folder_categories(s.folders@, cats);
    let r = a + b;
    let f = s.folders@;
    assert(distinct_folders(f));
    lemma_each_folder_shown_once(s, cats);
    lemma_refreshed_status_counts(s, cats);
    lemma_new_folders(f, cats, seq![]);
    assert forall|j: int| 0 <= j < r.len() implies if (#[trigger] r[j]).3 {
        r[j].1 == count_in_dir(rows, r[j].4) + 1
    } else {
        r[j].1 == torrents_counted(rows, r[j].2)
    } by {
        if j < a.len() {
            assert(r[j] == a[j]);
        } else {
            assert(r[j] == b[j - a.len()]);
        }
        if r[j].3 {
            let d = r[j].4;
            assert(folder_lookup(f, d) == Some(r[j].1));
            lemma_lookup_in_table(f, d);
            let k = choose|k: int| 0 <= k < f.len() && #[trigger] f[k].0@ == d && folder_lookup(f, d) == Some(f[k].1);
            assert(f[k].1 == count_in_dir(rows, f[k].0@) + 1);
        } else {
            assert(j < a.len());
        }
    }
}

} // verus!
