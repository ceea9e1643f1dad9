//! Adding torrents: the title shown for a magnet link, the files of a
//! torrent's metadata, and the command that adds a torrent file or a magnet
//! link to the server.
use vstd::prelude::*;
use crate::commands::TorrentCmd;
use crate::rpc::File;
use crate::text::{chars_of, push_char, text_of};

verus! {

/// The character of a 6-bit value in the standard base64 alphabet.
pub open spec fn b64_char(v: int) -> char {
    if v < 26 {
        (65 + v) as char
    } else if v < 52 {
        (71 + v) as char
    } else if v < 62 {
        (v - 4) as char
    } else if v == 62 {
        '+'
    } else {
        '/'
    }
}

/// Standard base64 with `=` padding: each group of three bytes gives four
/// characters; a last group of one or two bytes is padded.
pub open spec fn base64_text(b: Seq<u8>) -> Seq<char>
    decreases b.len(),
{
    if b.len() == 0 {
        seq![]
    } else if b.len() == 1 {
        seq![b64_char(b[0] as int / 4), b64_char((b[0] as int % 4) * 16), '=', '=']
    } else if b.len() == 2 {
        seq![
            b64_char(b[0] as int / 4),
            b64_char((b[0] as int % 4) * 16 + b[1] as int / 16),
            b64_char((b[1] as int % 16) * 4),
            '=',
        ]
    } else {
        seq![
            b64_char(b[0] as int / 4),
            b64_char((b[0] as int % 4) * 16 + b[1] as int / 16),
            b64_char((b[1] as int % 16) * 4 + b[2] as int / 64),
            b64_char(b[2] as int % 64),
        ] + base64_text(b.skip(3))
    }
}

/// `base64::encode` (standard alphabet, padded): the contract states the
/// standard encoding, which the crate's `STANDARD` configuration produces.
#[verifier::external_body]
fn encode_base64(data: &Vec<u8>) -> (r: String)
    ensures
        r@ == base64_text(data@),
{
    base64::encode(data)
}

/// What `urlencoding::decode` gives for a text: the percent-decoded text,
/// or nothing when the decoded bytes are not UTF-8.
pub uninterp spec fn url_decoded(s: Seq<char>) -> Option<Seq<char>>;

/// Whether a text holds a `%`.
pub open spec fn has_percent(s: Seq<char>) -> bool {
    s.contains('%')
}

/// `urlencoding::decode`. Its result is named by `url_decoded`; the crate's
/// source returns the input itself when it holds no `%`.
#[verifier::external_body]
fn url_decode(s: &str) -> (r: Option<String>)
    ensures
        r matches Some(t) ==> url_decoded(s@) == Some(t@),
        r is None ==> url_decoded(s@) is None,
        r matches Some(t) ==> (!has_percent(s@) ==> t@ == s@),
        !has_percent(s@) ==> r is Some,
{
    match urlencoding::decode(s) {
        Ok(t) => Some(t.into_owned()),
        Err(_) => None,
    }
}

/// Whether a text starts with `magnet:?`.
pub open spec fn is_magnet_link(uri: Seq<char>) -> bool {
    uri.len() >= 8 && uri.take(8) == "magnet:?"@
}

/// The display name (`dn`) that `magnet_url` finds in a magnet link.
pub uninterp spec fn magnet_dn(uri: Seq<char>) -> Option<Seq<char>>;

/// `Magnet::new` and `display_name`: `None` when the text does not start with
/// `magnet:?` (the only error of `Magnet::new`), otherwise the display name
/// it parsed, if any, named by `magnet_dn`.
#[verifier::external_body]
fn parse_magnet_dn(uri: &str) -> (r: Option<Option<String>>)
    ensures
        r is Some <==> is_magnet_link(uri@),
        r matches Some(Some(t)) ==> magnet_dn(uri@) == Some(t@),
        r matches Some(None) ==> magnet_dn(uri@) is None,
{
    match magnet_url::Magnet::new(uri) {
        Ok(m) => Some(m.display_name().map(|d| d.to_string())),
        Err(_) => None,
    }
}

/// The title of a magnet link in the add dialog.
pub enum MagnetTitle {
    /// The text is not a magnet link.
    NotAMagnet,
    Title(String),
    /// The display name does not decode to UTF-8.
    UndecodableName,
}

/// The title a magnet link gets: its decoded display name, or its first
/// sixty characters when it has none.
pub open spec fn magnet_title_model(uri: Seq<char>) -> Option<Option<Seq<char>>> {
    if !is_magnet_link(uri) {
        None
    } else {
        match magnet_dn(uri) {
            None => Some(Some(uri.take(if uri.len() < 60 { uri.len() as int } else { 60 }))),
            Some(d) => Some(url_decoded(d)),
        }
    }
}

/// The title of a magnet link (see `magnet_title_model`).
pub fn magnet_title(uri: &str) -> (r: MagnetTitle)
    ensures
        match (r, magnet_title_model(uri@)) {
            (MagnetTitle::NotAMagnet, None) => true,
            (MagnetTitle::Title(t), Some(Some(m))) => t@ == m,
            (MagnetTitle::UndecodableName, Some(None)) => true,
            _ => false,
        },
{
    let cs = chars_of(uri);
    let mut head = String::new();
    let mut i: usize = 0;
    while i < cs.len() && i < 60
        invariant
            i <= cs.len(),
            i <= 60,
            cs@ == uri@,
            head@ == uri@.take(i as int),
        decreases 60 - i,
    {
        push_char(&mut head, cs[i]);
        assert(head@ =~= uri@.take(i as int + 1));
        i = i + 1;
    }
    match parse_magnet_dn(uri) {
        None => MagnetTitle::NotAMagnet,
        Some(None) => MagnetTitle::Title(head),
        Some(Some(dn)) => match url_decode(dn.as_str()) {
            Some(t) => MagnetTitle::Title(t),
            None => MagnetTitle::UndecodableName,
        },
    }
}

/// The part of a torrent's metadata that lists its files: the name, the
/// total length and, for a torrent of several files, each file's path (when
/// it is UTF-8) and length.
pub struct TorrentMeta {
    pub name: String,
    pub length: i64,
    pub files: Option<Vec<(Option<String>, i64)>>,
}

/// A torrent's metadata as plain values.
pub type TorrentMetaView = (Seq<char>, i64, Option<Seq<(Option<Seq<char>>, i64)>>);

pub open spec fn opt_text(o: Option<String>) -> Option<Seq<char>> {
    match o {
        Some(s) => Some(s@),
        None => None,
    }
}

pub open spec fn meta_view(m: TorrentMeta) -> TorrentMetaView {
    (
        m.name@,
        m.length,
        match m.files {
            Some(v) => Some(v@.map_values(|e: (Option<String>, i64)| (opt_text(e.0), e.1))),
            None => None,
        },
    )
}

/// What `lava_torrent` reads from the bytes of a torrent's metadata, or
/// nothing when they are not a valid torrent.
pub uninterp spec fn torrent_metadata(bytes: Seq<u8>) -> Option<TorrentMetaView>;

/// `Torrent::read_from_bytes`, keeping the name, the length and the files.
#[verifier::external_body]
fn read_metadata(data: &Vec<u8>) -> (r: Option<TorrentMeta>)
    ensures
        r matches Some(m) ==> torrent_metadata(data@) == Some(meta_view(m)),
        r is None ==> torrent_metadata(data@) is None,
{
    match lava_torrent::torrent::v1::Torrent::read_from_bytes(data) {
        Ok(t) => Some(TorrentMeta {
            name: t.name,
            length: t.length,
            files: t.files.map(|fs| fs.into_iter().map(|f| (f.path.to_str().map(|p| p.to_string()), f.length)).collect()),
        }),
        Err(_) => None,
    }
}

/// A file of the list as plain values: name, length, bytes completed.
pub open spec fn file_view(f: File) -> (Seq<char>, u64, u64) {
    (f.name@, f.length, f.bytes_completed)
}

pub open spec fn files_view(fs: Seq<File>) -> Seq<(Seq<char>, u64, u64)> {
    fs.map_values(|f: File| file_view(f))
}

/// The files that a torrent's metadata lists.
pub enum MetadataFiles {
    /// The bytes are not a valid torrent.
    Unreadable,
    /// A file's path is not UTF-8.
    NonUtf8Path,
    /// The files, none of them downloaded yet.
    Files(Vec<File>),
}

/// The file list of a torrent: one entry per listed file, or the torrent's
/// own name and length when it holds a single file; lengths are taken as
/// unsigned.
pub open spec fn metadata_files_model(meta: TorrentMetaView) -> Option<Seq<(Seq<char>, u64, u64)>> {
    match meta.2 {
        None => Some(seq![(meta.0, meta.1 as u64, 0u64)]),
        Some(fs) => if exists|i: int| 0 <= i < fs.len() && (#[trigger] fs[i]).0 is None {
            None
        } else {
            Some(fs.map_values(|e: (Option<Seq<char>>, i64)| (e.0.unwrap(), e.1 as u64, 0u64)))
        },
    }
}

/// The files of a torrent whose metadata is `data`.
pub fn torrent_files(data: &Vec<u8>) -> (r: MetadataFiles)
    ensures
        match (r, torrent_metadata(data@)) {
            (MetadataFiles::Unreadable, None) => true,
            (MetadataFiles::NonUtf8Path, Some(m)) => metadata_files_model(m) is None,
            (MetadataFiles::Files(fs), Some(m)) => metadata_files_model(m) == Some(files_view(fs@)),
            _ => false,
        },
{
    match read_metadata(data) {
        None => MetadataFiles::Unreadable,
        Some(meta) => {
            let ghost mv = meta_view(meta);
            match meta.files {
                None => {
                    let mut fs: Vec<File> = Vec::new();
                    fs.push(File { name: meta.name, length: #[verifier::truncate] (meta.length as u64), bytes_completed: 0 });
                    assert(files_view(fs@) =~= seq![(mv.0, mv.1 as u64, 0u64)]);
                    MetadataFiles::Files(fs)
                },
                Some(entries) => {
                    let ghost ev = entries@.map_values(|e: (Option<String>, i64)| (opt_text(e.0), e.1));
                    assert(mv.2 == Some(ev));
                    let mut fs: Vec<File> = Vec::new();
                    let mut i: usize = 0;
                    while i < entries.len()
                        invariant
                            i <= entries.len(),
                            ev == entries@.map_values(|e: (Option<String>, i64)| (opt_text(e.0), e.1)),
                            torrent_metadata(data@) == Some(mv),
                            mv.2 == Some(ev),
                            fs@.len() == i,
                            forall|q: int| 0 <= q < i ==> (#[trigger] ev[q]).0 is Some,
                            forall|q: int|
                                0 <= q < i ==> file_view(#[trigger] fs@[q]) == (ev[q].0.unwrap(), ev[q].1 as u64, 0u64),
                        decreases entries.len() - i,
                    {
                        match &entries[i].0 {
                            Some(p) => {
                                fs.push(File { name: p.clone(), length: #[verifier::truncate] (entries[i].1 as u64), bytes_completed: 0 });
                            },
                            None => {
                                assert(ev[i as int].0 is None);
                                assert(exists|q: int| 0 <= q < ev.len() && (#[trigger] ev[q]).0 is None);
                                return MetadataFiles::NonUtf8Path;
                            },
                        }
                        i = i + 1;
                    }
                    assert(files_view(fs@) =~= ev.map_values(
                        |e: (Option<Seq<char>>, i64)| (e.0.unwrap(), e.1 as u64, 0u64),
                    ));
                    MetadataFiles::Files(fs)
                },
            }
        },
    }
}

/// The command that adds a torrent: a torrent file's contents, else the
/// metadata fetched for a magnet link, go as base64 metainfo; else the magnet
/// link itself goes as the file name; with nothing to add there is none.
pub open spec fn add_command_model(
    folder: Option<Seq<char>>,
    file_data: Option<Seq<u8>>,
    magnet_data: Option<Seq<u8>>,
    magnet_url: Option<Seq<char>>,
    paused: bool,
) -> Option<(Option<Seq<char>>, Option<Seq<char>>, Option<Seq<char>>, bool)> {
    match file_data {
        Some(d) => Some((folder, None, Some(base64_text(d)), paused)),
        None => match magnet_data {
            Some(d) => Some((folder, None, Some(base64_text(d)), paused)),
            None => match magnet_url {
                Some(u) => Some((folder, Some(u), None, paused)),
                None => None,
            },
        },
    }
}

pub open spec fn opt_bytes(o: Option<Vec<u8>>) -> Option<Seq<u8>> {
    match o {
        Some(v) => Some(v@),
        None => None,
    }
}

/// The command that adds a torrent, from what the add dialog has.
pub fn add_torrent_command(
    folder: Option<String>,
    file_data: Option<Vec<u8>>,
    magnet_data: Option<Vec<u8>>,
    magnet_url: Option<String>,
    paused: bool,
) -> (r: Option<TorrentCmd>)
    ensures
        match (r, add_command_model(opt_text(folder), opt_bytes(file_data), opt_bytes(magnet_data), opt_text(magnet_url), paused)) {
            (Some(TorrentCmd::AddTorrent(f, n, m, p)), Some(x)) => (opt_text(f), opt_text(n), opt_text(m), p) == x,
            (None, None) => true,
            _ => false,
        },
{
    match file_data {
        Some(d) => Some(TorrentCmd::AddTorrent(folder, None, Some(encode_base64(&d)), paused)),
        None => match magnet_data {
            Some(d) => Some(TorrentCmd::AddTorrent(folder, None, Some(encode_base64(&d)), paused)),
            None => match magnet_url {
                Some(u) => Some(TorrentCmd::AddTorrent(folder, Some(u), None, paused)),
                None => None,
            },
        },
    }
}

/// What the metadata fetch of a magnet link does next.
#[derive(Clone, Copy, PartialEq, Eq, Structural, Debug)]
pub enum FetchStep {
    /// Cancelled: stop the session and give up.
    GiveUp,
    /// The metadata arrived: stop the session and return it.
    Finish,
    /// Wait a second and look again.
    Wait,
}

/// Decides the next step of a metadata fetch: cancellation wins over
/// arrived metadata.
pub fn fetch_step(cancelled: bool, has_metadata: bool) -> (r: FetchStep)
    ensures
        r == (if cancelled {
            FetchStep::GiveUp
        } else if has_metadata {
            FetchStep::Finish
        } else {
            FetchStep::Wait
        }),
{
    if cancelled {
        FetchStep::GiveUp
    } else if has_metadata {
        FetchStep::Finish
    } else {
        FetchStep::Wait
    }
}

/// The destination folders that the add dialog offers, in order; the first
/// is selected when the dialog opens.
pub open spec fn add_destinations_model() -> Seq<Seq<char>> {
    seq![
        "/var/lib/transmission/Downloads/films"@,
        "/var/lib/transmission/Downloads/games"@,
        "/var/lib/transmission/Downloads/music"@,
        "/var/lib/transmission/Downloads/lessons"@,
        "/var/lib/transmission/Downloads/blues"@,
    ]
}

/// The destination folders of the add dialog.
pub fn add_destinations() -> (r: Vec<String>)
    ensures
        r@.map_values(|s: String| s@) == add_destinations_model(),
{
    let mut v: Vec<String> = Vec::new();
    v.push(text_of("/var/lib/transmission/Downloads/films"));
    v.push(text_of("/var/lib/transmission/Downloads/games"));
    v.push(text_of("/var/lib/transmission/Downloads/music"));
    v.push(text_of("/var/lib/transmission/Downloads/lessons"));
    v.push(text_of("/var/lib/transmission/Downloads/blues"));
    assert(v@.map_values(|s: String| s@) =~= add_destinations_model());
    v
}

} // verus!
