use transg::magnet::{add_torrent_command, fetch_step, magnet_title, torrent_files, FetchStep, MagnetTitle, MetadataFiles};
use transg::TorrentCmd;

fn title(uri: &str) -> Option<String> {
    match magnet_title(uri) {
        MagnetTitle::Title(t) => Some(t),
        MagnetTitle::NotAMagnet => None,
        MagnetTitle::UndecodableName => Some("<undecodable>".to_string()),
    }
}

#[test]
fn magnet_titles() {
    assert_eq!(title("magnet:?xt=urn:btih:abc&dn=My%20Movie"), Some("My Movie".to_string()));
    assert_eq!(title("magnet:?xt=urn:btih:abc&dn=Sintel"), Some("Sintel".to_string()));
    assert_eq!(title("http://example.com/a.torrent"), None);
    let no_name = "magnet:?xt=urn:btih:08ada5a7a6183aae1e09d831df6748d566095a10&tr=udp%3A%2F%2Fexplodie.org";
    let expected: String = no_name.chars().take(60).collect();
    assert_eq!(title(no_name), Some(expected));
    assert_eq!(title("magnet:?dn=%FF%FE"), Some("<undecodable>".to_string()));
}

fn add(
    folder: Option<&str>,
    file: Option<&[u8]>,
    magnet_data: Option<&[u8]>,
    url: Option<&str>,
    paused: bool,
) -> Option<(Option<String>, Option<String>, Option<String>, bool)> {
    match add_torrent_command(
        folder.map(|s| s.to_string()),
        file.map(|b| b.to_vec()),
        magnet_data.map(|b| b.to_vec()),
        url.map(|s| s.to_string()),
        paused,
    ) {
        Some(TorrentCmd::AddTorrent(a, b, c, d)) => Some((a, b, c, d)),
        Some(_) => panic!("unexpected command"),
        None => None,
    }
}

#[test]
fn add_commands_encode_metainfo() {
    assert_eq!(add(None, Some(b"f"), None, None, false), Some((None, None, Some("Zg==".to_string()), false)));
    assert_eq!(add(None, Some(b"fo"), None, None, false), Some((None, None, Some("Zm8=".to_string()), false)));
    assert_eq!(
        add(Some("/d"), Some(b"foobar"), Some(b"x"), Some("magnet:?a"), true),
        Some((Some("/d".to_string()), None, Some("Zm9vYmFy".to_string()), true))
    );
    assert_eq!(
        add(None, None, Some(&[0xff, 0x00, 0x3e]), Some("magnet:?a"), false),
        Some((None, None, Some("/wA+".to_string()), false))
    );
    assert_eq!(
        add(Some("/d"), None, None, Some("magnet:?a"), false),
        Some((Some("/d".to_string()), Some("magnet:?a".to_string()), None, false))
    );
    assert_eq!(add(Some("/d"), None, None, None, false), None);
    assert_eq!(add(None, Some(b""), None, None, false), Some((None, None, Some("".to_string()), false)));
}

fn pieces() -> Vec<u8> {
    let mut v = b"6:pieces20:".to_vec();
    v.extend_from_slice(&[0xffu8; 20]);
    v
}

fn single_file_torrent() -> Vec<u8> {
    let mut v = b"d4:infod6:lengthi12e4:name5:a.txt12:piece lengthi16384e".to_vec();
    v.extend(pieces());
    v.extend_from_slice(b"ee");
    v
}

fn multi_file_torrent() -> Vec<u8> {
    let mut v = b"d4:infod5:filesld6:lengthi3e4:pathl1:x1:yeed6:lengthi4e4:pathl1:zeee4:name3:dir12:piece lengthi16384e"
        .to_vec();
    v.extend(pieces());
    v.extend_from_slice(b"ee");
    v
}

fn listed(m: MetadataFiles) -> Option<Vec<(String, u64, u64)>> {
    match m {
        MetadataFiles::Files(fs) => Some(fs.into_iter().map(|f| (f.name, f.length, f.bytes_completed)).collect()),
        MetadataFiles::Unreadable => None,
        MetadataFiles::NonUtf8Path => Some(vec![]),
    }
}

#[test]
fn torrent_file_lists() {
    assert_eq!(listed(torrent_files(&single_file_torrent())), Some(vec![("a.txt".to_string(), 12, 0)]));
    assert_eq!(
        listed(torrent_files(&multi_file_torrent())),
        Some(vec![("x/y".to_string(), 3, 0), ("z".to_string(), 4, 0)])
    );
    assert_eq!(listed(torrent_files(&b"not a torrent".to_vec())), None);
    assert_eq!(listed(torrent_files(&vec![])), None);
}

#[test]
fn fetch_steps() {
    assert_eq!(fetch_step(true, true), FetchStep::GiveUp);
    assert_eq!(fetch_step(false, true), FetchStep::Finish);
    assert_eq!(fetch_step(false, false), FetchStep::Wait);
}

#[test]
fn add_dialog_destinations() {
    let d = transg::magnet::add_destinations();
    assert_eq!(
        d,
        vec![
            "/var/lib/transmission/Downloads/films",
            "/var/lib/transmission/Downloads/games",
            "/var/lib/transmission/Downloads/music",
            "/var/lib/transmission/Downloads/lessons",
            "/var/lib/transmission/Downloads/blues"
        ]
    );
}
