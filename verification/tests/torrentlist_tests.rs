use defttorrent::torrent::parse_torrent;
use defttorrent::torrentlist::TorrentList;

#[test]
fn registered_torrents_report_their_status() {
    let data = b"d8:announce1:a4:infod6:lengthi1e4:name1:n12:piece lengthi1e6:pieces0:ee";
    let torrent = parse_torrent(data).unwrap();
    let mut list = TorrentList::new();
    list.push_with_id_and_url(3, torrent);
    assert_eq!(list.get_status(&3), "Test Message Hello");
}

#[test]
fn entries_are_kept_per_identifier() {
    let data = b"d8:announce1:a4:infod6:lengthi1e4:name1:n12:piece lengthi1e6:pieces0:ee";
    let mut list = TorrentList::new();
    list.push_with_id_and_url(1, parse_torrent(data).unwrap());
    list.push_with_id_and_url(2, parse_torrent(data).unwrap());
    assert_eq!(list.list.len(), 2);
    assert_eq!(list.get_status(&1), "Test Message Hello");
    assert_eq!(list.get_status(&2), "Test Message Hello");
}
