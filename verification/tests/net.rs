//! Endpoints, tracker queries and replies, peer frames, and the wire
//! records the session engine sends.
use torain::download::{Bitfield, Message, SinkState};
use torain::peers::Handshake;
use torain::torrent::{FileMode, Torrent};
use torain::tracker::TrackerParams;
use torain::url::{Scheme, Url};
use torain::urutil::{build_url, encode, response_body, response_body_udp};
use torain::utp::UtpPacket;

#[test]
fn bitfield_large() {
    let mut bits = Bitfield::new(10);
    bits.set(4);
    assert_eq!(bits.get(4), 1);
    assert!(bits.len() == 2);
}

#[test]
fn bitfield_compact() {
    let mut bits = Bitfield::new_compact();
    bits.set(4);
    assert_eq!(bits.get(4), 1);
    assert!(bits.len() == 64);
}

#[test]
fn parse_compact_ip() {
    let ip = &[127, 0, 0, 1, 31, 144, 0, 0, 0, 0, 0, 0];
    let mut expected = vec![Url::from_ip_bytes(&[127, 0, 0, 1], 8080)];
    expected.push(Url::from_ip_bytes(&[0, 0, 0, 0], 0));
    let ips = TrackerParams::compact_ip_mode(ip);
    assert_eq!(ips, expected);
}

#[test]
fn parse_non_compact_ip() {
    let data = "d8:intervali100e5:peersld2:ip13:192.168.1.1054:porti6881eed2:ip9:127.0.0.14:porti8080eeee"
        .as_bytes()
        .to_vec();
    let res = TrackerParams::bencoded_ip_mode(data).unwrap();
    let expected = vec![
        Url::from_ip("192.168.1.105", 6881).unwrap(),
        Url::from_ip("127.0.0.1", 8080).unwrap(),
    ];
    assert_eq!(res.1, expected);
}

#[test]
fn http_announce() {
    let url = Url::new("http://bttracker.debian.org:6969/announce").unwrap();
    let port = url.port();
    let scheme = url.scheme;
    let host = url.host;
    assert_eq!((port, scheme, host), (6969, Scheme::HTTP, "bttracker.debian.org:6969".to_owned()));
}

#[test]
fn udp_announce() {
    let url = Url::new("udp://open.demonii.com:1337").unwrap();
    let port = url.port();
    let scheme = url.scheme;
    let host = url.host;
    assert_eq!((port, scheme, host), (1337, Scheme::UDP, "open.demonii.com:1337".to_owned()));
}

#[test]
fn endpoint_paths() {
    let url = Url::new("http://bttracker.debian.org:6969/announce").unwrap();
    assert_eq!(url.location, "/announce");
    let url = Url::new("udp://open.demonii.com:1337").unwrap();
    assert_eq!(url.location, "/");
    assert!(Url::new("nonsense").is_err());
}

#[test]
fn parse_ok() {
    let value = "HTTP/1.1 200 OK\r\nServer: mimosa\r\nConnection: Close\r\nContent-Length: 338\r\nContent-Type: text/plain\r\n\r\nd8:intervali900e5:peers300:掳e\u{84}戮脠y鹿A\u{86}戮\u{1a}谩k\u{9f}毛\u{11}脠脮&F霉*娄\u{89}h玫O脮\u{1a}谩PC鲁;脠脮\u{92}F娄脷W隆鲁赂7c脟\u{1a}m陆露铆脙`Y\u{95}脜氓庐脥脕 \u{7f}矛8vY:\u{f}T氓脼\u{8f}么/T脴\u{80}\u{2}Sq掳脠脮O\u{7f}脧陋冒5Y茅脧o脌O录贸%搂\u{1a}谩l脕\u{9e}\u{96}`矛_\u{18}0矛脵<\u{5}&脡\u{8d}脠脮脝6\u{80}|)F碌陋V鲁谩UZ每么脹脠\"1\u{90}&>+脢脡2{\"脠脮-\u{8c}赂\u{1a}\u{95}\u{15}漏\u{96}脜b\u{81}V%盲禄1A帽W脭脛\u{1c}Ir脵\u{1f}鹿氓脠脮录潞{\u{8d}\u{12}霉赂<4X'\u{11}V隆\u{9d}脜脠脮R@鲁鲁脠脰\u{92}F鲁\u{1e}Rv碌脳掳Cs氓篓茫(帽\u{1a}谩掳;`\0谩M脕脣\r脟\u{91}脩卤戮\u{9e}脪\u{1a}谩\u{90}\u{2}A_N脨\u{18}\u{4}\u{7}1\u{1a}谩k\u{89}脙脳\u{1a}谩G隆n\\锚`R楼忙陆脴脴搂r脦脡脢5\u{1b}*a篓\u{1a}芒U\u{86}\u{8}\u{c}脠脮%没h\u{a0}\u{93}+\u{90}卢卤陋脠脰6:peers60:e".as_bytes().to_vec();
    let body = "d8:intervali900e5:peers300:掳e\u{84}戮脠y鹿A\u{86}戮\u{1a}谩k\u{9f}毛\u{11}脠脮&F霉*娄\u{89}h玫O脮\u{1a}谩PC鲁;脠脮\u{92}F娄脷W隆鲁赂7c脟\u{1a}m陆露铆脙`Y\u{95}脜氓庐脥脕 \u{7f}矛8vY:\u{f}T氓脼\u{8f}么/T脴\u{80}\u{2}Sq掳脠脮O\u{7f}脧陋冒5Y茅脧o脌O录贸%搂\u{1a}谩l脕\u{9e}\u{96}`矛_\u{18}0矛脵<\u{5}&脡\u{8d}脠脮脝6\u{80}|)F碌陋V鲁谩UZ每么脹脠\"1\u{90}&>+脢脡2{\"脠脮-\u{8c}赂\u{1a}\u{95}\u{15}漏\u{96}脜b\u{81}V%盲禄1A帽W脭脛\u{1c}Ir脵\u{1f}鹿氓脠脮录潞{\u{8d}\u{12}霉赂<4X'\u{11}V隆\u{9d}脜脠脮R@鲁鲁脠脰\u{92}F鲁\u{1e}Rv碌脳掳Cs氓篓茫(帽\u{1a}谩掳;`\0谩M脕脣\r脟\u{91}脩卤戮\u{9e}脪\u{1a}谩\u{90}\u{2}A_N脨\u{18}\u{4}\u{7}1\u{1a}谩k\u{89}脙脳\u{1a}谩G隆n\\锚`R楼忙陆脴脴搂r脦脡脢5\u{1b}*a篓\u{1a}芒U\u{86}\u{8}\u{c}脠脮%没h\u{a0}\u{93}+\u{90}卢卤陋脠脰6:peers60:e".as_bytes();
    let res = response_body(Scheme::HTTP, &value);
    assert!(res.is_ok());
    assert_eq!(res.unwrap(), body.to_vec());
}

#[test]
fn parse_err() {
    let value = "HTTP/1.1 301 Not Found".as_bytes().to_vec();
    let res = response_body(Scheme::HTTP, &value);
    assert!(res.is_err());
}

#[test]
fn udp_reply_body_skips_header() {
    let mut reply = vec![0u8; 20];
    reply.extend_from_slice(&[127, 0, 0, 1, 0x1F, 0x90]);
    let body = response_body_udp(&reply).unwrap();
    assert_eq!(body, vec![127, 0, 0, 1, 0x1F, 0x90]);
    assert!(response_body_udp(&vec![0u8; 10]).is_err());
}

#[test]
fn new_packet() {
    let upacket = UtpPacket::new();
    assert_eq!(upacket.packet_version, 65);
}

#[test]
fn syn_packet_layout() {
    let mut packet = UtpPacket::new();
    packet.refetch_timestamp();
    let bytes = packet.as_bytes();
    assert_eq!(bytes.len(), 20);
    assert_eq!(bytes[0], 0x41);
    assert_eq!(bytes[1], 0);
    assert_eq!(&bytes[2..4], &[0, 0x35]);
    assert_eq!(&bytes[12..16], &[0, 0, 0xF0, 0]);
    assert_eq!(&bytes[16..18], &[0, 1]);
    assert_eq!(&bytes[18..20], &[0, 0]);
}

#[test]
fn percent_encoding() {
    assert_eq!(encode(b"abc"), "abc");
    assert_eq!(encode(b" "), "%20");
    assert_eq!(encode(&[0xC3, 0x9B]), "%C3%9B");
}

#[test]
fn query_string_shape() {
    let params = vec![
        ("a".to_owned().into_bytes(), "1".to_owned().into_bytes()),
        ("b".to_owned().into_bytes(), vec![0xC3u8]),
    ];
    assert_eq!(build_url("/announce", &params), "/announce?a=1&b=%C3");
    let empty: Vec<(Vec<u8>, Vec<u8>)> = Vec::new();
    assert_eq!(build_url("/announce", &empty), "/announce");
}

#[test]
fn torrent_fields_from_text() {
    let raw = "d8:announce41:http://bttracker.debian.org:6969/announce7:comment5:hello4:infod6:lengthi1024e4:name4:test12:piece lengthi256e6:pieces20:AAAAAAAAAAAAAAAAAAAAee";
    let torrent = Torrent::from_str(raw).unwrap();
    assert_eq!(torrent.announce, Url::new("http://bttracker.debian.org:6969/announce").unwrap());
    assert_eq!(torrent.comment, Some("hello".to_string()));
    assert_eq!(torrent.creation_date, None);
    assert_eq!(torrent.info.name, "test");
    assert_eq!(torrent.info.piece_length, 256);
    assert!(matches!(torrent.info.mode, FileMode::SingleMode { length: 1024 }));
    assert_eq!(torrent.calculate_left(), 1024);
    let mut hex = String::new();
    for b in torrent.hash.iter() {
        hex.push_str(&format!("{:02x}", b));
    }
    assert_eq!(hex, "f164e4844f7fe6457fd6218d224b3bc54c02f208");
}

#[test]
fn announce_record_layout() {
    let raw = "d8:announce41:http://bttracker.debian.org:6969/announce7:comment5:hello4:infod6:lengthi1024e4:name4:test12:piece lengthi256e6:pieces20:AAAAAAAAAAAAAAAAAAAAee";
    let torrent = Torrent::from_str(raw).unwrap();
    let params = TrackerParams::new(&torrent);
    let record = params.announce_udp_request(0x41727101980, 7);
    assert_eq!(record.len(), 98);
    assert_eq!(&record[0..8], &[0, 0, 4, 23, 39, 16, 25, 128]);
    assert_eq!(&record[8..12], &[0, 0, 0, 1]);
    assert_eq!(&record[12..16], &[0, 0, 0, 7]);
    assert_eq!(&record[16..36], &torrent.hash);
    assert_eq!(&record[36..56], "--sd--TORAIN---01523".as_bytes());
    assert_eq!(&record[64..72], &[0, 0, 0, 0, 0, 0, 4, 0]);
    assert_eq!(&record[80..84], &[0, 0, 0, 2]);
    assert_eq!(&record[92..96], &[0xFF, 0xFF, 0xFF, 0xFF]);
    assert_eq!(&record[96..98], &[0x1A, 0xE1]);
}

#[test]
fn announce_query() {
    let raw = "d8:announce41:http://bttracker.debian.org:6969/announce7:comment5:hello4:infod6:lengthi1024e4:name4:test12:piece lengthi256e6:pieces20:AAAAAAAAAAAAAAAAAAAAee";
    let torrent = Torrent::from_str(raw).unwrap();
    let params = TrackerParams::new(&torrent);
    let path = params.announce_path();
    assert!(path.starts_with("/announce?info_hash=%"));
    assert!(path.contains("&port=6881&uploaded=0&downloaded=0&left=1024&compact=1&event=started"));
}

#[test]
fn handshake_bytes() {
    let handshake = Handshake::new([1u8; 20], [2u8; 20]);
    let bytes = handshake.to_bytes();
    assert_eq!(bytes.len(), 68);
    assert_eq!(bytes[0], 19);
    assert_eq!(&bytes[1..20], "BitTorrent protocol".as_bytes());
    assert_eq!(bytes[25], 0x10);
    assert_eq!(bytes[27], 0x01);
    assert_eq!(&bytes[28..48], &[1u8; 20]);
    assert_eq!(&bytes[48..68], &[2u8; 20]);
}

#[test]
fn frame_parsing() {
    assert_eq!(Message::try_from(&[0], 1), Message::Choke);
    assert_eq!(Message::try_from(&[1], 1), Message::Unchoke);
    assert_eq!(Message::try_from(&[4, 0, 0, 1, 0], 5), Message::Have(256));
    assert_eq!(Message::try_from(&[6], 1), Message::Request);
    assert_eq!(
        Message::try_from(&[7, 0, 0, 0, 1, 0, 0, 0, 0, 9, 9], 11),
        Message::Piece(vec![9, 9])
    );
    assert_eq!(Message::try_from(&[42], 1), Message::Unrecognized);
}

#[test]
fn sink_tracks_peers() {
    let mut sink = SinkState::new();
    assert_eq!(sink.on_message(3, Message::Choke), None);
    assert_eq!(sink.peer_choking.get(3) & 1, 1);
    assert_eq!(sink.on_message(3, Message::Unchoke), None);
    assert_eq!(sink.peer_choking.get(3) & 1, 0);
    assert_eq!(sink.on_message(5, Message::Interested), None);
    assert_eq!(sink.peer_interested.get(5) & 1, 1);
    let delivered = sink.on_message(1, Message::Piece(vec![1, 2, 3]));
    assert_eq!(delivered, Some(vec![1, 2, 3]));
    sink.on_message(0, Message::BitField(Bitfield::new_compact()));
    assert_eq!(sink.piece_map.len(), 1);
}
