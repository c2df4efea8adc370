pub mod bencode;
pub mod d2h2;
pub mod download;
pub mod find_node;
pub mod error;
pub mod kademlia;
pub mod krpc;
pub mod lookup;
pub mod peers;
pub mod request;
pub mod sha1;
pub mod tinymt;
pub mod torrent;
pub mod tracker;
pub mod url;
pub mod utp;
pub mod urutil;
pub mod utils;
