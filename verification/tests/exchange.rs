use std::collections::HashMap;

use chunkshare::digest::{addr_to_u64, sha256_of_vec};
use chunkshare::effect::Effect;
use chunkshare::packet::{Packet, Request, Response};
use chunkshare::peer::{Peer, Received};
use chunkshare::server::download::DownloadWant;
use chunkshare::server::round::Want;
use chunkshare::server::upload::UploadWant;
use chunkshare::server::Server;
use chunkshare::store::{DirEntry, FileEntry};

const HERE: &str = "10.0.0.1:80";
const THERE: &str = "10.0.0.2:80";

/// A node whose disk is a map, and the packets that have come for it.
struct Node {
    server: Server,
    disk: HashMap<(String, String), Vec<u8>>,
    inbox: Vec<Packet>,
    /// The only peer that is not silent.
    other_id: u64,
}

impl Node {
    fn new(other: &str) -> Node {
        Node::started(&[], other, &[])
    }

    fn started(entries: &[(&str, &[&str])], other: &str, silent: &[&str]) -> Node {
        let entries = entries
            .iter()
            .map(|(name, files)| DirEntry {
                name: name.to_string(),
                is_dir: true,
                files: files
                    .iter()
                    .map(|file| FileEntry { name: file.to_string(), contents: String::new() })
                    .collect(),
            })
            .collect();
        let mut server = Server::new(&entries).unwrap();
        server.add_peer(Peer::new(other.to_string()));
        for addr in silent {
            server.add_peer(Peer::new(addr.to_string()));
        }
        let other_id = addr_to_u64(other);
        Node { server, disk: HashMap::new(), inbox: vec![], other_id }
    }

    fn perform(&mut self, effects: Vec<Effect>, other: &mut Node) {
        for effect in effects {
            match effect {
                Effect::Send { to, packet } => {
                    if to == self.other_id {
                        other.inbox.push(packet);
                    }
                }
                Effect::WriteFile { dir, file, data } => {
                    self.disk.insert((dir, file), data);
                }
                Effect::Append { dir, file, data } => {
                    self.disk.get_mut(&(dir, file)).unwrap().extend(data);
                }
                _ => {}
            }
        }
    }

    /// Runs the server until it has done all that has come for it. Every other
    /// iteration brings nothing.
    fn run(&mut self, other: &mut Node) {
        let mut idle = true;
        while !self.inbox.is_empty() {
            let mut round = self.server.run_once();
            loop {
                let effects = match round.wants() {
                    Want::Poll(id) => {
                        let received = if idle || id != self.other_id || self.inbox.is_empty() {
                            Received::Nothing
                        } else {
                            Received::Packet(self.inbox.remove(0))
                        };
                        self.server.poll(&mut round, received).unwrap()
                    }
                    Want::ReadChunk { dir, file } => {
                        let chunk = self.disk[&(dir, file)].clone();
                        self.server.serve_chunk(&mut round, chunk)
                    }
                    Want::Receive(_) => {
                        let packet = self.inbox.remove(0);
                        self.server.store_chunk(&mut round, packet).unwrap()
                    }
                    Want::Nothing => break,
                };
                self.perform(effects, other);
            }
            idle = !idle;
        }
    }

    fn upload(&mut self, name: &str, data: &[u8], other: &mut Node) {
        let mut upload = self.server.upload(name.to_string(), data.len() as u64);
        let mut at = 0;
        loop {
            match upload.wants() {
                UploadWant::Read(count) => {
                    let chunk = data[at..at + count as usize].to_vec();
                    at += count as usize;
                    if upload.is_hashing() {
                        upload.hash_chunk(&chunk);
                    } else {
                        let effects = self.server.send_chunk(&mut upload, &chunk);
                        self.perform(effects, other);
                    }
                }
                UploadWant::Rewind => {
                    at = 0;
                    let (announced, effects) = self.server.announce(upload);
                    upload = announced;
                    self.perform(effects, other);
                }
                UploadWant::Nothing => break,
            }
        }
    }

    fn download(&mut self, hash: u128, other: &mut Node) -> Vec<u8> {
        let (mut download, effects) = self.server.download(hash);
        self.perform(effects, other);
        loop {
            match self.server.download_next(&mut download) {
                DownloadWant::Ask { packet, .. } => {
                    other.inbox.push(packet);
                    other.run(self);
                    let answer = Some(self.inbox.remove(0));
                    let effects = self.server.download_answer(&mut download, answer);
                    self.perform(effects, other);
                }
                DownloadWant::Finish => break,
                DownloadWant::Fail(fault) => panic!("{fault:?}"),
            }
        }
        self.server.finish_download(download).unwrap();
        self.disk[&("downloads".to_string(), format!("{hash:x}"))].clone()
    }
}

fn exchanged(data: &[u8]) -> (Node, Node, Vec<u8>) {
    exchanged_among(data, &[], &[])
}

fn exchanged_among(data: &[u8], by_here: &[&str], by_there: &[&str]) -> (Node, Node, Vec<u8>) {
    let mut here = Node::started(&[], THERE, by_here);
    let mut there = Node::started(&[], HERE, by_there);
    here.upload("a file", data, &mut there);
    there.run(&mut here);
    here.run(&mut there);
    let hash = here.server.file_hash_by_name("a file").unwrap();
    assert_eq!(there.server.file_hash_by_name("a file"), Some(hash));
    let back = here.download(hash, &mut there);
    (here, there, back)
}

#[test]
fn sent_chunks_can_be_had_back() {
    let data: Vec<u8> = (0..2000u32).map(|i| (i % 253) as u8).collect();
    let (here, there, back) = exchanged(&data);
    assert_eq!(back, data);
    let hash = here.server.file_hash_by_name("a file").unwrap();
    assert_eq!(there.server.own_chunks()[&hash], vec![0, 1, 2, 3]);
    assert_eq!(here.server.get_chunk_peers(hash, 3), Some(&vec![addr_to_u64(THERE)]));
    assert_eq!(here.server.stats.uploaded_chunks, 4);
    assert_eq!(here.server.stats.downloaded_chunks, 4);
    assert_eq!(here.server.stats.downloaded_files, 1);
    assert_eq!(there.server.stats.uploaded_chunks, 4);
}

#[test]
fn silent_peers_do_not_matter() {
    let data: Vec<u8> = (0..1536u32).map(|i| (i % 253) as u8).collect();
    let silent = ["10.0.0.3:80", "10.0.0.4:80", "10.0.0.5:80"];
    let (here, there, back) = exchanged_among(&data, &silent[..1], &silent);
    assert_eq!(back, data);
    assert_eq!(here.server.stats.uploaded_chunks, 6);
    assert_eq!(here.server.stats.downloaded_chunks, 3);
    assert_eq!(there.server.stats.uploaded_chunks, 3);
}

#[test]
fn small_and_empty_files_come_back() {
    assert_eq!(exchanged(b"x").2, b"x");
    assert_eq!(exchanged(b"").2, b"");
}

#[test]
fn file_without_a_remainder_comes_back_whole() {
    assert_eq!(exchanged(&[7; 512]).2, vec![7; 512]);
    assert_eq!(exchanged(&[7; 1024]).2, vec![7; 1024]);
}

#[test]
fn name_is_stored_with_the_chunks() {
    let (here, there, _) = exchanged(b"x");
    let hash = here.server.file_hash_by_name("a file").unwrap();
    let dir = format!("{hash:x}");
    assert_eq!(there.disk[&(dir.clone(), "name".to_string())], b"a file");
    assert_eq!(there.disk[&(dir, "0".to_string())], b"x");
}

/// The directory of the chunks, as it would be listed.
fn listed(node: &Node) -> Vec<DirEntry> {
    let mut entries = vec![DirEntry { name: "downloads".to_string(), is_dir: true, files: vec![] }];
    for ((dir, file), data) in &node.disk {
        let contents = if file == "name" {
            String::from_utf8(data.clone()).unwrap()
        } else {
            String::new()
        };
        let file = FileEntry { name: file.clone(), contents };
        match entries.iter().position(|entry| entry.name == *dir) {
            Some(i) => entries[i].files.push(file),
            None => entries.push(DirEntry { name: dir.clone(), is_dir: true, files: vec![file] }),
        }
    }
    entries
}

#[test]
fn restarted_server_knows_what_it_stored() {
    let (here, there, _) = exchanged(&[5; 1300]);
    let hash = here.server.file_hash_by_name("a file").unwrap();
    let server = Server::new(&listed(&there)).unwrap();
    let mut ids = server.own_chunks()[&hash].clone();
    ids.sort();
    assert_eq!(ids, vec![0, 1, 2]);
    assert_eq!(server.own_chunks().len(), 1);
    assert_eq!(server.file_name(hash), Some("a file"));
}

#[test]
fn server_restarts_more_than_once() {
    let mut here = Node::new(THERE);
    let mut there = Node::started(&[("downloads", &[]), ("1f", &["0", "a"])], HERE, &[]);
    for id in [0, 10] {
        there.disk.insert(("1f".to_string(), format!("{id:x}")), vec![id]);
    }
    for id in [3, 5] {
        there.inbox.push(Packet::from(Request::WriteChunks(0x1f, vec![id])));
        there.inbox.push(Packet::from(Request::WriteChunk(vec![1])));
        there.run(&mut here);
        there.server = Server::new(&listed(&there)).unwrap();
        there.server.add_peer(Peer::new(HERE.to_string()));
    }
    let mut ids = there.server.own_chunks()[&0x1f].clone();
    ids.sort();
    assert_eq!(ids, vec![0, 3, 5, 10]);
    assert_eq!(there.server.file_name(0x1f), Some("unnamed"));
}

#[test]
fn uploads_and_downloads_leave_stored_chunks_alone() {
    let (mut here, mut there, _) = exchanged(b"one file");
    let hash = here.server.file_hash_by_name("a file").unwrap();
    there.upload("another", b"another file", &mut here);
    here.run(&mut there);
    there.run(&mut here);
    let other = there.server.file_hash_by_name("another").unwrap();
    assert_eq!(there.download(other, &mut here), b"another file");
    assert_eq!(here.download(hash, &mut there), b"one file");
}

#[test]
fn written_chunk_is_read_back_with_its_own_digest() {
    let mut here = Node::new(THERE);
    let mut there = Node::new(HERE);
    there.inbox.push(Packet::from(Request::WriteChunks(1, vec![2])));
    there.inbox.push(Packet::from(Response::Chunk([9; 32], b"data".to_vec())));
    there.run(&mut here);
    here.inbox.clear();
    there.inbox.push(Packet::from(Request::Chunks(1, vec![2])));
    there.run(&mut here);
    let sha = sha256_of_vec(b"data");
    assert!(here.inbox == vec![Packet::from(Response::Chunk(sha, b"data".to_vec()))]);
}

#[test]
fn data_without_a_request_does_not_stop_a_node() {
    let mut here = Node::new(THERE);
    let mut there = Node::new(HERE);
    there.inbox.push(Packet::from(Request::WriteChunk(vec![1])));
    there.inbox.push(Packet::from(Request::HasChunk(1, 2)));
    there.run(&mut here);
    assert_eq!(there.server.get_chunk_peers(1, 2), Some(&vec![addr_to_u64(HERE)]));
}
