# chunkshare

The core of a peer-to-peer file sharing node, written and proved in Verus.

A file is cut into chunks of 512 bytes. A node sends the chunks of a file that
it uploads to its peers, which store them; each peer tells the others what it
has. Later the file can be put together again from chunks that peers send back,
each with its SHA-256 digest, and the whole is checked against the hash of the
file.

The library does no input or output. It says what is to be done next
(`Want`, `UploadWant`, `DownloadWant`), takes in what came of it, and gives back
the effects that are to be carried out.

- `src/radix.rs`, `src/text.rs`: numbers and log messages as text
- `src/digest.rs`: the hash functions
- `src/packet.rs`, `src/peer.rs`, `src/effect.rs`: packets, peers, effects
- `src/store.rs`: the directory in which chunks are kept
- `src/table.rs`: which peers have which chunks
- `src/server.rs`: what a node knows, and how it takes in new peers
- `src/server/round.rs`: one iteration of a node
- `src/server/upload.rs`, `src/server/download.rs`: handing a file out, and
  getting it back
- `src/server/node.rs`, `src/server/restart.rs`, `src/server/exchange.rs`: a node
  with its disk, and two nodes with each other, over any number of iterations
- `src/stream.rs`, `src/stream/round.rs`: a leaner protocol, in which the data
  of chunks is streamed
- `app/`: sockets, threads, files and the command line around the library

The public proof functions whose names start with `law_` state what holds of
the library as a whole.
