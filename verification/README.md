# libyuyan

A small BitTorrent client whose core is verified with Verus.

`src/` is the verified library:

- `bencode`, `decoder`: bencode values, their model `BValue`, the encoder and
  the decoder, with exact contracts over `encode` and `parse_item`;
- `roundtrip`: decoding reads back every well-formed value from its encoding,
  decoded values are well-formed, and bytes after a value are never read;
- `convert`: typed reads of decoded values and of dictionary entries;
- `metainfo`, `summary`: reading a `.torrent` file into `MetaInfo` (the info
  hash is the SHA-1 digest of the bencoded `info` dictionary, URL-escaped),
  its trackers, and its text form;
- `tracker`: the announce query and the tracker's compact peer list;
- `bitmap`: the pieces held, over `bit_vec::BitVec`;
- `client`: the peer id.

`app/` is the command line and the asynchronous network plumbing (trackers
over HTTP, peers, the writer), which call the library.
