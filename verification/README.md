# dns_server

The verified parts of a DNS server that was designed as a recursive resolver:
the packet buffer, the message header, the answer cache and the resolver's
decisions, verified with Verus. The program in `app/` answers each request with
a header only, since the library's packet has no question or record sections.

- `src/buffer.rs`: the 512-byte packet buffer: reading and writing bytes,
  network-order integers and (compressed) domain names, with the laws that what
  is written reads back.
- `src/protocol.rs`: result codes, query types and the message header, with
  their wire forms and round-trip laws.
- `src/cache/`: cached records with a time to live, and the LRU cache of
  answers (built on the `lru` crate), with hit and miss counts; a cache size
  of zero turns caching off.
- `src/logging.rs`: the log line of a response.
- `src/config.rs`: the server's settings and their bounds.
- `src/resolve.rs`: the resolver's decisions: root servers, query and response
  headers, the answer to a request that cannot be read or asks no question,
  answering from the cache and caching answers, and what to do with each reply.
- `src/text.rs`: text conversions (UTF-8 decoding, lower-casing, decimals).
- `app/`: the program around the library: command line, logger, sockets and
  tasks.
