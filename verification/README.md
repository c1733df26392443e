# gcoms_node

The rules of a messaging node, written in Verus: what it keeps across a restart,
what it refuses to read back, which of its relay aliases it may go on with, whose
work its relay takes, and what it tells its peers of its presence.

The library decides and computes. It opens no socket, reads no clock and starts no
task: times, random numbers and what the protocol stack found out are arguments.

## Layout

- `src/` is the library. Every function states what it returns.
  - Bytes: `bytes`, `grammar` (what a layout means and that reading undoes
    writing), `record` (the executable side of it), `seal` (authenticated
    encryption and key derivation).
  - Data: `model`, `node_state`, `codec` (what the protocol stack knows of its
    encodings), `table`, `time`, `error`.
  - The archive: `archive_frame`, `archive_item`, `archive_check`, `archive`,
    `archive_write`, `legacy`; what follows from them in `archive_law`,
    `archive_back`, `archive_extent` and `archive_sound`.
  - What a host looks at before it can be read: `strings`, `archive_strings`,
    `legacy_strings`; that nothing else matters in `strings_law`.
  - Restoring: `restore`, `restore_state`, `revive`, `revive_channel`,
    `route_work`, `channel_route`, `sealed_parts`, `reopen`, `retained`; what a
    restart keeps in `restart_law`.
  - Aliases: `owner_aliases`, `owner_record`, `owner_restore`, `owner_state`.
  - The relay: `relay_service`, `relay_cells`.
  - The node: `startup`, `profile`, `routing`, `presence`, `push`,
    `peer_session`, `received`.
- `app/` is the host: clocks, addresses, the environment, storage, and the loops
  that alternate work at a relay with the library's decisions. The traits in
  `app/services.rs` stand for the protocol stack.
- `tests/` runs the library on concrete values.

## What is trusted

The calls into `aes-gcm`, `hkdf`, `sha2`, `x25519-dalek`, `rand`, `url` and
`zeroize`, and `String::from_utf8`, each behind one function whose comment says
what is claimed of it. Everything else is proved.
