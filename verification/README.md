# Weavedraw

A real-time collaborative whiteboard whose rules are verified with
[Verus](https://github.com/verus-lang/verus): strokes are replicated through a
last-writer-wins element set (Lamport timestamps and tombstones), rooms are
served over WebSockets and persisted as snapshots, and a desktop client draws,
erases, undoes and shows who else is there.

## Layout

| Where    | What                                                                    |
|----------|-------------------------------------------------------------------------|
| `src/`   | The library: its rules, each with its contract, proved                  |
| `tests/` | Its tests                                                               |
| `app/`   | Sockets, files, window and GPU, and what is floating point (geometry, the steps of the brush width) |

The library by subject:

| Modules                                          | Subject                                             |
|--------------------------------------------------|-----------------------------------------------------|
| `types`, `protocol`, `text`, `ids`               | Strokes, cursors, messages and their parts          |
| `crdt`, `crdt_laws`, `order_laws`, `ordmap`      | The replicated set, and what holds of replicas      |
| `wire`, `layout`, `codec`                        | The byte format of messages and snapshots           |
| `geom`, `geom_laws`, `canvas`, `gpu`             | Simplification, smoothing, hit tests, upload plans  |
| `config`, `room`, `registry`, `ws`               | The server                                          |
| `args`, `net`, `document`, `board`, `board_laws`, `app`, `tool`, `palette`, `panel` | The client |

Contracts speak of mathematical views: a set of strokes is a map from ids to what
is known of each, a room is its set and its peers, a client is an `AppView`.
Each executable function says exactly what it makes of the view. Properties that
relate several functions are public proof functions named `law_…`.

Coordinates and widths are `Scalar`s, the bits of an `f32`. The library copies
and compares them; it leaves arithmetic on them to its callers, and is verified
for whatever they compute.

What the library takes from `bincode`, `uuid` and the standard library without
proof is stated on the functions marked `external_body` and in the
`assume_specification` items, each with what it claims.

## Running

One program under two names: started as `weavedraw-server` it serves, otherwise
it is the client.

```sh
weavedraw-server                # serve on ws://127.0.0.1:8080/ws
weavedraw ROOM                  # join ROOM (default: lobby)
```

| Server variable        | Default          | Meaning                                  |
|------------------------|------------------|------------------------------------------|
| `WEAVEDRAW_ADDR`       | `127.0.0.1:8080` | Listen address                           |
| `WEAVEDRAW_DATA_DIR`   | `data`           | Room snapshots (`<room>.bincode`)        |
| `WEAVEDRAW_MAX_PEERS`  | `64`             | Connections per room before `RoomFull`   |
| `WEAVEDRAW_FLUSH_SECS` | `2`              | Interval for writing dirty rooms to disk |

| Client variable    | Default                  | Meaning                     |
|--------------------|--------------------------|-----------------------------|
| `WEAVEDRAW_SERVER` | `ws://127.0.0.1:8080/ws` | Server URL                  |
| `WEAVEDRAW_ROOM`   | `lobby`                  | Room to join                |
| `WEAVEDRAW_NAME`   | `$USER`                  | Display name shown to peers |

Command-line arguments override the environment.

Built with `--cfg 'feature="json-wire"'` on both sides, frames and snapshot files
(`<room>.json`) carry JSON text in place of bytes.
