# disk_monitor

Watches the mounted filesystems of a Mac: how full they are, and which files
take up the most space on each of them.

`src/` is the library, verified with Verus:

- `model` - snapshots, mounts, usage, files
- `source` - which mounts are reported, and in which order
- `scan` - the largest files that a walk comes across
- `cache` - the most recent scan of each mount
- `scanner` - when which mount is scanned, as a state machine
- `sampler` - snapshots: what is mounted, joined with what was scanned, and when
  they are made
- `routes` - what the HTTP interface answers
- `clock` - timestamps
- `text` - order and prefixes of texts and paths

`app/` is the daemon around it: it reads the mount table, walks filesystems,
keeps the timers, and speaks HTTP.

What the library takes on trust are the calls to `chrono` in `clock`, those to
`sysinfo` in `source`, and that of `String::from_utf8_lossy` in `text`; each
says what is claimed of it.
