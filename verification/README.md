# Podspine

Serves a library of audiobooks as private podcast feeds, one episode per chapter.

`src/` is the library: everything Podspine decides and computes, verified with
Verus. It touches no disk, no network and no clock. What it needs to know of
them it is told as plain values, and what is to be done it returns as plain
values.

| module | what it holds |
| --- | --- |
| `text`, `paths`, `sorting`, `ticks` | characters, paths, stable orders and exact times |
| `config` | command line over file over defaults; a book's own overrides |
| `prober`, `faststart` | what `ffprobe` reports; where an MP4 keeps its index |
| `chapters` | `.cue` and `.ffmeta` sidecars, and which source of chapters wins |
| `splitter` | the arguments of `ffmpeg`, and when a split is published |
| `feed` | guids, dates, the channel, and the check every feed passes |
| `index` | what is on record of a book, and how records are replaced |
| `scanner` | the walk through the library, ids, ingest plans, the watcher |
| `http` | what a request is answered, audio, the cache, feeds |
| `ui`, `metrics` | links, QR codes, themes; names of what is measured |
| `single` | one file turned into a feed by itself |
| `outside` | the calls into other crates, with what is taken for granted |

Times are counted in ticks of 1/3,528,000,000 s, so that microseconds, CD frames
and audio samples are exact.

What holds of the library as a whole is stated as public proof functions named
`law_...`, beside the functions they speak of.

`app/` is the program around it: arguments, files, `ffmpeg`, SQLite, HTTP.
`tests/` runs the library on concrete values.
