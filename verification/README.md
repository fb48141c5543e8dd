# video_mapper

Finds video files below configured directories, remembers their size and orientation in a SQLite
database, and writes m3u playlists that list the videos under remote URLs.

The library in `src/` holds the rules of the tool and is verified with Verus:

- `path`, `path_laws`, `path_set`, `order`: Unix paths as byte strings, and sorted sets of them;
- `roots`, `scanner`: which directories are scanned and which files are videos;
- `ffprobe`: what the output of `ffprobe` says of a video;
- `db`: rows of the database, and the removal of outdated ones in batches;
- `config`: the configured playlists;
- `url`, `m3u`: remote URLs and the content of playlists;
- `pipeline`: decisions between the steps of a run.

`app/` is the program around it: command line, directory walks, runs of `ffprobe`, database access
and files. `tests/` runs the library on concrete values.
