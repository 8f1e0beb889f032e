# videosrv

A server that captures video from cameras, records it to a local disk in segments, and serves
the recordings of a time range as an HLS playlist.

- `src/` is the library: the rules of the server, verified with Verus.
  - `time`, `text`, `path`, `name_map`, `lists`: points in time, texts, paths and maps by name.
  - `model`, `pipeline`, `watchdog`: the configuration, the pipeline of a source, and when it is
    started anew.
  - `recordings`, `stretches`, `playlist`, `segment`: recorded files, the time that they cover
    together, and what is made from them.
  - `cache`, `request`, `error`: the files that were made, what is asked for, and what a failed
    request is answered with.
- `tests/` holds tests of the library.
- `app/` is the program around it: the web server, files, ffmpeg and GStreamer.

Reading, rendering and shifting times is left to chrono, and sorting to itertools. The functions
of `src/` that are marked `external_body` call them; what their contracts say is taken on trust.

## API

* `curl -v 'http://localhost:8080/recording_list?source=cam1&resolution=240p&timestamp_min=2022-07-01T00:00:00Z&timestamp_max=2022-07-15T23:59:59Z'`
* `curl -v 'http://localhost:8080/info'`
* `curl -v 'http://localhost:8080/rec/cam0/240p/221219T000000-221220T000000/playlist.m3u8'`
