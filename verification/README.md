# rustjay

The verified core of a live-visuals engine.

- `src/mixer/`: a stack of channels with bus groups over it. Which layers are heard, how
  groups nest, which draws make a frame and in what order, which parameters are declared.
- `src/rec.rs`, `src/play.rs`, `src/merge.rs`, `src/punch.rs`: recorded DMX. The `.dmxrec` log,
  its playback, priority compositing of several layers, punch-in recording over a take.
- `src/look.rs`, `src/rx.rs`: fixture looks as channel bytes, received universes.
- `src/spout.rs`, `src/video.rs`, `src/tools.rs`: what the video inputs decide on plain values.

Effects, textures and floating-point levels belong to the host. `app/` is such a host: it opens
files, sockets and shared textures, and executes the draws.

What holds of the library as a whole is stated by the proof functions named `law_*`.
