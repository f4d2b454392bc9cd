# ShufflePic

A photo slideshow that shows one or two pictures of a folder at a time, in
random order, and repeats none before every one has been shown.

- `src/` is the library: the play order, the window of decoded pictures, the
  looks at the folder, the saved state, the moves of deleted and oversized
  pictures, and the steps of a frame. Its functions carry contracts that Verus
  proves. `coherence.rs` and `bounds.rs` hold what is true of the slideshow at
  all times.
- `app/` is the program: the window, the files, the threads that decode.
- `tests/` runs the library.
