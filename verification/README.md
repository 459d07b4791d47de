# surroundfold

surroundfold renders one audio track of a media file for headphones and adds the
result to a copy of that file. Channel tracks, TrueHD object tracks and Enhanced
AC-3 object tracks are rendered through a set of head-related impulse responses.
Everything else of the file is kept, and the copy is published only once it has
been verified.

## Layout

* `src/` is the library. Every item of it is verified with Verus: the parsers of
  the bit streams and of the object metadata, the reconstruction matrices, the
  planning of buses, tails and blocks, the choice of a track, the arguments of
  ffmpeg, the verification of its output, and the order of a run.
* `app/` is the program around it: arguments, files, processes, and the signal
  processing in floating point.
* `tests/` runs the library on concrete values.

## Values

The library holds no floating point. Samples are bit patterns of single
precision or integers of 24 bits. Positions, gains and matrix values are held
as the fractions that the streams spell, and times as nanoseconds.

## Data

The program reads the normative tables of the object formats from `tables.json`
and its default profile from `default_hrir.wav`. Both stand in the directory that
`SURROUNDFOLD_DATA` names, or beside the executable.
