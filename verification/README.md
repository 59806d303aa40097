# dompeg

The verified core of Dompeg, a desktop tool that lists video files, shows a
thumbnail of each and dumps a grid of frames of a video into one picture.

`src/` is the library, proved with Verus:

- `models`, `search`, `service`: the records the user interface lists.
- `decoder`: the thumbnail record, the frame interval of a dump, the
  recorder that decides which decoded frames a dump keeps and in which slot,
  and the order of a dump's frames on the sheet.
- `sampling`: which decoded frames are kept, in closed form, with its proofs.
- `caption`: the `HH:MM:SS.mmm` caption of a frame and where it is drawn.
- `grid`: the layout of the frames on the sheet and the sheet's pixels.
- `raster`: the pixel copy, done by the `image` crate.

`app/` is the program around it: decoding with FFmpeg, drawing captions with
`imageproc`, resizing, files and the desktop toolkit.
