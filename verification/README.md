# spriterize

The verified core of a pixel-art editor, written in Verus.

- `src/` is the library. Every function in it carries a contract that Verus
  proves: images and drawing (`image`, `canvas`, `graphics`, `fill`), layers,
  frames, the undo history and the events the editor carries out (`layer`,
  `action`, `state`), palettes and the
  GIMP palette format (`palette`), export reshaping (`export`), filters
  (`filter`, `transform`), asset collections (`collection`), and the smaller
  pieces they share (`text`, `names`, `paths`, `rgba`, `prng`, `files`,
  `panels`).
- `tests/` exercises the library on concrete values.
- `app/` is the command-line program around it: the editor loop that feeds
  events to the library and writes what they ask for, file and archive I/O, PNG
  encoding, and the parts that work in floating point (ellipse outlines,
  palette ordering by hue, playback timing).
