# f2png

Files hidden in images. The library puts files into the low bits of the colour
channels of a cover, or behind an image as a container that can be split into parts
and joined again. With a password the files are encrypted (Argon2id and
ChaCha20-Poly1305).

`src/` is the library, written in Verus: what its functions return is stated in their
contracts and proved. It works on files in memory.

- `lsb`, `raster`: data in the low bits of an image; images and their files
- `payload`, `format`: the files that are hidden, and the header before them
- `crypto`, `source`: keys, messages, streams and reading them
- `stego`: hiding, revealing, changing the cover
- `container`, `parts`, `split`: containers, the names of parts, splitting and joining
- `desk`, `display`, `help`: what the user interfaces decide and say
- `progress`, `error`, `bytes`, `text`, `number`: what the others share

Public functions named `law_...` state what holds of several operations together, such
as that joining the parts of a split file gives the file back.

`app/` holds the programs: `main.rs` is the command line, `gui.rs` the desktop program.
They read and write the files and do what takes floating point: the size that a cover
grows to, and percentages, speeds and times.

`tests/` runs the library with the image and encryption crates that it calls.
