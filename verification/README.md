# Picture Cleaner

Finds images to tidy away in a folder: exact duplicates, images that look alike, and images
that may be blurred. The formats are `jpg`, `jpeg`, `png` and `webp`.

`src/` is the library, verified with Verus:

- `scan`: a scan, stage by stage, from the files that were found to the result
- `exact`: duplicates, by size and then by SHA-256
- `similar`, `forest`: perceptual hashes compared band by band, and the sets they make
- `picture`, `blur`: what is measured in an image, and which scores count as blurry
- `cache`, `escape`, `numbers`, `text`: the cache file
- `record`, `paths`: what is known and what is shown of a file
- `errors`, `progress`, `trash`: what is reported, and the run over files for the trash
- `cancel`: the flag by which a scan is cancelled

`app/` is the desktop program around it: the window's commands, files, threads and all
floating-point arithmetic. `tests/` runs the library.

A blur score is a 64-bit floating-point number. The library carries its bit pattern.
