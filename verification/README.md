# bin_ocr

Recognition of binary words written in images: an image is binarised, the
frame around its ink is found, the digits are segmented into 4-connected
components, each digit is centred and scaled to 28 x 28 for a small neural
network, and the word that the network reads is decoded as an unsigned and
as a two's complement number.

The library in `src/` is verified with Verus; every public function states
its result in its contract, and the laws that span several functions are
public proof functions (`law_*`).

- `grid`, `flood`, `component_box`, `midsized_letter`, `position_sort`,
  `segmentation_laws`: connectivity of pixels, the flood fill, the component
  boxes, the average size of the components, the selection of the digits,
  and the laws that tie them together.
- `extent`, `find_edge`, `cut`, `resizing`: frames, crops and centring.
- `text`, `binarisation`, `pgm_text`, `pgm_round_trip`: plain PGM texts,
  written and read back.
- `imaging`, `read_csv`: decoding and encoding of image files (through the
  `image` crate) and reading of CSV training sets (through the `csv` crate).
- `solution`: decoding of binary words.
- `viewer`, `engine`, `actions_client`: the state and decisions of the viewer
  and of the recognition server.
- `formats`, `listing`, `matrix`: extensions of image files, ordering of
  paths, small matrix constructors.

`app/` is the command-line program around the library: file and console
I/O, the worker thread of the viewer, the asynchronous server, and the
floating-point parts: the scaling to 28 x 28 and the network.

`tests/` exercises the library on concrete values.
