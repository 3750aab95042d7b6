# fusion_ocr

Document OCR: a page goes through a layout model, a model that finds text lines, a model that
reads them, and a model that reads formulas. The result is a list of paragraphs in reading
order, with their text as Markdown.

`src/` is the verified library. It decides what the models are fed and what their answers
mean; it runs none of them.

| module | what it holds |
|---|---|
| `single`, `arith`, `rounding`, `root`, `bounds` | IEEE 754 binary32 numbers on bit patterns, each operation proved to be the nearest number to the exact result |
| `order`, `strings` | stable ordering by keys; lines, trimming and joining of text |
| `raster` | pictures, and the calls into `image` and `imageproc` |
| `ocr::layout` | the regions of a page |
| `ocr::text` | lines of text: page input, borders, hulls, the smallest rectangles around them, reading order, batches, CTC decoding |
| `ocr::formula` | formulas: margins, scaling, byte-level tokens |
| `pipeline` | classes, paths, regions, crops and the course of a page |

`app/` loads the models with `ort`, runs them, and measures the time.

What is not proved: the functions of `image`, `imageproc` and the standard library that are
called behind the `external_body` functions and `assume_specification` items; their doc
comments say what is claimed of each.
