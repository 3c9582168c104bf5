# fieldrun

Runs a language model from a bundle of weights, or a lookup store alone, and measures what it does: which of its
decisions a lookup would have made, how deep it can evaluate nested expressions, which operator it has learnt from a few
examples, and where in its layers a value is carried.

The crate has two parts.

* `src/` is the library, verified with Verus. It holds everything that is decided or computed on whole numbers and text:
  the lookup store and its candidates (`retrieval`, `capture`, `attribution`, `shortcircuit`), greedy decoding and the
  reuse of a cache (`model`, `prefix_decode`), expressions and the recursive programs that explain an answer
  (`recursion_dl`, `cut_search`, `datalog`, `recursion_probe`, `measure`, `discover`), the sweeps over a model (`sweeps`,
  `list_sweeps`, `patch_sweeps`, `flow_sweep`, `value_dump`), Markdown for a terminal (`mdfmt`, `symbols`), the
  programs that are written, merged and read back (`contrib`, `stitch`, `facts`), what the architectures share
  (`kernel`, `routing`), which circuits and rows a decision rests on (`working_set`, `knockout`, `certificate`,
  `mask_file`, `specialty`), the files that are read and written as JSON (`manifest`, `vocabulary`, `store_file`), and
  the command line (`cli`, `runs`). The modules whose names end in `_laws` state what holds across functions.
  JSON itself is read and written by `serde_json`; what is claimed of it stands above each function that calls it.
* `app/` is the program around it: the arithmetic of the forward passes, files, and printing.

`tests/` runs the library on concrete values.
