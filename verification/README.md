# sd_req

A command-line requestor for the Stable Diffusion WebUI `txt2img` API, with its text,
path and request-building logic written in Verus and verified.

- `src/` is the verified library. Strings are specified over their extended grapheme
  clusters (`unicode.rs` names the segmentation, case mapping and character classes that
  come from `unicode-segmentation` and std). `stringops.rs`, `split.rs`, `path.rs` and
  `types.rs` hold the string, path and number helpers; `json.rs` reads configuration
  entries held as `ConfigValue`s; `http.rs` picks the method and the pooled client of a
  request; `sd_req.rs` holds the decisions of the requestor (command line, seeds,
  overrides, request plan, result names and texts);
  `laws.rs` holds the properties that relate these functions to one another.
- `app/` is the program around it: argument handling, the configuration file, HTTP
  requests, turning JSON values into `ConfigValue`s, floating-point values, and writing
  images.
- `tests/` runs the library on concrete inputs.
