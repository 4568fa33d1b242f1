# laplace

A source-to-source preprocessor for Stan: package manager, namespaces and doc lookup,
compiling `.laplace` files down to plain, inspectable `.stan` files. The library is written
in Verus: what each function returns is stated in its contract and proved.

```stan
library {
  import mathutils
}

transformed data {
  real y = mathutils::double(x);
}
```

`laplace build` deletes the `library { }` block, splices the imported packages' functions into
the `functions { }` block under mangled names (`mathutils__double`), rewrites the calls to
match, and passes everything else through unchanged.

## Layout

- `src/` is the verified library. It does no input or output: what was read comes in as an
  argument, and what is to be written goes out as a result.
  - `text`, `order`, `paths`, `files`: texts as sequences of characters, stable sorting,
    paths by their parts, and what came of reading a file.
  - `parser`: the `library { }` block, function signatures and their `// @laplace` comments,
    and the scanner that tells code from comments and string literals.
  - `codegen`: mangling, call-site rewriting, splicing, and which output lines came from which
    package.
  - `manifest`, `resolve`: `laplace.toml`, `laplace.lock`, versions, checksums, the local
    registry and git sources.
  - `docs`, `init`, `validate`, `cli`: what the commands decide and print.
  - `laws`: what holds of the library as a whole, each as a theorem over the models that the
    functions' contracts use.
- `app/` is the `laplace` command around it: arguments, files, `git`, `stanc`.
- `tests/` runs the library on examples.

## What is trusted

`semver` and `sha2` do their own work. The few functions of theirs that the library calls stand
behind wrappers in `src/resolve/version.rs` and `src/resolve/checksum.rs`, whose contracts say
what is believed of them. Three functions of the standard library have such contracts too, in
`src/text.rs` and `src/validate.rs`.
