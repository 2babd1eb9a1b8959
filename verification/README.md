# para_api

The native half of the `para/api` package, verified with Verus: the `@openapi("spec.json")`
directive, which generates a typed HTTP client from an OpenAPI document, and the `para.url` module,
the percent-encoder that generated clients call.

## Layout

- `src/json.rs`: JSON documents as trees, and the pointers that lead into them.
- `src/spec.rs`: the slice of an OpenAPI document that a client generator needs.
- `src/names.rs`: names for generated members, always identifiers and never twice the same.
- `src/codegen.rs`: the Noeta source of a client.
- `src/expansion.rs`: the directive, from what it was written with to what it generates.
- `src/url.rs`: percent-encoding and decoding.
- `src/extension.rs`: what the package registers with the toolchain.
- `src/text.rs`: the operations on text that the others are built of.
- `src/spec_laws.rs`, `src/codegen_laws.rs`: what holds of every document that is read and of every
  client that is generated.
- `app/`: the extension that the toolchain loads, around the library. It reads the file.

## What is proved

Each function states what it returns for every input; where a platform decides what a path is,
`begin_expansion` states what holds on all of them. Above that, among others:

- Decoding undoes encoding, for every text.
- What is read out of a document is fit for generation: path parameters are required and have a
  placeholder, no parameter is there twice, names are identifiers.
- A parameter that a path declares reaches every operation under it, and an operation's own
  declaration takes its place.
- No operation is lost or read twice, and no parameter is lost: a reference that cannot be followed fails the document.
- Texts from a document stay data: the literal that one is escaped into stands for exactly that text,
  the comment that one is written into stays a comment, and no text adds a line to a method.
- Every outcome of an expansion reports the document that it looked at.

## What is trusted

The contracts of `serde_json` (parsing, pointers), of `noeta_ext_abi::no_function_error` and of a few
functions of the standard library (paths, upper case, lossy UTF-8) are stated and not proved.
