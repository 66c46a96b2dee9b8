# northstar

Gemtext documents and Gemini response headers, verified with Verus.

- `src/text.rs`: splitting text at newlines, the `lines` view of a text,
  escaping of line starts and folding of several lines into one, with the
  laws that these keep (escaped lines are single plain lines, escaping and
  folding are idempotent, newline-terminated lines split back into
  themselves).
- `src/document.rs`: the item types, `Document` and its rendering to
  gemtext, specified over a model (`GemItem`, `render`), with the laws of
  rendering (it distributes over concatenation; text lines, single-line items
  and preformatted blocks render as exactly their own lines).
- `src/response_header.rs`: `Status`, `Meta` (no newline, at most 1024 bytes
  of UTF-8), `Mime` and `ResponseHeader`, with the laws of the meta line.
- `app/lib.rs`: `Display` for documents and `anyhow`-based constructors.

Link targets are parsed and rendered by `uriparse`, media types by `mime`,
and folded lines are joined by `itertools`; these calls are the trusted
items of the crate.
