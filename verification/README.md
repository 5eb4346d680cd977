# composed

Read facts out of a Docker Compose file: the name, tag and digest of a service's image, and its
environment variables.

- `src/` is the library, verified with Verus. `compose` holds a file's services, `service` the image
  and environment of one, `image` the parts of an image reference. `document` and `scalar` are what a
  YAML reader hands over. `table` is the map in which names are kept in `order`, and `text` searches,
  splits and lists.
- `app/` reads YAML with `serde_norway` into `document`'s types, embeds a file at compile time, and
  offers lookups that panic.
- `tests/` runs the library, on YAML and on hand-made documents.
