# firmware_inventory

A verified library that turns a firmware catalog (XML listing firmware images per device model)
into an index from product number to version to image location, and checks every location the
catalog gives before it is used as a path on disk.

- `src/text.rs`: character-level helpers (search, prefix, order of texts, decimal digits).
- `src/version.rs`: versions coerced from dotted revisions; their text and order; semver
  requirements and which versions they admit.
- `src/db.rs`: product names (brand dropped, aliases folded) and image locations (every
  component a plain file name); the software root URL and the URL of each location.
- `src/assoc.rs`, `src/index.rs`: the index, kept sorted, viewed as a map.
- `src/xml.rs`: the `quick_xml` reader, its events, tags and attributes, each result tied to
  the text read.
- `src/catalog.rs`: the catalog scan over the XML events of the text.
- `src/update.rs`: building the index from the catalog.
- `src/get.rs`: the products a glob pattern matches, choosing the one a pattern names, the
  newest admitted version, and the distinct uncached images to fetch (or, offline, to report).
- `app/`: the data directory, the index file (serde), and the network around the library.
