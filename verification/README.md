# mini-assets

Builds the image assets of an assets root: each folder under the root is a
category of images; the generator writes every image, reduced to one width and
named by a digest of its content, into an output folder, together with a
manifest (`Manifest.yaml`) that lists the categories, their localized names and
their parents.

- `src/` is the verified library: localized names (`i18n`), categories and the
  repair of their parents (`category`), the manifest and its upkeep
  (`manifest`), and the extensions and digests of images (`image`).
- `app/` is the `mini-assets-gen` program: command line, environment, reading
  and writing files, YAML, and the image resizing.
- `tests/` runs the library on concrete values.
