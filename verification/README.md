# atlaspack (verified)

A deterministic sprite atlas packer: a folder of PNGs becomes one atlas image
and a JSON frame sheet. The packing library in `src/` is written in Verus and
its contracts are proved; `app/` is the command-line program around it.

## Layout

- `src/pack.rs`: the public types (`Sprite`, `Frame`, `AtlasJson`,
  `AtlasMeta`, `PackedAtlas`, `PackConfig`) and `pack_images`, whose contract
  (`pack_contract`) gives the exact result and the properties of the sheet;
  `lemma_pack_deterministic`.
- `src/sizing.rs`: the first atlas edge (`initial_size`, whose area bound is
  the ceiling of the double-precision square root, computed in integers), the
  growth between tries (`next_size`), and the largest edge tried: `max_size`,
  or in power-of-two mode the largest power of two up to it.
- `src/shelf.rs`: the shelf packer, its specification `shelf_run`, and the
  proofs that frames stay inside the atlas and apart.
- `src/blit.rs`: drawing sprites into the atlas, specified pixel by pixel.
- `src/reorder.rs`: `lemma_pack_reorder`, packing sprites with distinct
  names in another order gives the same atlas and sheet.
- `src/order.rs`, `src/names.rs`: stable orders by area and by name.
- `src/load.rs`: which files are sprites, their names, and their order.
- `src/paths.rs`: the order of sprite files by path, component by component.
- `src/error.rs`: the errors and their messages.
- `src/raster.rs`: the RGBA buffers of the `image` crate, behind trusted
  wrappers.
- `app/`: argument parsing, directory walking, PNG decoding and encoding, JSON
  output.
