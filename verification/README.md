# sge_native_ops

Native operations of a game engine runtime, written in Verus.

`src/` is the verified library:

- `etc1` — the ETC1 texture codec: block and image encoding and decoding
  (RGB888 and RGB565 layouts), the PKM container header, and the laws that
  tie them together (what decoding an encoded block or image gives back,
  why the encoder's choice is the best one for its base colours, which bytes
  each call leaves alone).
- `buffer_ops` — byte copies between buffers and the exact vertex search
  over single-precision bit patterns.
- `gdx2d` — decoding PNG, JPEG and BMP data into RGB888 or RGBA8888 pixels
  through the `image` crate.
- `ft_status` — the error bookkeeping of the FreeType bindings.
- `physics_support` — the 64-bit arena handles, event polling and shape
  topology used by the physics bindings.

`app/` is the C ABI around it: raw-pointer entry points for every module,
plus what cannot be verified here (floating-point vertex transforms, the
FreeType calls, and the rapier2d/rapier3d simulations).

`tests/` holds the unit tests, run against the compiled library.
