# banner_formats

Verified readers for the file formats found in Wii disc banners, written in
Verus.

- `src/` — the library, verified by Verus:
  - `bytes`, `text`: big-endian fields and character-level text helpers;
  - `u8_archive`: walking the node table of a U8 archive;
  - `unwrap_bin`: the IMD5 wrapper, LZ77 container and stream of
    `banner.bin` / `icon.bin`;
  - `unwrap_bnr`: the IMET header and archive of `opening.bnr`;
  - `brlyt`: layouts (textures, materials, pane tree, picture bindings);
  - `brlan`: animations (the `pai1` chunk and its keyframes);
  - `tpl`: TPL texture formats and the alpha of intensity textures;
  - `disc`: the partition table scan and the file system table;
  - `game_info`: the game ID of a disc header and GameTDB title lookup;
  - `wiimote`: Wiimote output reports and input report decoding.
- `tests/` — tests of the library on concrete inputs.
- `app/` — the desktop side: file and process I/O, JSON output, the
  Wiimote HID loop and its floating-point cursor math.
