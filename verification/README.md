# page_converter

Turns rendered document pages into frames for a terminal: it paints highlights,
comments, links, selections and the cursor over a page, cuts out what is in view,
and prepares whole images or rows of tiles for the terminal's image protocol
(Kitty, iTerm2, Sixel, half blocks).

The library in `src/` is verified with Verus. It holds the geometry of overlays,
painting, fitting images to cells, the tile grid, and the converter itself: which
pages are at hand, which are displayed, and what has to be encoded next. It does no
input or output. The host hands it commands, encodes what it asks for and hands the
results back.

- `geometry`, `overlay`, `paint`, `simd_overlay`, `pixmap`: rectangles, strokes, pixels
- `rounding`, `resize`: arithmetic of scales, resampling, transport limits
- `page`, `render`, `tiles`, `cache`: from a page's pixels to images to encode
- `state`, `engine`, `work`, `delivery`, `pump`, `focus`, `report`: the converter
- `frame`, `text`: what is handed to the display
- `laws`: what holds of the converter as a whole

`app/` runs the converter between two channels, around a terminal that it is given.
