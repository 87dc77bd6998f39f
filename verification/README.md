# inline_flow

Inline flow layout: text, images and atomic objects on wrapped lines that share
a baseline, with inline code in its own font, links and highlights, and layouts
that are kept from one frame to the next.

The library is written in Verus. Every function of it is verified but two small
ones in `segmentation`, which call the crate `unicode-segmentation` for word and
grapheme boundaries and whose contracts are taken on trust.

- `content`, `coverage`, `order`: a flow as a sequence of bytes and atoms, and
  that a layout shows all of it but its line feeds, once and in order, for a
  window whose stretches of one size cover each text and whose breaks come in
  order.
- `item`, `marks`, `image`, `text`: what flows are made of.
- `spans`, `wrap`, `segmentation`: breaking a flow into lines.
- `fragment`, `layout`, `placement`: measuring the fragments of a line, setting
  them, and where they then lie.
- `plain`: how lines of plain text add up, where the window answers alike.
- `frame`, `element`: what a flow keeps between frames, and what is painted.
- `backend`, `kit`, `number`, `geometry`: the window that a flow is laid out for
  and the values it computes with.

A flow asks a window (`backend::Backend`) how wide text is, where a line breaks
and how large images and objects are. Nothing is promised of the answers: the
contracts say which questions are asked and what is made of any answer.

Lengths are of any type that implements `number::Number`, which names the
operations and promises no law of arithmetic. `number::Fixed` is a fixed-point
number of the library's own; the laws on where fragments lie and how heights add
up are stated for it.
`app/` has the number over `f32`, and a GPUI element around the library.
