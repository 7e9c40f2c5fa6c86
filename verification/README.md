# ttycast

Mirror a tmux pane to a television: the pane is read as text, drawn at TV
resolution with a large monospace font, and handed to whatever the TV speaks
(a browser URL serving MJPEG, DLNA, Miracast, or a PNG file for testing).

## Layout

- `src/` is the library, verified with Verus. It holds the logic: the ANSI/SGR
  reader and status-line renderer (`ansi`, `status`), colours, style runs,
  the row diff, glyph blending and message cards (`render`), the frame bus and
  its JPEG cache (`framebus`), tmux output parsing and pane choice
  (`capture`), screen power timing (`display`), the `doctor` report, ffmpeg
  command lines (`encoder`), HTTP routing and heads (`server`), the UPnP
  control point's text (`upnp`), the Wi-Fi Display RTSP layer (`wfd`), `iw`
  parsing (`wifi`) and the backends' decisions (`backend`). Each public
  function states its result in its `ensures`; the laws that relate several
  functions are public proof functions beside them.
- `app/` is the program around it: argument parsing (clap), signals (libc),
  sockets, threads, child processes, and glyph rasterising with fontdue,
  which works in floating point.
- `tests/` runs the library on concrete inputs.

JPEG and PNG encoding call mozjpeg and png from the library through small
trusted wrappers whose contracts name what those crates return.
