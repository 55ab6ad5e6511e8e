# shinobu

A console window for Windows that runs a Cygwin shell and shows its output,
and a telnet server that mirrors a console program to a telnet client.

- `src/` is the verified library (Verus):
  - `shell`: the shell's screen (lines of characters with display widths), how
    received output is laid out on it, and where each character is painted;
  - `console`: the console screen-buffer types and the text that a buffer of
    cells reads as;
  - `telnet`: the reading of a telnet client's bytes as typed characters, and
    the bytes that show the console to the client;
  - `windows`: NUL-terminated UTF-16 strings, message dispatch, `TextOutW` units;
  - `font`: the choice of a fixed-pitch console font;
  - `text`: the calls into std and `unicode-width`, with their contracts.
- `app/` holds the Windows program around it: window class and message loop,
  pipes and processes, painting, the telnet sockets.
- `tests/` runs the library on concrete values.
