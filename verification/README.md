# mdv

A terminal viewer for CommonMark / GitHub-flavored Markdown, written in Verus: the
renderer, the wrapping and table layout, the escape-sequence output and the pager's
state machine are verified against their contracts.

## Layout

- `src/` — the verified library
  - `text.rs`: character sequences, decimal numbers, substring search
  - `style.rs`: colors, styles, spans, display widths and the ANSI/OSC 8 writer
  - `wrap.rs`: word wrap and character wrap of styled spans, with their laws
  - `ansi.rs`: stripping escape sequences and search highlighting
  - `pager.rs`: the pager's state machine: keys, scrolling, search, resize, frames
  - `highlight.rs`: syntax highlighting of code blocks (syntect and two-face)
  - `table.rs`, `fit.rs`: measuring table cells and choosing column widths
  - `markdown.rs`: the pulldown-cmark event stream as plain values
  - `url.rs`, `html.rs`: link targets, inline and block HTML
  - `render.rs`: markdown events to styled terminal lines
  - `cli.rs`: the command line's decisions (colors, hyperlinks, width, paging)
- `app/` — the program: arguments, files and environment, the terminal loop of the
  pager, and the floating-point column-width proposal
- `tests/` — tests of the library

## Options

| Flag | Description |
|------|-------------|
| `-w, --width N` | Render width (default: terminal width) |
| `-t, --theme NAME` | Code theme (`--list-themes`; env `MDV_THEME`) |
| `--light` | Palette for light backgrounds (auto-detected from `COLORFGBG`) |
| `--color`, `--hyperlinks`, `--paging` | `auto` \| `always` \| `never` |
| `-P, --no-pager` | Print directly |
| `--mouse` | Capture the mouse in the pager |
