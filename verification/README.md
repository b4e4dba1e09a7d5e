# fetrust

A small system-information fetcher. The library under `src/` is verified
with Verus; `app/` holds the program around it (reading files, running
commands, printing).

Modules of the library:

- `text`: character-level helpers (trimming, splitting, searching, number
  parsing) with specifications over `Seq<char>`.
- `ansi`: ANSI colours, the linear congruential generator behind random
  colours.
- `json`: the JSON reader used for the configuration.
- `ini`: reading values out of INI files (GTK `settings.ini`,
  `index.theme`).
- `figfont`: reading FIGlet `.flf` fonts and rendering text with them.
- `sysinfo`: what the report shows, computed from what the system files and
  commands gave.
- `config`: which lines the configuration asks for, their text and colour.
- `report`: escape-sequence stripping, visible widths and the layout of the
  final report.

Public proof functions named `law_*` state properties that span several
functions (alignment of the report columns, centring of the banner, what
parsing guarantees, what fast mode ignores).
