# Modern Monitor Switcher, verified core

Save Windows monitor arrangements as named profiles and switch between them
from the tray, a hotkey or the command line.

The library in `src/` holds the logic, with its behaviour stated as
contracts and proved by Verus:

- `model`: the display configuration as plain data, which monitors a
  configuration lights, their labels (repeats numbered, nicknames applied),
  and adapter renaming.
- `apply`: rebuilding a saved configuration for the machine as it is now
  (path ids, monitor device paths, monitor names, a single adapter), and the
  run that decides what to ask Windows next until a candidate goes through.
- `profile`: profiles, their names and file names, timestamps, and the order
  a directory of them is listed in.
- `settings`: hotkey bindings and monitor nicknames, kept in name order.
- `views`, `tray`, `identify`, `updater`, `watch`, `cli`: what the settings
  window, the tray menu, the "Identify" overlays, the update check, the
  folder watcher and the command line show and decide.
- `text`, `error`: string helpers and the error type.

`app/` is the program around it: the command line, the Win32 display calls,
files on disk, and the tray application. `tests/` runs the library on
concrete configurations.
