# lyrebird

Identify and rename HandBrake rips of DVDs and Blu-rays into a Jellyfin-style
library, using metadata from TMDB.

The crate is written in Verus. `src/` is the verified library:

- `text`, `number`, `paths`: the string, number and Unix path rules the rest
  builds on, each stated as a spec function.
- `manifest`: the manifest format (marker line, separator, the five row kinds)
  and its parser, with an exact description of every error it reports.
- `tmdb`: the plain records that the TMDB client hands in, and the air-date
  year rule.
- `naming`: the Jellyfin naming rules for series, episodes, movies and extras.
- `rename_plan`: resolving manifest rows against TMDB records into a rename
  plan, the lookups that resolution needs, and the plan file format. The
  file format round-trips: reading back a written plan gives the plan.
- `validate`: the checks run on a plan before it is applied, with the proof
  that a plan with no errors renames distinct existing files onto distinct
  free targets.
- `apply`: carrying out a validated plan, as two state machines that make
  every decision (the order of work, the refusal to overwrite, the fallback
  to a checked copy across filesystems and its clean-up) while the command
  line performs each action and reports what happened.
- `sheet`: where a contact sheet is written.

`app/` is the command line around it: argument parsing, the TMDB HTTP client,
`ffprobe`/`ffmpeg` calls, the float duration and title comparisons, and the
file system actions that the `apply` machines ask for.
