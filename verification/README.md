# process_tree

Process tree enumeration and termination. The library (`src/`, verified with
Verus) holds every decision; `app/` performs the operating-system work and
drives the library's state machines.

- `status`: process status and the pidfd `poll` verdict.
- `platform`: small per-platform decisions (process-group signals, pid
  validity, libproc buffer sizes, macOS start-time checks, Windows wait and
  exit-code status, remote reads).
- `text`: `str::parse::<i32>`, trimming, lines, words; the `PPid:` field of
  `/proc/{pid}/status` and the pid list of a `children` file.
- `args`: `/proc/{pid}/cmdline` arguments and macOS `KERN_PROCARGS2` buffers.
- `tree`: the depth-first walk that lists a tree's descendants children first.
- `wait`: polling for processes to exit, with a time limit and cancellation.
- `terminate`: the polite and hard signal waves of a termination.
- `targets`: process groups and processes scheduled for termination.
- `snapshot`: the parent-to-children map of a Windows process snapshot.
