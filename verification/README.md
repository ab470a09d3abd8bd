# zztop

A companion to `zsh-z`: reads its datafile (`path|rank|time` per line),
ranks the directories by frecency (recency × frequency), skips those that no
longer exist, and offers the top five in an arrow-key picker.

- `src/` is the verified library (Verus): reading the datafile and its lines
  (including whether a rank reads as a number), locating it, the frecency
  factor by age, choosing the top entries, and how paths and picker labels
  are shown.
- `app/` is the program around it: environment, file reading, the
  conversion of ranks to `f64` and the floating-point scores, the terminal
  picker, exit codes.
