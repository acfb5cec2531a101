# vasak-update

Notifies when there are system updates on an Arch-based desktop, and says
what to look at before applying them: room in `/boot` for the initramfs, a
kernel that changes, `.pacnew` files left behind. It updates nothing.

The decisions are a verified library (`src/`): reading the outputs of
`checkupdates`, `pacman -Qlq`, `pacdiff` and `df`; the pre-flight verdict;
when to notify and when to keep quiet; the fingerprint of a set of updates;
why a check failed; the state file of the last notice. Each function states
what it returns, and the rules that span functions are proved as laws next
to them.

`app/` is the program around it: it runs the commands, reads and writes the
files, shows the notice through `notify-send`, and prints JSON for the
Settings screen.
