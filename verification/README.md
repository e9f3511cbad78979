# openlogi

The decisions behind an agent for Logitech devices, written in Verus: which
channel a write goes to, what an inventory shows while a device does not answer,
how a wheel tick becomes smooth motion, and how a ring of actions is opened,
hovered, picked from and closed.

- `src/` is the library. Every function states what it returns and is proved to.
  - `scroll` turns wheel ticks into frames. It is generic over the arithmetic;
    its laws hold of every arithmetic that they name the properties of. The
    shape of a pulse is in `curve` and `glide`, what the frames add up to in
    `account`, what one wheel does over time in `timeline`, and which way
    frames go in `direction`.
  - `inventory`, `node_ledger`, `channel_cache`, `probe`, `probe_cache`,
    `node_set`, `route` and `device` keep track of receivers and devices.
  - `action_ring`, `ring_server` and `overlay` are the ring's sessions, the
    agent's answers and the overlay's side; `command_run` follows one command
    to its end.
  - `hardware`, `haptics` and `light` plan what is written to a device.
  - `config` and `host_lock` hold the settings and the names of the locks.
- `tests/` runs the library.
- `app/` is the program around it: sockets, HID, files, windows and floating
  point.

Times are in nanoseconds of a clock that the caller reads.
