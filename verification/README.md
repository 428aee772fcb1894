# monitor-agent-freebsd

The collection layer of a FreeBSD monitoring agent. What it decides and computes
is a library verified with Verus; what it reads from the kernel stays outside.

- `src/` is the library. `ifaces` reads the `--iface` filter and decides which
  interfaces count, `epoch` names the span over which traffic counters are
  comparable, `net` reads interface records and picks the addresses to report,
  `disk`, `memory`, `cpu` and `procs` make numbers of the kernel's tables,
  `sysctl` of its state variables, and `collector` holds what is remembered
  between two samples and puts the report together (`report`). `text` and
  `bytes` are what these share.
- `app/` reads sysctl, getfsstat and getifaddrs through libc, calls the library,
  and gives the result the form in which it is sent.
- `tests/` runs the library.

In a jail the readings are host-wide where the kernel is shared (CPU, load,
memory, sockets, by default the traffic counters); the mounts and the processes
are the jail's own.
