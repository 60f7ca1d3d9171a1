# efense

The policy logic of efense, a Linux ingress firewall built on eBPF/XDP,
as a Verus-verified library, with `efctl`, its command-line front end.

- `src/` — the verified library:
  - `config`, `udp`, `tcp`: the configuration model and its merge rules;
  - `ip`, `text`: the IPv4 CIDR text grammar;
  - `policy`: map names, capacities, keys and canonical prefixes;
  - `plan`: the contents of every kernel map for a configuration;
  - `enforce`, `protect`, `monitor`: a model of the decision the XDP
    program takes on each frame from those maps, of the TCP ACK flood
    tracker and of the monitor events. The eBPF object that `efctl` loads
    is built separately; it is neither built from this model nor checked
    against it;
  - `properties`: what a configuration lets through, and the ACK flood
    guarantees, proved over the above;
  - `raw`, `event`, `store`, `pin`, `error`: event records and timestamps,
    the stored configuration blob, pin paths and errors.
- `app/` — `efctl`: argument handling, YAML/JSON, and the calls into the
  kernel (map population, pinning, attaching, event streaming).
- `tests/` — tests of the library.
