# ipscan

An IP and port scanner whose decision logic is verified with Verus.

- `src/` — the verified library:
  - `text` — whitespace, trimming, unsigned decimal numbers;
  - `fields` — splitting text at a separator;
  - `addr` — the address type, its order and sorting, and the textual
    IPv4/IPv6 address grammar;
  - `range` — target specifications: CIDR blocks (read by `ipnet`), dash
    ranges, single addresses;
  - `hex` — hex payloads;
  - `config` — command-line arguments and prompt answers;
  - `scan` — bind addresses, the NEC payload, and the set of UDP repliers;
  - `laws` — properties that hold across these operations.
- `app/` — the program: argument parsing with clap, prompts, host-name
  resolution, sockets, the async scan loops and the progress bar.
- `tests/` — tests of the library on concrete values.
