# desktop_defender

The verified core of Desktop Defender, a desktop monitor for the local
network: it keeps track of the router, the devices seen on it, the remote
addresses the machine talks to, and probes the router's web portal.

`src/` is the library, written in Verus and verified:

- `text` – Unicode white space, words, lines, trimming, splitting, search.
- `decimal` – decimal rendering of integers.
- `mac` – cleaning MAC addresses and taking their OUI.
- `ipv4` – dotted-decimal IPv4 text both ways, private ranges.
- `probe` – reading the output of `arp`, `netstat` and `dig`.
- `store` – keys, rows and defaults of the device and OUI databases.
- `registry` – the queue and cache of remote IP lookups.
- `portal` – scanning a router's web portal: URLs, the page patterns,
  endpoint deduplication and the default-credential search.
- `packet` – describing captured TCP/UDP frames (through `pnet`).

`app/` is the program around it: SQLite, the system commands, HTTP requests,
packet capture, IP lookups and JSON. It reads commands from standard input
and writes results and events to standard output as JSON lines.
