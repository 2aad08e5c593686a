# lansight

A scanner and dashboard for the devices of a home network: who is there, under
which address, made by whom, and since when.

- `src/` is the library, verified with Verus. It holds what the dashboard
  decides and computes: the packets that a scan sends and reads, the probe of a
  host, the merging of what was heard into rows, the history of every device,
  labels and notes, the login, and the ciphers and messages of the router's
  management interface.
- `app/` is the program around it: sockets, commands, files, the HTTP server
  and the HTTP client.
- `tests/` runs the library.

The program reads the pages it serves and the registry of vendors from
`ASSETS_DIR` (`assets` by default): `index.html`, `login.html`, `logo.svg`,
`manifest.webmanifest`, and `oui_data.tsv`, one prefix and its vendor a line
with a tab between. It does not start without them. `PORT`, `DATA_DIR`, `LANSIGHT_PASSWORD` and
`LANSIGHT_COOKIE_SECURE` configure the rest.

A host that answers an ICMP echo shows the round trip and the time to live of the
answer, and a guess at its system. The echo is left to `ping`, which needs the
privilege for it; without it the round trip is that of a TCP connection, and
there is no guess.
