# whois42d-ng

A WHOIS and RDAP service for the dn42 registry, written in Verus.

`src/` is the verified library. It holds the service's rules, each function
with a contract that Verus proves:

- `protocol`: reading the query line of a WHOIS connection, and the text
  under which a query is logged.
- `registry`, `types`, `response`, `rpsl`: parsing WHOIS queries, choosing
  the registry files that answer them (object types a name may have, address
  prefixes that cover an address, most specific first, telephony numbers
  falling back to their longest registered prefix, never a path outside the
  registry), rendering the reply, and reading RPSL objects.
- `ip`, `cidr`, `net`: IP addresses as `std::net` reads and writes them,
  and address prefixes as the registry names its files.
- `rdap`: the RDAP view of the registry: request paths, the objects
  (RFC 9083), bootstrap files (RFC 9224) and base URLs.
- `server`, `socket_activation`: the daemon's options, and which activated
  sockets serve WHOIS and which RDAP.
- `text`, `order`: text operations and string order that the rest builds on.

`app/` is the daemon around it: the command line, sockets, file reads, the
HTTP server and JSON encoding, and signal handling. It calls the library for
every decision.

`tests/` runs the library on concrete inputs.
