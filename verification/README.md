# slime_core

The verified kernel of SLIME's runner, written in Verus.

`src/` holds everything that decides: how the hardened ingress frames an HTTP
request (header under 8 KiB, `Content-Length` of at most 64 KiB, a JSON
`Content-Type`), how a request body is read into a domain and a magnitude, the
sealed domain table, the stub capacity resolver, the actuation tokens, the
AUTHORIZED / IMPOSSIBLE verdict, the 32-byte little-endian egress frame, the
actuator's log line, and the ingress in front of the sealed AB-S engine (JSON
schema, FNV-1a domain hashing, strict base64, the health check and the HTTP
replies).

`app/` holds the programs around it: the runner (default), the engine runner
(`engine`) and the actuator (`actuator`). The argument only picks which of the
three programs runs; none of them takes any policy from the command line. They
own the sockets, the files and the clock, and hand plain bytes to the kernel.
