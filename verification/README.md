# balancebeam

An HTTP load balancer. It reads requests from its clients, forwards each to one of several
upstream servers, and hands the response back. It checks the health of the upstream servers and
limits how many requests a client can make in a minute.

`src/` is the verified library. It decides everything and touches no socket: where reading and
deciding take turns, one of its functions takes the outcome of a read and says what comes next.

- `decimal`, `version`, `stream`: numbers, protocol versions and bytes
- `headers`, `head`: header fields and message heads, over the `http` and `httparse` crates
- `request`, `response`: reading, building and writing messages
- `upstream`: which upstream servers are alive, and which to connect to
- `proxy`: the rate limit, and what to do next for a client

`app/` is the program: the command line, the sockets, the timers and the locks. It is started as

    balancebeam BIND INTERVAL PATH MAX --upstream HOST:PORT [--upstream HOST:PORT ...]

with the address to listen on, the seconds between two rounds of health checks, the path that they
ask for, and the most requests that a client can make in a minute (0 for no limit).
