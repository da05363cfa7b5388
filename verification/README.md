# Birdflop Tunnel

A self-hosted Minecraft tunnel that gives every user one stable subdomain and routes
incoming traffic by reading the hostname out of the Minecraft handshake. Because routing
is by hostname and port, one public port serves every user.

The relay issues a random 6-character subdomain and a secret token. The subdomain is the
public address; the token proves ownership by HMAC challenge and response. A client claims
one or more routes, `[label.]subdomain.<base>` on a public port, over one control
connection. When a player connects, the relay reads the handshake, names the route to the
client that claimed it, and replays the bytes it has read to the stream on which the
client accepts the connection.

## Layout

The library in `src/` makes every decision and does no input or output; its contracts are
proved by Verus. The program in `app/` reads and writes for it.

| Module | What it holds |
|---|---|
| `varint`, `shared`, `handshake` | VarInts, protocol messages, the handshake parser and what it promises |
| `crypto`, `auth` | SHA-256, HMAC and hexadecimal text; challenge and response |
| `random`, `identity` | Random identifiers, the clock; the store of issued identities |
| `address`, `listen` | Public hostnames and addresses; the checks on a request for routes |
| `maps`, `registry` | The relay's tables; which session owns which route |
| `limits`, `metrics` | Limits on clients; counters and gauges in Prometheus text |
| `server`, `relay` | The relay's state and steps; what they promise together |
| `client`, `config` | The client's state and steps; the command line and the route file |
| `frame` | NUL-delimited frames on the control connection |
| `tunnel` | What a relay and its clients promise together |

Functions named `law_…` are theorems about the library as a whole.

## Trust

Verus believes the contracts of the calls into `sha2`, `hmac`, `hex`, `uuid`, `fastrand`,
`dashmap` and `tokio-util`, and of the few standard functions that it does not specify.
Each such contract stands beside its call, with a comment that says what it claims.
