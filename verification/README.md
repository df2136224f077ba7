# Kairos

Time-derived port knocking. Client and daemon share a secret; in each time window it gives a
sequence of UDP ports. A client that sends a packet to each of them in order has its address
let through the firewall for a while, once per user and window.

`src/` is the library, verified with Verus:

| Module | What it holds |
|--------|---------------|
| `sequence`, `clock` | Ports from HMAC-SHA256 of the window; windows and their tolerance |
| `secret`, `hexcode` | Keys and how they are read off a text |
| `address`, `paths`, `text` | Maps from addresses, joining paths, writing numbers |
| `daemon::knock` | The tracker that follows the knocks of all sources |
| `daemon::model` | What the tracker does, as a relation between its states |
| `daemon::history` | What holds over all packets seen: who gets in, and that nobody does twice |
| `daemon::sources` | What holds of each source by itself: its results and its rate limit |
| `daemon::store` | Which user has used which window |
| `daemon::config`, `packet`, `firewall`, `capture` | Configuration, frames, rules, the loop's decisions |
| `client::config`, `init`, `knock`, `command`, `error` | Hosts, onboarding, what is sent |

`app/` is the two programs around it, `kairos` and `kairosd`: command lines, files, sockets,
packet capture, the replay database and running `nft`. `tests/` runs the library.

Proof functions whose names begin with `law_` state what holds of the library as a whole.
