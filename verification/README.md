# Roused

Roused is an activation reverse proxy for macOS LaunchAgents. It routes plain
HTTP/1.1 requests by host name, wakes a service that is not running, forwards
requests while it runs, and asks launchd to stop it once it has been idle long
enough.

`src/` is the gateway's logic, written and proved in Verus:

| Module | What it holds |
| --- | --- |
| `document`, `config` | the configuration file: its fields, its validation |
| `host`, `address` | host names and socket addresses |
| `wake`, `lifecycle` | launches, leases, idle time, decisions to stop |
| `gate`, `proxy`, `monitor` | requests on their way through, the idle scan, the shutdown |
| `headers`, `quality`, `response` | header fields, `Accept` qualities, local responses |
| `plist`, `setup` | the gateway's own LaunchAgent property list |
| `plain_http` | which connections are served |
| `text` | strings as sequences of characters |

Times in the library are nanoseconds on a clock that never goes back, and the
caller passes them in. Work that leaves the process is described by a value
(a command with its arguments and time limit, an address to try) and its result
is handed back.

`app/` is the program: the command line, files, child processes, signals and the
Pingora server.
