# param_serv

A small parameter server. Parameters have a value and a unit each; clients read,
write and subscribe to them over HTTP and server-sent events.

The library under `src/` holds everything that decides something, with contracts
that Verus proves:

- `config`, `script`, `lua`, `plain`: parameter definitions, and configurations in
  Lua or in plain text
- `state`: the current values and units, and the event that carries them
- `server`, `http`: routing, replies, and the framing of requests and responses
- `client`, `params`: the client's requests, the events it takes in, and the
  parameter descriptions it reads
- `text`, `number`: cutting and joining texts, and numbers in texts
- `event_laws`, `state_laws`, `wire_laws`: what holds of several of these together

`app/` is the program around it: sockets, threads, files and the environment.

## Quick start

Define the parameters in a text file:

```
sensitivity   1.0
time_constant 0.1
frequency     1000.0
```

or in a Lua script:

```lua
settings = { max_sse_hz = 30 }
params = {
  { name = "sensitivity", default = 1.0, min = 0, max = 10, unit = "V" },
  { name = "mode", default = "slow", opts = { "slow", "fast" } },
}
```

and give its path to the server. It listens on port 7777 of the local host, or on the
port in `PARAM_SERV_PORT`.
