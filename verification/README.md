# instrumentation

Lets an application expose internal metrics (user counts, memory use, any
value worth observing) that a client can query over a Unix or TCP socket.

The application registers *instruments*. A client sends framed commands
(`GET_KEY myapp.foo`, `HAS_KEY myapp.foo`, `GET_SUBKEYS`, `GET_SUBKEYS myapp`)
and receives framed JSON answers. Which sockets are opened comes from a
configuration file (`instrumentation.conf`) or from the `INSTRUMENTATION`
environment variable:

```text
socket.unix on
socket.unix.path "/tmp/hello_instrumentation"
socket.tcp on
socket.tcp.port 6000
socket.tcp.addr 127.0.0.1
```

## Layout

- `src/` is the verified library (Verus):
  - `configparse` tokenizes configuration lines and reads configurations;
  - `stream_utils` decodes commands, frames messages and decides each step
    of serving a client;
  - `lib.rs` decides how a request is answered and where the configuration
    comes from; `tcp` and `unix` read the listeners' settings;
  - `instrumentation` and `app_instrumentation` hold the instrument trait and
    the example application's instrument;
  - `laws` states and proves the properties that span these functions.
- `app/` is the program around it: threads, channels, sockets, files, the
  environment, JSON values and instruments whose answers are callbacks.
- `tests/` runs the library on concrete inputs.
