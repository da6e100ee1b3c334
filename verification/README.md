# http_server

The protocol core of an HTTP server, written in Verus: HTTP/1.1, HTTP/2 and HTTP/3 over
one route table, with static pages, templates, files, listings, proxying, WebSockets and
requests handed to an application.

Every function of the library states what it returns or changes, and Verus proves it.
Nothing in the library performs I/O, and nothing in it is trusted: a driver reads bytes
and clocks, hands them over as plain values, and carries out what it is told.

## Layout

- `src/` is the library.
  - Bytes and encodings: `bytes`, `fields`, `varint`, `prefix_int`, `huffman`, `qpack`,
    `hpack`, `h1_wire`, `h2_wire`, `h3_wire`, `ws_wire`, `mux`, `net`.
  - What is served: `routes`, `params`, `site`, `body`, `cache`, `method`.
  - Connections: `conn`, `slots`, `server`, `lifecycle`, `peers`, `listeners`.
  - HTTP/1.1: `h1_bind`, `h1_recv`, `reqbody`, `h1_dispatch`, `h1`, `h1_fs`, `response`,
    `h1_send`, `h1_ws`, `proxy`.
  - HTTP/2: `h2`, `h2_frames`, `h2_request`, `h2_dispatch`, `h2_response`, `h2_hold`, `h2_send`,
    `h2_app`, `h2_ws`.
  - HTTP/3: `h3`, `h3_tables`, `h3_control`, `h3_request`, `h3_response`, `h3_dispatch`,
    `h3_stream`, `h3_pump`, `h3_egress`, `h3_run`, `h3_step`.
  - Applications: `app`.
- `tests/` runs the library on concrete values.
- `app/` is the driver: channels, clocks and files on one side, the library on the other.

## Reading the contracts

A connection's state has a model: `ConnSlot` is its own, `H2Model` and `H3Model` stand
for the states of the other two protocols. A contract names the model after a step as a
function of the model before it, or states a relation between the two. Statements that
span several functions are the proof functions whose names begin with `law_`.
