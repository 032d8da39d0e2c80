# dns_resolver

A small recursive DNS resolver whose message handling and decision logic are specified
and proved with Verus.

- `src/` is the verified library:
  - `reader`, `data`, `header`, `question`, `resource`, `message`, `name`: the wire format
    of DNS messages (big-endian numbers, compressed names, A/NS/CNAME/SOA/AAAA records),
    read and written with contracts over abstract views;
  - `validate`, `wellformed`: deciding whether a buffer holds a whole message, and what a
    message read to its end satisfies;
  - `roundtrip`: what reading gives back of what writing wrote;
  - `cache`: the record cache, a map from the bytes of a name to a record. It is a
    vector of (key, record) pairs in which no key occurs twice, viewed as a `Map`, rather
    than a `HashMap<Vec<u8>, Resource>`: vstd specifies `HashMap` lookups only for key
    types it gives a key model (integers, `bool` and boxes of them), and for `Vec<u8>`
    keys that model could only be assumed, so nothing could be proved of what a lookup
    finds;
  - `server`: the resolver with a cache, as a state machine from state and received
    message to next state and actions (send bytes, report, show);
  - `basic_server`: the resolver without a cache, in the same style;
  - `properties`: laws of the resolvers (what is forwarded, what is answered, what the
    cache keeps);
  - `describe`, `detect`: the text shown for headers and records, and reading this
    machine's address from the output of `ifconfig`.
- `app/` is the program: argument handling, the UDP socket, the clock-driven loop, and
  printing.
- `tests/` runs the library on concrete messages.
