# heladeria

The verified core of an ice cream shop's server.

- `src/` is the library, verified with Verus: orders (`order`), a client's
  list of orders and what it still waits for (`client`), one flavor's stock
  (`ice_cream`), the shop's routing of requests, its order queue and its
  clients (`ice_cream_shop`), the line protocol spoken over TCP
  (`protocol`), the std text functions that protocol relies on, stated
  exactly (`text`), and the worker's timing (`worker`).
- `app/` is the program around it: actix actors that hold the library's
  values, the TCP server, and reading a client's orders from a YAML file.
- `tests/` exercises the library on concrete values.
