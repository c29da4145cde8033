# rmux

A minimal terminal multiplexer: sessions of tabs, tabs of split panes, a server
that keeps them running and a client that attaches to one of them. Its logic is
a Verus library: every function states in its contract what it does, and the
contracts are proved.

- `src/` is the library. `layout` and `model` hold the pane trees, tabs and
  sessions; `sessions` and `config` their order and the configuration; `mouse`,
  `keys`, `search`, `select`, `actions` and `input` turn bytes from a client
  into changes, and `starts` takes back those whose shell does not start;
  `clients`, `protocol`, `server` and `listing` are the server's side of a
  connection and `attach` and `args` the client's; `ansi`, `grid`, `dividers`,
  `render` and `screens` draw; `laws` states what holds across them.
- The library never touches a shell or a terminal itself. It appends requests
  (`effect`) to a list, in the order in which they are to be performed, and
  takes what terminals show as plain values.
- `app/` is the program around it: the poll loop, sockets, pseudo terminals and
  the terminal emulator.
- `tests/` runs the library on concrete values.
