# red_crescent

A web server that renders HTML with embedded Lua, with its logic verified by
Verus.

- `src/` is the library: templates and their compilation, escaping, paths and their
  confinement, configuration, the request and response tables, uploads, the pool
  of interpreter states, threads and their registry, and the rules of the
  services that templates can use. Every function states what it returns or
  changes, and Verus proves it. Public proof functions whose names start with
  `law_` state what holds of several functions together.
- `app/` is the program around it: the command line, the HTTP server, the Lua
  interpreter, files, sockets, processes and databases. It performs the input and
  output that the library decides on.
- `tests/` runs the library from outside.

Paths are byte strings, as on Unix. Whatever comes from the file system, the
clock or the interpreter reaches the library as an argument, so that its
functions are proved for every such value.
