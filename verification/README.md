# localhost

A small HTTP/1.1 server: one process, one thread, one `epoll` instance. Its logic
is a library verified with [Verus](https://github.com/verus-lang/verus); a thin
program around it talks to sockets, files and child processes.

| Module | What is in it |
| ------ | ------------- |
| `src/text.rs`, `src/numeral.rs`, `src/strmap.rs` | text, numbers as text, and a map of strings |
| `src/date.rs` | the calendar and the dates of HTTP |
| `src/http.rs` | request parsing (Content-Length and chunked) and response building |
| `src/framing.rs` | how requests follow one another in a stream of bytes |
| `src/config.rs` | the configuration file: tokens, `server` and `route` blocks, validation |
| `src/directives.rs` | configurations as they are written, and read back |
| `src/paths.rs` | file system paths, and the mapping of URLs into a root |
| `src/sessions.rs` | session ids and the bounded session store |
| `src/uploads.rs` | multipart forms and the names of uploaded files |
| `src/pages.rs` | the pages that the server makes up |
| `src/cgi.rs` | the environment, output and deadline of CGI programs |
| `src/handlers.rs` | virtual hosts, routes, files, uploads, sessions, errors |
| `src/answers.rs` | what the answers come to, for any state of the files |
| `src/server.rs` | listeners and the course of a connection |
| `app/` | the program: `main`, the event loop, files and processes |

The handler decides and does not act. Where an answer depends on a file, a
directory or a program, it names what is to be done as an `Effect`; the program
performs it and hands back a `Reply`. What is random or depends on the clock is an
argument, so that every decision is a function that can be stated and proved.

Linux only: the program uses `epoll`.
