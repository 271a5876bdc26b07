# zed-rmate-server

A simple rmate server for Zed. It handles rmate TCP connections and opens the files in Zed as
temporary files.

`src/` is the library: the protocol and the session, verified with Verus.

- `text`, `number`, `path`: texts, decimal numbers and slash-separated paths.
- `protocol`: the lines of the rmate protocol, the description of a remote file, and what is sent
  back.
- `server`: the stages of a session, the temporary files, and what to do when a file changes.
- `wire`: what the bytes from a client come to.
- `reply`: what the bytes to a client come to.

The library is for Unix paths: `/` is the only separator, and no path has a drive or another
prefix. The program does not build for other systems.

The library does no I/O. It is handed lines and events and says what to do next. `wire::received`
and `reply::session_output` are models of a caller that splits a connection into lines, cuts off
the bodies, stores them in one directory per file, and sends what it is told to send. What `wire`
and `reply` state holds of such a caller, as `app/` is meant to be.

`app/` is the program around it: the command line, TCP, temporary files, the file watcher and the
editor process. The end of what a client sends after its commands ends the session, as the end of
the connection does.

An example protocol flow:

```
server: Zed-Mate-Server 0

client: open
        display-name: myremote:myfile.txt
        real-path: /tmp/myfile.txt
        data-on-save: yes
        re-activate: yes
        token: myfile.txt
        data: 26
        Some random file contents

        .

server: save
        token: myfile.txt
        data: 30
        Modified random file contents

        close
```
