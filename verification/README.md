# apollo

A minimal init system for Linux: process supervision, starting, stopping and
restarting of services, and start order by dependencies. The decisions are a
verified Verus library; processes, signals, sockets, clocks and files are
ordinary Rust around it.

## Layout

- `src/` — the library.
  - `config` — unit definitions, and the set of units that they make.
  - `order`, `order_laws` — the start order, and what holds of it.
  - `registry` — the state of one unit, and how it changes.
  - `model`, `supervisor`, `supervisor_laws` — the supervisor: its state machine
    over mathematical values, the code that implements it, and what holds of it
    whatever happens.
  - `boot` — from unit definitions to a supervisor that is ready to start them.
  - `reaper` — signals, and processes that have exited.
  - `mounts` — the set-up that an init process does first.
  - `proto`, `client` — the control protocol, and the control client.
  - `runit`, `runit_laws` — conversion of runit services into unit files.
  - `text`, `sort` — strings, and sorting by a key.
- `tests/` — tests of the library.
- `app/` — the programs `apollod`, `apolloctl` and `apollo-import`.

## How the supervisor is driven

A `Supervisor` asks for one thing at a time: the next event, a process to be
spawned, a signal to be sent. It is told how that went with `Supervisor::run`,
which answers with what to do next. The program keeps going round:

1. do the effects of the step, in order: answer a client, schedule a restart,
   kill a process, set the deadline;
2. do what the step asks for next;
3. report how it went.

## Unit files

```toml
name = "sshd"
exec = ["/usr/sbin/sshd", "-D"]
restart = "on-failure"     # "no" (default) | "always" | "on-failure"
after = ["network.target"] # names of units that are not loaded are ignored
working-dir = "/etc/sshd"  # optional

[env]
SOME_VAR = "value"
```

A unit is restarted by its policy five times at most, one second after it
exited, and is then marked as failed. A restart that was asked for is immediate
and does not count.
