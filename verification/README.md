# gocoax

Status, monitoring and automatic recovery of goCoax MoCA adapters: a verified
library and one program built on it.

`src/` is the library. Its functions are proved against their contracts with
Verus. What the proofs take on trust is what the outside parsers do: the wrappers
round `serde_json` and `toml` in `json` and round std's `Debug` of a text in
`text`, the names for their results, and the contract of `String::push`. Each says
what it claims.

- `text`, `net`, `error`: texts and numbers, IPv4 addresses, the errors.
- `json`: JSON and TOML texts, read piece by piece by `serde_json` and `toml`.
- `ms`, `decode`, `phy`: the adapter's commands, its registers and what they
  say of the device, the network and the rates between its nodes.
- `client`, `reads`: the exchanges with an adapter, request by request, and the
  reads that are made of them.
- `config`: the configuration, its devices and their credentials.
- `discover`: the addresses to look at and what gives an adapter away.
- `tables`, `exposition`: counters, and metrics in the Prometheus text format.
- `exporter`: one scrape, from the registers to the metrics page.
- `remediator`: rules, cooldowns, the daily limit, and one poll after another.

What goes over the network, reads the clock or touches a file stands in `app/`.
The library tells it step by step what is to be done next, and takes what came
of it. Times are nanoseconds in the library; a time that is only shown is text.
The library decides which texts it reads and which it refuses. What is wrong with a
refused text is put into words by whoever handed it in: the program asks the
parsers themselves.

The public proof functions named `law_...` state what holds across functions,
such as that a dry run never reboots anything, that a device is acted on at most
once per poll, and that a scrape only reads.
