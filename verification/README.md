# monitorzinho

A terminal monitor for Linux: the machine in charts, its processes, ports, connections, SSH
sessions, interfaces and containers in tables, and the quotes of a portfolio.

`src/` is a library verified with Verus. It holds every rule of the program: how the kernel's
files and netlink dumps are read, which row stands where and what it says, what each key does on
each screen, which source of quotes is asked when and what its answer means, and how a portfolio
goes into database rows and comes back. It touches no file, socket, clock or screen: what those
give comes in as plain values. Amounts that are doubles are carried as bit patterns; whatever has
to be computed with them is left to the program.

| module | what it holds |
| --- | --- |
| `text`, `number`, `bytes`, `order`, `pick`, `scan`, `dict` | what the readers are stated and written with |
| `keys`, `flags` | keys and command line |
| `monitor` | tables, charts and details about the machine |
| `invest` | sources of quotes, the loop that asks them, dates, news, the portfolio and its rows |
| `legado` | bringing in the files that older versions left |

`app/` is the program around it: terminal, files, sockets, HTTP, SQLite and floating point.
`tests/` runs the library on concrete values.

What is believed without proof stands in five modules, each item with a comment that names the
outside function: `text` (`String::push`, and the Unicode case mappings), `monitor::mark`
(`regex`), `monitor::netns` and `invest::providers::binance` (`serde_json`) and `monitor::ssh`
(`String::from_utf8_lossy`).
