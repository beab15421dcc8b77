# network_inventory

Which devices talk on an Ethernet network, how often, and who made them. Frames come from a capture
file or from an interface; each contributes its two MACs. At the end each MAC gets the name of its
vendor by longest prefix match.

`src/` is the library. Verus proves each function against its contract.

| module | what it holds |
| --- | --- |
| `text` | numbers, white space and columns |
| `mac` | MACs: their value, their text, their flags |
| `prefix` | reading prefixes such as `AA:BB:CC` or `AA:BB:CC:DD/28` |
| `fxmap` | the hash maps of `rustc-hash`: the calls whose contracts are believed |
| `inventory` | counting frames, merging inventories |
| `oui` | the vendor database and its lookup |
| `ranking` | sorting devices by traffic |
| `report` | the rows of the report and its table |
| `capture` | what to open, which captures to accept, the capture loop's decisions, statistics |
| `fanout` | several sockets that share the traffic of an interface |

Public proof functions named `law_..` state what holds of the library as a whole: the order of
frames does not matter, several sockets count like one, the longest prefix wins, an inventory has
one report only.

`app/` is the program around it: command line, libpcap, threads, JSON and CSV files. `tests/` runs
the library on concrete values.
