# fastping

A stateless mass ICMP-echo sweeper. It sends a whole batch of echo requests while other threads
score the replies, and, with adaptive retry, probes only the silent hosts again. The target index, a
validation cookie and the time of sending travel in the payload of each probe, so a reply alone is
enough to score its host.

The library under `src/` is written in Verus: its contracts are proved. The program under `app/` owns
what cannot be proved there: raw sockets and the AF_PACKET ring, threads, the clock, the resolver,
files, the connections to a Zabbix server, and the decimals of the report.

| Module | What it holds |
|---|---|
| `text`, `words`, `bytes` | numerals, words and lines, integers as byte strings |
| `addr`, `literal` | addresses, their texts, and reading them back |
| `echo` | hash, cookie, checksum, probes, and the check of replies |
| `results` | the table of round-trip times and the scores of hosts |
| `config`, `args`, `targets`, `cli` | settings, the command line, the batch, how a command ends |
| `sweep`, `run` | who is probed when, and the sweep as a machine |
| `report`, `syntax`, `json`, `zabbix` | the outputs, what is JSON, JSON strings and fields, the Zabbix sender protocol |
| `link`, `route`, `ring` | Ethernet frames, the kernel's tables, the receive ring |

Properties that tie several functions together stand as public proof functions whose names begin with
`law_`, next to what they speak of.
