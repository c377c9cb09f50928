# netbat

Network configuration analysis for Juniper firewalls, verified with Verus.

The library parses JunOS hierarchical configuration text and answers questions
about it: which security zone an address belongs to, whether traffic between
two addresses is permitted, which policy rules can never be reached, and which
subnets the interfaces carry. Every function of the library carries a contract
over a mathematical model of the configuration, and Verus proves each body
against it, with two exceptions: the wrappers `push_char` (around
`String::push`) and `to_upper` (around `str::to_uppercase`) are trusted, so
their contracts are assumed rather than proved.

## Layout

```
src/
├── text.rs          characters, decimal literals, string building
├── ipv4.rs          IPv4 addresses and networks
├── name_map.rs      name-keyed map in insertion order
├── parser.rs        tokenizer and recursive-descent parser (Statement)
├── models.rs        NetworkConfig, Interface, SecurityZone, AddressBook, ...
├── applications.rs  built-in junos-* applications
├── builder.rs       statements -> NetworkConfig
├── analysis.rs      zone_of_ip, reachability, shadowed_rules, interface_ips
├── cli.rs           argument handling and JSON string rendering
└── report.rs        the text each command prints (plain lines or JSON)
app/main.rs          the `netbat` command-line tool (file I/O and printing)
tests/               behaviour tests
```

## CLI

```
netbat reachability CONFIG SRC DST [--protocol PROTO] [--port PORT] [--json]
netbat zone-of      CONFIG IP                                       [--json]
netbat shadowed     CONFIG                                          [--json]
netbat interfaces   CONFIG                                          [--json]
```
