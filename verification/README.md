# pulse_cdt

A contract development kit for the Pulse chain, with the system, token,
multisig and bios contracts built on it, written in Verus.

- `src/` is the verified library: account names and symbols, assets and their
  checked arithmetic, time types, the binary encoding of every value a contract
  stores or sends (with the law that reading gives back what was written),
  keys and authorities, table and singleton requests, and the decisions of the
  token, system and multisig contracts. Each contract action is a function
  from the rows it reads and the facts the host reports to what it decides,
  with a contract that states that result: the rows written, the transfers and
  actions sent, or the error. Where a row holds floating-point fields (producer
  and voter rows, the RAM market's connector weights), the library states the
  integer fields and the host side fills in the rest.
- `app/` is the host side: the calls into the chain's host functions, table
  I/O, the dispatchers that read action data and carry out what the library
  decided, and the pricing and vote-weight formulas that use floating point.
- `tests/` runs the library on concrete values.
