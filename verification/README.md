# stm32_data_mcp

An MCP server that answers questions about STM32 microcontrollers (pin
mappings, peripherals, memory maps, interrupts, DMA channels, register
layouts, documentation) from the stm32-data-generated JSON files.

- `src/` is the verified library. Every answer the server gives is computed
  by a function here whose contract states the exact text it returns, as a
  specification over a plain model of the chip data (`model`) and of JSON
  documents (`json`):
  - `text`: decimal and hexadecimal rendering, padding, byte sizes, joining;
  - `names`: case folding of queries, prefix and substring tests, the
    lexicographic order of names;
  - `order`: stable sorting of interrupts by number, sorting of names;
  - `json`: the register files' JSON, parsed by serde_json behind a
    trusted wrapper and handed over as plain values;
  - `info`, `listings`, `peripheral`, `registers`, `compare`: the reports;
  - `lookup`: finding a peripheral by name among a chip's cores;
  - `catalog`: the list of chips, listing by family, and the search for
    chips with a peripheral.
- `app/` is the server itself: it reads the data directory and the files,
  parses the chip files (through stm32-data-serde's types) into the
  library's model, and serves the tools over stdio.
