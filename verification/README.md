# trace_decoder

A decoder for compressed RISC-V instruction trace packets, proved in Verus:
its packet format, its walks through the program (where each walk ends and
which instructions it reports, with laws about whole walks), and its binary
loading.

- `src/frontend/bits.rs`: the bit vectors packets are read from, and the
  number a bit string denotes.
- `src/frontend/encodings.rs`: field values, packet formats, subformats and
  privilege levels.
- `src/frontend/e_packet.rs`: rebuilding a packet's bits from its header and
  payload, checking and decoding its fields.
- `src/decoder.rs`: the walks through the program that a packet drives,
  step by step and whole, and what the decoder does with each packet.
- `src/binary.rs`: loading the instructions of a RISC-V ELF binary.
- `app/`: the command-line program: file reading, the decoding loop, the
  hand-off of each walk's reported instructions to the output, and the
  text output of the decoded trace.
