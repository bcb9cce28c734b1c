# cliplink

Clipboard history shared between trusted devices on a local network.

- `src/` is the library, written in Verus: the data model, the transfer
  protocol's messages and their validation, discovery framing and the
  peer list, local encryption of stored data, the history store's rules,
  and the decisions of the controller and of the background runtime. The
  functions carry `requires`/`ensures` contracts, and the proof functions
  named `lemma_*` state properties across functions. Where a result rests on
  the clock or the system's random generator, the contract states what holds
  of every outcome. Calls into `time`, `sha2`, `ring`, `rcgen` and
  `rustls-webpki` go through small trusted wrappers whose contracts are
  written next to them.
- `app/` is the program around it: files and SQLite, the QUIC and UDP
  networking, serialization, and the console shell that runs the event loop
  and performs what the library decides.
- `tests/` exercise the library through its public interface.
