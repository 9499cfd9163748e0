# microkernelia

A small unikernel aimed at serving AI inference over MCP (Model Context
Protocol) on virtio-vsock, with its core written in Verus and verified.

## Layout

- `src/` — the verified library:
  - `logging` — the 4 KiB log ring buffer read by the `logs` tool, and log
    lines cut to 256 bytes;
  - `frames` — the 2 MiB physical frame allocator (single frames and
    contiguous, aligned runs);
  - `paging` — the x86-64 four-level page tables (PML4, page-directory-
    pointer tables, page directories, page tables; 4 KiB and 2 MiB pages).
    Every operation is specified by what the MMU's walk of the tables
    (`translate`) gives for each address afterwards, and the mapping
    operations also by the page entry each address ends at (`leaf_entry`:
    2 MiB or 4 KiB, with its exact flags): the boot map (the first 2 MiB
    unmapped, the first GiB identity mapped, the kernel's high map, all
    2 MiB pages), identity mappings (2 MiB pages where a whole aligned
    2 MiB page fits, 4 KiB pages elsewhere), unmapping (splitting 2 MiB
    pages where needed), MMIO mappings (2 MiB pages, writable,
    execute-disable), code pages read-only and executable with data, BSS
    and stack execute-disable (through 2 MiB or 4 KiB entries alike), and
    guard pages;
  - `tasks` — the cooperative task table and the logging task;
  - `transport` — length-prefixed (big-endian `u32`) message frames;
  - `ai_runtime`, `ai_stub`, `serial_stub`, `mcp_server` — the model runtime,
    the request types, the inference stubs (one logging the prompt as is,
    one as a line cut to 256 bytes) and the MCP tool dispatcher and server
    loop;
  - `virtio` — PCI configuration addresses and the virtio device scan;
  - `stack` — the stack canary.
- `tests/` — tests of the library on concrete values.
- `app/` — the programs around it: the host-side MCP client and test
  server, the build helper, and the kernel's boot, scheduler and server
  loops with their hardware access (ports, CR3, TLB flushes, table memory,
  and the heap allocator).
