# oshit

The logic of the OSHIT RISC-V kernel as a verified Rust library. The functions
under `src/` carry `requires`/`ensures` contracts that Verus proves, apart from
a few small wrappers around `std` string and character functions
(`src/strings.rs`, `src/text.rs`), whose contracts restate what `std`
documents and are trusted.

## Layout

- `src/memory/` — SV39 addresses and page numbers, page table entries and a
  three-level page table (`map`, `unmap`, `translate`, `modify_access`), the
  stack frame allocator, and user buffers made of scattered pieces.
- `src/memory/layout.rs` — the segments of a memory layout: mapping and
  unmapping them, moving a segment's end, changing access flags, finding free
  room, and file mappings whose pages are mapped when first touched.
- `src/memory/layout.rs` also builds the kernel's layout from the addresses of
  its sections, and a user program's layout from its ELF program headers.
- `src/fs/path.rs` — the path parser (a finite state machine, proved to split
  a path at each `/`, drop `.`, keep `..` and name the other components as
  `comp_name` says), `..` removal, and paths written back out.
- `src/fs/fs_impl/fat32/` — the FAT32 file system over a volume held as its
  allocation table and cluster contents: boot record, cluster chains,
  directory entry groups with long names, inodes and open files, and the
  open file as the kernel's file interface sees it (`wrapper.rs`).
- `src/fs/block_cache/`, `src/fs/fs_impl/cache_mgr/` — cached device blocks,
  and the manager that keeps at most sixteen of them and lets the oldest one
  that is not in use go when it needs room.
- `src/fs/fat/fsinfo.rs` — the FSINFO sector.
- `src/fs/mount_manager.rs` — the tree of mount points and the lookup of the
  file system that serves a path.
- `src/fs/pipe.rs` — the ring buffer of a pipe.
- `src/drivers/` — the SD card's command numbers, the decoding of its CSD and
  CID registers, and the steps of its start-up handshake as a function from
  the card's answer to the next command.
- `tests/` — tests on concrete values.
- `app/` — a command-line tool that mounts a FAT32 disk image and prints what
  the file system says about itself.

The transfers on the SPI bus, console I/O and trap handling touch hardware
directly, and copying physical pages or parsing the ELF file works on physical
memory or on another crate's types: none of them is part of the library.
Where a function of the library stops at such work (writing a page of a file
mapping back, filling a page from a file), it hands the caller what to do.
