# usbscope

USB request capture records for Linux kernels without `CONFIG_USB_MON`: the
transport format written by the BPF programs, raw event archives, reassembly of
chunked events, USB capture filters, and Wireshark-compatible pcapng output and
input. The library in `src/` is verified with Verus; `app/` is the command-line
program around it.

## Layout

- `src/bytes.rs`, `src/wire.rs`: little- and big-endian fields, and the records
  shared with the BPF side (metadata, record headers, settings, counters).
- `src/archive.rs`: raw archive framing, metadata checks, the kernel counter
  summary.
- `src/ranges.rs`, `src/reassembly.rs`: turning transport records into whole
  events; only complete events leave, fragments never overlap.
- `src/lexer.rs`, `src/parser.rs`, `src/filter.rs`, `src/search.rs`: the filter
  grammar, three-valued evaluation, predicates pushed into BPF, and one-pass
  payload search with a prefix table.
- `src/pcapng.rs`, `src/pcapng_read.rs`, `src/readback.rs`: writing and reading
  `LINKTYPE_USB_LINUX_MMAPPED` pcapng, and what a read gives back of a write.
- `src/output.rs`, `src/audio.rs`, `src/live.rs`, `src/kernel_config.rs`,
  `src/bpf.rs`, `src/devices.rs`: file rotation, ISO statistics, live-capture
  decisions, arm64 kernel memory layout, BPF object checks, descriptor text.
- `app/`: argument handling, files, the BPF loader and ring-buffer loop, sysfs
  and kernel configuration reading.

Laws that span several functions are public proof functions whose names start
with `law_`.
