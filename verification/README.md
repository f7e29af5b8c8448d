# cpuhint

Aligns glibc CPU-discovery answers with the LXCFS view of online CPUs.

- `src/` is the verified library: the CPU-list parser (`cpu_list`) with its
  laws (`cpu_list_laws`), the synthetic affinity mask (`mask`), the decisions
  of the affinity hook (`affinity`), of the glibc hooks (`hooks`), of the
  online-file resolver (`resolve`)
  and of the cached symbol lookup (`symbol_slot`).
- `app/` is the diagnostic executable, the raw `open`/`read` of the online
  CPU file through rustix, and the glibc hooks themselves, which call the
  library for every decision.
