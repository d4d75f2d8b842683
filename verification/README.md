# Eratos

A CPU benchmark that runs the Sieve of Eratosthenes over and over on every
thread and reports how many passes it completes per second. The library in
`src/` is verified with Verus; the program around it is in `app/`.

## Layout

- `src/primes/` — the sieve and what it stands on:
  - `primality.rs`: primes, the numbers the sieve crosses out, and counting;
  - `storage.rs`: the `FlagStorage` trait and its four layouts (bytes, bits,
    bits with a rotating mask, striped bits), each proved to clear exactly every
    `skip`th flag from `start`;
  - `sieve.rs`: `PrimeSieve`, proved to leave exactly the odd primes (and 1)
    flagged below its limit, with the laws that its count is the number of
    primes below the limit and that every storage finds the same primes;
  - `validator.rs`: the known prime counts for the powers of ten;
  - `tally.rs`: the totals of a timed run: the passes over all threads, the count,
    whether it matches the known result, and the primes kept for printing.
- `src/parse.rs`, `src/options.rs` — reading whole numbers as `usize::from_str`
  and `u64::from_str` do, options of at least 1, and which storage variants to run.
- `src/report/` — the text of the terminal report: thousands separators,
  colours, the results table, the score, the progress bar, the list of primes,
  and what the machine says of itself (`/proc/cpuinfo`, CPU lists, core counts).
- `app/` — the command line, the threads and the clock, reading the system's
  files, and writing the report.
