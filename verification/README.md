# dex_core

A deterministic limit-order matching core in Verus: executable Rust whose
behaviour is stated in contracts and proved.

## Layout

* `src/`: the verified library.
  * `types`: orders, requests, events, positions and their wire records.
  * `arena`: generational slots with stable handles.
  * `orderbook`: price levels as linked queues in the arena, indexed by intent
    hash; the abstract state is one line of orders per side.
  * `matcher`: price-time matching with GTC, IOC and FOK, and the engine over
    many instruments.
  * `ipc`: a ring with one producer and independent consumers; slot versions tell
    a value that is there from one that is not yet or no longer there.
  * `telemetry`: clock values, latency histograms, figures.
  * `benchkit`: schedules, run environment, reports, comparisons.
  * `xtask`: what the benchmark runner decides.
* `tests/`: tests of the compiled library.
* `app/`: the benchmark runner itself: processes, files, the time stamp counter,
  floating point, and the lock-free ring between threads.

## What is proved

Every function states what it returns or changes, over mathematical models:
sequences of orders, maps of handles, multisets of samples. On top of that stand
laws, public proof functions named `law_...`: among others that a stale handle
reads as absent, that trades conserve quantity and print at the resting order's
price, that a fill-or-kill order fills completely or changes nothing, that no book
is left crossed, that every event whose reason the record format knows survives its
wire record, that a read between two equal stable versions is whole, and that the
rows a report writes are the rows a comparison reads.

Some functions of `std`, `rustc_hash` and `hdrhistogram` are called through small
wrappers whose contracts are stated, not proved; each names the function it wraps.
