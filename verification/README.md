# CAN Explorer

A CAN bus explorer: it shows, filters, decodes, records and sends CAN and CAN FD traffic.

* `src/` is the library. Frames, candump logs, symbol databases (DBC and PCAN `.sym`), the
  protocols of the interfaces, the bookkeeping of the bus thread and the decisions behind the
  views stand here, each with a contract that Verus proves.
* `app/` is the program around it: the egui front-end, the bus thread with its channels and
  files, the drivers, the clock and all floating-point arithmetic.
* `tests/` runs the library.

The library carries double-precision numbers as bit patterns (`number::Real`). It compares
them, and leaves computing with them to its callers, who hand in the results.

Proof functions whose names begin with `law_` state what holds across functions: that log
lines, recordings and SLCAN lines read back, that no frame is lost from the summary, that
decoded lines keep their layout, and the like.
