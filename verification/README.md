# pix_harness

The part of a PIX test harness that computes: it reads an Exit's `hopr_pix_*` aggregates, follows
them over a scenario, sizes the traffic shapes a scenario runs at, and decides what a local UDP
service does with what it receives. All of it is verified with Verus.

| module | what it is |
| --- | --- |
| `pix_exit` | a reading of the Exit's `/metrics`: counters, gauges, histograms, and what two readings are apart by |
| `trace` | samples of a few series over a scenario, and the longest run of surplus shares in them |
| `shapes` | the geometry, deadlines and amounts of the traffic-shape profile |
| `udp_service` | the sink and the push, and their accounts |
| `exposition`, `labels`, `series`, `histogram` | one line of the text format, the key of a series, series by key, one histogram |
| `laws` | what holds of readings as a whole |
| `double`, `numeral`, `rounding`, `bignat`, `decimal`, `text` | numbers and text |

A bound, a gauge and a sum are IEEE 754 doubles. The library holds them by their bits and computes
on those with whole numbers, so what it does with them is exact and proved: numerals are read and
differences and means are rounded to the nearest double, ties to even.

The contracts speak of models: `TelemetryModel` for a reading, `HistogramModel` for a histogram,
`Seq<Sample>` for a trace, and sequences of characters for text. One function of the standard
library is taken on trust, `String::push`.

`app/` is the harness around the library: the environment, the clock, the tasks, the sockets, and
the types of `edgli`. `tests/` runs the library, and holds its numbers against the machine's own.
