# obrc

The One Billion Row Challenge, verified with Verus: read rows of the form `Station;12.3`, and
print each station's minimum, mean and maximum, in name order.

There are many versions of the inner loop, from a plain one over a sorted list to one that
scans with vector masks and feeds several streams of rows at once. All of them are proved
against the same statement: what a chunk's rows do to the tally of stations. So is the way the
work is cut up and put together again, and so is the text that comes out.

- `src/` is the library. `rows` says what an input means, `output` what is printed of it;
  `parse`, `swar`, `block` and `lanes` read bytes; `table`, `inline_table`, `probing` and `keys`
  hold the stations; `chunk`, `engine`, `feed` and `intake` drive the rows into them;
  `merge`, `schedule` and `workers` bring the threads' results together; `versions` holds the ladder and
  `hot` the diagnostic modes; `generate` and `reading` serve the generator and the I/O floor.
- `app/` holds the programs: arguments, files, mappings and threads.
- `tests/` runs the library on concrete inputs.
