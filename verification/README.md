# azdice

Tables of opposed dice rolls: for a roll such as `3d6 vs 1d20` the library
rolls both sides many times at every bonus that can change the outcome and
counts how often the first side meets or beats the second.

`src/` is the verified library:

- `text` — characters and strings: white space, integer parsing as
  `str::parse` does it, decimal formatting, splitting and trimming;
- `parser` — the two sides of a roll description and the dice of each side;
- `libdice` — the bonus range of a table, dice rolls, the success counts and
  the whole table (`parse_input`);
- `labels` — axis label text cut to a few significant figures;
- `csv` — the lines of a table file and reading them back;
- `flow` — the controls that hand a roll to the calculation worker;
- `panel` — the front end's state changes on each widget event;
- `dice` — the command-line table builder's own logic around its dice bags.

`app/` is the program around it: the command line, files, the conrod widgets
and the floating-point side of the graph.
