# magpyxl

Spreadsheet formulas for Python data: SUM, AVERAGE, COUNT, MIN, MAX, their `IF` and `IFS` forms,
VLOOKUP, XLOOKUP and LOOKUPIFS, for single criteria and for whole columns of them, and summaries of
columns.

- `src/` is the library, verified with Verus. Every formula has a contract that says what it gives
  for every input; `src/laws.rs` proves what holds between the formulas.
- `app/` is the Python module: it turns Python objects, numpy arrays and Arrow capsules into the
  library's values and back.
- `tests/` runs the library on concrete values; its arithmetic is compared with that of the machine.

## Numbers

A number is held as the 64 bits of a double. Comparison, addition, multiplication, division, square
root and reading from decimal text are done on those bits, and the contracts state each as the double
nearest to the exact result.

## Criteria

A bare number or text means equality; `>`, `<`, `>=`, `<=` and `<>` before it compare. In a text, `*`
stands for any run of characters and `?` for exactly one. Letter case does not matter. Numbers are
equal within one billionth, for single criteria and for many. The words `inf`, `infinity` and `nan`
are numbers behind `>`, `<`, `>=` and `<=`, and texts elsewhere. A text of nothing but white space is
a blank cell.

## What is taken on trust

The library calls arrow for reading string arrays, rayon for parallel passes, and the standard library
for Unicode lower case, debug quoting and lossy UTF-8. Each such call stands in a small
function whose doc comment says what is claimed of it.
