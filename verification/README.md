# kyber

Interface for file transformations, mostly code refactorings, with its logic
verified by Verus.

Editors hand the `kyber` tool a file and a position; the tool asks the plugin
programs on `PATH` (those named `kyber-plugin-*`) which actions they offer there,
and lists them as `plugin/action`, the plugin named without the `kyber-plugin-` prefix.
The library also holds the refactorings themselves: extracting a variable or a
function, renaming a variable and inlining a variable, within the innermost brace
scope that holds the whole selection (braces inside the selection count) or across
the whole file.

## Layout

- `src/` — the library, verified:
  - `text`, `number`, `byte_text`: strings as character sequences (split, join,
    replace), decimal numbers, and the UTF-8 facts behind byte offsets;
  - `file_location`: line/column locations, the text between two of them, and
    ranges `line,column:line,column`;
  - `containing_scope`, `replace_range`, `selected_str`: scopes, replacing a
    byte range, and texts with a selection;
  - `refactoring`, `hardening`: the refactorings, and the choice of bindings and
    files for a hardening run;
  - `plugin_action`, `support`, `plugin`: the plugin protocol;
  - `pattern`: regular expressions of the `regex` crate, behind trusted wrappers
    whose results are named rather than restated;
  - `error`: the library's errors.
- `tests/` — tests of the library.
- `app/` — the programs: the `kyber` front end, the refactoring commands, a sample
  plugin and the hardening run (command line, files, processes and network).
