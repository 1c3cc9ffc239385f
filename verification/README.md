# codeowners

A library and command line for GitHub CODEOWNERS files: the owners of paths,
the explanation of a path's ownership (every matching rule, the active one
marked), and how ownership changes between two git refs. The library is
verified with Verus; the command line reads the repository and prints.

- `src/text.rs`: lines, trimming and whitespace tokens of a text.
- `src/rules.rs`: the `codeowners_rs` rule set and its queries.
- `src/owners.rs`: the pattern index, explaining and resolving matches,
  changed CODEOWNERS lines.
- `src/order.rs`: path order and sorting.
- `src/api.rs`: owners lookup, explain and diff on values read from git.
- `src/cli.rs`: the text the command line prints.
- `src/laws.rs`: properties that span calls.
- `app/main.rs`: argument parsing, git and file access, printing.
