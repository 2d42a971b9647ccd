# ohaconf

`ohaconf` runs [oha](https://github.com/hatoo/oha) HTTP load tests described
in a YAML file: by name, by tag or from a menu, all at once, or with requests
shared by weight, and it reports on saved results.

- `src/` is the library, verified with Verus: the configuration model and the
  application of defaults (`config`), `${VAR}` expansion (`env`), loading
  checks (`loader`), the `oha` command line and its redaction (`oha_command`),
  test selection and menu lines (`selector`), weighted distribution
  (`weights`), result counts and report formats (`report`), name ordering
  (`order`), the decisions of the subcommands (`commands`), and the string map
  and text helpers they rest on (`strmap`, `text`).
- `app/` is the program: argument parsing, reading YAML and JSON, the process
  environment, running `oha`, threads, menus and terminal output.
- `tests/` exercises the library.
