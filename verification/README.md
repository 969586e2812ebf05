# sysadmin

Command-line tools for looking after a small server, as a verified library
(`src/`) and the program around it (`app/`).

- `norm`, `norm_lib`: normalised file paths and names.
- `file_sharing::http`: HTTP methods, request targets, requests read from
  header lines, a routing table and static file responses.
- `monitor`: status commands run over `ssh`.
- `monitor_server`: the monitoring service: `sar` reports and journal
  records as JSON, responses, request reading and routing.
- `project_manager`: project listing and repository addresses.
- `config`: default settings and the expansion of a leading `~` (through
  `shellexpand`).
- `text`, `entries`: character-level splitting and keyed entries, with the
  specifications the modules above are stated in.
- `pattern`, `json`, `timestamp`, `style`: the calls into `regex`,
  `serde_json`, `chrono` and `colored`.

`app/` holds `main`, argument parsing, file, process and network I/O, and
threads.
