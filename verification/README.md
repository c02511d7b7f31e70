# rtk_discover

Scans AI coding sessions for commands that could have run through the `rtk` filter, and reports what
was missed, what was covered, and where the filter was switched off.

The library in `src/` is verified with Verus. `app/` holds the `discover` command around it: it reads
the session files, the hook's log and the configuration, and prints the report.

| module | what it holds |
|---|---|
| `text` | white space, trimming, words, order of strings, decimal numbers |
| `command` | reading single commands, and the keys under which they are counted |
| `rules` | the questions that the scan asks about commands |
| `coverage` | whether a command ran through the filter, measured or estimated |
| `survey` | the answers about every command of every session |
| `counting`, `tally` | the running totals |
| `accounts` | what the totals count, told from the commands |
| `ranking`, `report` | the report, by rank |
| `calendar`, `scope` | days and cutoffs, the projects to scan, the output format |
| `scan` | the scan from the sessions to the report |
