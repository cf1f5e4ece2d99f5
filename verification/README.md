# stratum

A programming-contest platform: teams submit solutions to the problems of a
contest, a grader runs each submission on the problem's test cases, and the
web site shows results and a scoreboard.

The rules of the platform live in `src/` and are verified with Verus:

- `judgement` — judgement states and their stored codes, and grading a
  submission from its test runs (the state of the last failed run, or
  accepted with the sum of the scores that the outputs give).
- `scoreboard` — per-team totals, per-problem best scores, teams ranked by
  total, and the instant before which submissions count.
- `middleware` — the guards of a request: rights, contest start, binding the
  contest and the signed-in user.
- `multipart`, `problems`, `submission`, `forms` — reading upload forms,
  planning submissions, who may see a submission, and the records that the
  administration forms store.
- `session`, `pass`, `encoded` — signing in with Argon2 password hashes,
  and which stored hash texts can be checked without a panic.
- `time`, `text`, `http`, `models`, `config` — instants, text operations of
  std behind trusted wrappers, refusals, and the stored records.

`tests/` runs the library on concrete values. `app/` holds the programs
around it: the web server (actix-web, diesel, tera) and the grader
(`stratum grader`), which read requests, the database and the file system
and hand plain values to the library.
