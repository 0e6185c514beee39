# Image Janitor

Image Janitor cleans unused kernel drivers and firmware out of a Linux image.
The library under `src/` holds every decision: which drivers stay, which
firmware the drivers may ask for, what is removed and in which order. Each
function states what it does in a contract that Verus proves. The program under
`app/` reads the file system, runs the commands and removes the files.

| Module | What it decides |
| --- | --- |
| `text`, `name`, `path`, `order`, `path_set` | text, names and Unix paths as text, their order, sets of paths |
| `error`, `command` | what can go wrong, and what a command answers |
| `pattern`, `config` | the patterns of the configuration and its architecture sections |
| `driver` | drivers, their dependencies, and which of them go |
| `firmware`, `symlink`, `trace`, `required` | the firmware that modules may ask for, along all links, and where it stands |
| `cleanup`, `passes` | unused files, dangling links and empty directories, and what the passes leave |
| `util`, `work` | the kernel directory, directory walks, work for threads |

Proof functions whose names begin with `law_` state what holds of several
functions together. What the library takes on trust from the `regex` and
`path-clean` crates and from the standard library stands in `pattern`, `path`,
`text` and `error`, marked `external_body` or `assume_specification`.

Run `image-janitor driver-cleanup` or `image-janitor fw-cleanup`. Both only
report what they would delete; `--delete` deletes. `--no-parallel` keeps the
work on one thread, `--verbose` tells more.
