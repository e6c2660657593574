# jog

`jog` is a command-line tool for the ATSAM4E8C microcontroller. It talks to the board through an
Atmel-ICE probe and OpenOCD: it shows what is on the board, writes firmware images, erases and reads
memory, selects the boot source, and serves GDB.

The library in `src/` holds every decision of the tool and is verified with Verus. The program in
`app/` parses the command line, touches files, processes and sockets, and does what the library asks
for.

## How a command runs

A command is a function of what the user gave and of the replies it has had so far
(`commands::execute`). It asks for one thing at a time, such as printing a line or sending bytes to
OpenOCD, and is run again with each new reply (`walk`). Its contract says exactly what it asks for
next and how it ends, for any replies.

## Modules

| Module | What it holds |
| --- | --- |
| `text`, `number`, `order` | Texts, numbers as the user writes them, sorting |
| `error` | Errors and their exit codes |
| `ihex`, `elf` | Intel HEX and ELF images |
| `image`, `flash` | Files, ranges, and the plan for writing them |
| `config` | The configuration file and the images in it |
| `target`, `chip` | The chip, its flash geometry and its GPNVM bits |
| `tcl`, `openocd`, `session` | Talking to OpenOCD and leaving the target as it was found |
| `dump` | Memory as text |
| `commands` | The commands |
| `walk` | Questions and replies |
| `promises` | What holds of every command, whatever the replies are |

Proof functions whose names begin with `law_` state what holds of the library as a whole. For
example, `promises::law_image_is_checked_before_flash_is_changed` says that nothing erases or writes
flash before the whole image has been read and checked.

## What is taken on trust

Two functions of the standard library are called with contracts that are not proved here:
`String::push` (in `text`) and `String::from_utf8_lossy` (in `tcl`).
