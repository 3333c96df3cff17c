# encode_queue

A queue of shell commands kept one per line in `~/.config/encode_queue/commands.txt`,
run one after the other in fish.

- `src/domain`: `CommandText` (a trimmed, non-empty command), the errors, and the
  `QueueRepository` interface.
- `src/adapters/file_queue.rs`: what the text of the queue file means (`parse_commands`)
  and what it becomes when the front command is taken (`take_first_command`), when a
  command that has run is taken out (`peek_first_command`, `remove_command`) or when a
  command is added (`command_line`), with the proofs that the file behaves as a
  first-in, first-out queue.
- `src/features`: adding, listing, editing, and the step decision of processing.
- `app/main.rs`: the command line, the file and process I/O.
