# cvv

Copies a file or a directory tree to several destinations at once, hashes what it copies, and
verifies the copies by reading them back. The rules by which it does so are a library, proved
with Verus; the command around it does the input and output.

    cvv SOURCE DESTINATION... [--mode source|target|transfer]

## The library

- `path`, `order`: paths as sequences of components, their order, a stable sort by path
- `discover`: walking a directory tree, and the list of files to copy
- `directio`: writing around the page cache in whole pages, with the end kept back
- `hashing`: the streaming XXH3 hash, from the crate `xxhash-rust`
- `stream`: filling buffers, and copying one file to all its destinations
- `engine`: copying a list of files, which of them are skipped, and how a copy gets its name
- `repetition`: what a second copying of the same files does, over a model of what is on disk
- `verify`: hashing files back, one worker for each device, and comparing sizes
- `verdict`: judging one file by the hashes that all devices found
- `coordinator`: verifying all files on all devices, judged in order as answers come in
- `soundness`: what a verification that has succeeded says of the files
- `text`, `messages`: numbers, byte counts and the lines that a reader sees
- `cli`: what arguments and answers decide
- `failure`: failed system calls

Work that alternates with input and output is a state machine: the command performs an action,
hands back what happened, and is told what to do next. Each of them has a model, in which its
transitions are functions, and the public proof functions state what holds of every course of
events.

## The command

`app/` lists directories, opens, reads and writes files, runs the threads, shows progress and
talks to the user.

## What is believed without proof

- that `Xxh3::digest` depends on the bytes that were given to the hasher and on nothing else,
  however they were divided among calls of `Xxh3::update`
- what `str::trim` removes, and that `str::to_lowercase` depends on its argument alone

That aligned buffers lie at whole pages in memory is tested, not proved.
