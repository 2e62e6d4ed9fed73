# ptkgenerator

Tools that trace a Windows process with Intel Processor Trace, decode the
trace and count how often each instruction address was executed.

The crate is split in two:

- `src/` is the library, verified with Verus. It holds the logic of the tools:
  - `mem_cacher`: a page cache of the traced process's memory;
  - `post_proc`: execution counts per page, merged, converted to and from the
    sparse form sent over the network, and listed per address;
  - `native_helper`: which loaded module holds an address;
  - `pt_ctrl`: reading the trace ring buffer and the driver's request layouts;
  - `data_spliter`, `decode_proc`: cutting trace data at sync points and the
    decisions of the decoding loop;
  - `process_util`: output file names, file size settings, process lookup;
  - `server_consumer`: the messages between server and clients and the
    decisions of both sides.
- `app/` is the program around it: command line, files, the trace driver,
  the network and the trace decoder, which hand plain values to the library.

`tests/` runs the library on concrete values.
