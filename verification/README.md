# multi_wechat_rs

A WeChat toolkit: on macOS it patches the WeChat Mach-O binary (multi-instance,
anti-revoke, no auto-update) from version-specific configurations and re-signs
the bundle; on Windows it closes WeChat's single-instance mutex and starts
another instance.

## Layout

- `src/` — the library, verified with Verus.
  - `macos/macho.rs`: the Mach-O model (thin and FAT binaries, `LC_SEGMENT_64`
    address translation) and `patch_binary`, proved against it, with the law
    that patching is reversible from the bytes it reports.
  - `macos/config.rs`: configurations, hex decoding, version lookup.
  - `macos/patcher.rs`: the decisions of the patch flow (bundle paths,
    validation, version output, entry selection, re-signing commands).
  - `macos/cli.rs`, `process.rs`, `system.rs`, `utils.rs`: command line,
    process and handle records, and the text conversions of the Windows helper.
  - `text.rs`: string building, hex rendering, trimming.
- `app/` — the program: argument parsing, JSON loading, file and process I/O,
  and the Windows system calls.
- `tests/` — tests of the library.
