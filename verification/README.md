# tauri-plugin-fingerprint

A Tauri 2 plugin that reads, enrolls and matches fingerprints with a
DigitalPersona U.are.U 4500 reader (USB `05ba:000a`), verified with Verus.

- `src/` is the verified library:
  - `uru4500.rs`: the reader protocol: frame headers, descrambling (the
    scrambling LFSR and the key exchange as a state machine), block
    assembly, normalization, the noise test, interrupts, and the power-up
    sequence as a state machine.
  - `template.rs`: minutiae templates (MINDTCT and BOZORTH3 through
    `fprint-pipeline`), frame selection, the JSON form and the FPT1 text
    format, with their round-trip laws.
  - `desktop.rs`: the rules of the plugin's commands: validation of
    requests, choice of frames, the responses, PNG previews.
  - `error.rs`, `models.rs`, `text.rs`: the plugin's error, its requests and
    responses, and text handling with exact specifications.
- `app/` holds what Verus does not see: the USB driver over `nusb`, file
  storage, the Tauri commands and the serde forms of the models.
- `tests/` runs the library on concrete values.
