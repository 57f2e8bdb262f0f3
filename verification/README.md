# yozuk_skills

Verified logic of a set of assistant skills, written in Verus.

- `calc`: the calculation grammar (a recursive-descent parser proved equal
  to its ordered-choice specification, whose trees are proved to be
  derivations of the grammar stated as a relation), evaluation with
  `BigDecimal` arithmetic, the preprocessor that merges tokens into
  calculations, the translator and the command.
- `bech32_skill`: recognizing and decoding Bech32 strings (`bech32`).
- `compression`: suggestions (quoted with `shell_words`), training corpus,
  translator and the decisions of the command.
- `unit`: training corpus, translator and the value handling of the unit
  converter.
- `time`: training corpus, translator and output of the clock.
- `modelgen`: greeting variants and labels of training sentences, and the
  layout of all trained models in one blob.
- `decimal`, `media`, `shell`, `text`, `token`: plain-value models of the
  numbers, media types, quoting, strings and tokens the skills work on.

`app/` holds the host side: command-line parsing with `clap`, the clock
(`chrono`), reading input streams, and the training of a skill's model
(`learn`), which drives a sequence-labelling trainer through files on disk
and so stays outside the verified library.

Left out: the unit conversion itself (the table of units, the parsing of
unit symbols and the display of converted values) is not part of this
crate; the library takes what it needs of it (whether a token is a known
unit, the scale of a unit's prefix, the converted values as text) from the
host.
