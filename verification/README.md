# mappers

Text mappers that prepare chat messages for a Korean text-to-speech
pipeline, written in Verus: each mapper's result is stated by a contract
over mathematical sequences and proved.

- `korean_counting` (with `native_korean`, `sino_korean`): numbers are read
  aloud in Korean; a number before a native counter takes the native numeral.
- `supertonic_block` (with `noise`): noise stops the pipeline; other text is
  cleaned of symbol runs and repeated characters.
- `remove_parentheses`, `remove_url`, `remove_code_block`, `process_markdown`
  (with `patterns`): fixed patterns are removed or read in words.
- `emoji_replacer`: the user's regular-expression rules, applied in order.
- `replace_mention`: Discord mentions are read by name.
- `unicode_emoji`: emoji are read by their Korean names from a table.
- `mapper`: the request and reply types; `text`: character helpers.

`app/` holds the glue to the host's plug-in interface, including the host
lookups that mention reading needs.
