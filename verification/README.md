# narrator

A listening server for books, kept on one's own machine. It cuts an epub into
chapters and chunks, speaks them ahead of the reader, packs finished chapters for
listening offline, and files voice memos with the passage they were spoken at.

`src/` is the library, in Verus. Everything that decides something is in it: how a
text is cut, what is rendered next, when a chapter is packed and by whom, what is
kept on disk and what is swept, what each request is answered. Each function states
what it returns in its `ensures`; the properties that span several of them are
public proof functions whose names begin with `law_`.

`app/` is the program around it: the HTTP server, the files, SQLite, ffmpeg,
espeak-ng, the speech and transcription models, and the arithmetic on samples and
seconds. It asks the library what to do and does it.

| module | what it holds |
| --- | --- |
| `book`, `book_laws`, `sentence_laws`, `chunk_laws`, `epub` | chapters, paragraphs, sentences, chunks |
| `tts` | numbers as they are read, phonemes, token ids, the engine's state |
| `cache`, `paths`, `plancache`, `gc` | names of files, what is there, what goes |
| `render`, `pack`, `worker`, `wishlist` | whose turn it is, and what comes next |
| `chapters`, `text`, `export`, `migrate` | packing, bundles, audiobooks, re-chunking |
| `state`, `store`, `store_laws`, `events` | the session, the tables, the event stream |
| `stt`, `config`, `err`, `library` | transcription, settings, failures, the scan |
| `api` | what each request is answered |
| `chars`, `order`, `rows` | texts, sorting and rows that the others rest on |

What is believed and not proved is marked `external_body` or
`assume_specification`, with a note of the outside function it stands for: scraper,
num2words, unicode-general-category, flate2, percent-encoding, base64, and a few
functions of the standard library.
