# qr_scan

Reads the QR codes of invoices in PDF files, images and Word documents, splits an invoice
payload into its eight fields, and reports one row for each file.

- `src/` is the library. Every function states what it returns, and Verus proves it. Calls
  into `image`, `lopdf`, `csv` and `zip` stand behind functions marked `external_body`; the
  comment above each says what is claimed of the call. The two readers of codes are functions
  that the caller gives.
- `app/` is the command line program: arguments, files, threads, `pdftoppm` for pages, and
  `quircs` and `rqrr` as the readers.
- `tests/` runs the library, with the outside crates behind it.

What is searched, in this order: the text of a document, the images in it, and its rendered
pages. Where several payloads are found, one that looks like an invoice is preferred.

| module | what it holds |
| --- | --- |
| `text`, `candidates`, `invoice`, `report` | texts, payloads in them, rows, lines and tables |
| `float`, `tone`, `threshold`, `scale`, `raster`, `variants` | gray images and the forms they are searched in |
| `picture`, `codes`, `search` | image files, the two readers, and the order of attempts |
| `pdf`, `streams`, `predictor`, `samples`, `image_stream`, `extraction`, `pages`, `pdf_text`, `loader` | documents |
| `formats`, `word`, `errors`, `cli`, `scan` | kinds of files, Word documents, messages, the command line, a scan step by step |
