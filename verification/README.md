# lemon_apod

The verified core of an archive of NASA's Astronomy Picture of the Day: dates of the archive,
reading legacy pages into entries (title, explanation, credits, media, keywords), sanitizing
their HTML, merging the legacy and modern copies of an entry, the search syntax and the SQL the
archive's readers compose, the object index and the credit index (each over word tables handed
in by the caller), the resource catalogue, quality warnings, the games' reproducible deals and
the redaction puzzle (over text already split into words), the rating game's plain parts and the
sky timeline's selection.

- `src/` is the library. Every function in it is verified by Verus against its `requires` and
  `ensures`; calls into chrono, regex, url, scraper, encoding_rs and unicode-normalization go
  through small trusted wrappers whose contracts say what those crates document.
- `tests/` runs the library on concrete values.
- `app/` holds a few things the library cannot: the JSON shapes of its records, its errors as
  `std::error::Error` values, and the clock.

Not here at all: running the SQL the library composes against a database (the readers and the
writer), notifications, the rating store, the floating-point rating fit, its pool and baseline,
and the ephemeris that places the moon and planets for the sky timeline.
