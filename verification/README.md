# synonym_finder

Searches the synonyms of a list of words on several thesaurus sites and
counts how often each synonym is found.

- `src/` is the library, verified with Verus: reading synonyms off the pages
  of each site (`synonym::merriamwebster`, `synonym::thesaurus`,
  `synonym::yourdictionary`, on top of the text search of `text`), counting
  them (`counter`, `merger`), the balancer that decides which site may send
  the next request and how long it must wait (`synonym::balancer`,
  `cooldown`), the pace of one site's requests and the merging of the
  counters of several sites (`actors`), and the log levels (`logger`).
- `app/` is the program around it: arguments, files, HTTP requests, threads
  and actors, sleeping, logging and printing.
- `tests/` runs the library on concrete values.
