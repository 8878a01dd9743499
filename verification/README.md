# pollywiki

The ingest logic of a public register of Australian federal parliamentarians,
division votes, bills and election results, verified with Verus.

- `src/` is the verified library. Each module holds the rules of one source
  or stage, with contracts over spec models:
  - `schema`: the entity types, state codes and per-party seat counts;
  - `aec`, `aec_profiles`: AEC result files (CSV rows, each share as its votes and total,
    polling-place aggregation) and electorate profile pages;
  - `aph`, `handbook`, `tvfy`, `wikidata`: bills, Handbook careers, They Vote
    For You divisions and Wikidata members, each normalised to the schema;
  - `derive`: the bundle build (vote statistics, bill links, parties,
    election history, ordering of each bundle, quick search);
  - `summarise`: which records need model-written context, the prompts,
    and what is kept of the answers;
  - `config`, `run`: fetch retry and header rules, store keys, and the
    command-line decisions;
  - `text`, `html`, `slug`, `js_url`, `collate`, `sorting`, `collections`:
    the string, HTML-entity, slug, URL-encoding, collation, sorting and
    insertion-ordered map support the rest is built on.

  Calls into chrono, icu, indexmap, percent-encoding and unicode-normalization
  stand behind small trusted wrappers whose contracts name what the crates
  compute.
- `app/` is the program around the library: HTTP, S3 and local storage,
  JSON (de)serialisation of the schema, and the async loops that perform
  each sync step the library decides.
- `tests/` exercises the library from outside.
