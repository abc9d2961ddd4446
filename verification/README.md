# rumgap

The core of the rumgap manga-reading service, written in Verus: the functions in `src/`
carry `requires`/`ensures` contracts that Verus proves, except the few marked
`#[verifier::external_body]`, each a thin wrapper around one call into `jwt`, `hmac`,
`sha2`, `hex`, `regex` or std, whose contract is trusted and says what the called code
does.

## Layout

- `src/catalog.rs` — the manga / source / chapter / canonical-chapter / reading catalog
  and every operation that changes it (creating and refreshing mangas, syncing scraped
  chapters, linking chapters of different sources to one canonical chapter, moving and
  merging sources, reading progress). Its view, `CatalogView`, is what the contracts
  speak of; `wf` is the invariant every operation keeps.
- `src/pagination.rs` — page windows, page counts and chapter numbering of the
  paginated replies.
- `src/interceptor/` — bearer tokens (signed and verified with `jwt`), the permission
  bits and the per-service permission check.
- `src/api/` — the HTTP routes' decisions: listing windows, the reading-list keyword,
  account-field validation (`regex`), the search filter language of the manga listing.
- `src/service/` — what the gRPC handlers decide around the catalog: refusals, search
  result matching, the scraper status page.
- `src/image_server.rs` — cache keys, content types, entity tags and conditional
  requests of the image server (`sha2`, `hex`).
- `src/text.rs` — trimming and prefix helpers on strings.
- `tests/` — the test suite.
- `app/` — the program: configuration from the environment, the JSON shapes of the
  request bodies (serde), the mapping of refusals to gRPC status codes, the token check of
  incoming requests, and a small command line (`token`, `check`, `validate`).

The database, the gRPC and HTTP transports and the scrapers are not part of this crate;
the library takes what they read as plain values and hands back what they should write.
