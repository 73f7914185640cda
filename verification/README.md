# opensnow

The verified core of the OpenSnow data warehouse server, written in Verus.

`src/` is the library; every function in it carries a contract that Verus proves:

- `pgwire/` — the PostgreSQL wire protocol: message framing (`encode`), reading frontend
  messages (`message`), bind parameters and type OIDs (`params`), `$n` placeholders and
  their substitution (`placeholders`), result rows on the wire (`rows`), the extended
  query protocol state of a connection (`session`, over the name-keyed map `names`), and
  the connection state machine with the startup handshake and authentication (`conn`).
- `rest/` — the REST API's decisions: statement handles and their lifecycle
  (`statements`) and who may call the API, login and logout (`access`).
- `sql` — the `parquet_scan` statement shape and single-statement validation with the
  Snowflake dialect of `sqlparser`.
- `engine` — the path a statement takes, `COPY INTO` targets and loaded columns.
- `auth/` — session token claims, issuing and verification under rotated secrets,
  bcrypt passwords, OIDC access-token verification against a JWKS document, the
  session context.
- `config` — settings from the `OPENSNOW_*` environment variables.
- `text`, `order` — the string operations and ordering the specifications are written with.

Calls into outside crates (`sqlparser`, `bcrypt`, `base64`, `uuid`, `jsonwebtoken`, parts
of `std`) go through small trusted wrappers whose contracts state what those crates
document.

`app/` is the program around the library: the HTTP server (axum), the PostgreSQL
listener (tokio), query execution with DataFusion, parquet file reads, JWT signing with
`jsonwebtoken`, JWKS fetches and reading the environment.

`tests/` exercises the library on concrete values.
