# web-research-mcp

A gateway for bounded web research over MCP. It searches through SearXNG, fetches through
Firecrawl, browses through Camoufox, keeps what it fetched with a stable identifier and a
SHA-256 hash, and verifies quotations against what it kept.

`src/` is the library: every rule of the gateway, with its contract, proved by Verus.

| Module | What it holds |
| --- | --- |
| `policy`, `ip`, `weburl` | which URLs, families and numbers are admitted |
| `envelope` | marking what came from the web as untrusted |
| `store` | identifiers, hashes and files of stored evidence |
| `sessions` | the registry of browser sessions |
| `config` | settings and the variables that override them |
| `backends` | what the services are asked, and how their replies are read |
| `mcp::search`, `mcp::fetch`, `mcp::browser` | the tools, before and after the service is asked |
| `mcp::bundle` | one bounded collection of evidence per assignment |
| `mcp::terms`, `mcp::urls`, `mcp::relevance`, `mcp::passages` | ranking candidates and passages |
| `mcp::tools` | which tools a deployment offers |
| `text`, `json`, `order` | text, JSON values and orders as plain data |

The proof functions whose names begin with `law_` state what holds of the library as a whole.
Text is a `Seq<char>` in every contract, and a score is given by the bits of its double.

`app/` is the program around the library: the command line, the HTTP calls, the files, the
MCP server and the scores, which are floating-point numbers. `tests/` runs the library.
