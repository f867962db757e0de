# sourcemap_backend

The logic of a service that takes in source maps and ProGuard mappings, stores
them compressed and encrypted in a bucket, and traces shipped code back to the
code that was written. `src/` is a library whose functions carry contracts that
Verus proves; `app/` is the service around it; `tests/` runs the library.

| module | what it holds |
| --- | --- |
| `text`, `decimal`, `hexadecimal`, `order` | texts as characters, numbers in texts, sorting |
| `project` | the identifiers of projects |
| `error` | errors, their wording, and how a client sees them |
| `crypto` | AES-256-GCM messages on the wire |
| `auth` | API keys and the administrator's token |
| `config` | settings from the environment |
| `storage` | stored objects; listing and deleting as steps of a conversation |
| `mappings::javascript` | source maps |
| `mappings::proguard` | ProGuard mapping files and stack traces |
| `mappings::retracing` | what holds of mappings and retraced stack traces in general |
| `routes` | requests, checks, answers; uploading and fetching as steps of a conversation |

Calls into other crates stand in small functions marked
`#[verifier::external_body]`; the comment above each says what is taken for
granted of the call.
