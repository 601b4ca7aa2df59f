# kuma_client

The configuration and authentication logic of a client for Uptime Kuma,
verified with Verus.

- `src/` is the verified library:
  - `tree`: the tree of configuration tables, its model (`ConfigNode`), and
    the laws of nested insertion (a write reads back; other paths are left as
    they were; a refusal happens exactly on a blocked path; a run of
    insertions is refused exactly when two paths are prefix-related, whatever
    their order);
  - `env_source`: the environment source (prefix filtering, name splitting,
    secret-file references, collection into a tree; secret files are asked
    for one at a time, only for the variables that are taken) with its
    specification `collect_spec` and its laws (collecting plain variables
    fails exactly on a prefix conflict among their paths, whatever their
    order; a failed secret read names the path and the key, not the file);
  - `better_auth`: credentials, the default headers, and the Better Auth
    sign-in sequence as a state machine (`next_step`), with its laws (one
    sign-in per sequence, errors that hold no credential);
  - `json`, `text`: the JSON documents and string operations they rely on;
  - `settings`, `login`: the TLS settings and the `login` command's decisions.
- `app/` holds what talks to the outside world: the serde forms of the
  configuration, the `config::Source` that reads the process environment and
  the secret files, the reqwest client that runs the sign-in sequence, and
  the `login` command's arguments.
- `tests/` runs the library on concrete values.
