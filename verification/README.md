# subc

A subscription converter for Clash: it reads a base64 subscription of
shadowsocks share links and serves the nodes as a Clash configuration or as a
proxy provider.

- `src/` is the library, verified with Verus: decoding subscriptions
  (`nodes`, `decode`, `codec`), selecting nodes by regular expression
  (`pattern`, `proxies`), writing the `proxies`, `proxy-groups` and `rules`
  sections (`proxies`, `rules`), and the decisions behind the HTTP endpoints
  (`service::clash`). String operations are specified over character sequences in
  `text`. Calls into `base64`, `regex`, `urlencoding` and `serde_json` go through
  small trusted wrappers whose contracts are stated next to them.
- `app/` is the server: it fetches subscriptions, reads the configuration files
  under `~/.config/clash`, converts between the library's types and their serde
  forms, and serves `/clash` and `/provider` on port 3078.
- `tests/` exercises the library on concrete values.
