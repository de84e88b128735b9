# dfx

Verified parts of a command line tool for canisters, in Verus.

- `src/` is the library. `install` is the installation of a directory of files as the assets of a
  canister, as a machine: each state says what is to be done next and is told how that went.
  `locations`, `chunks`, `media_type`, `digest` and `assets` are what it is made of. `store` says
  what the operations of a batch do to the assets that a canister holds, and `operations` what they
  are for each key; `runs` and `history` say what holds of whole installations. `cache_install` and `build_command` are two commands.
- `app/` does what the library says: it walks directories, reads files, calls canisters, and parses
  the command line.
- `tests/` runs the library.

What is taken on trust is marked where it stands: the SHA-256 digest of `openssl`, the table of media
types of `mime_guess`, the numbers of `candid`, and the paths of the standard library. What `store`
and `history` say of the assets that a canister holds rests on a model of the canister, the function
`applied` of `store`, which nothing here compares with a real one.
