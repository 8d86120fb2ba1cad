# encrpt

Password-based file encryption: AES-256-GCM for the data, Argon2id for the key.

An encrypted file is a header of 47 bytes (magic bytes, format version, salt, nonce and the three
Argon2 costs) and a run of chunks, each with its length, its ciphertext and its tag. The empty chunk
is the last, and nothing may follow it.

- `src/` is the library, verified with Verus. It never touches a file: `encrypt_file`,
  `decrypt_file` and `shred_file` start jobs that hand out one action after the other and take the
  answers.
  - `container` says what an encrypted file means; `encrypt` and `decrypt` are held to it.
  - `disk` says what the jobs do to the files on a disk, and `tamper` what becomes of a file that was
    changed or is read with another password.
  - `header`, `cipher` and `kdf` are the parts of the format.
  - `checks` judges paths, that of the temporary file too, and passwords before anything is done.
  - `shred` overwrites and removes a file.
  - `failure` and `text` are what the user is told.
- `app/` is the command line program that performs the actions.
- `tests/` runs the library on concrete files.

What rests on other crates (AES-GCM, Argon2, the random source, the wiping of memory) stands behind
small functions marked `external_body`, each with the statement that is taken on trust.
