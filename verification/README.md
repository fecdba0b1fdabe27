# vaultblob

An encrypted store for files. A vault is a directory of blobs. A blob is one file on disk: front
matter, sealed chunks, and an encrypted and authenticated index of the chunks. A file in the vault is
whatever the indexes list under its identity.

The library never touches a file. Every operation is a value that asks for one thing at a time (take
the lock, read these bytes, write those, sync) and is handed the answer, until it is done. What is
asked, what is decided on each answer and what the blob's file holds afterwards is stated in the
contracts and proved with Verus.

## Layout

- `src/`: the library.
  - `types`, `error`, `bytes`, `text`, `parse`: identities, errors, and what is read and said in words.
  - `crypto`: keys, frames, MACs and the index stream. The cryptographic crates are called here, each
    behind one function whose contract is believed and not proved.
  - `storage`: requests, replies, and what requests make of a file.
  - `index`, `blob`, `stats`: the format of a blob.
  - `create`, `open`, `read`, `commit`, `write`: the operations on a blob.
  - `vault`, `files`, `order`, `plan`: what a vault knows and where it puts a file.
  - `session`, `transfer`: the operations on a vault.
  - `directory`, `native`: the decisions of the program and of the C interface.
  - `consistency`, `appending`, `accounting`: what holds of a blob's file across transactions, with
    the proofs.
  - `contents`, `storing`, `refresh`, `history`, `keeping`, `capacity`: what holds of a whole vault
    across operations, with the proofs.
- `tests/`: the library on files in memory.
- `app/`: the command line program, the C interface and the Python module. They do what the library
  asks on real files.

## What is proved

- A write that succeeds appends to the index that was in force, and what it reports is the index that
  is read back, also from a blob that is opened afresh. A blob whose file is consistent is consistent
  afterwards. Committed chunks and the keys of the blob are never written over.
- The layout of a blob that was created and written to accounts for every byte of its file.
- A transaction that is interrupted, or whose writes are torn, leaves every committed chunk readable;
  where its frames fit in front of the index or the index is empty, the file lists either what it
  listed or all of the new entries too.
- A file that was stored reads back as it was, from any offset, whatever other files are stored, by
  this vault or by others, and whatever blobs without a part of it are attached meanwhile, even
  where the vault is behind on other files. Adjacent ranges join. A file that was stored in part is
  refused.
- What a vault learns from its blobs is what their files hold, in whatever order chunks are listed.
- No file is put where the estimated size of a blob's data and index would exceed the limit for a
  blob. The gaps in a blob's file are not part of that estimate.

What a cipher hides and what a MAC keeps from being forged is not stated: the ciphers are functions
without a definition here, of which little more is known than that what was sealed opens again.
