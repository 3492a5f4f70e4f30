# Jib

Jib packs a list of Solana instructions into transactions of the maximum size and number of
accounts, sends them to the current leader and confirms them. The library under `src/` is written in
Verus: everything that Jib decides or computes is stated in contracts and proved.

- `jib`: the entry point, with the settings, `pack`, `hoist` and `submit_packed_transactions`.
- `packing`, `packing_laws`: how instructions are grouped into transactions, and what that keeps.
- `submission`, `submission_model`, `pending`: sending and confirming, one event at a time.
- `submission_laws`: what every step of a submission keeps.
- `submission_runs`, `submission_exact`, `submission_once`, `submission_retry`: what a whole
  submission comes to. Every message gets its own result, different messages get one each, batch by
  batch, no message can be executed twice, and what has failed can be submitted again.
- `signing`, `keypair`, `keys`, `wire`, `model`: transactions, their signatures, accounts and size.
- `network`, `progress`, `outcome`, `status`, `error`, `text`: the rest.
- `sdk`: the calls into the Solana SDK and `bincode`, with the contracts that are taken on trust.

`app/` runs the library on a live network: it makes the requests that a submission asks for, hands
back what came of them, and shows the progress in a terminal.

The instructions are packed in their order, each exactly once, into as few transactions as that order
allows. An instruction that is too large for any transaction is left out.
