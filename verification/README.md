# bip110_packer

Carries arbitrary bytes in Bitcoin transactions that keep the limits of BIP-110
(reduced data), and checks any transaction against these limits. The library is
written in Verus: what each function returns is stated in its contract and
proved.

## Modules

| Module | What it holds |
|---|---|
| `bytes`, `text`, `hextext` | byte strings, numbers as text, hexadecimal |
| `scripts` | script instructions, their encoding, their reader |
| `tx` | transactions as plain values, size, weight, encoding |
| `taproot`, `addresses` | curve keys, tagged hashes, addresses |
| `tapscript` | leaves that carry data, and how to read them |
| `stack` | what these leaves do to the stack |
| `taproot_spend` | outputs with such a leaf, and their spends |
| `bip110` | the independent rule check |
| `compliance` | that built transactions keep the rules, and which rule each deliberate violation breaks |
| `packer` | filling a block |
| `framing` | the one-byte header and compression |
| `channels` | seven ways to carry a framed payload |
| `commands` | what the program computes for each of its commands |

`app/` is the command line around the library.

## What is proved

* Reading what was built gives back what was put in, on every channel. Two things
  are left out: an empty payload in a tapleaf (a framed payload is never empty),
  and change to an `OP_RETURN` script on the `OP_RETURN` channel, which is read as
  data.
* Built transactions pass the rule check, which finds nothing exactly where a
  transaction keeps the rules, given a destination within the output cap. On the
  witness script channel this holds for scripts of up to 256 bytes.
* A commit address pays to what the reveal for the same data spends.
* Outputs and fee add up to what is spent.
* A block takes 3,958,620 bytes, in one transaction.
* Every deliberate violation is found, under the rule it was made to break.

## What is trusted

Calls into `bitcoin`, `hex` and `miniz_oxide` stand behind small functions whose
contracts are not proved. Each says in its comment what it calls and what it
claims. Results that take pages to state (hashes, keys, signatures, addresses,
compressed bytes) have a name, and the contracts above them speak of that name.
