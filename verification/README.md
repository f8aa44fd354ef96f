# xelis_stats

Shows figures of the XELIS network as the names of Discord voice channels: the
network, block time, block reward, supplies, hash rate, price and market
capitalisation. The library is written in Verus and verified; it decides what is
shown and what is to be done, and performs nothing itself.

## The library, `src/`

| module | what it holds |
| --- | --- |
| `config` | the settings |
| `rounding`, `double` | double-precision arithmetic, carried out in integers |
| `decimal`, `big` | decimal texts of numbers |
| `amounts`, `price` | the texts of block times, coin amounts, prices and market capitalisation |
| `quote` | the price in the answer of the price endpoint |
| `names` | channel names, cut to the limit that Discord sets |
| `chain`, `snapshot` | the figures, and the channel name of each |
| `state` | the Discord ids that are kept from one run to the next |
| `channels`, `category` | what is to be done with one channel, and with the category |
| `updater` | the update loop, as a machine of actions and outcomes |
| `laws`, `convergence` | what holds of the library as a whole |

`quote` trusts `serde_json` to parse the endpoint's answer; `config` carries a
`std::path::PathBuf` through. Nothing else is trusted beyond `vstd`.

## The rest

`app/` performs the actions: Discord, the wallet daemon, the price endpoint, the file
of channel ids, the command line. `tests/` runs the library, and holds its
arithmetic against the machine's floating point.
