# keylayout

Tools for designing keyboards with fewer keys than letters, where several
letters share a key (as on a phone keypad) and a word is typed by pressing the
key of each of its letters. The aim is to find layouts on which few common
words share a key sequence.

The library in `src/` is written in Verus and verified:

- `letter`, `key`, `set32`, `bits`, `u5`, `u6`: letters of the 27-letter
  alphabet (`a`-`z` and the apostrophe) and bit sets of them.
- `keyboard`: keys with no letter on two keys; layouts, spelling words as key
  sequences, letter trades between keys, random keyboards.
- `partitions`, `key_sizes_tree`, `tally`, `arrange`: the collections and
  orders of key sizes, and counts of the keyboards they allow.
- `search`, `distribute`: exhaustive enumeration of keyboards, each once.
- `key_set`, `letter_pair`, `letter_pair_set`, `spelling`, `prohibited`:
  groups of letters that must or must not share a key; `text_order` orders
  keys by their letters.
- `word_overlap`: for each set of letter pairs, the words of a list that
  would be typed alike once those pairs share keys.
- `trie`, `tally2`, `letter_map`, `item_count`, `partitionable`, `utility`,
  `fill_in`: counting and ordering helpers.
- `collections`, `random`: the hash tables and random numbers of the outside
  crates, behind contracts.

The program in `app/` scores keyboards against a word list (`./words.json`)
with floating-point penalties, runs the genetic and exhaustive searches on
several threads, and writes statistics to CSV files and SQLite.
