# trie_minify

Merges equivalent rules in a CSS rule list, with proofs in Verus.

A list of rules is inserted into a tree whose nodes stand for at-rules and
selectors, and the tree is printed as a list again. Rules that stand next to each
other under the same key share a node. Declarations are held in an arena; a later
declaration takes the place of an earlier one of the same property where nothing
in between can interfere. Before the tree is printed, a run of declarations joins
an earlier one of its node where nothing that lies between has to do with it, and
nodes with the same key that this brings together become one.

| module | content |
| --- | --- |
| `values`, `declaration`, `rules` | the data, with mathematical views |
| `names` | which properties may have to do with each other |
| `context` | targets, custom media, normalized media queries |
| `mergeable` | whether a list holds neighbours that can be merged |
| `model` | what merging means, over trees |
| `arena` | which nodes and declarations are held at which index |
| `declaration_set`, `trie` | the arenas that carry it out |
| `merge` | `merge_rule_list` |
| `cascade` | what a rule list says to the cascade |
| `laws`, `run_laws` | what holds of merging as a whole, and of runs of declarations |
| `settled`, `soundness` | lists that merging leaves alone, and the shape of the arenas |
| `reduction`, `preservation` | lemmas for the laws |

`merge_rule_list` returns what `merge::merged` says for every list and context.
The chief law is that the outcome of the cascade stays the same
(`laws::law_winners_are_kept`). It holds as far as the library knows which
properties a declaration sets: the property itself, the longhands that it lists,
and everything for `all`. Of logical and physical properties, of prefixes and of
older names the library knows nothing but that declarations which may have to do
with each other (`names::related`) are never moved across each other.

The positions of properties in a run of declarations are kept in maps of the
`indexmap` crate. What `new`, `get` and `insert` do is stated in
`declaration_set` and taken on trust.
