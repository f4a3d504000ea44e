# factorust

A recipe book for production chains, verified with Verus.

A recipe file lists recipes, separated by blank lines:

```
# Iron Plate
@ Constructor
< 20 Iron Plate
> 30 Iron Ingot
```

`#` names the recipe, `@` the building, `<` an output and `>` an input; an
unmarked ingredient is the recipe's first output, or else an input.

## Layout

- `src/` — the verified library.
  - `text.rs`: comparing and trimming texts, finding characters.
  - `name_map.rs`: a map from names to values kept sorted by name.
  - `part.rs`, `recipe.rs`, `ingredient.rs`, `inventory.rs`, `error.rs`: the data.
  - `load.rs`: reading recipe descriptions line by line, as a state machine
    over entries.
  - `derivation.rs`: working out the parts, their states, and the scores of
    parts and recipes (the number of production steps from raw materials).
  - `manager.rs`: the recipe book itself.
  - `ranking.rs`: recipes ranked by score and name.
  - `laws.rs`: properties of the derived scores and of deriving twice.
- `tests/` — tests of the library on concrete recipe books.
- `app/` — the command-line program: file reading, printing, and the search
  for production plans, which computes with floating-point amounts.
