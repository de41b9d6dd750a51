# dynec

The core of an opinionated entity-component-system framework with statically archetyped
entities, written in Verus. The functions in `src/` carry contracts that Verus proves,
except the small wrappers marked `#[verifier::external_body]` around calls into std, rand,
itertools and bitvec, whose contracts are trusted.

## Layout

- `src/archetype.rs`: archetypes, identified by keys.
- `src/entity.rs` and `src/entity/`: entity references (`Entity`, `Weak`, `TempRef`),
  raw IDs, generations, reference tracking, permutations of entities, and the `Referrer`
  trait that visits every entity reference a value holds exactly once.
- `src/entity/ealloc/`: entity ID allocation: the recycling allocator and its shards,
  the even distribution of freed IDs over shards, snapshots of the allocated IDs and
  their division into equal shares.
- `src/comp.rs` and `src/comp/`: component traits, discriminants of isotope components,
  and the typemap of components passed when creating an entity.
- `src/global.rs`: global states.
- `tests/`: tests run against the compiled library.
- `app/`: parallel iteration over allocated IDs with rayon, built on the library.

## Not included

- The procedural macros (`#[comp]`, `#[system]`, `#[global]` and the like): they expand syntax trees
  and have no place in a library of verified functions.
- The world, scheduler, storage and system modules, which the macros and the online phase build on;
  with them the handing of allocator shards to worker threads.
- The debug-build check that counts strong references to detect dangling entities:
  the reference-count token is a plain value here.
- Archetypes and components are identified by the `KEY` constants their implementors choose,
  which must be distinct.
