# rust_lessons

A set of small Rust lessons — ownership, traits, collections and iterators,
error handling, modules, testing, generics and lifetimes, smart pointers,
closures, configuration files, foreign functions and performance idioms —
written as a library verified with Verus, and a program around it.

- `src/` is the verified library. Every function carries a `requires` /
  `ensures` contract that Verus proves. Values are described by views
  (`Seq`, `Map`, `Set`) and spec functions, and the laws that tie functions
  together are public proof functions named `law_*`.
- `app/` is the program: floating-point shapes and statistics (their
  integer parts come from the library), the floating-point score of CSV
  records (the library reads the lines, splits and trims the fields, parses
  the age and checks name, age and e-mail), reading and writing JSON/TOML/YAML with serde,
  calls into the C library and raw pointers, threads, async tasks, macros,
  and the demonstrations of each lesson. It uses the library for everything
  that does not need those.
- `tests/` runs the library on concrete values.

Standard-library behaviour that the library relies on without proof (Unicode
character properties and case mappings, `String::push`,
`HashMap::get_mut` and `retain`, `Rc::clone` and `Rc::strong_count`) is
reached through small `#[verifier::external_body]` functions whose doc
comments say what is assumed.
