# phrase_compiler

Rewrites source text from one language into another, both described by JSON
grammars. The source grammar gives a regular expression for tokens and, for
each phrase type, rule sets of patterns such as `print{x:ident}`; the target
grammar gives, for the same rule names, handlebars templates such as
`puts {{x-ident}}`.

- `src/` is the verified library (Verus): reading language files
  (`read_language`), token reading, grammar preparation (`find_template`),
  phrase reading (`first_phrase`, `parse`), syntax trees, and rendering
  (`assemble`). Contracts state results through specifications of the
  reading performed. Calls into `json`, `regex` and `handlebars` stand
  behind small trusted wrappers.
- Whether handlebars compiles a template is up to handlebars. A `Renderer`
  keeps, as ghost state, the history of the templates it was asked to
  compile and their outcomes; `assemble` is specified by `assemble_spec`
  applied to the part of that history its call added, so the contract fixes
  which templates are handed over, in which order, and what follows each
  outcome (with every compile succeeding, the outcome is that of an empty
  history).
- Rendering is asked for only where the templates that a tree's phrases can
  reach cannot include themselves through handlebars partials;
  `templates_partial_free` tests a sufficient condition (no partial or
  decorator tags at all), which the program checks.
- Laws of the library stand in `src/` as proof functions (`law_...`), for
  instance that a phrase's placeholders are those of the rule it was read
  by (`phrase_pieces`), that ties go to the earliest rule set
  (`phrase_choice`), and that a pattern is written back by its pieces
  (`template`).
- `app/main.rs` reads the files, runs the library and writes the result.
- `tests/` exercises the library on concrete grammars.
