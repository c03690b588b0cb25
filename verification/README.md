# case_splitting

Splits the match arm at the cursor: an arm with a binding of an enum, or of `bool`, becomes one
arm for each of the type's values.

```
match x {                             match x {
    Ok(res) => todo!(),       ->          Ok(Some(val)) => todo!(),
    Err(err) => todo!(),                  Ok(None) => todo!(),
}                                         Err(err) => todo!(),
                                      }
```

`src/` is the library, verified with Verus:

- `tree`: the syntax tree of a file
- `semantics`: what is known of the types in it
- `text`, `pat`, `arms`: text, patterns and lists of arms as they are written
- `expand`: the patterns that take the place of a binding
- `replace`: how a binding is nested in the pattern of its arm, and what that pattern becomes
- `split`: the arm at the cursor, and the change that is offered
- `laws`: what holds of all this together
- `matching`: which values patterns match, and that a split keeps them where the binding is the
  whole pattern of the arm, or is itself a field of it: of a tuple struct pattern, or of a record
  pattern whose other fields match anything. A binding further inside replaces the pattern around
  it, and there they are not kept.
- `reaching`: which arm of the match a value reaches, and that after a split this is the same
  other arm, or one of the new arms

`app/` reads tree and types from the analysis of a file and offers the change in an editor.
