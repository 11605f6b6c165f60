# snafu_bounds

Bound inference for derived error types, verified with Verus.

Given a model of an error type (its fields, source, display format and
attributes) and of its generic parameters, the library decides which `where`
predicates each generated capability needs:

- `format`: reads display format strings into the argument/trait uses of each
  placeholder, numbering implicit positions as `format_args!` does.
- `ty`: the type model (tokens, outer shape, rendering), generic dependence
  and `Name<...>` argument lookup.
- `container`: the model of a struct error or enum variant.
- `bounds`: the bounds of exposing the source, of `ErrorCompat` and of
  constructors.
- `display`: the bounds of `Display`, collected one per predicate in the
  order of the keys rendered for them in the running process (`keyed` orders
  bounds by keys handed to it).
- `attrs`: the attributes of an opaque tuple-struct error.
- `payload`, `recursive`: small generic errors and their constructors.

`app/` converts syn syntax trees and `#[snafu(...)]` attributes into the
model and renders bounds and settings as tokens.
