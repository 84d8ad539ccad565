# Verified animations

Animation state for reactive user interfaces, verified with Verus.

- `src/` is the library. Every function has a contract, and the functions named
  `law_..` state what holds of several operations together: that an animation
  only moves forward, stays in range and arrives, that a clamped spring is not
  found beyond its end, that its velocity is the derivative of where it is, that
  each frame is told once to everybody who follows, and that an animated vector
  mirrors the vector it stands for.
- `app/` connects the library to a web page: shared handles, signals, and the
  frames that the browser draws. It needs an executor, which the page sets with
  `operations::set_spawner`.
- `tests/` runs the library, and compares its numbers with native ones.

The current percentage of an animation is kept in a `Mutable` of the crate
`futures-signals`. What the library relies on there is stated in `src/cell.rs`,
and is not proved.

The exponential function, the sine and the cosine that a spring needs are asked
for by the library and taken by `app/` from the platform.
