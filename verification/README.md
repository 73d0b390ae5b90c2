# polyfit

Rational polynomial fitting, `P(x)/Q(x)`, verified with Verus.

A fit runs the Sanathanan-Koerner iteration, refines its result with
Levenberg-Marquardt, from several starting points if asked to, and can snap the
constant term so that the quotient passes through given points. A local search then
looks for single precision coefficients, scored over every number of a domain or over
samples of it.

- `src/` is the library. It is generic over the number type (`value::Value`) and over
  the linear algebra library (`algebra::LinearAlgebra`). Contracts name every operation
  that is applied, so they hold of rounded arithmetic; `exact` and `derivatives` say
  what the formulas mean over the real numbers. The laws that span several functions are
  in `fit_laws`, `search_laws` and `report_laws`.
- `app/` supplies `f32` and `f64`, nalgebra, and the standard formatting traits.
- `tests/` runs the library on machine numbers.
