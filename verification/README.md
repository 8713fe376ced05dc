# limb4_arith

Verified arithmetic on 256-bit field elements held as four 64-bit limbs:
modular addition, doubling, subtraction and negation, and Montgomery
reduction, multiplication and squaring with radix `R = 2^256`.

- `src/limbs.rs` – limb radices, the value of a limb array, and the
  word primitives (add with carry, subtract with borrow, widening multiply).
- `src/modular.rs` – the mathematical model: the results of the modular
  operations, the conditions on a modulus and its Montgomery constant, and
  Montgomery reduction `redc` with its uniqueness and existence.
- `src/field_ops.rs` – `add`, `double`, `sub`, `neg`, for any modulus.
- `src/montgomery.rs` – `from_mont` and `mul_256`/`square_256` for any odd
  modulus below `2^256`; `mul`/`square`, which drop each round's top
  carries, for moduli below `2^255`.
- `src/laws.rs` – field laws and the laws of Montgomery multiplication.
- `app/lib.rs` – generators that emit the methods of a field type as calls
  to these routines.
