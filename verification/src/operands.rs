//! Making the operands of a run: each plain value is encrypted in turn, in
//! the order in which the program will bind them.

use vstd::prelude::*;

verus! {

/// Whether `encrypt` may turn `value` into some operand.
pub open spec fn may_accept<T, E, F: Fn(u64) -> Result<T, E>>(encrypt: F, value: u64) -> bool {
    exists|operand: T| #[trigger] call_ensures(encrypt, (value,), Ok::<T, E>(operand))
}

/// Whether `operands` may be what `encrypt` makes of `values`, one by one.
pub open spec fn may_encrypt_to<T, E, F: Fn(u64) -> Result<T, E>>(
    encrypt: F,
    values: Seq<u64>,
    operands: Seq<T>,
) -> bool {
    &&& operands.len() == values.len()
    &&& forall|i: int|
        0 <= i < values.len() ==> call_ensures(
            encrypt,
            (#[trigger] values[i],),
            Ok::<T, E>(operands[i]),
        )
}

/// Whether `encrypt` may accept every value before `values[i]` and refuse
/// that one with `error`.
pub open spec fn may_fail_at<T, E, F: Fn(u64) -> Result<T, E>>(
    encrypt: F,
    values: Seq<u64>,
    i: int,
    error: E,
) -> bool {
    &&& 0 <= i < values.len()
    &&& call_ensures(encrypt, (values[i],), Err::<T, E>(error))
    &&& forall|j: int| 0 <= j < i ==> may_accept(encrypt, #[trigger] values[j])
}

/// Encrypts `values` one by one with `encrypt` and keeps their order. The
/// first value that `encrypt` refuses ends the work, and its error is
/// handed back; the values after it are not looked at.
pub fn encrypt_each<T, E, F: Fn(u64) -> Result<T, E>>(encrypt: F, values: Vec<u64>) -> (out: Result<
    Vec<T>,
    E,
>)
    requires
        forall|i: int| 0 <= i < values.len() ==> call_requires(encrypt, (#[trigger] values[i],)),
    ensures
        out is Ok ==> may_encrypt_to(encrypt, values@, out->Ok_0@),
        out is Err ==> exists|i: int| #[trigger] may_fail_at(encrypt, values@, i, out->Err_0),
{
    let mut output: Vec<T> = Vec::new();
    let mut i: usize = 0;
    while i < values.len()
        invariant
            i <= values.len(),
            forall|k: int|
                0 <= k < values.len() ==> call_requires(encrypt, (#[trigger] values[k],)),
            may_encrypt_to(encrypt, values@.take(i as int), output@),
        decreases values.len() - i,
    {
        let ghost done = output@;
        match encrypt(values[i]) {
            Ok(operand) => {
                output.push(operand);
                assert forall|k: int| 0 <= k < i + 1 implies call_ensures(
                    encrypt,
                    (#[trigger] values@.take(i + 1)[k],),
                    Ok::<T, E>(output@[k]),
                ) by {
                    if k < i {
                        assert(values@.take(i as int)[k] == values@.take(i + 1)[k]);
                        assert(output@[k] == done[k]);
                    }
                }
            },
            Err(error) => {
                assert forall|j: int| 0 <= j < i implies may_accept(
                    encrypt,
                    #[trigger] values@[j],
                ) by {
                    assert(call_ensures(
                        encrypt,
                        (values@.take(i as int)[j],),
                        Ok::<T, E>(done[j]),
                    ));
                }
                let out: Result<Vec<T>, E> = Err(error);
                assert(may_fail_at(encrypt, values@, i as int, out->Err_0));
                return out;
            },
        }
        i += 1;
    }
    assert(values@.take(i as int) =~= values@);
    Ok(output)
}

} // verus!
