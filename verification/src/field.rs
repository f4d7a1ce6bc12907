//! The scalar element types the arrays can hold: machine integers with an
//! additive identity and a decimal rendering.

use vstd::prelude::*;

verus! {

/// What an element type must offer: a zero for allocation, and decimal
/// text for rendering. Both executable operations are pinned to the spec
/// functions that the array contracts use.
pub trait Field: Sized + Copy {
    /// The additive identity, as contracts see it.
    spec fn zero_spec() -> Self;

    /// The decimal text of a value, as contracts see it.
    spec fn text_spec(&self) -> Seq<char>;

    /// The additive identity.
    fn zero_val() -> (r: Self)
        ensures
            r == Self::zero_spec(),
    ;

    /// The decimal text of the value.
    fn to_text(&self) -> (r: String)
        ensures
            r@ == self.text_spec(),
    ;
}

/// The decimal digit character for `d` in `0..10`.
pub open spec fn dec_digit(d: int) -> char {
    if d == 0 {
        '0'
    } else if d == 1 {
        '1'
    } else if d == 2 {
        '2'
    } else if d == 3 {
        '3'
    } else if d == 4 {
        '4'
    } else if d == 5 {
        '5'
    } else if d == 6 {
        '6'
    } else if d == 7 {
        '7'
    } else if d == 8 {
        '8'
    } else {
        '9'
    }
}

/// The digits of a positive integer, most significant first; empty for
/// zero and below.
pub open spec fn dec_digits(n: int) -> Seq<char>
    decreases n,
{
    if n <= 0 {
        Seq::empty()
    } else {
        dec_digits(n / 10).push(dec_digit(n % 10))
    }
}

/// The decimal text of an integer: `0` for zero, the plain digits for a
/// positive value, and a leading minus sign for a negative one.
pub open spec fn dec_of(n: int) -> Seq<char> {
    if n == 0 {
        seq!['0']
    } else if n > 0 {
        dec_digits(n)
    } else {
        seq!['-'] + dec_digits(-n)
    }
}

/// Relies on core's `Display` for `i64`: the decimal representation, with
/// a leading minus sign for negative values.
#[verifier::external_body]
fn i64_text(x: i64) -> (r: String)
    ensures
        r@ == dec_of(x as int),
{
    format!("{}", x)
}

/// Relies on core's `Display` for `u64`: the decimal representation.
#[verifier::external_body]
fn u64_text(x: u64) -> (r: String)
    ensures
        r@ == dec_of(x as int),
{
    format!("{}", x)
}

/// Relies on `num_traits::Zero` for `i64`: its zero is the integer 0.
#[verifier::external_body]
fn i64_zero() -> (r: i64)
    ensures
        r == 0i64,
{
    <i64 as num_traits::Zero>::zero()
}

/// Relies on `num_traits::Zero` for `u64`: its zero is the integer 0.
#[verifier::external_body]
fn u64_zero() -> (r: u64)
    ensures
        r == 0u64,
{
    <u64 as num_traits::Zero>::zero()
}

/// The decimal texts of the entries from `i` on, comma-separated.
pub open spec fn dims_items_text(dims: Seq<int>, i: int) -> Seq<char>
    decreases dims.len() - i,
{
    if i < 0 || i >= dims.len() {
        Seq::empty()
    } else if i == dims.len() - 1 {
        dec_of(dims[i])
    } else {
        dec_of(dims[i]) + seq![',', ' '] + dims_items_text(dims, i + 1)
    }
}

/// The bracketed decimal list of a dimension vector, `[3, 4, 5]` style.
pub open spec fn dims_text_spec(dims: Seq<int>) -> Seq<char> {
    seq!['['] + dims_items_text(dims, 0) + seq![']']
}

/// The bracketed decimal list of a dimension vector, for error messages.
pub fn dims_text(dims: &Vec<usize>) -> (r: String)
    ensures
        r@ == dims_text_spec(crate::index_tricks::to_ints(dims@)),
{
    let ghost di = crate::index_tricks::to_ints(dims@);
    let n = dims.len();
    let mut r = String::new();
    r.append("[");
    proof {
        reveal_strlit("[");
        assert("["@ =~= seq!['[']);
    }
    let mut i: usize = 0;
    while i < n
        invariant
            n == dims@.len(),
            di == crate::index_tricks::to_ints(dims@),
            i <= n,
            r@ == seq!['['] + dims_items_text(di, 0).take(
                dims_items_text(di, 0).len() - dims_items_text(di, i as int).len(),
            ),
            dims_items_text(di, 0).len() >= dims_items_text(di, i as int).len(),
            dims_items_text(di, 0).take(
                dims_items_text(di, 0).len() - dims_items_text(di, i as int).len(),
            ) + dims_items_text(di, i as int) == dims_items_text(di, 0),
        decreases n - i,
    {
        let t = u64_text(dims[i] as u64);
        r.append(t.as_str());
        if i < n - 1 {
            r.append(", ");
            proof {
                reveal_strlit(", ");
                assert(", "@ =~= seq![',', ' ']);
            }
        }
        proof {
            let full = dims_items_text(di, 0);
            let before = dims_items_text(di, i as int);
            let after = dims_items_text(di, i as int + 1);
            if i < n - 1 {
                assert(before =~= dec_of(di[i as int]) + seq![',', ' '] + after);
            } else {
                assert(before =~= dec_of(di[i as int]));
                assert(after =~= Seq::<char>::empty());
            }
            assert(full.take(full.len() - after.len()) =~= full.take(
                full.len() - before.len(),
            ) + before.take(before.len() - after.len()));
            assert(before.take(before.len() - after.len()) =~= (if i < n - 1 {
                dec_of(di[i as int]) + seq![',', ' ']
            } else {
                dec_of(di[i as int])
            }));
        }
        i = i + 1;
    }
    r.append("]");
    proof {
        reveal_strlit("]");
        assert("]"@ =~= seq![']']);
        if n == 0 {
            assert(dims_items_text(di, 0) =~= Seq::<char>::empty());
        }
        assert(dims_items_text(di, n as int) =~= Seq::<char>::empty());
        assert(dims_items_text(di, 0).take(dims_items_text(di, 0).len() as int)
            =~= dims_items_text(di, 0));
        assert(r@ =~= dims_text_spec(di));
    }
    r
}

impl Field for i64 {
    open spec fn zero_spec() -> i64 {
        0i64
    }

    open spec fn text_spec(&self) -> Seq<char> {
        dec_of(*self as int)
    }

    fn zero_val() -> (r: i64) {
        i64_zero()
    }

    fn to_text(&self) -> (r: String) {
        i64_text(*self)
    }
}

impl Field for u64 {
    open spec fn zero_spec() -> u64 {
        0u64
    }

    open spec fn text_spec(&self) -> Seq<char> {
        dec_of(*self as int)
    }

    fn zero_val() -> (r: u64) {
        u64_zero()
    }

    fn to_text(&self) -> (r: String) {
        u64_text(*self)
    }
}

} // verus!
