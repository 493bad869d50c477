//! The random choices and the numbered names that generation is made of: the choices each a call
//! into `rand`, with what every outcome of it satisfies, and the names written digit by digit.
use vstd::prelude::*;
use rand::rngs::StdRng;
use rand::RngExt;
use rand::seq::IndexedRandom;
use vstd::string::StringExecFns;

verus! {

/// The seeded generator of `rand` that generation draws from.
#[verifier::external_type_specification]
#[verifier::external_body]
pub struct ExStdRng(StdRng);

/// The decimal digits of `n`, as `Display` writes an unsigned integer.
pub open spec fn decimal(n: nat) -> Seq<char>
    decreases n,
{
    if n < 10 {
        seq![digit(n)]
    } else {
        decimal(n / 10).push(digit(n % 10))
    }
}

/// The character of a decimal digit.
pub open spec fn digit(d: nat) -> char {
    if d == 0 {
        '0'
    } else if d == 1 {
        '1'
    } else if d == 2 {
        '2'
    } else if d == 3 {
        '3'
    } else if d == 4 {
        '4'
    } else if d == 5 {
        '5'
    } else if d == 6 {
        '6'
    } else if d == 7 {
        '7'
    } else if d == 8 {
        '8'
    } else {
        '9'
    }
}

/// The name `prefix` followed by the decimal digits of `n`.
pub open spec fn numbered_name(prefix: Seq<char>, n: nat) -> Seq<char> {
    prefix + decimal(n)
}

/// The decimal digit `d` as a one-character string.
fn digit_text(d: usize) -> (r: &'static str)
    requires
        d < 10,
    ensures
        r@ == seq![digit(d as nat)],
{
    proof {
        reveal_strlit("0");
        reveal_strlit("1");
        reveal_strlit("2");
        reveal_strlit("3");
        reveal_strlit("4");
        reveal_strlit("5");
        reveal_strlit("6");
        reveal_strlit("7");
        reveal_strlit("8");
        reveal_strlit("9");
    }
    let r = if d == 0 {
        "0"
    } else if d == 1 {
        "1"
    } else if d == 2 {
        "2"
    } else if d == 3 {
        "3"
    } else if d == 4 {
        "4"
    } else if d == 5 {
        "5"
    } else if d == 6 {
        "6"
    } else if d == 7 {
        "7"
    } else if d == 8 {
        "8"
    } else {
        "9"
    };
    proof {
        assert(r@ =~= seq![digit(d as nat)]);
    }
    r
}

/// Appends the decimal digits of `n` to `text`.
fn append_decimal(text: &mut String, n: usize)
    ensures
        final(text)@ == old(text)@ + decimal(n as nat),
    decreases n,
{
    if n >= 10 {
        append_decimal(text, n / 10);
    }
    text.append(digit_text(n % 10));
    proof {
        if n >= 10 {
            assert(old(text)@ + decimal((n / 10) as nat) + seq![digit((n % 10) as nat)] =~= old(text)@ + decimal(
                n as nat,
            ));
        } else {
            assert(old(text)@ + seq![digit((n % 10) as nat)] =~= old(text)@ + decimal(n as nat));
        }
    }
}

/// The name `prefix` followed by the decimal digits of `n`, as `format!` writes them.
pub(crate) fn numbered(prefix: &str, n: usize) -> (r: String)
    ensures
        r@ == numbered_name(prefix@, n as nat),
{
    let mut text = prefix.to_owned();
    append_decimal(&mut text, n);
    text
}

/// `first` followed by `second`.
pub(crate) fn concatenated(first: &str, second: &str) -> (r: String)
    ensures
        r@ == first@ + second@,
{
    let mut text = first.to_owned();
    text.append(second);
    text
}

/// Calls `RngExt::random_ratio`, which is true with probability `numerator / denominator`:
/// always true when the two are equal, never when `numerator` is zero.
#[verifier::external_body]
pub(crate) fn random_ratio(rng: &mut StdRng, numerator: u32, denominator: u32) -> (r: bool)
    requires
        0 < denominator,
        numerator <= denominator,
    ensures
        numerator == 0 ==> !r,
        numerator == denominator ==> r,
{
    rng.random_ratio(numerator, denominator)
}

/// Calls `RngExt::random_range` on the inclusive range from `low` to `high`.
#[verifier::external_body]
pub(crate) fn random_inclusive(rng: &mut StdRng, low: usize, high: usize) -> (r: usize)
    requires
        low <= high,
    ensures
        low <= r <= high,
{
    rng.random_range(low..=high)
}

/// Calls `IndexedRandom::choose`, which picks one of `items`, or none if there are none.
#[verifier::external_body]
pub(crate) fn choose_one<'a, T>(rng: &mut StdRng, items: &'a [T]) -> (r: Option<&'a T>)
    ensures
        r is None <==> items@.len() == 0,
        r matches Some(item) ==> items@.contains(*item),
{
    items.choose(rng)
}

/// Takes items out of `pool` one at a time, each from a position drawn at random, until `count`
/// are taken or none is left, and returns them in the order taken.
pub(crate) fn take_random<T>(rng: &mut StdRng, pool: &mut Vec<T>, count: usize) -> (taken: Vec<T>)
    requires
        old(pool)@.no_duplicates(),
    ensures
        taken@.len() == if count <= old(pool)@.len() {
            count as int
        } else {
            old(pool)@.len() as int
        },
        taken@.no_duplicates(),
        forall|k: int| 0 <= k < taken@.len() ==> old(pool)@.contains(#[trigger] taken@[k]),
{
    let ghost start = pool@;
    let mut taken: Vec<T> = Vec::new();
    while taken.len() < count && pool.len() > 0
        invariant
            pool@.no_duplicates(),
            taken@.no_duplicates(),
            taken@.len() + pool@.len() == start.len(),
            taken@.len() <= count,
            forall|x: T| #[trigger] pool@.contains(x) ==> start.contains(x),
            forall|k: int|
                0 <= k < taken@.len() ==> start.contains(#[trigger] taken@[k]) && !pool@.contains(
                    taken@[k],
                ),
        decreases pool@.len(),
    {
        let ghost before = pool@;
        let index = random_inclusive(rng, 0, pool.len() - 1);
        let item = pool.remove(index);
        proof {
            assert(item == before[index as int]);
            assert forall|a: int, b: int|
                0 <= a < pool@.len() && 0 <= b < pool@.len() && a != b implies pool@[a] != pool@[b] by {
                let a0 = if a < index { a } else { a + 1 };
                let b0 = if b < index { b } else { b + 1 };
                assert(pool@[a] == before[a0]);
                assert(pool@[b] == before[b0]);
            }
            assert forall|x: T| #[trigger] pool@.contains(x) implies before.contains(x) && x != item by {
                let a = choose|a: int| 0 <= a < pool@.len() && pool@[a] == x;
                let a0 = if a < index { a } else { a + 1 };
                assert(pool@[a] == before[a0]);
            }
            assert(before.contains(item));
        }
        taken.push(item);
    }
    taken
}

} // verus!
