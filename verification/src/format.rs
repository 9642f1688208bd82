//! Decimal numbers in fixed-width fields.
use vstd::prelude::*;

verus! {

/// The ASCII space.
pub const SPACE: u8 = 0x20;

/// The ASCII digit that stands for `d`, a number below ten.
pub open spec fn digit(d: nat) -> u8 {
    (0x30 + d) as u8
}

/// The decimal notation of `n` in ASCII digits, without leading zeros.
pub open spec fn decimal(n: nat) -> Seq<u8>
    decreases n,
{
    if n < 10 {
        seq![digit(n)]
    } else {
        decimal(n / 10).push(digit(n % 10))
    }
}

/// `text` moved to the right edge of a field of `width` bytes by spaces in
/// front of it. A text that is wider than the field is left as it is.
pub open spec fn right_justified(text: Seq<u8>, width: nat) -> Seq<u8> {
    if text.len() >= width {
        text
    } else {
        Seq::new((width - text.len()) as nat, |i: int| SPACE) + text
    }
}

/// The number `n` as it stands in a field of `width` bytes.
pub open spec fn field(n: nat, width: nat) -> Seq<u8> {
    right_justified(decimal(n), width)
}

/// A decimal notation consists of ASCII digits, at least one.
pub proof fn lemma_decimal_digits(n: nat)
    ensures
        decimal(n).len() >= 1,
        forall|i: int| 0 <= i < decimal(n).len() ==> 0x30 <= #[trigger] decimal(n)[i] <= 0x39,
    decreases n,
{
    if n >= 10 {
        lemma_decimal_digits(n / 10);
    }
}

/// A number in a field consists of spaces and ASCII digits, and ends with a
/// digit.
pub proof fn lemma_field_bytes(n: nat, width: nat)
    ensures
        field(n, width).len() >= 1,
        field(n, width).len() >= width,
        forall|i: int|
            0 <= i < field(n, width).len() ==> {
                let b = #[trigger] field(n, width)[i];
                b == SPACE || 0x30 <= b <= 0x39
            },
        0x30 <= field(n, width).last() <= 0x39,
{
    lemma_decimal_digits(n);
    let digits = decimal(n);
    assert(0x30 <= digits[digits.len() - 1] <= 0x39);
    if digits.len() < width {
        let pad = Seq::new((width - digits.len()) as nat, |i: int| SPACE);
        assert forall|i: int| 0 <= i < field(n, width).len() implies {
            let b = #[trigger] field(n, width)[i];
            b == SPACE || 0x30 <= b <= 0x39
        } by {
            if i >= pad.len() {
                assert(field(n, width)[i] == digits[i - pad.len()]);
            }
        }
        assert(field(n, width).last() == digits[digits.len() - 1]);
    }
}

/// The number that ASCII digits stand for.
pub open spec fn number_of(digits: Seq<u8>) -> int
    decreases digits.len(),
{
    if digits.len() == 0 {
        0
    } else {
        10 * number_of(digits.drop_last()) + (digits.last() - 0x30)
    }
}

/// The decimal notation of a number stands for that number, so that two
/// numbers with the same notation are the same.
pub proof fn lemma_decimal_number(n: nat)
    ensures
        number_of(decimal(n)) == n,
    decreases n,
{
    if n < 10 {
        assert(decimal(n).drop_last() =~= Seq::<u8>::empty());
        assert(number_of(decimal(n).drop_last()) == 0);
    } else {
        lemma_decimal_number(n / 10);
        assert(decimal(n).drop_last() =~= decimal(n / 10));
    }
}

/// Two numbers that look the same in fields of one width are the same.
pub proof fn lemma_field_injective(a: nat, b: nat, width: nat)
    requires
        field(a, width) == field(b, width),
    ensures
        a == b,
{
    let da = decimal(a);
    let db = decimal(b);
    lemma_decimal_digits(a);
    lemma_decimal_digits(b);
    lemma_decimal_number(a);
    lemma_decimal_number(b);
    let fa = field(a, width);
    let fb = field(b, width);
    let pa = fa.len() - da.len();
    let pb = fb.len() - db.len();
    if pa < pb {
        assert(fa[pa] == da[0]);
        assert(fb[pa] == SPACE);
    } else if pb < pa {
        assert(fb[pb] == db[0]);
        assert(fa[pb] == SPACE);
    } else {
        assert(da =~= fa.skip(pa));
        assert(db =~= fb.skip(pb));
    }
}

/// A text that starts with a number in a field and a space starts with no
/// other number in a field of that width and a space.
pub proof fn lemma_field_prefix(a: nat, b: nat, width: nat, x: Seq<u8>, y: Seq<u8>)
    requires
        field(a, width).push(SPACE) + x == field(b, width).push(SPACE) + y,
    ensures
        a == b,
        x == y,
{
    let fa = field(a, width);
    let fb = field(b, width);
    let whole = fa.push(SPACE) + x;
    lemma_field_bytes(a, width);
    lemma_field_bytes(b, width);
    lemma_decimal_digits(a);
    lemma_decimal_digits(b);
    if fa.len() < fb.len() {
        assert(whole[fa.len() as int] == SPACE);
        assert((fb.push(SPACE) + y)[fa.len() as int] == fb[fa.len() as int]);
        assert(fb =~= decimal(b));
        assert(false);
    } else if fb.len() < fa.len() {
        assert((fb.push(SPACE) + y)[fb.len() as int] == SPACE);
        assert(whole[fb.len() as int] == fa[fb.len() as int]);
        assert(fa =~= decimal(a));
        assert(false);
    } else {
        assert(fa =~= whole.take(fa.len() as int));
        assert(fb =~= (fb.push(SPACE) + y).take(fb.len() as int));
        lemma_field_injective(a, b, width);
        assert(x =~= whole.skip(fa.len() as int + 1));
        assert(y =~= (fb.push(SPACE) + y).skip(fb.len() as int + 1));
    }
}

/// The digits of `n`.
pub fn decimal_digits(n: usize) -> (digits: Vec<u8>)
    ensures
        digits@ == decimal(n as nat),
    decreases n,
{
    if n < 10 {
        let d: u8 = 0x30 + n as u8;
        let mut digits: Vec<u8> = Vec::new();
        digits.push(d);
        assert(digits@ =~= seq![digit(n as nat)]);
        digits
    } else {
        let mut digits = decimal_digits(n / 10);
        let d: u8 = 0x30 + (n % 10) as u8;
        digits.push(d);
        digits
    }
}

/// Appends `n` to `out`, right-justified in a field of `width` bytes.
pub fn push_field(out: &mut Vec<u8>, n: usize, width: usize)
    ensures
        final(out)@ == old(out)@ + field(n as nat, width as nat),
{
    let digits = decimal_digits(n);
    let ghost before = out@;
    let mut k: usize = digits.len();
    while k < width
        invariant
            digits.len() <= k,
            k <= width || k == digits.len(),
            out@ == before + Seq::new((k - digits.len()) as nat, |i: int| SPACE),
        decreases width - k,
    {
        out.push(SPACE);
        k += 1;
        assert(out@ =~= before + Seq::new((k - digits.len()) as nat, |i: int| SPACE));
    }
    out.extend_from_slice(digits.as_slice());
    assert(out@ =~= before + field(n as nat, width as nat));
}

} // verus!
