//! Numerals written as text: zero-padded decimals for timestamps and the letter
//! labels A, B, ..., Z, AA, AB, ... given to new nodes.

use vstd::prelude::*;

verus! {

/// The character of decimal digit `d`.
pub open spec fn digit_char(d: nat) -> char {
    (48 + d) as char
}

/// The capital letter at position `d` of the alphabet.
pub open spec fn letter(d: nat) -> char {
    (65 + d) as char
}

/// The decimal numeral of `v`, without leading zeros.
pub open spec fn decimal(v: nat) -> Seq<char>
    decreases v,
{
    if v < 10 {
        seq![digit_char(v)]
    } else {
        decimal(v / 10).push(digit_char(v % 10))
    }
}

/// The decimal numeral of `v`, with zeros in front up to `width` characters.
pub open spec fn zero_padded(v: nat, width: nat) -> Seq<char> {
    let d = decimal(v);
    if d.len() < width {
        Seq::new((width - d.len()) as nat, |i: int| '0') + d
    } else {
        d
    }
}

/// The label of the node made `n`-th: A to Z, then AA to AZ, BA and so on, as in
/// spreadsheet columns.
pub open spec fn label_of(n: nat) -> Seq<char>
    decreases n,
{
    if n < 26 {
        seq![letter(n)]
    } else {
        label_of((n / 26 - 1) as nat).push(letter(n % 26))
    }
}

/// Appends `c` with `String::push`, which adds one character at the end.
#[verifier::external_body]
fn push_char(s: &mut String, c: char)
    ensures
        final(s)@ == old(s)@.push(c),
{
    s.push(c);
}

/// Appends the decimal numeral of `v`.
pub fn push_decimal(s: &mut String, v: u64)
    ensures
        final(s)@ == old(s)@ + decimal(v as nat),
    decreases v,
{
    if v >= 10 {
        push_decimal(s, v / 10);
    }
    let d: u8 = (v % 10) as u8;
    let c = (48u8 + d) as char;
    push_char(s, c);
    assert(s@ =~= old(s)@ + decimal(v as nat));
}

/// Appends the decimal numeral of `v`, padded with zeros in front to `width`
/// characters.
pub fn push_padded(s: &mut String, v: u64, width: usize)
    ensures
        final(s)@ == old(s)@ + zero_padded(v as nat, width as nat),
{
    let mut digits = String::new();
    push_decimal(&mut digits, v);
    assert(digits@ =~= decimal(v as nat));
    let len = digits.as_str().unicode_len();
    let ghost start = s@;
    if len < width {
        let mut k: usize = 0;
        while k < width - len
            invariant
                len < width,
                k <= width - len,
                s@ == start + Seq::new(k as nat, |i: int| '0'),
            decreases width - len - k,
        {
            push_char(s, '0');
            k = k + 1;
            proof {
                assert(s@ =~= start + Seq::new(k as nat, |i: int| '0'));
            }
        }
    }
    s.append(digits.as_str());
    proof {
        assert(s@ =~= start + zero_padded(v as nat, width as nat));
    }
}

/// Appends the label of the node made `n`-th.
fn push_label(s: &mut String, n: usize)
    ensures
        final(s)@ == old(s)@ + label_of(n as nat),
    decreases n,
{
    if n >= 26 {
        push_label(s, n / 26 - 1);
    }
    let d: u8 = (n % 26) as u8;
    let c = (65u8 + d) as char;
    push_char(s, c);
    proof {
        assert(s@ =~= old(s)@ + label_of(n as nat));
    }
}

/// The label given to the node made `counter`-th: A to Z, then AA, AB, and so on.
pub fn node_label(counter: usize) -> (s: String)
    ensures
        s@ == label_of(counter as nat),
{
    let mut s = String::new();
    push_label(&mut s, counter);
    proof {
        assert(s@ =~= label_of(counter as nat));
    }
    s
}

/// Every label is a nonempty word of capital letters.
pub proof fn lemma_label_letters(n: nat)
    ensures
        label_of(n).len() >= 1,
        forall|i: int| 0 <= i < label_of(n).len() ==> 'A' <= #[trigger] label_of(n)[i] <= 'Z',
    decreases n,
{
    if n >= 26 {
        lemma_label_letters((n / 26 - 1) as nat);
    }
}

/// Distinct nodes get distinct labels: the labelling is one to one.
pub proof fn law_labels_distinct(a: nat, b: nat)
    requires
        a != b,
    ensures
        label_of(a) != label_of(b),
    decreases a + b,
{
    lemma_label_letters(a);
    lemma_label_letters(b);
    let la = label_of(a);
    let lb = label_of(b);
    if a < 26 && b < 26 {
        assert(la[0] != lb[0]);
    } else if a < 26 {
        lemma_label_letters((b / 26 - 1) as nat);
        assert(la.len() == 1);
        assert(lb.len() >= 2);
    } else if b < 26 {
        lemma_label_letters((a / 26 - 1) as nat);
        assert(la.len() >= 2);
        assert(lb.len() == 1);
    } else {
        let pa = (a / 26 - 1) as nat;
        let pb = (b / 26 - 1) as nat;
        if a % 26 != b % 26 {
            assert(la.last() != lb.last());
        } else {
            assert(pa != pb);
            law_labels_distinct(pa, pb);
            if la == lb {
                assert(la.drop_last() =~= label_of(pa));
                assert(lb.drop_last() =~= label_of(pb));
            }
        }
    }
}

} // verus!
