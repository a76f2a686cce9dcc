use vstd::prelude::*;

verus! {

/// The character of decimal digit `d`.
pub open spec fn digit(d: nat) -> char
    recommends
        d < 10,
{
    (d + 48) as char
}

/// The decimal representation of `n`, without leading zeros.
pub open spec fn decimal(n: nat) -> Seq<char>
    decreases n,
{
    if n < 10 {
        seq![digit(n)]
    } else {
        decimal(n / 10).push(digit(n % 10))
    }
}

/// The number that a string of decimal digits writes.
pub open spec fn digits_value(s: Seq<char>) -> int
    decreases s.len(),
{
    if s.len() == 0 {
        0
    } else {
        digits_value(s.drop_last()) * 10 + (s.last() as int - 48)
    }
}

/// A decimal representation holds digits only, and writes its number.
pub proof fn lemma_decimal(n: nat)
    ensures
        digits_value(decimal(n)) == n,
        decimal(n).len() > 0,
        forall|k: int| 0 <= k < decimal(n).len() ==> 48 <= #[trigger] decimal(n)[k] as int <= 57,
    decreases n,
{
    if n >= 10 {
        lemma_decimal(n / 10);
        let d = decimal(n);
        assert(d.drop_last() =~= decimal(n / 10));
        assert(d.last() == digit(n % 10));
        assert(digit(n % 10) as int == n % 10 + 48);
        assert(n == (n / 10) * 10 + n % 10);
        assert(forall|k: int| 0 <= k < d.len() - 1 ==> d[k] == decimal(n / 10)[k]);
    } else {
        assert(digit(n) as int == n + 48);
        assert(decimal(n).drop_last() =~= Seq::<char>::empty());
        assert(digits_value(Seq::<char>::empty()) == 0);
    }
}

/// Appends `c` to `s` (`String::push`).
#[verifier::external_body]
pub(crate) fn push_char(s: &mut String, c: char)
    ensures
        final(s)@ == old(s)@.push(c),
{
    s.push(c);
}

/// Appends the decimal representation of `n` to `s`.
pub fn push_decimal(s: &mut String, n: u64)
    ensures
        final(s)@ == old(s)@ + decimal(n as nat),
    decreases n,
{
    if n >= 10 {
        push_decimal(s, n / 10);
    }
    let d = (n % 10) as u8;
    let c = (48u8 + d) as char;
    proof {
        assert(c == digit((n % 10) as nat));
    }
    push_char(s, c);
    proof {
        if n >= 10 {
            assert(s@ == old(s)@ + decimal((n / 10) as nat) + seq![c]);
            assert(decimal(n as nat) == decimal((n / 10) as nat).push(c));
        } else {
            assert(decimal(n as nat) == seq![c]);
        }
        assert(s@ =~= old(s)@ + decimal(n as nat));
    }
}

/// The decimal representation of `v`, with a minus sign when negative.
pub open spec fn signed_decimal(v: int) -> Seq<char> {
    if v < 0 {
        seq!['-'] + decimal((-v) as nat)
    } else {
        decimal(v as nat)
    }
}

/// Appends the decimal representation of `v` to `s`.
pub fn push_signed(s: &mut String, v: i64)
    ensures
        final(s)@ == old(s)@ + signed_decimal(v as int),
{
    if v < 0 {
        push_char(s, '-');
        let m = (0i128 - v as i128) as u64;
        push_decimal(s, m);
        proof {
            assert(s@ =~= old(s)@ + signed_decimal(v as int));
        }
    } else {
        push_decimal(s, v as u64);
    }
}

/// The items of `s` in decimal, separated by `", "`.
pub open spec fn list_body(s: Seq<usize>) -> Seq<char>
    decreases s.len(),
{
    if s.len() == 0 {
        Seq::empty()
    } else if s.len() == 1 {
        decimal(s[0] as nat)
    } else {
        list_body(s.drop_last()) + ", "@ + decimal(s.last() as nat)
    }
}

/// `s` written as a list: `[1, 2, 3]`.
pub open spec fn list_text(s: Seq<usize>) -> Seq<char> {
    "["@ + list_body(s) + "]"@
}

/// Appends `items` written as a list to `s`.
pub fn push_list(s: &mut String, items: &Vec<usize>)
    ensures
        final(s)@ == old(s)@ + list_text(items@),
{
    s.append("[");
    let n = items.len();
    let mut i: usize = 0;
    while i < n
        invariant
            0 <= i <= n == items@.len(),
            s@ == old(s)@ + "["@ + list_body(items@.take(i as int)),
        decreases n - i,
    {
        if i > 0 {
            s.append(", ");
        }
        push_decimal(s, items[i] as u64);
        proof {
            let t = items@.take(i + 1);
            if i == 0 {
                assert(t.len() == 1);
                assert(t[0] == items@[0]);
                assert(list_body(t) == decimal(items@[0] as nat));
                assert(list_body(items@.take(0)) =~= Seq::<char>::empty());
            } else {
                assert(t.drop_last() =~= items@.take(i as int));
                assert(t.last() == items@[i as int]);
            }
            assert(s@ =~= old(s)@ + "["@ + list_body(t));
        }
        i += 1;
    }
    s.append("]");
    proof {
        assert(items@.take(n as int) =~= items@);
        assert(s@ =~= old(s)@ + list_text(items@));
    }
}

} // verus!
