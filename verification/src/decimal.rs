//! Decimal numbers in marking text: reading a run of digits and writing a
//! number back.
use vstd::prelude::*;
use vstd::string::*;

verus! {

/// The value of a decimal digit character.
pub open spec fn digit_of(c: char) -> Option<nat> {
    match c {
        '0' => Some(0nat),
        '1' => Some(1nat),
        '2' => Some(2nat),
        '3' => Some(3nat),
        '4' => Some(4nat),
        '5' => Some(5nat),
        '6' => Some(6nat),
        '7' => Some(7nat),
        '8' => Some(8nat),
        '9' => Some(9nat),
        _ => None,
    }
}

/// The character of a decimal digit.
pub open spec fn digit_char(d: nat) -> char {
    if d == 0 {
        '0'
    } else if d == 1 {
        '1'
    } else if d == 2 {
        '2'
    } else if d == 3 {
        '3'
    } else if d == 4 {
        '4'
    } else if d == 5 {
        '5'
    } else if d == 6 {
        '6'
    } else if d == 7 {
        '7'
    } else if d == 8 {
        '8'
    } else {
        '9'
    }
}

/// Decimal text of `n`, without leading zeros.
pub open spec fn nat_text(n: nat) -> Seq<char>
    decreases n,
{
    if n < 10 {
        seq![digit_char(n)]
    } else {
        nat_text(n / 10).push(digit_char(n % 10))
    }
}

/// Length of the run of digits starting at index `i`.
pub open spec fn digit_run(s: Seq<char>, i: int) -> nat
    decreases s.len() - i,
{
    if 0 <= i < s.len() && digit_of(s[i]) is Some {
        1 + digit_run(s, i + 1)
    } else {
        0
    }
}

/// Value of the digits `s[i..j]`, read in base ten.
pub open spec fn digits_val(s: Seq<char>, i: int, j: int) -> nat
    decreases j - i,
{
    if j <= i {
        0
    } else {
        digits_val(s, i, j - 1) * 10 + digit_of(s[j - 1])->0
    }
}

/// All of `s[i..j]` are digits.
pub open spec fn all_digits(s: Seq<char>, i: int, j: int) -> bool {
    forall|t: int| i <= t < j ==> #[trigger] digit_of(s[t]) is Some
}

pub proof fn lemma_digit_char(d: nat)
    requires
        d < 10,
    ensures
        digit_of(digit_char(d)) == Some(d),
{
}

/// The value of digits depends only on the digits themselves.
pub proof fn lemma_digits_val_same(s1: Seq<char>, i1: int, s2: Seq<char>, i2: int, k: int)
    requires
        k >= 0,
        0 <= i1,
        i1 + k <= s1.len(),
        0 <= i2,
        i2 + k <= s2.len(),
        s1.subrange(i1, i1 + k) == s2.subrange(i2, i2 + k),
    ensures
        digits_val(s1, i1, i1 + k) == digits_val(s2, i2, i2 + k),
    decreases k,
{
    if k > 0 {
        assert(s1.subrange(i1, i1 + k - 1) =~= s1.subrange(i1, i1 + k).subrange(0, k - 1));
        assert(s2.subrange(i2, i2 + k - 1) =~= s2.subrange(i2, i2 + k).subrange(0, k - 1));
        lemma_digits_val_same(s1, i1, s2, i2, k - 1);
        assert(s1[i1 + k - 1] == s1.subrange(i1, i1 + k)[k - 1]);
        assert(s2[i2 + k - 1] == s2.subrange(i2, i2 + k)[k - 1]);
    }
}

/// A run of exactly `k` digits starting at `i`.
pub proof fn lemma_digit_run_exact(s: Seq<char>, i: int, k: int)
    requires
        0 <= i,
        k >= 0,
        i + k <= s.len(),
        all_digits(s, i, i + k),
        i + k == s.len() || digit_of(s[i + k]) is None,
    ensures
        digit_run(s, i) == k,
    decreases k,
{
    if k > 0 {
        assert(digit_of(s[i]) is Some);
        lemma_digit_run_exact(s, i + 1, k - 1);
    }
}

/// A digit run starting at `i` covers `k` known digits and continues after them.
pub proof fn lemma_digit_run_split(s: Seq<char>, i: int, k: int)
    requires
        0 <= i,
        k >= 0,
        i + k <= s.len(),
        all_digits(s, i, i + k),
    ensures
        digit_run(s, i) == k + digit_run(s, i + k),
    decreases k,
{
    if k > 0 {
        assert(digit_of(s[i]) is Some);
        lemma_digit_run_split(s, i + 1, k - 1);
    }
}

/// The run of digits at `i` lies inside `s` and holds only digits.
pub proof fn lemma_digit_run_bounds(s: Seq<char>, i: int)
    requires
        0 <= i <= s.len(),
    ensures
        i + digit_run(s, i) <= s.len(),
        all_digits(s, i, i + digit_run(s, i)),
        i + digit_run(s, i) == s.len() || digit_of(s[i + digit_run(s, i)]) is None,
    decreases s.len() - i,
{
    if i < s.len() && digit_of(s[i]) is Some {
        lemma_digit_run_bounds(s, i + 1);
    }
}

/// Reading more digits never lowers the value.
pub proof fn lemma_digits_val_mono(s: Seq<char>, i: int, j: int, k: int)
    requires
        i <= j <= k,
    ensures
        digits_val(s, i, j) <= digits_val(s, i, k),
    decreases k - j,
{
    if j < k {
        lemma_digits_val_mono(s, i, j, k - 1);
    }
}

/// The text of a number is a nonempty run of digits that reads back as the number.
pub proof fn lemma_nat_text(n: nat)
    ensures
        nat_text(n).len() >= 1,
        all_digits(nat_text(n), 0, nat_text(n).len() as int),
        digits_val(nat_text(n), 0, nat_text(n).len() as int) == n,
    decreases n,
{
    if n < 10 {
        lemma_digit_char(n);
        assert(digits_val(nat_text(n), 0, 0) == 0);
    } else {
        lemma_nat_text(n / 10);
        let p = nat_text(n / 10);
        let t = nat_text(n);
        lemma_digit_char(n % 10);
        assert(t == p.push(digit_char(n % 10)));
        assert(t.subrange(0, p.len() as int) =~= p.subrange(0, p.len() as int));
        lemma_digits_val_same(t, 0, p, 0, p.len() as int);
        assert(digits_val(t, 0, t.len() as int) == digits_val(t, 0, p.len() as int) * 10 + digit_of(
            t[p.len() as int],
        )->0);
        assert(t[p.len() as int] == digit_char(n % 10));
        assert(n == (n / 10) * 10 + n % 10);
        assert forall|k: int| 0 <= k < t.len() implies #[trigger] digit_of(t[k]) is Some by {
            if k < p.len() {
                assert(t[k] == p[k]);
            }
        }
    }
}

/// Append the character of a digit.
pub fn push_digit(s: &mut String, d: u32)
    requires
        d < 10,
    ensures
        final(s)@ == old(s)@.push(digit_char(d as nat)),
{
    if d == 0 {
        proof { reveal_strlit("0"); }
        s.append("0");
    } else if d == 1 {
        proof { reveal_strlit("1"); }
        s.append("1");
    } else if d == 2 {
        proof { reveal_strlit("2"); }
        s.append("2");
    } else if d == 3 {
        proof { reveal_strlit("3"); }
        s.append("3");
    } else if d == 4 {
        proof { reveal_strlit("4"); }
        s.append("4");
    } else if d == 5 {
        proof { reveal_strlit("5"); }
        s.append("5");
    } else if d == 6 {
        proof { reveal_strlit("6"); }
        s.append("6");
    } else if d == 7 {
        proof { reveal_strlit("7"); }
        s.append("7");
    } else if d == 8 {
        proof { reveal_strlit("8"); }
        s.append("8");
    } else {
        proof { reveal_strlit("9"); }
        s.append("9");
    }
}

/// Append the decimal text of `n`.
pub fn push_nat(s: &mut String, n: u32)
    ensures
        final(s)@ == old(s)@ + nat_text(n as nat),
    decreases n,
{
    if n < 10 {
        push_digit(s, n);
    } else {
        push_nat(s, n / 10);
        push_digit(s, n % 10);
        assert(nat_text(n as nat) == nat_text((n / 10) as nat).push(digit_char((n % 10) as nat)));
    }
}

/// The digit value of a character, if it is a digit.
pub fn digit_value(c: char) -> (r: Option<u32>)
    ensures
        r matches Some(d) ==> digit_of(c) == Some(d as nat) && d < 10,
        r is None ==> digit_of(c) is None,
{
    match c {
        '0' => Some(0),
        '1' => Some(1),
        '2' => Some(2),
        '3' => Some(3),
        '4' => Some(4),
        '5' => Some(5),
        '6' => Some(6),
        '7' => Some(7),
        '8' => Some(8),
        '9' => Some(9),
        _ => None,
    }
}

/// The characters of a string, one per element.
pub fn chars_of(s: &str) -> (v: Vec<char>)
    ensures
        v@ == s@,
{
    let n = s.unicode_len();
    let mut v: Vec<char> = Vec::new();
    let mut i: usize = 0;
    while i < n
        invariant
            n == s@.len(),
            i <= n,
            v@ == s@.take(i as int),
        decreases n - i,
    {
        let c = s.get_char(i);
        v.push(c);
        i = i + 1;
        assert(v@ =~= s@.take(i as int));
    }
    assert(v@ =~= s@);
    v
}

/// Read the run of digits that starts at `i`.  Gives its end and value, or
/// `None` when the value does not fit 32 bits.
pub fn read_number(v: &Vec<char>, i: usize) -> (r: Option<(usize, u32)>)
    requires
        i <= v@.len(),
    ensures
        r matches Some((e, val)) ==> e == i + digit_run(v@, i as int) && val == digits_val(
            v@,
            i as int,
            e as int,
        ),
        r is None ==> digits_val(v@, i as int, i + digit_run(v@, i as int)) > u32::MAX,
{
    let n = v.len();
    let mut j: usize = i;
    let mut acc: u64 = 0;
    proof {
        lemma_digit_run_bounds(v@, i as int);
    }
    while j < n
        invariant
            n == v@.len(),
            i <= j <= n,
            all_digits(v@, i as int, j as int),
            acc == digits_val(v@, i as int, j as int),
            acc <= u32::MAX,
        ensures
            i <= j <= n,
            all_digits(v@, i as int, j as int),
            acc == digits_val(v@, i as int, j as int),
            acc <= u32::MAX,
            j == n || digit_of(v@[j as int]) is None,
        decreases n - j,
    {
        match digit_value(v[j]) {
            Some(d) => {
                let next = acc * 10 + d as u64;
                if next > 0xffff_ffffu64 {
                    proof {
                        assert(all_digits(v@, i as int, j + 1));
                        lemma_digit_run_split(v@, i as int, j + 1 - i);
                        lemma_digits_val_mono(
                            v@,
                            i as int,
                            j + 1,
                            i + digit_run(v@, i as int),
                        );
                    }
                    return None;
                }
                acc = next;
                j = j + 1;
            },
            None => {
                break;
            },
        }
    }
    proof {
        lemma_digit_run_exact(v@, i as int, j - i);
    }
    Some((j, acc as u32))
}

} // verus!
