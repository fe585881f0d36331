use vstd::prelude::*;

verus! {

/// Whether `c` is one of the ten decimal digit characters.
pub open spec fn is_digit(c: char) -> bool {
    c == '0' || c == '1' || c == '2' || c == '3' || c == '4' || c == '5' || c == '6' || c == '7'
        || c == '8' || c == '9'
}

/// The digit character for a value below ten.
pub open spec fn digit_char(d: nat) -> char
    recommends
        d < 10,
{
    if d == 0 { '0' } else if d == 1 { '1' } else if d == 2 { '2' } else if d == 3 { '3' }
    else if d == 4 { '4' } else if d == 5 { '5' } else if d == 6 { '6' } else if d == 7 { '7' }
    else if d == 8 { '8' } else { '9' }
}

/// The value of a digit character.
pub open spec fn digit_val(c: char) -> nat
    recommends
        is_digit(c),
{
    if c == '0' { 0 } else if c == '1' { 1 } else if c == '2' { 2 } else if c == '3' { 3 }
    else if c == '4' { 4 } else if c == '5' { 5 } else if c == '6' { 6 } else if c == '7' { 7 }
    else if c == '8' { 8 } else { 9 }
}

/// The canonical decimal rendering of `n`: most significant digit first, no
/// leading zeros (zero itself renders as a single digit).
pub open spec fn spec_dec(n: nat) -> Seq<char>
    decreases n,
{
    if n < 10 { seq![digit_char(n)] } else { spec_dec(n / 10) + seq![digit_char(n % 10)] }
}

/// The numeric value of a digit sequence, most significant digit first.
pub open spec fn dec_value(ds: Seq<char>) -> nat
    decreases ds.len(),
{
    if ds.len() == 0 { 0 } else { 10 * dec_value(ds.drop_last()) + digit_val(ds.last()) }
}

pub proof fn lemma_digit_char_val(d: nat)
    requires
        d < 10,
    ensures
        is_digit(digit_char(d)),
        digit_val(digit_char(d)) == d,
{
}

pub proof fn lemma_digit_char_of_val(c: char)
    requires
        is_digit(c),
    ensures
        digit_char(digit_val(c)) == c,
{
}

/// Every canonical rendering is nonempty and consists of digit characters.
pub proof fn lemma_dec_digits(n: nat)
    ensures
        spec_dec(n).len() >= 1,
        forall|k: int| 0 <= k < spec_dec(n).len() ==> is_digit(#[trigger] spec_dec(n)[k]),
    decreases n,
{
    if n < 10 {
        lemma_digit_char_val(n);
    } else {
        lemma_dec_digits(n / 10);
        lemma_digit_char_val(n % 10);
        assert forall|k: int| 0 <= k < spec_dec(n).len() implies is_digit(
            #[trigger] spec_dec(n)[k],
        ) by {
            if k < spec_dec(n / 10).len() {
                assert(spec_dec(n)[k] == spec_dec(n / 10)[k]);
            } else {
                assert(spec_dec(n)[k] == digit_char(n % 10));
            }
        }
    }
}

/// A positive number never renders with a leading zero.
pub proof fn lemma_dec_first(n: nat)
    requires
        n > 0,
    ensures
        spec_dec(n).len() >= 1,
        spec_dec(n)[0] != '0',
    decreases n,
{
    if n < 10 {
    } else {
        lemma_dec_first(n / 10);
        assert(spec_dec(n)[0] == spec_dec(n / 10)[0]);
    }
}

/// Reading back the canonical rendering of `n` yields `n`.
pub proof fn lemma_dec_value_of_dec(n: nat)
    ensures
        dec_value(spec_dec(n)) == n,
    decreases n,
{
    if n < 10 {
        lemma_digit_char_val(n);
        let s = spec_dec(n);
        assert(s == seq![digit_char(n)]);
        assert(s.len() == 1);
        assert(s.last() == digit_char(n));
        assert(s.drop_last() =~= Seq::<char>::empty());
        assert(dec_value(Seq::<char>::empty()) == 0);
        assert(dec_value(s) == 10 * dec_value(s.drop_last()) + digit_val(s.last()));
    } else {
        lemma_dec_value_of_dec(n / 10);
        lemma_digit_char_val(n % 10);
        let a = spec_dec(n / 10);
        let s = spec_dec(n);
        assert(s == a + seq![digit_char(n % 10)]);
        assert(s.len() == a.len() + 1);
        assert(s.last() == digit_char(n % 10));
        assert(s.drop_last() =~= a);
        assert(dec_value(s) == 10 * dec_value(s.drop_last()) + digit_val(s.last()));
        assert(n == 10 * (n / 10) + n % 10);
    }
}

/// A nonempty digit sequence without a leading zero is the canonical
/// rendering of its own value.
pub proof fn lemma_dec_canonical(ds: Seq<char>)
    requires
        ds.len() >= 1,
        forall|k: int| 0 <= k < ds.len() ==> is_digit(#[trigger] ds[k]),
        ds[0] != '0' || ds.len() == 1,
    ensures
        spec_dec(dec_value(ds)) == ds,
    decreases ds.len(),
{
    if ds.len() == 1 {
        assert(ds.drop_last() =~= Seq::<char>::empty());
        lemma_digit_char_of_val(ds[0]);
        assert(ds.last() == ds[0]);
        assert(is_digit(ds[0]));
        assert(digit_val(ds[0]) < 10);
        assert(dec_value(Seq::<char>::empty()) == 0);
        assert(dec_value(ds) == 10 * dec_value(ds.drop_last()) + digit_val(ds.last()));
        assert(dec_value(ds) == digit_val(ds[0]));
        assert(spec_dec(dec_value(ds)) == seq![digit_char(dec_value(ds))]);
        assert(spec_dec(dec_value(ds)) =~= ds);
    } else {
        let a = ds.drop_last();
        assert(a[0] == ds[0]);
        lemma_dec_canonical(a);
        let av = dec_value(a);
        if av == 0 {
            // then spec_dec(av) is the single digit zero, so a begins with it
            assert(spec_dec(0nat) == seq![digit_char(0nat)]);
            assert(a[0] == '0');
            assert(false);
        }
        let d = digit_val(ds.last());
        let v = dec_value(ds);
        assert(v == 10 * av + d);
        assert(v >= 10);
        assert(v / 10 == av && v % 10 == d) by {
            assert(d < 10);
        }
        lemma_digit_char_of_val(ds.last());
        assert(spec_dec(v) == spec_dec(av) + seq![digit_char(d)]);
        assert(spec_dec(v) =~= ds);
    }
}

/// The first position at or after `i` that does not hold a digit.
pub open spec fn digit_run_end(s: Seq<char>, i: int) -> int
    recommends
        0 <= i <= s.len(),
    decreases s.len() - i when 0 <= i <= s.len()
{
    if i < s.len() && is_digit(s[i]) { digit_run_end(s, i + 1) } else { i }
}

pub proof fn lemma_digit_run_end(s: Seq<char>, i: int)
    requires
        0 <= i <= s.len(),
    ensures
        i <= digit_run_end(s, i) <= s.len(),
        forall|k: int| i <= k < digit_run_end(s, i) ==> is_digit(#[trigger] s[k]),
        digit_run_end(s, i) == s.len() || !is_digit(s[digit_run_end(s, i)]),
    decreases s.len() - i,
{
    if i < s.len() && is_digit(s[i]) {
        lemma_digit_run_end(s, i + 1);
    }
}

/// The run end is pinned by its characterization: if everything from `i` up
/// to `j` is a digit and `j` sits on a non-digit (or the end), the run ends
/// exactly at `j`.
pub proof fn lemma_digit_run_end_is(s: Seq<char>, i: int, j: int)
    requires
        0 <= i <= j <= s.len(),
        forall|k: int| i <= k < j ==> is_digit(#[trigger] s[k]),
        j == s.len() || !is_digit(s[j]),
    ensures
        digit_run_end(s, i) == j,
    decreases j - i,
{
    if i < j {
        lemma_digit_run_end_is(s, i + 1, j);
    }
}

/// Parse a canonical decimal number at position `i`, bounded by `max`.
/// Fails when no digit is present, on a leading zero, or when the value
/// exceeds `max`.
pub open spec fn spec_parse_num(s: Seq<char>, i: int, max: nat) -> Option<(nat, int)>
    recommends
        0 <= i <= s.len(),
{
    let j = digit_run_end(s, i);
    if j == i {
        None
    } else if s[i] == '0' && j > i + 1 {
        None
    } else if dec_value(s.subrange(i, j)) > max {
        None
    } else {
        Some((dec_value(s.subrange(i, j)), j))
    }
}

/// Extending a digit run by one character multiplies the value by ten.
proof fn lemma_dec_value_step(s: Seq<char>, i: int, j: int)
    requires
        0 <= i <= j < s.len(),
    ensures
        dec_value(s.subrange(i, j + 1)) == 10 * dec_value(s.subrange(i, j)) + digit_val(s[j]),
{
    let e = s.subrange(i, j + 1);
    assert(e.drop_last() =~= s.subrange(i, j));
    assert(e.last() == s[j]);
}

/// Completeness: where the canonical rendering of `n` stands at `i`,
/// terminated by a non-digit or the end, parsing succeeds with `n`.
pub proof fn lemma_parse_num_complete(s: Seq<char>, i: int, n: nat, max: nat)
    requires
        0 <= i,
        i + spec_dec(n).len() <= s.len(),
        s.subrange(i, i + spec_dec(n).len()) == spec_dec(n),
        n <= max,
        i + spec_dec(n).len() == s.len() || !is_digit(s[i + spec_dec(n).len()]),
    ensures
        spec_parse_num(s, i, max) == Some((n, i + spec_dec(n).len())),
{
    let l = spec_dec(n).len() as int;
    lemma_dec_digits(n);
    assert forall|k: int| i <= k < i + l implies is_digit(#[trigger] s[k]) by {
        assert(s[k] == spec_dec(n)[k - i]);
    }
    lemma_digit_run_end_is(s, i, i + l);
    lemma_dec_value_of_dec(n);
    if n == 0 {
        assert(l == 1);
    } else {
        lemma_dec_first(n);
        assert(s[i] == spec_dec(n)[0]);
    }
}

/// Soundness: a successful parse consumed exactly the canonical rendering
/// of its result.
pub proof fn lemma_parse_num_sound(s: Seq<char>, i: int, max: nat)
    requires
        0 <= i <= s.len(),
        spec_parse_num(s, i, max) is Some,
    ensures
        ({
            let (n, j) = spec_parse_num(s, i, max)->Some_0;
            &&& i < j <= s.len()
            &&& n <= max
            &&& s.subrange(i, j) == spec_dec(n)
            &&& j == s.len() || !is_digit(s[j])
        }),
{
    let j = digit_run_end(s, i);
    lemma_digit_run_end(s, i);
    let ds = s.subrange(i, j);
    assert forall|k: int| 0 <= k < ds.len() implies is_digit(#[trigger] ds[k]) by {
        assert(ds[k] == s[i + k]);
    }
    assert(ds[0] == s[i]);
    lemma_dec_canonical(ds);
}

/// The digit character for a value below ten, as executable code.
pub fn digit_to_char(d: u8) -> (c: char)
    requires
        d < 10,
    ensures
        c == digit_char(d as nat),
{
    match d {
        0 => '0',
        1 => '1',
        2 => '2',
        3 => '3',
        4 => '4',
        5 => '5',
        6 => '6',
        7 => '7',
        8 => '8',
        _ => '9',
    }
}

/// Whether `c` is a decimal digit, as executable code.
pub fn char_is_digit(c: char) -> (r: bool)
    ensures
        r == is_digit(c),
{
    match c {
        '0' | '1' | '2' | '3' | '4' | '5' | '6' | '7' | '8' | '9' => true,
        _ => false,
    }
}

/// The value of a digit character, as executable code.
pub fn char_digit_val(c: char) -> (d: u64)
    requires
        is_digit(c),
    ensures
        d == digit_val(c),
        d < 10,
{
    match c {
        '0' => 0,
        '1' => 1,
        '2' => 2,
        '3' => 3,
        '4' => 4,
        '5' => 5,
        '6' => 6,
        '7' => 7,
        '8' => 8,
        _ => 9,
    }
}

/// Append the canonical decimal rendering of `n` to `out`.
pub fn push_dec_u64(out: &mut Vec<char>, n: u64)
    ensures
        final(out)@ == old(out)@ + spec_dec(n as nat),
    decreases n,
{
    if n < 10 {
        out.push(digit_to_char(n as u8));
        assert(out@ =~= old(out)@ + spec_dec(n as nat));
    } else {
        push_dec_u64(out, n / 10);
        out.push(digit_to_char((n % 10) as u8));
        assert(out@ =~= old(out)@ + spec_dec(n as nat));
    }
}

/// Parse a canonical decimal number bounded by `max` at position `i` of `v`,
/// agreeing exactly with `spec_parse_num`.
pub fn parse_num_u64(v: &Vec<char>, i: usize, max: u64) -> (r: Option<(u64, usize)>)
    requires
        i <= v@.len(),
    ensures
        match r {
            Some((n, j)) => spec_parse_num(v@, i as int, max as nat) == Some((n as nat, j as int))
                && i < j <= v@.len() && n <= max,
            None => spec_parse_num(v@, i as int, max as nat) is None,
        },
{
    proof {
        lemma_digit_run_end(v@, i as int);
    }
    let ghost end = digit_run_end(v@, i as int);
    let mut j: usize = i;
    let mut acc: u64 = 0;
    let mut too_big: bool = false;
    while j < v.len() && char_is_digit(v[j])
        invariant
            i <= j <= v@.len(),
            j <= end <= v@.len(),
            end == digit_run_end(v@, i as int),
            forall|k: int| i <= k < end ==> is_digit(#[trigger] v@[k]),
            end == v@.len() || !is_digit(v@[end as int]),
            j < end || j == end,
            j == end || is_digit(v@[j as int]),
            (j as int) < end <==> (j < v@.len() && is_digit(v@[j as int])),
            !too_big ==> acc as nat == dec_value(v@.subrange(i as int, j as int)) && acc <= max,
            too_big ==> dec_value(v@.subrange(i as int, j as int)) > max,
        decreases v@.len() - j,
    {
        let d = char_digit_val(v[j]);
        proof {
            lemma_dec_value_step(v@, i as int, j as int);
        }
        if too_big {
            assert(dec_value(v@.subrange(i as int, j as int + 1)) > max);
        } else {
            if acc > max / 10 {
                too_big = true;
                proof {
                    let old_v = dec_value(v@.subrange(i as int, j as int));
                    assert(old_v >= max / 10 + 1);
                    assert(10 * old_v >= 10 * (max / 10 + 1));
                    assert(10 * (max / 10) + max % 10 == max);
                    assert(10 * (max / 10 + 1) > max);
                }
            } else {
                let t = acc * 10;
                assert(t <= max) by {
                    assert(10 * (acc as nat) <= 10 * ((max / 10) as nat));
                    assert(10 * ((max / 10) as nat) <= max as nat);
                }
                if max - t < d {
                    too_big = true;
                } else {
                    acc = t + d;
                }
            }
        }
        j = j + 1;
    }
    proof {
        assert(j as int == end) by {
            if (j as int) < end {
                assert(is_digit(v@[j as int]));
            }
        }
    }
    if j == i {
        return None;
    }
    if v[i] == '0' && j > i + 1 {
        return None;
    }
    if too_big {
        return None;
    }
    Some((acc, j))
}

} // verus!
